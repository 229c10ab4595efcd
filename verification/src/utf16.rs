//! UTF-16 as the registry stores text: little-endian code units, ended by a NUL.

use vstd::prelude::*;

verus! {

/// The UTF-16 code units of one character.
pub open spec fn char_units(c: char) -> Seq<u16> {
    let u = c as u32;
    if u < 0x10000 {
        seq![u as u16]
    } else {
        let v = u - 0x10000;
        seq![(0xD800 + v / 0x400) as u16, (0xDC00 + v % 0x400) as u16]
    }
}

/// What `str::encode_utf16` yields for `s`.
pub open spec fn utf16_units(s: Seq<char>) -> Seq<u16>
    decreases s.len(),
{
    if s.len() == 0 {
        Seq::empty()
    } else {
        utf16_units(s.drop_last()) + char_units(s.last())
    }
}

/// Each unit as two bytes, low byte first.
pub open spec fn le_bytes(units: Seq<u16>) -> Seq<u8>
    decreases units.len(),
{
    if units.len() == 0 {
        Seq::empty()
    } else {
        le_bytes(units.drop_last()) + seq![
            (units.last() % 256) as u8,
            (units.last() / 256) as u8,
        ]
    }
}

/// The bytes a `REG_SZ` holding `s` is written as: its units and a NUL.
pub open spec fn encoded(s: Seq<char>) -> Seq<u8> {
    le_bytes(utf16_units(s).push(0))
}

/// The units of `bytes`, two bytes each, a trailing odd byte left out.
pub open spec fn units_of(bytes: Seq<u8>) -> Seq<u16> {
    Seq::new(bytes.len() / 2, |i: int| (bytes[2 * i] + bytes[2 * i + 1] * 256) as u16)
}

/// Where the first NUL unit is, or the length when there is none.
pub open spec fn nul_at(units: Seq<u16>) -> int
    decreases units.len(),
{
    if units.len() == 0 {
        0
    } else if units[0] == 0 {
        0
    } else {
        1 + nul_at(units.drop_first())
    }
}

pub open spec fn is_high(u: u16) -> bool {
    0xD800 <= u < 0xDC00
}

pub open spec fn is_low(u: u16) -> bool {
    0xDC00 <= u < 0xE000
}

/// What `String::from_utf16_lossy` makes of `units`: a surrogate without its
/// partner becomes U+FFFD.
pub open spec fn decode_lossy(units: Seq<u16>) -> Seq<char>
    decreases units.len(),
{
    if units.len() == 0 {
        Seq::empty()
    } else {
        let u = units[0];
        if !is_high(u) && !is_low(u) {
            seq![u as char] + decode_lossy(units.drop_first())
        } else if is_high(u) && units.len() >= 2 && is_low(units[1]) {
            seq![
                (0x10000 + (u - 0xD800) * 0x400 + (units[1] - 0xDC00)) as char,
            ] + decode_lossy(units.skip(2))
        } else {
            seq!['\u{FFFD}'] + decode_lossy(units.drop_first())
        }
    }
}

/// The text a `REG_SZ` holds: its units up to the first NUL.
pub open spec fn decoded(bytes: Seq<u8>) -> Seq<char> {
    let units = units_of(bytes);
    decode_lossy(units.take(nul_at(units)))
}

/// What every character is: a Unicode scalar value.
proof fn lemma_char_range(c: char)
    ensures
        0 <= (c as int) <= 0x10FFFF,
        !(0xD800 <= (c as int) < 0xE000),
        (c as u32) as int == c as int,
{
}

proof fn lemma_le_bytes_len(us: Seq<u16>)
    ensures
        le_bytes(us).len() == 2 * us.len(),
    decreases us.len(),
{
    if us.len() > 0 {
        lemma_le_bytes_len(us.drop_last());
    }
}

/// Reading the units back from their bytes gives the units.
proof fn lemma_units_of_le_bytes(us: Seq<u16>)
    ensures
        units_of(le_bytes(us)) == us,
    decreases us.len(),
{
    if us.len() > 0 {
        let front = us.drop_last();
        lemma_units_of_le_bytes(front);
        lemma_le_bytes_len(front);
        lemma_le_bytes_len(us);
        let u = us.last();
        let b = le_bytes(us);
        let fb = le_bytes(front);
        assert(b == fb + seq![(u % 256) as u8, (u / 256) as u8]);
        assert((u % 256) + (u / 256) * 256 == u) by {
            vstd::arithmetic::div_mod::lemma_fundamental_div_mod(u as int, 256);
        }
        assert forall|i: int| 0 <= i < us.len() implies #[trigger] units_of(b)[i] == us[i] by {
            if i < front.len() {
                assert(b[2 * i] == fb[2 * i]);
                assert(b[2 * i + 1] == fb[2 * i + 1]);
                assert(units_of(fb)[i] == front[i]);
            } else {
                assert(b[2 * i] == (u % 256) as u8);
                assert(b[2 * i + 1] == (u / 256) as u8);
            }
        }
        assert(units_of(b) =~= us);
    }
}

/// Text without a NUL has no zero unit.
proof fn lemma_units_nonzero(s: Seq<char>)
    requires
        forall|i: int| 0 <= i < s.len() ==> s[i] != '\0',
    ensures
        forall|j: int| 0 <= j < utf16_units(s).len() ==> utf16_units(s)[j] != 0,
    decreases s.len(),
{
    if s.len() > 0 {
        lemma_units_nonzero(s.drop_last());
        let c = s.last();
        assert(c != '\0');
        lemma_char_range(c);
        assert(('\0' as int) == 0);
        assert((c as int) != 0);
        let u = c as u32;
        assert(u <= 0x10FFFF);
        assert(u != 0);
        let cu = char_units(c);
        if (u as int) < 0x10000 {
            assert(cu[0] == u as u16);
            assert(cu[0] != 0);
        } else {
            assert(cu[0] >= 0xD800);
            assert(cu[1] >= 0xDC00);
        }
        let front = utf16_units(s.drop_last());
        assert forall|j: int| 0 <= j < utf16_units(s).len() implies utf16_units(s)[j] != 0 by {
            if j < front.len() {
                assert(utf16_units(s)[j] == front[j]);
            } else {
                assert(utf16_units(s)[j] == cu[j - front.len()]);
            }
        }
    }
}

/// The units of a text are those of its first character, then of the rest.
proof fn lemma_units_front(s: Seq<char>)
    requires
        s.len() > 0,
    ensures
        utf16_units(s) == char_units(s[0]) + utf16_units(s.drop_first()),
    decreases s.len(),
{
    if s.len() == 1 {
        assert(s.drop_last() =~= Seq::<char>::empty());
        assert(s.drop_first() =~= Seq::<char>::empty());
        assert(utf16_units(s.drop_first()) == Seq::<u16>::empty());
        assert(char_units(s[0]) + Seq::<u16>::empty() =~= char_units(s[0]));
    } else {
        lemma_units_front(s.drop_last());
        assert(s.drop_last().drop_first() =~= s.drop_first().drop_last());
        assert(s.drop_first().last() == s.last());
        assert(utf16_units(s) =~= char_units(s[0]) + utf16_units(s.drop_first()));
    }
}

/// Decoding the units of a character, then more, gives the character first.
proof fn lemma_decode_char(c: char, rest: Seq<u16>)
    ensures
        decode_lossy(char_units(c) + rest) == seq![c] + decode_lossy(rest),
{
    let us = char_units(c) + rest;
    lemma_char_range(c);
    let u = c as u32;
    if (u as int) < 0x10000 {
        assert(us[0] == u as u16);
        assert(us.drop_first() =~= rest);
        assert(((u as u16) as char) == c);
    } else {
        let v = u - 0x10000;
        assert(v < 0x100000);
        let hi = (0xD800 + v / 0x400) as u16;
        let lo = (0xDC00 + v % 0x400) as u16;
        assert(us[0] == hi);
        assert(us[1] == lo);
        assert(is_high(hi));
        assert(is_low(lo));
        assert(us.skip(2) =~= rest);
        assert((v / 0x400) * 0x400 + v % 0x400 == v) by {
            vstd::arithmetic::div_mod::lemma_fundamental_div_mod(v as int, 0x400);
        }
        assert((0x10000 + (hi - 0xD800) * 0x400 + (lo - 0xDC00)) as char == c);
    }
}

proof fn lemma_decode_units(s: Seq<char>)
    ensures
        decode_lossy(utf16_units(s)) == s,
    decreases s.len(),
{
    if s.len() > 0 {
        lemma_units_front(s);
        lemma_decode_units(s.drop_first());
        lemma_decode_char(s[0], utf16_units(s.drop_first()));
        assert(seq![s[0]] + s.drop_first() =~= s);
    }
}

/// Text written as a `REG_SZ` reads back as itself, as long as it holds no NUL
/// (the first NUL ends the text).
pub proof fn lemma_utf16_round_trip(s: Seq<char>)
    requires
        forall|i: int| 0 <= i < s.len() ==> s[i] != '\0',
    ensures
        decoded(encoded(s)) == s,
{
    let us = utf16_units(s);
    lemma_units_of_le_bytes(us.push(0));
    lemma_units_nonzero(s);
    lemma_nul_at(us.push(0), us.len() as int);
    assert(us.push(0).take(us.len() as int) =~= us);
    lemma_decode_units(s);
}

/// `char::from_u32`: the character with that scalar value, if there is one.
#[verifier::external_body]
fn char_from(u: u32) -> (r: Option<char>)
    ensures
        r is Some <==> (u <= 0x10FFFF && !(0xD800 <= u < 0xE000)),
        r matches Some(c) ==> c as int == u,
{
    char::from_u32(u)
}

/// The UTF-16 units of `text`: `str::encode_utf16`.
pub fn units_of_text(text: &str) -> (r: Vec<u16>)
    ensures
        r@ == utf16_units(text@),
{
    let chars = crate::text::chars_of(text);
    let mut units: Vec<u16> = Vec::new();
    let mut i: usize = 0;
    while i < chars.len()
        invariant
            i <= chars.len(),
            units@ == utf16_units(chars@.take(i as int)),
        decreases chars.len() - i,
    {
        let c = chars[i];
        let u = c as u32;
        let ghost before = units@;
        if u < 0x10000 {
            units.push(u as u16);
        } else {
            let v = u - 0x10000;
            units.push((0xD800 + v / 0x400) as u16);
            units.push((0xDC00 + v % 0x400) as u16);
        }
        proof {
            assert(chars@.take(i + 1).drop_last() =~= chars@.take(i as int));
            assert(chars@.take(i + 1).last() == c);
            assert(units@ =~= before + char_units(c));
        }
        i += 1;
    }
    proof {
        assert(chars@.take(chars.len() as int) =~= chars@);
    }
    units
}

/// The bytes of `text` as a `REG_SZ` or `REG_EXPAND_SZ` stores it.
pub fn string_to_utf16_bytes(text: &str) -> (r: Vec<u8>)
    ensures
        r@ == encoded(text@),
{
    let mut units = units_of_text(text);
    units.push(0);
    let mut bytes: Vec<u8> = Vec::new();
    let mut k: usize = 0;
    while k < units.len()
        invariant
            k <= units.len(),
            bytes@ == le_bytes(units@.take(k as int)),
        decreases units.len() - k,
    {
        let u = units[k];
        let ghost before = bytes@;
        bytes.push((u % 256) as u8);
        bytes.push((u / 256) as u8);
        proof {
            assert(units@.take(k + 1).drop_last() =~= units@.take(k as int));
            assert(bytes@ =~= before + seq![(u % 256) as u8, (u / 256) as u8]);
        }
        k += 1;
    }
    proof {
        assert(units@.take(units.len() as int) =~= units@);
    }
    bytes
}

/// The text a `REG_SZ` or `REG_EXPAND_SZ` holds, up to its NUL.
pub fn utf16_to_string(bytes: &[u8]) -> (r: String)
    ensures
        r@ == decoded(bytes@),
{
    let ghost all = units_of(bytes@);
    let n = bytes.len() / 2;
    let mut units: Vec<u16> = Vec::new();
    let mut h: usize = 0;
    // The units, up to the first NUL.
    while h < n
        invariant
            h <= n,
            n == bytes.len() / 2,
            all == units_of(bytes@),
            all.len() == n,
            units@ == all.take(h as int),
            forall|j: int| 0 <= j < h ==> all[j] != 0,
        ensures
            h <= n,
            units@ == all.take(h as int),
            forall|j: int| 0 <= j < h ==> all[j] != 0,
            h < n ==> all[h as int] == 0,
        decreases n - h,
    {
        let u = unit_at(bytes, h);
        if u == 0 {
            break;
        }
        units.push(u);
        proof {
            assert(all.take(h + 1) =~= all.take(h as int).push(u));
        }
        h += 1;
    }
    proof {
        lemma_nul_at(all, h as int);
    }
    string_from_units(&units)
}

/// The text UTF-16 `units` spell, each unpaired surrogate read as U+FFFD:
/// what `String::from_utf16_lossy` gives, as for a window's title or a
/// process's path.
pub fn string_from_units(units: &Vec<u16>) -> (r: String)
    ensures
        r@ == decode_lossy(units@),
{
    proof {
        assert(units@.skip(0) =~= units@);
    }
    let mut out = String::new();
    let mut k: usize = 0;
    while k < units.len()
        invariant
            k <= units.len(),
            out@ + decode_lossy(units@.skip(k as int)) == decode_lossy(units@),
        decreases units.len() - k,
    {
        let u = units[k];
        let ghost rest = units@.skip(k as int);
        if u < 0xD800 || u >= 0xE000 {
            let c = match char_from(u as u32) {
                Some(c) => c,
                None => '\u{FFFD}',
            };
            crate::text::push_char(&mut out, c);
            proof {
                assert(rest.drop_first() =~= units@.skip(k + 1));
            }
            k += 1;
        } else if u < 0xDC00 && k + 1 < units.len() && units[k + 1] >= 0xDC00 && units[k + 1] < 0xE000 {
            let lo = units[k + 1];
            let code = 0x10000 + (u as u32 - 0xD800) * 0x400 + (lo as u32 - 0xDC00);
            let c = match char_from(code) {
                Some(c) => c,
                None => '\u{FFFD}',
            };
            crate::text::push_char(&mut out, c);
            proof {
                assert(rest.skip(2) =~= units@.skip(k + 2));
            }
            k += 2;
        } else {
            crate::text::push_char(&mut out, '\u{FFFD}');
            proof {
                assert(rest.drop_first() =~= units@.skip(k + 1));
            }
            k += 1;
        }
    }
    proof {
        assert(units@.skip(units.len() as int) =~= Seq::<u16>::empty());
    }
    out
}

/// The `h`-th unit of `bytes`.
fn unit_at(bytes: &[u8], h: usize) -> (r: u16)
    requires
        h < bytes@.len() / 2,
    ensures
        r == units_of(bytes@)[h as int],
{
    assert(2 * h + 1 < bytes@.len()) by (nonlinear_arith)
        requires
            h < bytes@.len() / 2,
    ;
    assert(2 * h + 1 < bytes.len());
    bytes[2 * h] as u16 + bytes[2 * h + 1] as u16 * 256
}

/// With no NUL among the first `n` units and one at `n` (or the end there),
/// the first NUL is at `n`.
proof fn lemma_nul_at(units: Seq<u16>, n: int)
    requires
        0 <= n <= units.len(),
        forall|j: int| 0 <= j < n ==> units[j] != 0,
        n < units.len() ==> units[n] == 0,
    ensures
        nul_at(units) == n,
    decreases n,
{
    if n > 0 {
        assert forall|j: int| 0 <= j < n - 1 implies units.drop_first()[j] != 0 by {
            assert(units.drop_first()[j] == units[j + 1]);
        }
        lemma_nul_at(units.drop_first(), n - 1);
    }
}

} // verus!
