//! The user-facing value of a tweak, and colours.

use vstd::prelude::*;
use crate::error::Error;
use crate::text::{chars_of, hex_fixed, hex_char, is_space, push_char, push_hex, push_str, string_from, trim, trim_chars, trim_end, trim_start};

verus! {

#[derive(Debug, Clone, Copy, PartialEq, Eq, Structural, Hash)]
pub struct Color {
    pub r: u8,
    pub g: u8,
    pub b: u8,
}

/// `#RRGGBB`, upper case.
pub open spec fn hex_text(c: Color) -> Seq<char> {
    seq!['#'] + hex_fixed(c.r as nat, 2, true) + hex_fixed(c.g as nat, 2, true) + hex_fixed(
        c.b as nat,
        2,
        true,
    )
}

/// `s` without the `#` characters it starts with.
pub open spec fn strip_hashes(s: Seq<char>) -> Seq<char>
    decreases s.len(),
{
    if s.len() > 0 && s[0] == '#' {
        strip_hashes(s.drop_first())
    } else {
        s
    }
}

pub open spec fn is_hex_char(c: char) -> bool {
    ('0' <= c <= '9') || ('a' <= c <= 'f') || ('A' <= c <= 'F')
}

pub open spec fn hex_value(c: char) -> nat {
    if '0' <= c <= '9' {
        (c as nat - 48) as nat
    } else if 'a' <= c <= 'f' {
        (c as nat - 87) as nat
    } else {
        (c as nat - 55) as nat
    }
}

/// The text a colour is read from: trimmed, then without leading `#`s.
pub open spec fn color_body(text: Seq<char>) -> Seq<char> {
    strip_hashes(trim(text))
}

pub open spec fn is_hex6(h: Seq<char>) -> bool {
    h.len() == 6 && forall|i: int| 0 <= i < 6 ==> is_hex_char(#[trigger] h[i])
}

pub open spec fn hex_byte(h: Seq<char>, i: int) -> u8 {
    (hex_value(h[i]) * 16 + hex_value(h[i + 1])) as u8
}

/// The colour six hex digits name.
pub open spec fn color_of_hex(h: Seq<char>) -> Color {
    Color { r: hex_byte(h, 0), g: hex_byte(h, 2), b: hex_byte(h, 4) }
}

/// `0xAABBGGRR` with alpha `FF`: how Windows stores an accent colour.
pub open spec fn abgr(c: Color) -> u32 {
    (0xFF00_0000u32 as int + c.r as int + c.g as int * 0x100 + c.b as int * 0x1_0000) as u32
}

fn hex_char_value(c: char) -> (v: u8)
    requires
        is_hex_char(c),
    ensures
        v == hex_value(c),
        v < 16,
{
    let u = c as u32;
    if u <= 57 {
        (u - 48) as u8
    } else if u >= 97 {
        (u - 87) as u8
    } else {
        (u - 55) as u8
    }
}

fn is_hex_digit(c: char) -> (r: bool)
    ensures
        r == is_hex_char(c),
{
    ('0' <= c && c <= '9') || ('a' <= c && c <= 'f') || ('A' <= c && c <= 'F')
}

proof fn lemma_hex_round_trip(n: u8)
    ensures
        hex_value(hex_char((n / 16) as nat, true)) * 16 + hex_value(hex_char((n % 16) as nat, true))
            == n,
        is_hex_char(hex_char((n / 16) as nat, true)),
        is_hex_char(hex_char((n % 16) as nat, true)),
{
}

impl Color {
    pub fn new(r: u8, g: u8, b: u8) -> (c: Self)
        ensures
            c == (Color { r, g, b }),
    {
        Color { r, g, b }
    }

    pub fn to_hex(self) -> (s: String)
        ensures
            s@ == hex_text(self),
    {
        let mut s = String::new();
        push_char(&mut s, '#');
        push_hex(&mut s, self.r as u64, 2, true);
        push_hex(&mut s, self.g as u64, 2, true);
        push_hex(&mut s, self.b as u64, 2, true);
        proof {
            assert(s@ =~= hex_text(self));
        }
        s
    }

    /// Six hex digits, optionally after `#` and surrounded by white space.
    pub fn parse(text: &str) -> (r: Result<Self, Error>)
        ensures
            match r {
                Ok(c) => is_hex6(color_body(text@)) && c == color_of_hex(color_body(text@)),
                Err(e) => {
                    &&& !is_hex6(color_body(text@))
                    &&& e matches Error::BadValue { tweak, got, expected }
                    &&& tweak@ == "color"@
                    &&& got@ == seq!['"'] + text@ + seq!['"']
                    &&& expected@ == "six hex digits, e.g. \"#0F62C0\""@
                },
            },
    {
        let all = chars_of(text);
        let trimmed = trim_chars(&all);
        let mut i: usize = 0;
        proof {
            assert(trimmed@.skip(0) =~= trimmed@);
        }
        while i < trimmed.len() && trimmed[i] == '#'
            invariant
                i <= trimmed.len(),
                strip_hashes(trimmed@) == strip_hashes(trimmed@.skip(i as int)),
            decreases trimmed.len() - i,
        {
            proof {
                assert(trimmed@.skip(i as int).drop_first() =~= trimmed@.skip(i + 1));
            }
            i += 1;
        }
        let ghost body = color_body(text@);
        assert(body == trimmed@.skip(i as int));
        let ok = trimmed.len() - i == 6 && is_hex_digit(trimmed[i]) && is_hex_digit(trimmed[i + 1])
            && is_hex_digit(trimmed[i + 2]) && is_hex_digit(trimmed[i + 3]) && is_hex_digit(
            trimmed[i + 4],
        ) && is_hex_digit(trimmed[i + 5]);
        if !ok {
            proof {
                if is_hex6(body) {
                    assert(is_hex_char(body[0]) && is_hex_char(body[1]) && is_hex_char(body[2])
                        && is_hex_char(body[3]) && is_hex_char(body[4]) && is_hex_char(body[5]));
                }
            }
            let mut got = String::new();
            push_char(&mut got, '"');
            push_str(&mut got, text);
            push_char(&mut got, '"');
            proof {
                assert(got@ =~= seq!['"'] + text@ + seq!['"']);
            }
            return Err(
                Error::BadValue {
                    tweak: string_from("color"),
                    got,
                    expected: string_from("six hex digits, e.g. \"#0F62C0\""),
                },
            );
        }
        proof {
            assert forall|k: int| 0 <= k < 6 implies is_hex_char(#[trigger] body[k]) by {
                assert(body[k] == trimmed@[i + k]);
            }
        }
        let r = hex_char_value(trimmed[i]) * 16 + hex_char_value(trimmed[i + 1]);
        let g = hex_char_value(trimmed[i + 2]) * 16 + hex_char_value(trimmed[i + 3]);
        let b = hex_char_value(trimmed[i + 4]) * 16 + hex_char_value(trimmed[i + 5]);
        Ok(Color::new(r, g, b))
    }

    /// Windows stores accent colours as a DWORD in `0xAABBGGRR` order — the
    /// reverse of the `#RRGGBB` people write. The alpha byte is `FF`.
    pub fn to_abgr_dword(self) -> (v: u32)
        ensures
            v == abgr(self),
    {
        let v = 0xFF00_0000u32 | (self.r as u32) | ((self.g as u32) << 8) | ((self.b as u32) << 16);
        let (r, g, b) = (self.r as u32, self.g as u32, self.b as u32);
        assert(0xFF00_0000u32 | r | (g << 8) | (b << 16) == 0xFF00_0000u32 + r + g * 0x100 + b
            * 0x1_0000) by (bit_vector)
            requires
                r < 256 && g < 256 && b < 256,
        ;
        v
    }

    pub fn from_abgr_dword(value: u32) -> (c: Self)
        ensures
            c.r == value % 0x100,
            c.g == (value / 0x100) % 0x100,
            c.b == (value / 0x1_0000) % 0x100,
    {
        let r = value & 0xFF;
        let g = (value >> 8) & 0xFF;
        let b = (value >> 16) & 0xFF;
        assert(value & 0xFF == value % 0x100 && (value >> 8) & 0xFF == (value / 0x100) % 0x100 && (
        value >> 16) & 0xFF == (value / 0x1_0000) % 0x100) by (bit_vector);
        Color::new(r as u8, g as u8, b as u8)
    }
}

proof fn lemma_hex2(n: u8)
    ensures
        hex_fixed(n as nat, 2, true) == seq![hex_char((n / 16) as nat, true), hex_char((n % 16) as nat, true)],
{
    assert(((n / 16) as nat) % 16 == (n / 16) as nat);
    assert(hex_fixed(((n / 16) / 16) as nat, 0, true) == Seq::<char>::empty());
    assert(hex_fixed((n / 16) as nat, 1, true) == hex_fixed(((n / 16) as nat) / 16, 0, true).push(hex_char(((n / 16) as nat) % 16, true)));
    assert(hex_fixed(n as nat, 2, true) == hex_fixed((n as nat) / 16, 1, true).push(hex_char((n as nat) % 16, true)));
    assert(hex_fixed(n as nat, 2, true) =~= seq![hex_char((n / 16) as nat, true), hex_char((n % 16) as nat, true)]);
}

/// Reading a colour back from the DWORD it was stored as gives the colour.
pub proof fn lemma_abgr_round_trip(c: Color)
    ensures
        abgr(c) % 0x100 == c.r,
        (abgr(c) / 0x100) % 0x100 == c.g,
        (abgr(c) / 0x1_0000) % 0x100 == c.b,
{
    let v = abgr(c);
    assert(v == 0xFF00_0000 + c.r + c.g * 0x100 + c.b * 0x1_0000);
}

/// Writing a colour as text and reading it back gives the colour.
pub proof fn lemma_hex_parse_round_trip(c: Color)
    ensures
        is_hex6(color_body(hex_text(c))),
        color_of_hex(color_body(hex_text(c))) == c,
{
    let t = hex_text(c);
    lemma_hex2(c.r);
    lemma_hex2(c.g);
    lemma_hex2(c.b);
    lemma_hex_round_trip(c.r);
    lemma_hex_round_trip(c.g);
    lemma_hex_round_trip(c.b);
    let h = t.drop_first();
    assert(t.len() == 7);
    assert forall|i: int| 0 <= i < 7 implies !is_space(#[trigger] t[i]) by {}
    assert(trim_start(t) == t);
    assert(trim_end(t) == t);
    assert(strip_hashes(t) == strip_hashes(h));
    assert(h =~= hex_fixed(c.r as nat, 2, true) + hex_fixed(c.g as nat, 2, true) + hex_fixed(
        c.b as nat,
        2,
        true,
    ));
    assert(h[0] != '#');
    assert(strip_hashes(h) == h);
}

} // verus!

verus! {

/// The user-facing value of a tweak. This is what the UI sends and receives —
/// never a registry type. Translating between this and what the registry
/// actually stores is each tweak's job.
#[derive(Debug, Clone, PartialEq)]
pub enum Value {
    Bool(bool),
    Color(Color),
    /// A choice id or a path; which one a tweak wants comes from its
    /// [`ValueKind`].
    Str(String),
}

/// A [`Value`] as mathematics sees it.
pub enum ValueV {
    Bool(bool),
    Color(Color),
    Str(Seq<char>),
}

impl View for Value {
    type V = ValueV;

    open spec fn view(&self) -> ValueV {
        match self {
            Value::Bool(b) => ValueV::Bool(*b),
            Value::Color(c) => ValueV::Color(*c),
            Value::Str(s) => ValueV::Str(s@),
        }
    }
}

/// What [`Value::describe`] writes.
pub open spec fn describe_text(v: ValueV) -> Seq<char> {
    match v {
        ValueV::Bool(b) => if b {
            "true"@
        } else {
            "false"@
        },
        ValueV::Color(c) => hex_text(c),
        ValueV::Str(s) => seq!['"'] + s + seq!['"'],
    }
}

/// The error a tweak reports for a value of the wrong kind.
pub open spec fn is_bad_value(e: Error, tweak: Seq<char>, v: ValueV, expected: Seq<char>) -> bool {
    e matches Error::BadValue { tweak: t, got, expected: x } && t@ == tweak && got@
        == describe_text(v) && x@ == expected
}

/// A quoted copy of `s`.
pub fn quoted(s: &str) -> (r: String)
    ensures
        r@ == seq!['"'] + s@ + seq!['"'],
{
    let mut r = String::new();
    push_char(&mut r, '"');
    push_str(&mut r, s);
    push_char(&mut r, '"');
    proof {
        assert(r@ =~= seq!['"'] + s@ + seq!['"']);
    }
    r
}

impl Value {
    /// A copy of this value.
    pub fn duplicate(&self) -> (r: Self)
        ensures
            r@ == self@,
    {
        match self {
            Value::Bool(b) => Value::Bool(*b),
            Value::Color(c) => Value::Color(*c),
            Value::Str(s) => Value::Str(s.clone()),
        }
    }

    /// Whether two values are the same.
    pub fn same_as(&self, other: &Value) -> (r: bool)
        ensures
            r == (self@ == other@),
    {
        match (self, other) {
            (Value::Bool(a), Value::Bool(b)) => *a == *b,
            (Value::Color(a), Value::Color(b)) => a.r == b.r && a.g == b.g && a.b == b.b,
            (Value::Str(a), Value::Str(b)) => {
                let r = crate::text::str_eq(a.as_str(), b.as_str());
                r
            },
            _ => false,
        }
    }

    pub fn as_bool(&self, tweak: &str) -> (r: Result<bool, Error>)
        ensures
            match self@ {
                ValueV::Bool(b) => r == Ok::<bool, Error>(b),
                _ => r matches Err(e) && is_bad_value(e, tweak@, self@, "a boolean"@),
            },
    {
        match self {
            Value::Bool(b) => Ok(*b),
            _ => Err(
                Error::BadValue {
                    tweak: string_from(tweak),
                    got: self.describe(),
                    expected: string_from("a boolean"),
                },
            ),
        }
    }

    pub fn as_color(&self, tweak: &str) -> (r: Result<Color, Error>)
        ensures
            match self@ {
                ValueV::Color(c) => r == Ok::<Color, Error>(c),
                _ => r matches Err(e) && is_bad_value(
                    e,
                    tweak@,
                    self@,
                    "a colour such as \"#0F62C0\""@,
                ),
            },
    {
        match self {
            Value::Color(c) => Ok(*c),
            _ => Err(
                Error::BadValue {
                    tweak: string_from(tweak),
                    got: self.describe(),
                    expected: string_from("a colour such as \"#0F62C0\""),
                },
            ),
        }
    }

    pub fn as_choice(&self, tweak: &str) -> (r: Result<&str, Error>)
        ensures
            match self@ {
                ValueV::Str(s) => r matches Ok(c) && c@ == s,
                _ => r matches Err(e) && is_bad_value(e, tweak@, self@, "one of the listed choices"@),
            },
    {
        match self {
            Value::Str(c) => Ok(c.as_str()),
            _ => Err(
                Error::BadValue {
                    tweak: string_from(tweak),
                    got: self.describe(),
                    expected: string_from("one of the listed choices"),
                },
            ),
        }
    }

    pub fn as_path(&self, tweak: &str) -> (r: Result<&str, Error>)
        ensures
            match self@ {
                ValueV::Str(s) => r matches Ok(c) && c@ == s,
                _ => r matches Err(e) && is_bad_value(e, tweak@, self@, "a path"@),
            },
    {
        match self {
            Value::Str(c) => Ok(c.as_str()),
            _ => Err(
                Error::BadValue {
                    tweak: string_from(tweak),
                    got: self.describe(),
                    expected: string_from("a path"),
                },
            ),
        }
    }

    pub fn describe(&self) -> (r: String)
        ensures
            r@ == describe_text(self@),
    {
        match self {
            Value::Bool(b) => if *b {
                string_from("true")
            } else {
                string_from("false")
            },
            Value::Color(c) => c.to_hex(),
            Value::Str(c) => quoted(c.as_str()),
        }
    }
}

/// What the UI should render for a tweak, and what values are legal.
#[derive(Debug, Clone)]
pub enum ValueKind {
    Bool,
    Color,
    /// Ids only. The UI looks up labels in its locale files, so wording never
    /// leaks into the core.
    Choice { choices: Vec<String> },
    /// A file, with the extensions that are accepted.
    Path { extensions: Vec<String> },
}

} // verus!
