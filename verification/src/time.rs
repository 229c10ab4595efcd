//! Timestamps, without a calendar dependency.
//!
//! The journal needs two things: an ordered id, and a string a person can read.
//! Everything here is UTC, derived from the system clock, so nothing depends on
//! the machine's time zone.

use vstd::prelude::*;
use crate::text::{decimal, digit_char, joined, lemma_joined_less, lemma_lex_common_head, lemma_lex_heads, lex_less, push_char, push_decimal, push_str};

verus! {

/// An instant: whole seconds since the Unix epoch, and the milliseconds past them.
#[derive(Debug, Clone, Copy, PartialEq, Eq, Structural, PartialOrd, Ord)]
pub struct Utc {
    pub seconds: i64,
    pub millis: u32,
}

/// `n` in decimal, with zeros in front to make at least `width` digits.
pub open spec fn zero_padded(n: nat, width: nat) -> Seq<char> {
    let d = decimal(n);
    if d.len() < width {
        Seq::new((width - d.len()) as nat, |i: int| '0') + d
    } else {
        d
    }
}

/// What `{:0width$}` writes for a signed number: the sign counts toward the width.
pub open spec fn signed_padded(n: int, width: nat) -> Seq<char> {
    if n >= 0 {
        zero_padded(n as nat, width)
    } else {
        seq!['-'] + zero_padded(
            (-n) as nat,
            if width > 0 {
                (width - 1) as nat
            } else {
                0
            },
        )
    }
}

/// The proleptic Gregorian date `(year, month, day)` of the day `days` after
/// 1970-01-01, by Howard Hinnant's days-to-civil algorithm: the count is moved
/// to years that start on 1 March of a 400-year era, where leap days fall last.
pub open spec fn civil_date(days: int) -> (int, int, int) {
    let z = days + 719_468;
    let era = z / 146_097;
    let doe = z - era * 146_097;
    let yoe = (doe - doe / 1460 + doe / 36_524 - doe / 146_096) / 365;
    let y = yoe + era * 400;
    let doy = doe - (365 * yoe + yoe / 4 - yoe / 100);
    let mp = (5 * doy + 2) / 153;
    let d = doy - (153 * mp + 2) / 5 + 1;
    let m = if mp < 10 {
        mp + 3
    } else {
        mp - 9
    };
    (
        if m <= 2 {
            y + 1
        } else {
            y
        },
        m,
        d,
    )
}

/// Year, month, day, hour, minute and second of `seconds` after the epoch.
pub open spec fn parts_of(seconds: int) -> (int, int, int, int, int, int) {
    let (y, m, d) = civil_date(seconds / 86_400);
    let s = seconds % 86_400;
    (y, m, d, s / 3600, (s % 3600) / 60, s % 60)
}

/// `2026-08-28T14:31:07.482Z`.
pub open spec fn rfc3339_text(t: Utc) -> Seq<char> {
    let (y, mo, d, h, mi, s) = parts_of(t.seconds as int);
    signed_padded(y, 4) + "-"@ + zero_padded(mo as nat, 2) + "-"@ + zero_padded(d as nat, 2)
        + "T"@ + zero_padded(h as nat, 2) + ":"@ + zero_padded(mi as nat, 2) + ":"@
        + zero_padded(s as nat, 2) + "."@ + zero_padded(t.millis as nat, 3) + "Z"@
}

/// `20260828T143107482`.
pub open spec fn compact_text(t: Utc) -> Seq<char> {
    let (y, mo, d, h, mi, s) = parts_of(t.seconds as int);
    signed_padded(y, 4) + zero_padded(mo as nat, 2) + zero_padded(d as nat, 2) + "T"@
        + zero_padded(h as nat, 2) + zero_padded(mi as nat, 2) + zero_padded(s as nat, 2)
        + zero_padded(t.millis as nat, 3)
}

/// The time since the Unix epoch as whole seconds and the milliseconds past
/// them, or `None` for a clock set before 1970.
#[verifier::external_body]
fn since_epoch() -> (r: Option<(u64, u32)>)
    ensures
        r matches Some((_, ms)) ==> ms < 1000,
{
    match std::time::SystemTime::now().duration_since(std::time::UNIX_EPOCH) {
        Ok(d) => Some((d.as_secs(), d.subsec_millis())),
        Err(_) => None,
    }
}

/// The number of digits `n` has in decimal.
fn decimal_len(n: u64) -> (r: u64)
    ensures
        r == decimal(n as nat).len(),
        1 <= r <= n + 1,
    decreases n,
{
    if n < 10 {
        1
    } else {
        let k = decimal_len(n / 10);
        proof {
            assert(decimal(n as nat) == decimal((n / 10) as nat).push(
                crate::text::digit_char((n % 10) as nat),
            ));
        }
        k + 1
    }
}

/// Appends `n` zero-padded to `width` digits.
fn push_padded(s: &mut String, n: u64, width: u64)
    requires
        width <= 8,
    ensures
        final(s)@ == old(s)@ + zero_padded(n as nat, width as nat),
{
    let len = decimal_len(n);
    let ghost start = s@;
    let mut k: u64 = len;
    while k < width
        invariant
            len <= k,
            k <= width || len >= width,
            len >= width ==> k == len,
            len == decimal(n as nat).len(),
            width <= 8,
            s@ == start + Seq::new((k - len) as nat, |i: int| '0'),
        decreases width - k,
    {
        push_char(s, '0');
        assert(Seq::new((k + 1 - len) as nat, |i: int| '0') =~= Seq::new(
            (k - len) as nat,
            |i: int| '0',
        ).push('0'));
        k += 1;
    }
    push_decimal(s, n);
    proof {
        if len < width {
            assert(s@ =~= start + zero_padded(n as nat, width as nat));
        } else {
            assert(Seq::new((k - len) as nat, |i: int| '0') =~= Seq::<char>::empty());
            assert(s@ =~= start + zero_padded(n as nat, width as nat));
        }
    }
}

/// Appends `n` padded to `width` characters, a minus sign counting as one.
fn push_signed_padded(s: &mut String, n: i64, width: u64)
    requires
        1 <= width <= 8,
        n > i64::MIN,
    ensures
        final(s)@ == old(s)@ + signed_padded(n as int, width as nat),
{
    if n >= 0 {
        push_padded(s, n as u64, width);
    } else {
        let ghost start = s@;
        push_char(s, '-');
        push_padded(s, (-n) as u64, width - 1);
        proof {
            assert(s@ =~= start + signed_padded(n as int, width as nat));
        }
    }
}

/// `z` split as Euclidean division by the positive `d`.
fn div_euclid(z: i64, d: i64) -> (r: (i64, i64))
    requires
        0 < d <= 1_000_000,
        z > i64::MIN,
    ensures
        r.0 == z / d,
        r.1 == z % d,
{
    if z >= 0 {
        let q = z / d;
        let m = z % d;
        (q, m)
    } else {
        let nz = -(z + 1);
        let q = nz / d;
        let m = nz % d;
        proof {
            assert(nz == q * d + m) by {
                vstd::arithmetic::div_mod::lemma_fundamental_div_mod(nz as int, d as int);
            }
            assert(z == (-q - 1) * d + (d - 1 - m)) by (nonlinear_arith)
                requires
                    nz == q * d + m,
                    z == -(nz + 1),
            ;
            vstd::arithmetic::div_mod::lemma_fundamental_div_mod_converse(
                z as int,
                d as int,
                -q - 1,
                d - 1 - m,
            );
        }
        (-q - 1, d - 1 - m)
    }
}

/// [`civil_date`], computed.
fn civil_from_days(days: i64) -> (r: (i64, u32, u32))
    requires
        -0x10_0000_0000_0000 <= days <= 0x10_0000_0000_0000,
    ensures
        (r.0 as int, r.1 as int, r.2 as int) == civil_date(days as int),
        -0x10_0000_0000_0000 <= r.0 <= 0x10_0000_0000_0000,
{
    let z = days + 719_468;
    let (era, doe) = div_euclid(z, 146_097);
    proof {
        vstd::arithmetic::div_mod::lemma_fundamental_div_mod(z as int, 146_097);
        assert(doe == z - era * 146_097);
        assert(era * 146_097 <= z) by (nonlinear_arith)
            requires
                doe == z - era * 146_097,
                0 <= doe,
        ;
        assert(-0x100_0000_0000 <= era <= 0x100_0000_0000) by (nonlinear_arith)
            requires
                era * 146_097 <= z,
                z < era * 146_097 + 146_097,
                -0x10_0000_0000_0000 <= z <= 0x10_0000_0010_0000,
        ;
    }
    let yoe = (doe - doe / 1460 + doe / 36_524 - doe / 146_096) / 365;
    let y = yoe + era * 400;
    let doy = doe - (365 * yoe + yoe / 4 - yoe / 100);
    let mp = (5 * doy + 2) / 153;
    let d = doy - (153 * mp + 2) / 5 + 1;
    let m = if mp < 10 {
        mp + 3
    } else {
        mp - 9
    };
    proof {
        assert(0 <= yoe <= 400);
    }
    assert(0 <= d < 0x1_0000_0000) by (nonlinear_arith)
        requires
            0 <= doe < 146_097,
            yoe == (doe - doe / 1460 + doe / 36_524 - doe / 146_096) / 365,
            doy == doe - (365 * yoe + yoe / 4 - yoe / 100),
            mp == (5 * doy + 2) / 153,
            d == doy - (153 * mp + 2) / 5 + 1,
    ;
    (if m <= 2 { y + 1 } else { y }, m as u32, d as u32)
}

impl Utc {
    /// The current time, or the epoch for a clock set before it.
    pub fn now() -> (r: Self)
        ensures
            r.millis < 1000,
    {
        Utc::from_clock(since_epoch())
    }

    /// The instant a clock reading stands for: its whole seconds since the
    /// epoch (as a signed count) and its milliseconds, or the epoch itself
    /// when the clock had nothing to give.
    pub fn from_clock(reading: Option<(u64, u32)>) -> (r: Self)
        ensures
            r == match reading {
                Some((s, ms)) => Utc { seconds: s as i64, millis: ms },
                None => Utc { seconds: 0, millis: 0 },
            },
    {
        match reading {
            Some((s, ms)) => {
                #[verifier::truncate]
                let seconds = s as i64;
                Utc { seconds, millis: ms }
            },
            None => Utc { seconds: 0, millis: 0 },
        }
    }

    pub fn from_seconds(seconds: i64) -> (r: Self)
        ensures
            r == (Utc { seconds, millis: 0 }),
    {
        Utc { seconds, millis: 0 }
    }

    fn parts(&self) -> (r: (i64, u32, u32, u32, u32, u32))
        ensures
            (r.0 as int, r.1 as int, r.2 as int, r.3 as int, r.4 as int, r.5 as int) == parts_of(
                self.seconds as int,
            ),
            r.0 > i64::MIN,
    {
        let ghost sec = self.seconds as int;
        let (days, secs_of_day) = if self.seconds == i64::MIN {
            // The clock never reads this, but the type allows it: work from one
            // second later, whose negation fits.
            proof {
                vstd::arithmetic::div_mod::lemma_fundamental_div_mod(sec, 86_400);
            }
            let (q, r) = div_euclid(self.seconds + 1, 86_400);
            if r == 0 {
                proof {
                    vstd::arithmetic::div_mod::lemma_fundamental_div_mod(sec + 1, 86_400);
                    vstd::arithmetic::div_mod::lemma_fundamental_div_mod_converse(
                        sec,
                        86_400,
                        q - 1,
                        86_399,
                    );
                }
                (q - 1, 86_399i64)
            } else {
                proof {
                    vstd::arithmetic::div_mod::lemma_fundamental_div_mod(sec + 1, 86_400);
                    vstd::arithmetic::div_mod::lemma_fundamental_div_mod_converse(
                        sec,
                        86_400,
                        q as int,
                        r - 1,
                    );
                }
                (q, r - 1)
            }
        } else {
            div_euclid(self.seconds, 86_400)
        };
        proof {
            vstd::arithmetic::div_mod::lemma_fundamental_div_mod(sec, 86_400);
            assert(-0x10_0000_0000_0000 <= days <= 0x10_0000_0000_0000) by (nonlinear_arith)
                requires
                    sec == days * 86_400 + secs_of_day,
                    0 <= secs_of_day < 86_400,
                    i64::MIN <= sec <= i64::MAX,
            ;
        }
        let (y, m, d) = civil_from_days(days);
        (
            y,
            m,
            d,
            (secs_of_day / 3600) as u32,
            ((secs_of_day % 3600) / 60) as u32,
            (secs_of_day % 60) as u32,
        )
    }

    /// `2026-08-28T14:31:07.482Z` — sorts lexicographically in time order, and
    /// a browser's `Date` parses it without help.
    pub fn rfc3339(&self) -> (r: String)
        ensures
            r@ == rfc3339_text(*self),
    {
        let (y, mo, d, h, mi, s) = self.parts();
        let mut out = String::new();
        push_signed_padded(&mut out, y, 4);
        push_str(&mut out, "-");
        push_padded(&mut out, mo as u64, 2);
        push_str(&mut out, "-");
        push_padded(&mut out, d as u64, 2);
        push_str(&mut out, "T");
        push_padded(&mut out, h as u64, 2);
        push_str(&mut out, ":");
        push_padded(&mut out, mi as u64, 2);
        push_str(&mut out, ":");
        push_padded(&mut out, s as u64, 2);
        push_str(&mut out, ".");
        push_padded(&mut out, self.millis as u64, 3);
        push_str(&mut out, "Z");
        proof {
            assert(out@ =~= rfc3339_text(*self));
        }
        out
    }

    /// `20260828T143107482` — the journal entry id, and therefore a file name.
    pub fn compact(&self) -> (r: String)
        ensures
            r@ == compact_text(*self),
    {
        let (y, mo, d, h, mi, s) = self.parts();
        let mut out = String::new();
        push_signed_padded(&mut out, y, 4);
        push_padded(&mut out, mo as u64, 2);
        push_padded(&mut out, d as u64, 2);
        push_str(&mut out, "T");
        push_padded(&mut out, h as u64, 2);
        push_padded(&mut out, mi as u64, 2);
        push_padded(&mut out, s as u64, 2);
        push_padded(&mut out, self.millis as u64, 3);
        proof {
            assert(out@ =~= compact_text(*self));
        }
        out
    }
}


/// The date `a` comes before the date `b`.
pub open spec fn date_before(a: (int, int, int), b: (int, int, int)) -> bool {
    a.0 < b.0 || (a.0 == b.0 && (a.1 < b.1 || (a.1 == b.1 && a.2 < b.2)))
}

/// Months run from 1 to 12 and days from 1 to 31.
pub proof fn lemma_civil_ranges(days: int)
    ensures
        1 <= civil_date(days).1 <= 12,
        1 <= civil_date(days).2 <= 31,
{
}

spec fn year_of_era(doe: int) -> int {
    (doe - doe / 1460 + doe / 36_524 - doe / 146_096) / 365
}

spec fn day_of_year(doe: int) -> int {
    doe - (365 * year_of_era(doe) + year_of_era(doe) / 4 - year_of_era(doe) / 100)
}

#[verifier::rlimit(40)]
proof fn lemma_era_day_ranges(doe: int)
    requires
        0 <= doe <= 146_096,
    ensures
        0 <= year_of_era(doe) <= 399,
        0 <= day_of_year(doe) <= 365,
{
}

#[verifier::rlimit(40)]
proof fn lemma_era_next_day(doe: int)
    requires
        0 <= doe < 146_096,
    ensures
        (year_of_era(doe + 1) == year_of_era(doe) && day_of_year(doe + 1) == day_of_year(doe) + 1)
            || year_of_era(doe + 1) == year_of_era(doe) + 1,
{
}

proof fn lemma_month_range(doy: int)
    requires
        0 <= doy <= 365,
    ensures
        0 <= (5 * doy + 2) / 153 <= 11,
{
}

proof fn lemma_month_next_day(doy: int)
    requires
        0 <= doy < 365,
    ensures
        0 <= (5 * doy + 2) / 153 <= 11,
        ((5 * (doy + 1) + 2) / 153 == (5 * doy + 2) / 153 && (doy + 1) - (153 * ((5 * (doy + 1) + 2) / 153) + 2) / 5
            == doy - (153 * ((5 * doy + 2) / 153) + 2) / 5 + 1) || (5 * (doy + 1) + 2) / 153 == (5 * doy + 2) / 153 + 1,
{
}

/// Each day's date comes after the one before.
#[verifier::rlimit(40)]
pub proof fn lemma_next_day(days: int)
    ensures
        date_before(civil_date(days), civil_date(days + 1)),
{
    let z = days + 719_468;
    let era = z / 146_097;
    let doe = z - era * 146_097;
    if doe < 146_096 {
        assert((z + 1) / 146_097 == era);
        assert((z + 1) - era * 146_097 == doe + 1);
        lemma_era_day_ranges(doe);
        lemma_era_day_ranges(doe + 1);
        lemma_era_next_day(doe);
        let doy = day_of_year(doe);
        lemma_month_range(doy);
        lemma_month_range(day_of_year(doe + 1));
        if year_of_era(doe + 1) == year_of_era(doe) {
            lemma_month_next_day(doy);
        }
    } else {
        assert((z + 1) / 146_097 == era + 1);
        assert((z + 1) - (era + 1) * 146_097 == 0);
        assert(year_of_era(146_096) == 399);
        assert(day_of_year(146_096) == 365);
        assert(year_of_era(0) == 0);
        assert(day_of_year(0) == 0);
    }
}


/// Later days have later dates.
pub proof fn lemma_dates_in_order(d1: int, d2: int)
    requires
        d1 < d2,
    ensures
        date_before(civil_date(d1), civil_date(d2)),
    decreases d2 - d1,
{
    lemma_next_day(d2 - 1);
    if d1 < d2 - 1 {
        lemma_dates_in_order(d1, d2 - 1);
    }
}

/// The broken-down time `a` comes before `b`: by date, then hour, minute, second.
pub open spec fn parts_before(a: (int, int, int, int, int, int), b: (int, int, int, int, int, int)) -> bool {
    date_before((a.0, a.1, a.2), (b.0, b.1, b.2)) || ((a.0, a.1, a.2) == (b.0, b.1, b.2) && (a.3 < b.3 || (a.3
        == b.3 && (a.4 < b.4 || (a.4 == b.4 && a.5 < b.5)))))
}

/// A later second breaks down into a later time.
pub proof fn lemma_parts_in_order(s1: int, s2: int)
    requires
        s1 < s2,
    ensures
        parts_before(parts_of(s1), parts_of(s2)),
{
    let d1 = s1 / 86_400;
    let d2 = s2 / 86_400;
    if d1 < d2 {
        lemma_dates_in_order(d1, d2);
    }
}

/// Hours, minutes and seconds stay in their ranges.
pub proof fn lemma_parts_ranges(seconds: int)
    ensures
        1 <= parts_of(seconds).1 <= 12,
        1 <= parts_of(seconds).2 <= 31,
        0 <= parts_of(seconds).3 < 24,
        0 <= parts_of(seconds).4 < 60,
        0 <= parts_of(seconds).5 < 60,
{
    lemma_civil_ranges(seconds / 86_400);
}


/// Ten to the power `w`.
pub open spec fn pow10(w: nat) -> nat
    decreases w,
{
    if w == 0 {
        1
    } else {
        10 * pow10((w - 1) as nat)
    }
}

/// The last `w` decimal digits of `n`.
pub open spec fn digits(n: nat, w: nat) -> Seq<char>
    decreases w,
{
    if w == 0 {
        Seq::empty()
    } else {
        digits(n / 10, (w - 1) as nat).push(digit_char(n % 10))
    }
}

proof fn lemma_digits_len(n: nat, w: nat)
    ensures
        digits(n, w).len() == w,
    decreases w,
{
    if w > 0 {
        lemma_digits_len(n / 10, (w - 1) as nat);
    }
}

proof fn lemma_digits_of_zero(w: nat)
    ensures
        digits(0, w) == Seq::new(w, |i: int| '0'),
    decreases w,
{
    if w > 0 {
        lemma_digits_of_zero((w - 1) as nat);
        assert(digits(0, w) =~= Seq::new(w, |i: int| '0'));
    } else {
        assert(digits(0, w) =~= Seq::new(w, |i: int| '0'));
    }
}

/// A number below `10^w`, padded to `w` digits, is its last `w` digits.
proof fn lemma_padded_digits(n: nat, w: nat)
    requires
        1 <= w,
        n < pow10(w),
    ensures
        zero_padded(n, w) == digits(n, w),
    decreases n,
{
    let c = digit_char(n % 10);
    if n < 10 {
        lemma_digits_of_zero((w - 1) as nat);
        assert(decimal(n) == seq![digit_char(n)]);
        assert(zero_padded(n, w) =~= digits(n, w));
    } else {
        let w1 = (w - 1) as nat;
        assert(w1 >= 1) by {
            if w == 1 {
                assert(pow10(1) == 10 * pow10(0));
            }
        }
        assert(n / 10 < pow10(w1));
        lemma_padded_digits(n / 10, w1);
        lemma_digits_len(n / 10, w1);
        let d = decimal(n / 10);
        assert(decimal(n) == d.push(c));
        assert(d.len() <= w1) by {
            if d.len() > w1 {
                assert(zero_padded(n / 10, w1) == d);
            }
        }
        assert(zero_padded(n, w) =~= zero_padded(n / 10, w1).push(c));
    }
}

/// Below `10^w`, the smaller number's `w` digits sort first.
proof fn lemma_digits_order(n1: nat, n2: nat, w: nat)
    requires
        n1 < n2 < pow10(w),
    ensures
        lex_less(digits(n1, w), digits(n2, w)),
    decreases w,
{
    let w1 = (w - 1) as nat;
    assert(w >= 1);
    let c1 = digit_char(n1 % 10);
    let c2 = digit_char(n2 % 10);
    assert(digits(n1, w) =~= digits(n1 / 10, w1) + seq![c1]);
    assert(digits(n2, w) =~= digits(n2 / 10, w1) + seq![c2]);
    lemma_digits_len(n1 / 10, w1);
    lemma_digits_len(n2 / 10, w1);
    if n1 / 10 < n2 / 10 {
        lemma_digits_order(n1 / 10, n2 / 10, w1);
        lemma_lex_heads(digits(n1 / 10, w1), digits(n2 / 10, w1), seq![c1], seq![c2]);
    } else {
        assert(n1 % 10 < n2 % 10);
        assert(lex_less(seq![c1], seq![c2]));
        lemma_lex_common_head(digits(n1 / 10, w1), seq![c1], seq![c2]);
    }
}

/// Padded to `w` digits, numbers below `10^w` keep their length and sort in
/// numeric order.
pub proof fn lemma_padded_order(n1: nat, n2: nat, w: nat)
    requires
        1 <= w,
        n1 < pow10(w),
        n2 < pow10(w),
    ensures
        zero_padded(n1, w).len() == w,
        n1 < n2 ==> lex_less(zero_padded(n1, w), zero_padded(n2, w)),
{
    lemma_padded_digits(n1, w);
    lemma_padded_digits(n2, w);
    lemma_digits_len(n1, w);
    if n1 < n2 {
        lemma_digits_order(n1, n2, w);
    }
}


/// The seven numbers a text is made from: year, month, day, hour, minute,
/// second and millisecond.
spec fn numbers(t: Utc) -> Seq<int> {
    let (y, mo, d, h, mi, s) = parts_of(t.seconds as int);
    seq![y, mo, d, h, mi, s, t.millis as int]
}

/// How many digits each of those numbers is written with.
spec fn widths() -> Seq<nat> {
    seq![4nat, 2, 2, 2, 2, 2, 3]
}

/// The `i`-th number as written.
spec fn field(t: Utc, i: int) -> Seq<char> {
    if i == 0 {
        signed_padded(numbers(t)[0], 4)
    } else {
        zero_padded(numbers(t)[i] as nat, widths()[i])
    }
}

/// What stands after the `i`-th number in [`rfc3339_text`].
spec fn rfc3339_mark(i: int) -> Seq<char> {
    if i < 2 {
        "-"@
    } else if i == 2 {
        "T"@
    } else if i < 5 {
        ":"@
    } else if i == 5 {
        "."@
    } else {
        "Z"@
    }
}

/// The pieces [`rfc3339_text`] is made of: each number, then its mark.
spec fn rfc3339_pieces(t: Utc) -> Seq<Seq<char>> {
    Seq::new(
        14,
        |j: int|
            if j % 2 == 0 {
                field(t, j / 2)
            } else {
                rfc3339_mark(j / 2)
            },
    )
}

/// The pieces [`compact_text`] is made of: the date, a `T`, then the time.
spec fn compact_pieces(t: Utc) -> Seq<Seq<char>> {
    Seq::new(
        8,
        |j: int|
            if j < 3 {
                field(t, j)
            } else if j == 3 {
                "T"@
            } else {
                field(t, j - 1)
            },
    )
}

proof fn lemma_joined_step(fs: Seq<Seq<char>>, k: int)
    requires
        0 <= k < fs.len(),
    ensures
        joined(fs.take(k + 1)) == joined(fs.take(k)) + fs[k],
{
    assert(fs.take(k + 1).drop_last() =~= fs.take(k));
}

proof fn lemma_rfc3339_pieces(t: Utc)
    ensures
        joined(rfc3339_pieces(t)) == rfc3339_text(t),
{
    let p = rfc3339_pieces(t);
    assert(joined(p.take(0)) == Seq::<char>::empty());
    lemma_joined_step(p, 0);
    lemma_joined_step(p, 1);
    lemma_joined_step(p, 2);
    lemma_joined_step(p, 3);
    lemma_joined_step(p, 4);
    lemma_joined_step(p, 5);
    lemma_joined_step(p, 6);
    lemma_joined_step(p, 7);
    lemma_joined_step(p, 8);
    lemma_joined_step(p, 9);
    lemma_joined_step(p, 10);
    lemma_joined_step(p, 11);
    lemma_joined_step(p, 12);
    lemma_joined_step(p, 13);
    assert(p.take(14) =~= p);
    assert(Seq::<char>::empty() + p[0] =~= p[0]);
}

proof fn lemma_compact_pieces(t: Utc)
    ensures
        joined(compact_pieces(t)) == compact_text(t),
{
    let p = compact_pieces(t);
    assert(joined(p.take(0)) == Seq::<char>::empty());
    lemma_joined_step(p, 0);
    lemma_joined_step(p, 1);
    lemma_joined_step(p, 2);
    lemma_joined_step(p, 3);
    lemma_joined_step(p, 4);
    lemma_joined_step(p, 5);
    lemma_joined_step(p, 6);
    lemma_joined_step(p, 7);
    assert(p.take(8) =~= p);
    assert(Seq::<char>::empty() + p[0] =~= p[0]);
}

/// The instant falls in a year written with four digits, 0 to 9999.
pub open spec fn four_digit_year(t: Utc) -> bool {
    0 <= parts_of(t.seconds as int).0 <= 9999
}

/// `a` is strictly earlier than `b`.
pub open spec fn earlier(a: Utc, b: Utc) -> bool {
    a.seconds < b.seconds || (a.seconds == b.seconds && a.millis < b.millis)
}

/// Each number is written with its width, and a smaller one sorts first.
proof fn lemma_fields(a: Utc, b: Utc, i: int)
    requires
        four_digit_year(a),
        four_digit_year(b),
        a.millis < 1000,
        b.millis < 1000,
        0 <= i < 7,
    ensures
        field(a, i).len() == widths()[i],
        field(b, i).len() == widths()[i],
        numbers(a)[i] < numbers(b)[i] ==> lex_less(field(a, i), field(b, i)),
{
    lemma_parts_ranges(a.seconds as int);
    lemma_parts_ranges(b.seconds as int);
    reveal_with_fuel(pow10, 5);
    let x = numbers(a)[i];
    let y = numbers(b)[i];
    let w = widths()[i];
    assert(0 <= x < pow10(w) && 0 <= y < pow10(w));
    lemma_padded_order(x as nat, y as nat, w);
    lemma_padded_order(y as nat, x as nat, w);
}

/// The first of the seven numbers in which an earlier instant differs from a
/// later one is smaller.
proof fn lemma_first_difference(a: Utc, b: Utc) -> (f: int)
    requires
        earlier(a, b),
    ensures
        0 <= f < 7,
        numbers(a)[f] < numbers(b)[f],
        forall|g: int| 0 <= g < f ==> numbers(a)[g] == numbers(b)[g],
{
    let na = numbers(a);
    let nb = numbers(b);
    if a.seconds < b.seconds {
        lemma_parts_in_order(a.seconds as int, b.seconds as int);
        if na[0] != nb[0] {
            0
        } else if na[1] != nb[1] {
            1
        } else if na[2] != nb[2] {
            2
        } else if na[3] != nb[3] {
            3
        } else if na[4] != nb[4] {
            4
        } else {
            5
        }
    } else {
        6
    }
}

/// Both texts sort in time order: of two instants in years of four digits,
/// with fewer than a thousand milliseconds each, the earlier one's
/// [`Utc::rfc3339`] text sorts first, and so does its [`Utc::compact`] id.
#[verifier::rlimit(40)]
pub proof fn law_texts_sort_in_time_order(a: Utc, b: Utc)
    requires
        four_digit_year(a),
        four_digit_year(b),
        a.millis < 1000,
        b.millis < 1000,
        earlier(a, b),
    ensures
        lex_less(rfc3339_text(a), rfc3339_text(b)),
        lex_less(compact_text(a), compact_text(b)),
{
    let f = lemma_first_difference(a, b);
    assert forall|i: int| 0 <= i < 7 implies #[trigger] field(a, i).len() == field(b, i).len() && (i < f
        ==> field(a, i) == field(b, i)) by {
        lemma_fields(a, b, i);
    }
    lemma_fields(a, b, f);
    let ra = rfc3339_pieces(a);
    let rb = rfc3339_pieces(b);
    assert forall|j: int| 0 <= j < 14 implies (#[trigger] ra[j]).len() == rb[j].len() && (j < 2 * f ==> ra[j]
        == rb[j]) by {
        if j % 2 == 0 {
            assert(field(a, j / 2).len() == field(b, j / 2).len());
        }
    }
    lemma_joined_less(ra, rb, 2 * f);
    let ca = compact_pieces(a);
    let cb = compact_pieces(b);
    let k = if f < 3 {
        f
    } else {
        f + 1
    };
    assert forall|j: int| 0 <= j < 8 implies (#[trigger] ca[j]).len() == cb[j].len() && (j < k ==> ca[j]
        == cb[j]) by {
        if j < 3 {
            assert(field(a, j).len() == field(b, j).len());
        } else if j > 3 {
            assert(field(a, j - 1).len() == field(b, j - 1).len());
        }
    }
    lemma_joined_less(ca, cb, k);
    lemma_rfc3339_pieces(a);
    lemma_rfc3339_pieces(b);
    lemma_compact_pieces(a);
    lemma_compact_pieces(b);
}

} // verus!
