//! Timestamp and identifier helpers: the current time formatted as an
//! RFC 3339-style UTC string, a strict parser for that form, and random
//! identifiers in the canonical hyphenated UUID text form.

use vstd::prelude::*;
use vstd::string::{StrSliceExecFns, StringSliceAdditionalSpecFns};

use crate::text::{ascii_to_string, chars_of};

verus! {

// ---------------------------------------------------------------------------
// Civil calendar arithmetic (proleptic Gregorian, days since 1970-01-01)
// ---------------------------------------------------------------------------

pub open spec fn is_leap(y: int) -> bool {
    y % 4 == 0 && (y % 100 != 0 || y % 400 == 0)
}

pub open spec fn days_in_year(y: int) -> int {
    if is_leap(y) {
        366
    } else {
        365
    }
}

pub open spec fn days_in_month(y: int, m: int) -> int {
    if m == 1 {
        31
    } else if m == 2 {
        if is_leap(y) {
            29
        } else {
            28
        }
    } else if m == 3 {
        31
    } else if m == 4 {
        30
    } else if m == 5 {
        31
    } else if m == 6 {
        30
    } else if m == 7 {
        31
    } else if m == 8 {
        31
    } else if m == 9 {
        30
    } else if m == 10 {
        31
    } else if m == 11 {
        30
    } else {
        31
    }
}

/// Days from 1970-01-01 to the first day of year `y`.
pub open spec fn days_before_year(y: int) -> int
    decreases y - 1970,
{
    if y <= 1970 {
        0
    } else {
        days_before_year(y - 1) + days_in_year(y - 1)
    }
}

/// Days from the first of January to the first day of month `m` in year `y`.
pub open spec fn days_before_month(y: int, m: int) -> int
    decreases m,
{
    if m <= 1 {
        0
    } else {
        days_before_month(y, m - 1) + days_in_month(y, m - 1)
    }
}

pub open spec fn civil_to_days(y: int, m: int, d: int) -> int {
    days_before_year(y) + days_before_month(y, m) + (d - 1)
}

pub open spec fn valid_civil(y: int, m: int, d: int, h: int, mi: int, s: int) -> bool {
    &&& 1970 <= y <= 9999
    &&& 1 <= m <= 12
    &&& 1 <= d <= days_in_month(y, m)
    &&& 0 <= h < 24
    &&& 0 <= mi < 60
    &&& 0 <= s < 60
}

pub open spec fn civil_to_secs(y: int, m: int, d: int, h: int, mi: int, s: int) -> int {
    civil_to_days(y, m, d) * 86400 + h * 3600 + mi * 60 + s
}

pub fn days_in_year_exec(y: u64) -> (r: u64)
    ensures
        r == days_in_year(y as int),
{
    if (y % 4 == 0 && y % 100 != 0) || y % 400 == 0 {
        366
    } else {
        365
    }
}

pub fn days_in_month_exec(y: u64, m: u64) -> (r: u64)
    requires
        1 <= m <= 12,
    ensures
        r == days_in_month(y as int, m as int),
{
    if m == 1 {
        31
    } else if m == 2 {
        if (y % 4 == 0 && y % 100 != 0) || y % 400 == 0 {
            29
        } else {
            28
        }
    } else if m == 3 {
        31
    } else if m == 4 {
        30
    } else if m == 5 {
        31
    } else if m == 6 {
        30
    } else if m == 7 {
        31
    } else if m == 8 {
        31
    } else if m == 9 {
        30
    } else if m == 10 {
        31
    } else if m == 11 {
        30
    } else {
        31
    }
}

/// Each year has at most 366 days, so the day count to year `y` is small.
proof fn lemma_days_before_year_bound(y: int)
    requires
        1970 <= y <= 10000,
    ensures
        0 <= days_before_year(y) <= 366 * (y - 1970),
    decreases y - 1970,
{
    if y > 1970 {
        lemma_days_before_year_bound(y - 1);
    }
}

/// Days from 1970-01-01 to the first day of year `y`, computed by summing
/// year lengths.
pub fn days_before_year_exec(y: u64) -> (r: u64)
    requires
        1970 <= y <= 10000,
    ensures
        r == days_before_year(y as int),
        r <= 366 * (y - 1970),
{
    proof {
        lemma_days_before_year_bound(y as int);
    }
    let mut acc: u64 = 0;
    let mut cur: u64 = 1970;
    while cur < y
        invariant
            1970 <= cur <= y <= 10000,
            acc == days_before_year(cur as int),
            acc <= 366 * (cur - 1970),
        decreases y - cur,
    {
        proof {
            lemma_days_before_year_bound(cur as int + 1);
            assert(days_before_year(cur as int + 1) == days_before_year(cur as int)
                + days_in_year(cur as int));
        }
        acc = acc + days_in_year_exec(cur);
        cur = cur + 1;
    }
    acc
}

/// Convert a day count into the civil date it falls on. The bound keeps the
/// year within four digits.
pub fn civil_from_days(days: u64) -> (r: (u64, u64, u64))
    requires
        days < days_before_year(10000),
    ensures
        ({
            let (y, m, d) = r;
            &&& 1970 <= y <= 9999
            &&& 1 <= m <= 12
            &&& 1 <= d <= days_in_month(y as int, m as int)
            &&& civil_to_days(y as int, m as int, d as int) == days
        }),
{
    let mut y: u64 = 1970;
    let mut rem: u64 = days;
    proof {
        lemma_days_before_year_bound(10000);
    }
    loop
        invariant_except_break
            1970 <= y,
            days_before_year(y as int) + rem == days,
            days < days_before_year(10000),
        ensures
            1970 <= y,
            days_before_year(y as int) + rem == days,
            days < days_before_year(10000),
            rem < days_in_year(y as int),
        decreases rem,
    {
        let diy = days_in_year_exec(y);
        if rem < diy {
            break;
        }
        proof {
            assert(days_before_year(y as int + 1) == days_before_year(y as int) + days_in_year(
                y as int,
            ));
        }
        rem = rem - diy;
        proof {
            if y as int >= 10000 {
                lemma_days_before_year_monotone(10000, y as int);
                assert(false);
            }
        }
        y = y + 1;
    }
    proof {
        if y >= 10000 {
            lemma_days_before_year_monotone(10000, y as int);
            assert(false);
        }
        assert(y <= 9999);
    }
    let mut m: u64 = 1;
    loop
        invariant_except_break
            1 <= m <= 12,
            1970 <= y <= 9999,
            days_before_year(y as int) + days_before_month(y as int, m as int) + rem == days,
            rem + days_before_month(y as int, m as int) < days_in_year(y as int),
        ensures
            1 <= m <= 12,
            1970 <= y <= 9999,
            days_before_year(y as int) + days_before_month(y as int, m as int) + rem == days,
            rem < days_in_month(y as int, m as int),
        decreases 12 - m,
    {
        let dim = days_in_month_exec(y, m);
        if rem < dim {
            break;
        }
        if m == 12 {
            proof {
                lemma_year_month_total(y as int);
                assert(false);
            }
            break;
        }
        proof {
            assert(days_before_month(y as int, m as int + 1) == days_before_month(
                y as int,
                m as int,
            ) + days_in_month(y as int, m as int));
        }
        rem = rem - dim;
        m = m + 1;
    }
    (y, m, rem + 1)
}

/// The months of a year sum to its day count.
proof fn lemma_year_month_total(y: int)
    ensures
        days_before_month(y, 12) + days_in_month(y, 12) == days_in_year(y),
{
    assert(days_before_month(y, 12) + 31 == days_in_year(y)) by {
        assert(days_before_month(y, 1) == 0);
        assert(days_before_month(y, 2) == 31);
        assert(days_before_month(y, 3) == days_before_month(y, 2) + days_in_month(y, 2));
        assert(days_before_month(y, 4) == days_before_month(y, 3) + 31);
        assert(days_before_month(y, 5) == days_before_month(y, 4) + 30);
        assert(days_before_month(y, 6) == days_before_month(y, 5) + 31);
        assert(days_before_month(y, 7) == days_before_month(y, 6) + 30);
        assert(days_before_month(y, 8) == days_before_month(y, 7) + 31);
        assert(days_before_month(y, 9) == days_before_month(y, 8) + 31);
        assert(days_before_month(y, 10) == days_before_month(y, 9) + 30);
        assert(days_before_month(y, 11) == days_before_month(y, 10) + 31);
        assert(days_before_month(y, 12) == days_before_month(y, 11) + 30);
    }
}

proof fn lemma_days_before_year_monotone(a: int, b: int)
    requires
        1970 <= a <= b,
    ensures
        days_before_year(a) <= days_before_year(b),
    decreases b - a,
{
    if a < b {
        lemma_days_before_year_monotone(a, b - 1);
        assert(days_before_year(b) == days_before_year(b - 1) + days_in_year(b - 1));
    }
}

/// Days from the first of January to the first day of month `m`.
pub fn days_before_month_exec(y: u64, m: u64) -> (r: u64)
    requires
        1 <= m <= 12,
    ensures
        r == days_before_month(y as int, m as int),
        r <= 341,
{
    let mut acc: u64 = 0;
    let mut cur: u64 = 1;
    proof {
        lemma_days_before_month_bound(y as int, m as int);
    }
    while cur < m
        invariant
            1 <= cur <= m <= 12,
            acc == days_before_month(y as int, cur as int),
            acc <= 31 * (cur - 1),
        decreases m - cur,
    {
        proof {
            lemma_days_before_month_bound(y as int, cur as int + 1);
            assert(days_before_month(y as int, cur as int + 1) == days_before_month(
                y as int,
                cur as int,
            ) + days_in_month(y as int, cur as int));
        }
        acc = acc + days_in_month_exec(y, cur);
        cur = cur + 1;
    }
    acc
}

proof fn lemma_days_before_month_bound(y: int, m: int)
    requires
        1 <= m <= 12,
    ensures
        0 <= days_before_month(y, m) <= 31 * (m - 1),
    decreases m,
{
    if m > 1 {
        lemma_days_before_month_bound(y, m - 1);
    }
}

// ---------------------------------------------------------------------------
// Timestamp text: YYYY-MM-DDTHH:MM:SS.ffffffZ
// ---------------------------------------------------------------------------

/// A point in time: seconds since 1970-01-01T00:00:00Z, plus microseconds.
#[derive(Clone, Copy, Debug, PartialEq, Eq, Structural)]
pub struct Timestamp {
    pub secs: u64,
    pub micros: u32,
}

/// Why a timestamp string was rejected.
#[derive(Clone, Copy, Debug, PartialEq, Eq, Structural)]
pub enum TimeError {
    /// Not in the form YYYY-MM-DDTHH:MM:SS(.1-9 digits)Z with fields in
    /// range and the year between 1970 and 9999.
    Invalid,
}

pub open spec fn pad2(n: int) -> Seq<u8> {
    seq![(0x30 + n / 10) as u8, (0x30 + n % 10) as u8]
}

pub open spec fn pad6(n: int) -> Seq<u8> {
    seq![
        (0x30 + n / 100000) as u8,
        (0x30 + (n / 10000) % 10) as u8,
        (0x30 + (n / 1000) % 10) as u8,
        (0x30 + (n / 100) % 10) as u8,
        (0x30 + (n / 10) % 10) as u8,
        (0x30 + n % 10) as u8,
    ]
}

/// The 27 bytes of a formatted timestamp.
pub open spec fn ts_text(y: int, m: int, d: int, h: int, mi: int, s: int, us: int) -> Seq<u8> {
    seq![
        (0x30 + y / 1000) as u8,
        (0x30 + (y / 100) % 10) as u8,
        (0x30 + (y / 10) % 10) as u8,
        (0x30 + y % 10) as u8,
        0x2du8,
        (0x30 + m / 10) as u8,
        (0x30 + m % 10) as u8,
        0x2du8,
        (0x30 + d / 10) as u8,
        (0x30 + d % 10) as u8,
        0x54u8,
        (0x30 + h / 10) as u8,
        (0x30 + h % 10) as u8,
        0x3au8,
        (0x30 + mi / 10) as u8,
        (0x30 + mi % 10) as u8,
        0x3au8,
        (0x30 + s / 10) as u8,
        (0x30 + s % 10) as u8,
        0x2eu8,
        (0x30 + us / 100000) as u8,
        (0x30 + (us / 10000) % 10) as u8,
        (0x30 + (us / 1000) % 10) as u8,
        (0x30 + (us / 100) % 10) as u8,
        (0x30 + (us / 10) % 10) as u8,
        (0x30 + us % 10) as u8,
        0x5au8,
    ]
}

pub open spec fn pow10(k: nat) -> int
    decreases k,
{
    if k == 0 {
        1
    } else {
        10 * pow10((k - 1) as nat)
    }
}

pub open spec fn ts_digit(b: Seq<u8>, i: int) -> int {
    b[i] - 0x30
}

/// The fixed date-and-time part has digits and separators in place.
pub open spec fn ts_shape_ok(b: Seq<u8>) -> bool {
    &&& b.len() >= 20
    &&& crate::numtext::is_digit(b[0])
    &&& crate::numtext::is_digit(b[1])
    &&& crate::numtext::is_digit(b[2])
    &&& crate::numtext::is_digit(b[3])
    &&& b[4] == 0x2d
    &&& crate::numtext::is_digit(b[5])
    &&& crate::numtext::is_digit(b[6])
    &&& b[7] == 0x2d
    &&& crate::numtext::is_digit(b[8])
    &&& crate::numtext::is_digit(b[9])
    &&& b[10] == 0x54
    &&& crate::numtext::is_digit(b[11])
    &&& crate::numtext::is_digit(b[12])
    &&& b[13] == 0x3a
    &&& crate::numtext::is_digit(b[14])
    &&& crate::numtext::is_digit(b[15])
    &&& b[16] == 0x3a
    &&& crate::numtext::is_digit(b[17])
    &&& crate::numtext::is_digit(b[18])
}

/// The fraction-and-terminator part: either a bare Z, or a dot, one to nine
/// fraction digits, and a final Z.
pub open spec fn ts_frac_ok(b: Seq<u8>) -> bool {
    if b.len() == 20 {
        b[19] == 0x5a
    } else {
        &&& b.len() >= 22
        &&& b.len() <= 30
        &&& b[19] == 0x2e
        &&& b.last() == 0x5a
        &&& crate::numtext::is_digits(b.subrange(20, b.len() - 1))
    }
}

/// The microseconds the fraction denotes: scaled up for fewer than six
/// digits, truncated beyond six.
pub open spec fn ts_frac_us(b: Seq<u8>) -> int {
    if b.len() == 20 {
        0
    } else {
        let fd = b.len() - 21;
        let v = crate::numtext::digits_val(b.subrange(20, b.len() - 1)) as int;
        if fd <= 6 {
            v * pow10((6 - fd) as nat)
        } else {
            v / pow10((fd - 6) as nat)
        }
    }
}

pub open spec fn ts_y(b: Seq<u8>) -> int {
    ts_digit(b, 0) * 1000 + ts_digit(b, 1) * 100 + ts_digit(b, 2) * 10 + ts_digit(b, 3)
}

pub open spec fn ts_mo(b: Seq<u8>) -> int {
    ts_digit(b, 5) * 10 + ts_digit(b, 6)
}

pub open spec fn ts_d(b: Seq<u8>) -> int {
    ts_digit(b, 8) * 10 + ts_digit(b, 9)
}

pub open spec fn ts_h(b: Seq<u8>) -> int {
    ts_digit(b, 11) * 10 + ts_digit(b, 12)
}

pub open spec fn ts_mi(b: Seq<u8>) -> int {
    ts_digit(b, 14) * 10 + ts_digit(b, 15)
}

pub open spec fn ts_s(b: Seq<u8>) -> int {
    ts_digit(b, 17) * 10 + ts_digit(b, 18)
}

/// Strict parse of the timestamp form this crate writes.
pub open spec fn parse_ts(b: Seq<u8>) -> Option<Timestamp> {
    if ts_shape_ok(b) && ts_frac_ok(b) && valid_civil(
        ts_y(b),
        ts_mo(b),
        ts_d(b),
        ts_h(b),
        ts_mi(b),
        ts_s(b),
    ) {
        Some(
            Timestamp {
                secs: civil_to_secs(ts_y(b), ts_mo(b), ts_d(b), ts_h(b), ts_mi(b), ts_s(b)) as u64,
                micros: ts_frac_us(b) as u32,
            },
        )
    } else {
        None
    }
}

/// Append the two zero-padded digits of `n`.
fn push_pad2(out: &mut Vec<u8>, n: u64)
    requires
        n < 100,
    ensures
        final(out)@ == old(out)@ + pad2(n as int),
{
    out.push(0x30 + (n / 10) as u8);
    out.push(0x30 + (n % 10) as u8);
    proof {
        assert(out@ =~= old(out)@ + pad2(n as int));
    }
}

/// The formatted timestamp text for a valid civil time.
pub fn format_timestamp(y: u64, m: u64, d: u64, h: u64, mi: u64, s: u64, us: u64) -> (r: String)
    requires
        valid_civil(y as int, m as int, d as int, h as int, mi as int, s as int),
        us < 1000000,
    ensures
        r@ == chars_of(
            ts_text(y as int, m as int, d as int, h as int, mi as int, s as int, us as int),
        ),
{
    let mut out: Vec<u8> = Vec::new();
    out.push(0x30 + (y / 1000) as u8);
    out.push(0x30 + ((y / 100) % 10) as u8);
    out.push(0x30 + ((y / 10) % 10) as u8);
    out.push(0x30 + (y % 10) as u8);
    out.push(0x2d);
    push_pad2(&mut out, m);
    out.push(0x2d);
    push_pad2(&mut out, d);
    out.push(0x54);
    push_pad2(&mut out, h);
    out.push(0x3a);
    push_pad2(&mut out, mi);
    out.push(0x3a);
    push_pad2(&mut out, s);
    out.push(0x2e);
    out.push(0x30 + (us / 100000) as u8);
    out.push(0x30 + ((us / 10000) % 10) as u8);
    out.push(0x30 + ((us / 1000) % 10) as u8);
    out.push(0x30 + ((us / 100) % 10) as u8);
    out.push(0x30 + ((us / 10) % 10) as u8);
    out.push(0x30 + (us % 10) as u8);
    out.push(0x5a);
    proof {
        assert(out@ =~= ts_text(
            y as int,
            m as int,
            d as int,
            h as int,
            mi as int,
            s as int,
            us as int,
        ));
        assert(crate::text::all_ascii(out@)) by {
            assert forall|i: int| 0 <= i < out@.len() implies out@[i] < 128 by {}
        }
    }
    ascii_to_string(out)
}

/// The formatted text of a valid civil time parses back to the instant it
/// denotes.
#[verifier::rlimit(60)]
pub proof fn lemma_ts_roundtrip(y: int, m: int, d: int, h: int, mi: int, s: int, us: int)
    requires
        valid_civil(y, m, d, h, mi, s),
        0 <= us < 1000000,
    ensures
        parse_ts(ts_text(y, m, d, h, mi, s, us)) == Some(
            Timestamp { secs: civil_to_secs(y, m, d, h, mi, s) as u64, micros: us as u32 },
        ),
{
    let b = ts_text(y, m, d, h, mi, s, us);
    assert(b.len() == 27);
    assert(ts_shape_ok(b)) by {
        assert(0 <= y / 1000 <= 9 && 0 <= m / 10 <= 9 && 0 <= d / 10 <= 9 && 0 <= h / 10 <= 9
            && 0 <= mi / 10 <= 9 && 0 <= s / 10 <= 9);
    }
    assert(b[19] == 0x2e && b.last() == 0x5a);
    let fr = b.subrange(20, 26);
    assert(fr =~= pad6(us));
    lemma_pad6_digits(us);
    assert(crate::numtext::is_digits(fr));
    assert(crate::numtext::digits_val(fr) == us);
    assert(ts_frac_ok(b)) by {
        assert(fr == b.subrange(20, b.len() - 1));
    }
    assert(ts_y(b) == y) by {
        assert(b[0] as int == 0x30 + y / 1000);
        assert(b[1] as int == 0x30 + (y / 100) % 10);
        assert(b[2] as int == 0x30 + (y / 10) % 10);
        assert(b[3] as int == 0x30 + y % 10);
        lemma_four_digits(y);
    }
    assert(ts_mo(b) == m) by {
        assert(b[5] as int == 0x30 + m / 10);
        assert(b[6] as int == 0x30 + m % 10);
    }
    assert(ts_d(b) == d) by {
        assert(b[8] as int == 0x30 + d / 10);
        assert(b[9] as int == 0x30 + d % 10);
    }
    assert(ts_h(b) == h) by {
        assert(b[11] as int == 0x30 + h / 10);
        assert(b[12] as int == 0x30 + h % 10);
    }
    assert(ts_mi(b) == mi) by {
        assert(b[14] as int == 0x30 + mi / 10);
        assert(b[15] as int == 0x30 + mi % 10);
    }
    assert(ts_s(b) == s) by {
        assert(b[17] as int == 0x30 + s / 10);
        assert(b[18] as int == 0x30 + s % 10);
    }
    assert(ts_frac_us(b) == us) by {
        assert(b.len() - 21 == 6);
        assert(crate::numtext::digits_val(b.subrange(20, b.len() - 1)) == us) by {
            assert(b.subrange(20, b.len() - 1) == fr);
        }
        assert(pow10(0) == 1);
    }
}

/// Splitting a four-digit number into its digits and back.
proof fn lemma_four_digits(y: int)
    requires
        0 <= y <= 9999,
    ensures
        (y / 1000) * 1000 + ((y / 100) % 10) * 100 + ((y / 10) % 10) * 10 + y % 10 == y,
{
    vstd::arithmetic::div_mod::lemma_div_denominator(y, 10, 10);
    vstd::arithmetic::div_mod::lemma_div_denominator(y, 100, 10);
    assert((y / 1000) * 10 + (y / 100) % 10 == y / 100) by {
        assert(y / 1000 == (y / 100) / 10);
        assert((y / 100) / 10 * 10 + (y / 100) % 10 == y / 100);
    }
    assert((y / 100) * 10 + (y / 10) % 10 == y / 10) by {
        assert(y / 100 == (y / 10) / 10);
        assert((y / 10) / 10 * 10 + (y / 10) % 10 == y / 10);
    }
    assert((y / 10) * 10 + y % 10 == y);
}

/// The six padded fraction digits are digits and denote the value.
proof fn lemma_pad6_digits(us: int)
    requires
        0 <= us < 1000000,
    ensures
        crate::numtext::is_digits(pad6(us)),
        crate::numtext::digits_val(pad6(us)) == us,
{
    let p = pad6(us);
    assert forall|i: int| 0 <= i < p.len() implies crate::numtext::is_digit(#[trigger] p[i]) by {
        assert(0 <= us / 100000 <= 9);
    }
    assert(p.take(0) =~= Seq::<u8>::empty());
    assert(p.take(1).take(0) =~= p.take(0));
    assert(p.take(2).take(1) =~= p.take(1));
    assert(p.take(3).take(2) =~= p.take(2));
    assert(p.take(4).take(3) =~= p.take(3));
    assert(p.take(5).take(4) =~= p.take(4));
    assert(p.take(6).take(5) =~= p.take(5));
    assert(p.take(6) =~= p);
    assert(p.take(1).last() == p[0]);
    assert(p.take(2).last() == p[1]);
    assert(p.take(3).last() == p[2]);
    assert(p.take(4).last() == p[3]);
    assert(p.take(5).last() == p[4]);
    assert(p.take(6).last() == p[5]);
    assert(crate::numtext::digits_val(p.take(0)) == 0);
    assert(0 <= us / 100000 <= 9);
    assert(p[0] as int == 0x30 + us / 100000);
    assert(p[1] as int == 0x30 + (us / 10000) % 10);
    assert(p[2] as int == 0x30 + (us / 1000) % 10);
    assert(p[3] as int == 0x30 + (us / 100) % 10);
    assert(p[4] as int == 0x30 + (us / 10) % 10);
    assert(p[5] as int == 0x30 + us % 10);
    assert(crate::numtext::digits_val(p.take(1)) == us / 100000);
    assert(crate::numtext::digits_val(p.take(2)) == (us / 100000) * 10 + (us / 10000) % 10);
    assert((us / 100000) * 10 + (us / 10000) % 10 == us / 10000) by {
        vstd::arithmetic::div_mod::lemma_div_denominator(us, 10000, 10);
        assert(us / 100000 == (us / 10000) / 10);
        assert((us / 10000) / 10 * 10 + (us / 10000) % 10 == us / 10000);
    }
    assert(crate::numtext::digits_val(p.take(3)) == (us / 10000) * 10 + (us / 1000) % 10);
    assert((us / 10000) * 10 + (us / 1000) % 10 == us / 1000) by {
        vstd::arithmetic::div_mod::lemma_div_denominator(us, 1000, 10);
        assert(us / 10000 == (us / 1000) / 10);
        assert((us / 1000) / 10 * 10 + (us / 1000) % 10 == us / 1000);
    }
    assert(crate::numtext::digits_val(p.take(4)) == (us / 1000) * 10 + (us / 100) % 10);
    assert((us / 1000) * 10 + (us / 100) % 10 == us / 100) by {
        vstd::arithmetic::div_mod::lemma_div_denominator(us, 100, 10);
        assert(us / 1000 == (us / 100) / 10);
        assert((us / 100) / 10 * 10 + (us / 100) % 10 == us / 100);
    }
    assert(crate::numtext::digits_val(p.take(5)) == (us / 100) * 10 + (us / 10) % 10);
    assert((us / 100) * 10 + (us / 10) % 10 == us / 10) by {
        vstd::arithmetic::div_mod::lemma_div_denominator(us, 10, 10);
        assert(us / 100 == (us / 10) / 10);
        assert((us / 10) / 10 * 10 + (us / 10) % 10 == us / 10);
    }
    assert(crate::numtext::digits_val(p.take(6)) == (us / 10) * 10 + us % 10);
    assert((us / 10) * 10 + us % 10 == us);
}

proof fn lemma_pow10_pos(k: nat)
    ensures
        pow10(k) >= 1,
    decreases k,
{
    if k > 0 {
        lemma_pow10_pos((k - 1) as nat);
    }
}

proof fn lemma_pow10_mono(a: nat, b: nat)
    requires
        a <= b,
    ensures
        pow10(a) <= pow10(b),
    decreases b,
{
    if a < b {
        lemma_pow10_mono(a, (b - 1) as nat);
        lemma_pow10_pos((b - 1) as nat);
    }
}

proof fn lemma_pow10_bound(k: nat)
    ensures
        pow10(k) >= 1,
        k <= 9 ==> pow10(k) <= 1000000000,
    decreases k,
{
    lemma_pow10_pos(k);
    if k <= 9 {
        lemma_pow10_mono(k, 9);
        reveal_with_fuel(pow10, 10);
        assert(pow10(9) == 1000000000);
    }
}

/// A digit string's value is below ten to its length.
proof fn lemma_digits_val_upper(s: Seq<u8>)
    requires
        forall|i: int| 0 <= i < s.len() ==> crate::numtext::is_digit(#[trigger] s[i]),
    ensures
        crate::numtext::digits_val(s) < pow10(s.len()),
    decreases s.len(),
{
    lemma_pow10_pos(s.len());
    if s.len() > 0 {
        lemma_digits_val_upper(s.take(s.len() - 1));
        assert(pow10(s.len()) == 10 * pow10((s.len() - 1) as nat));
        assert(crate::numtext::is_digit(s.last()));
    }
}

fn pow10_exec(k: u64) -> (r: u64)
    requires
        k <= 9,
    ensures
        r == pow10(k as nat),
{
    proof {
        reveal_with_fuel(pow10, 10);
    }
    if k == 0 {
        1
    } else if k == 1 {
        10
    } else if k == 2 {
        100
    } else if k == 3 {
        1000
    } else if k == 4 {
        10000
    } else if k == 5 {
        100000
    } else if k == 6 {
        1000000
    } else if k == 7 {
        10000000
    } else if k == 8 {
        100000000
    } else {
        1000000000
    }
}

/// Clamp a raw clock reading into the representable civil range and break
/// it into calendar fields.
fn clamp_to_civil(rs: i64, rus: u32) -> (r: (u64, u64, u64, u64, u64, u64, u64))
    ensures
        ({
            let (y, m, d, h, mi, sec, us) = r;
            &&& valid_civil(y as int, m as int, d as int, h as int, mi as int, sec as int)
            &&& us < 1000000
        }),
{
    let us: u64 = if rus > 999999 {
        999999
    } else {
        rus as u64
    };
    let limit_days = days_before_year_exec(10000);
    proof {
        lemma_days_before_year_bound(10000);
        lemma_days_before_year_monotone(1971, 10000);
        assert(days_before_year(1971) == days_before_year(1970) + days_in_year(1970));
        assert(limit_days >= 365);
    }
    let limit_secs = limit_days * 86400 - 1;
    let secs: u64 = if rs < 0 {
        0
    } else if rs as u64 > limit_secs {
        limit_secs
    } else {
        rs as u64
    };
    let days = secs / 86400;
    let rem = secs % 86400;
    proof {
        assert(days * 86400 + rem == secs);
        assert(days < limit_days) by {
            if days >= limit_days {
                vstd::arithmetic::mul::lemma_mul_inequality(
                    limit_days as int,
                    days as int,
                    86400,
                );
            }
        }
    }
    let (y, m, d) = civil_from_days(days);
    let h = rem / 3600;
    let r2 = rem % 3600;
    let mi = r2 / 60;
    let sec = r2 % 60;
    (y, m, d, h, mi, sec, us)
}

/// Helpers exposed to callers: the current UTC time as text, a strict
/// parser for that text, and fresh random identifiers.
pub struct Utils;

/// Relies on chrono's Utc::now, DateTime::timestamp and
/// DateTime::timestamp_subsec_micros: the current UTC time as whole seconds
/// since the epoch and microseconds past that second; the microseconds may
/// reach 1,999,999 during a leap second, and nothing else is promised of
/// the clock. Utc::now itself aborts on a machine whose clock is set before
/// 1970; that is chrono's own check of the system clock, outside any
/// parameter this wrapper could exclude.
#[verifier::external_body]
fn now_unix() -> (r: (i64, u32))
    ensures
        r.1 < 2000000,
{
    let now = chrono::Utc::now();
    (now.timestamp(), now.timestamp_subsec_micros())
}

/// Relies on uuid::Uuid::new_v4 and Uuid::into_bytes: sixteen random bytes
/// with the version nibble fixed to 4 and the RFC variant bits set; the
/// rest is random, so nothing more is promised. new_v4 aborts if the
/// operating system's random source fails; uuid offers no fallible
/// alternative.
#[verifier::external_body]
fn uuid_v4_bytes() -> (r: [u8; 16])
    ensures
        r@.len() == 16,
        r@[6] / 16 == 4,
        r@[8] / 64 == 2,
{
    uuid::Uuid::new_v4().into_bytes()
}

pub open spec fn hex_digit(n: int) -> u8 {
    if n < 10 {
        (0x30 + n) as u8
    } else {
        (0x57 + n) as u8
    }
}

pub open spec fn is_hex_digit_char(c: char) -> bool {
    ('0' <= c <= '9') || ('a' <= c <= 'f')
}

impl Utils {
    /// The current UTC time in the form YYYY-MM-DDTHH:MM:SS.ffffffZ. A
    /// clock before 1970 or after the year 9999 is clamped to that range,
    /// and a leap-second microsecond overflow is clamped to 999999; the
    /// text always parses back with `parse_timestamp`.
    pub fn current_timestamp() -> (r: String)
        ensures
            r@.len() == 27,
            parse_ts(vstd::utf8::encode_utf8(r@)) is Some,
    {
        let (rs, rus) = now_unix();
        let (y, m, d, h, mi, sec, us) = clamp_to_civil(rs, rus);
        let out = format_timestamp(y, m, d, h, mi, sec, us);
        proof {
            let bs = ts_text(
                y as int,
                m as int,
                d as int,
                h as int,
                mi as int,
                sec as int,
                us as int,
            );
            lemma_ts_roundtrip(
                y as int,
                m as int,
                d as int,
                h as int,
                mi as int,
                sec as int,
                us as int,
            );
            assert(crate::text::all_ascii(bs)) by {
                assert forall|i: int| 0 <= i < bs.len() implies bs[i] < 128 by {}
            }
            crate::text::lemma_ascii_encode(bs);
            assert(out@ =~= chars_of(bs));
        }
        out
    }

    /// Parse a timestamp in exactly the form `current_timestamp` writes,
    /// with one to nine fraction digits (or none). Success is owed exactly
    /// on that form with every field in range.
    pub fn parse_timestamp(s: &str) -> (r: Result<Timestamp, TimeError>)
        ensures
            (match r {
                Ok(t) => parse_ts(s.spec_bytes()) == Some(t),
                Err(_) => parse_ts(s.spec_bytes()) is None,
            }),
    {
        let b = StrSliceExecFns::as_bytes_vec(s);
        let ghost bv = s.spec_bytes();
        let n = b.len();
        if n < 20 {
            return Err(TimeError::Invalid);
        }
        let shape_ok = digit_at(&b, 0) && digit_at(&b, 1) && digit_at(&b, 2) && digit_at(&b, 3)
            && b[4] == 0x2d && digit_at(&b, 5) && digit_at(&b, 6) && b[7] == 0x2d && digit_at(
            &b,
            8,
        ) && digit_at(&b, 9) && b[10] == 0x54 && digit_at(&b, 11) && digit_at(&b, 12) && b[13]
            == 0x3a && digit_at(&b, 14) && digit_at(&b, 15) && b[16] == 0x3a && digit_at(&b, 17)
            && digit_at(&b, 18);
        if !shape_ok {
            return Err(TimeError::Invalid);
        }
        let y: u64 = (b[0] - 0x30) as u64 * 1000 + (b[1] - 0x30) as u64 * 100 + (b[2] - 0x30)
            as u64 * 10 + (b[3] - 0x30) as u64;
        let mo: u64 = (b[5] - 0x30) as u64 * 10 + (b[6] - 0x30) as u64;
        let d: u64 = (b[8] - 0x30) as u64 * 10 + (b[9] - 0x30) as u64;
        let h: u64 = (b[11] - 0x30) as u64 * 10 + (b[12] - 0x30) as u64;
        let mi: u64 = (b[14] - 0x30) as u64 * 10 + (b[15] - 0x30) as u64;
        let sec: u64 = (b[17] - 0x30) as u64 * 10 + (b[18] - 0x30) as u64;
        let us: u64;
        if n == 20 {
            if b[19] != 0x5a {
                return Err(TimeError::Invalid);
            }
            us = 0;
        } else {
            if b[19] != 0x2e || n < 22 || n > 30 {
                return Err(TimeError::Invalid);
            }
            if b[n - 1] != 0x5a {
                proof {
                    assert(bv.last() != 0x5a);
                }
                return Err(TimeError::Invalid);
            }
            proof {
                assert(bv.last() == 0x5a);
            }
            match crate::numtext::parse_u64_range(&b, 20, n - 1) {
                Some(v) => {
                    let fd = n - 21;
                    proof {
                        lemma_digits_val_upper(bv.subrange(20, n - 1));
                        lemma_pow10_bound(fd as nat);
                        lemma_pow10_bound((6 - fd) as nat);
                    }
                    if fd <= 6 {
                        let scale = pow10_exec(6 - fd as u64);
                        proof {
                            lemma_pow10_mul((fd) as nat, (6 - fd) as nat);
                            assert((v as int) * pow10((6 - fd) as nat) < pow10(6)) by {
                                vstd::arithmetic::mul::lemma_mul_inequality(
                                    v as int + 1,
                                    pow10(fd as nat),
                                    pow10((6 - fd) as nat),
                                );
                                vstd::arithmetic::mul::lemma_mul_is_distributive_add_other_way(
                                    pow10((6 - fd) as nat),
                                    v as int,
                                    1,
                                );
                            }
                            reveal_with_fuel(pow10, 10);
                        }
                        us = v * scale;
                    } else {
                        let scale = pow10_exec(fd as u64 - 6);
                        proof {
                            lemma_pow10_bound((fd - 6) as nat);
                            lemma_pow10_mul(6nat, (fd - 6) as nat);
                            assert((v as int) / pow10((fd - 6) as nat) < pow10(6)) by {
                                vstd::arithmetic::mul::lemma_mul_is_commutative(
                                    pow10((fd - 6) as nat),
                                    pow10(6),
                                );
                                vstd::arithmetic::div_mod::lemma_multiply_divide_lt(
                                    v as int,
                                    pow10((fd - 6) as nat),
                                    pow10(6),
                                );
                            }
                            reveal_with_fuel(pow10, 10);
                        }
                        us = v / scale;
                    }
                },
                None => {
                    proof {
                        if crate::numtext::is_digits(bv.subrange(20, n - 1)) {
                            lemma_digits_val_upper(bv.subrange(20, n - 1));
                            lemma_pow10_mono((n - 21) as nat, 9);
                            lemma_pow10_bound(9);
                            assert(false);
                        }
                    }
                    return Err(TimeError::Invalid);
                },
            }
        }
        if y < 1970 {
            return Err(TimeError::Invalid);
        }
        if mo < 1 || mo > 12 {
            return Err(TimeError::Invalid);
        }
        let dim = days_in_month_exec(y, mo);
        if d < 1 || d > dim {
            return Err(TimeError::Invalid);
        }
        if h > 23 || mi > 59 || sec > 59 {
            return Err(TimeError::Invalid);
        }
        let dby = days_before_year_exec(y);
        let dbm = days_before_month_exec(y, mo);
        let days = dby + dbm + (d - 1);
        let secs = days * 86400 + h * 3600 + mi * 60 + sec;
        proof {
            assert(valid_civil(y as int, mo as int, d as int, h as int, mi as int, sec as int));
            assert(secs == civil_to_secs(
                y as int,
                mo as int,
                d as int,
                h as int,
                mi as int,
                sec as int,
            ));
        }
        Ok(Timestamp { secs, micros: us as u32 })
    }

    /// A fresh random identifier in canonical hyphenated UUID text form:
    /// 36 lowercase hexadecimal characters with hyphens after the 8th,
    /// 13th, 18th and 23rd.
    pub fn generate_id() -> (r: String)
        ensures
            r@.len() == 36,
            r@[8] == '-' && r@[13] == '-' && r@[18] == '-' && r@[23] == '-',
            forall|i: int|
                0 <= i < 36 && i != 8 && i != 13 && i != 18 && i != 23 ==> is_hex_digit_char(
                    #[trigger] r@[i],
                ),
    {
        let bytes = uuid_v4_bytes();
        let mut out: Vec<u8> = Vec::new();
        push_hex_pair(&mut out, bytes[0]);
        push_hex_pair(&mut out, bytes[1]);
        push_hex_pair(&mut out, bytes[2]);
        push_hex_pair(&mut out, bytes[3]);
        out.push(0x2d);
        push_hex_pair(&mut out, bytes[4]);
        push_hex_pair(&mut out, bytes[5]);
        out.push(0x2d);
        push_hex_pair(&mut out, bytes[6]);
        push_hex_pair(&mut out, bytes[7]);
        out.push(0x2d);
        push_hex_pair(&mut out, bytes[8]);
        push_hex_pair(&mut out, bytes[9]);
        out.push(0x2d);
        push_hex_pair(&mut out, bytes[10]);
        push_hex_pair(&mut out, bytes[11]);
        push_hex_pair(&mut out, bytes[12]);
        push_hex_pair(&mut out, bytes[13]);
        push_hex_pair(&mut out, bytes[14]);
        push_hex_pair(&mut out, bytes[15]);
        proof {
            assert(out@.len() == 36);
            assert(crate::text::all_ascii(out@)) by {
                assert forall|k: int| 0 <= k < out@.len() implies out@[k] < 128 by {}
            }
        }
        let res = ascii_to_string(out);
        proof {
            assert(res@[8] == '-' && res@[13] == '-' && res@[18] == '-' && res@[23] == '-');
            assert forall|i: int|
                0 <= i < 36 && i != 8 && i != 13 && i != 18 && i != 23 implies is_hex_digit_char(
                #[trigger] res@[i],
            ) by {}
        }
        res
    }
}

/// Append the two lowercase hex digits of one byte.
fn push_hex_pair(out: &mut Vec<u8>, b: u8)
    ensures
        final(out)@ == old(out)@ + seq![hex_digit(b as int / 16), hex_digit(b as int % 16)],
        is_hex_digit_char(hex_digit(b as int / 16) as char),
        is_hex_digit_char(hex_digit(b as int % 16) as char),
        hex_digit(b as int / 16) < 128,
        hex_digit(b as int % 16) < 128,
{
    let hi = hex_digit_exec(b / 16);
    let lo = hex_digit_exec(b % 16);
    out.push(hi);
    out.push(lo);
    proof {
        assert(out@ =~= old(out)@ + seq![hex_digit(b as int / 16), hex_digit(b as int % 16)]);
    }
}

/// Whether the byte at `i` is a decimal digit.
fn digit_at(b: &Vec<u8>, i: usize) -> (r: bool)
    requires
        i < b@.len(),
    ensures
        r == crate::numtext::is_digit(b@[i as int]),
{
    let v = b[i];
    0x30 <= v && v <= 0x39
}

fn hex_digit_exec(n: u8) -> (r: u8)
    requires
        n < 16,
    ensures
        r == hex_digit(n as int),
        r < 128,
        is_hex_digit_char(r as char),
{
    if n < 10 {
        0x30 + n
    } else {
        0x57 + n
    }
}

proof fn lemma_pow10_mul(a: nat, b: nat)
    ensures
        pow10(a) * pow10(b) == pow10(a + b),
    decreases a,
{
    if a == 0 {
        assert(pow10(0) == 1);
    } else {
        lemma_pow10_mul((a - 1) as nat, b);
        assert(pow10(a) == 10 * pow10((a - 1) as nat));
        assert(pow10(a + b) == 10 * pow10((a + b - 1) as nat));
        vstd::arithmetic::mul::lemma_mul_is_associative(10, pow10((a - 1) as nat), pow10(b));
    }
}

} // verus!
