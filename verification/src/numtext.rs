//! Decimal text for 64-bit integers, and the bracketed comma-separated text
//! form in which an uncompressed numeric-sequence column is stored.

use vstd::prelude::*;
use vstd::string::{StrSliceExecFns, StringSliceAdditionalSpecFns};

verus! {

// ---------------------------------------------------------------------------
// Decimal digits
// ---------------------------------------------------------------------------

/// ASCII decimal digits of `n`, most significant first.
pub open spec fn dec_digits(n: nat) -> Seq<u8>
    decreases n,
{
    if n < 10 {
        seq![(0x30 + n) as u8]
    } else {
        dec_digits(n / 10) + seq![(0x30 + n % 10) as u8]
    }
}

/// ASCII decimal text of a signed integer, with a leading minus sign when
/// negative.
pub open spec fn int_text(i: int) -> Seq<u8> {
    if i < 0 {
        seq![0x2du8] + dec_digits((-i) as nat)
    } else {
        dec_digits(i as nat)
    }
}

pub open spec fn is_digit(b: u8) -> bool {
    0x30 <= b <= 0x39
}

pub open spec fn is_digits(s: Seq<u8>) -> bool {
    s.len() > 0 && forall|i: int| 0 <= i < s.len() ==> is_digit(#[trigger] s[i])
}

/// The number the digit string denotes.
pub open spec fn digits_val(s: Seq<u8>) -> nat
    decreases s.len(),
{
    if s.len() == 0 {
        0
    } else {
        digits_val(s.take(s.len() - 1)) * 10 + (if s.last() >= 0x30 {
            (s.last() - 0x30) as nat
        } else {
            0
        })
    }
}

/// Strict parse of signed decimal text: optional minus, one or more digits,
/// nothing else, value within `i64`.
pub open spec fn parse_i64_text(s: Seq<u8>) -> Option<i64> {
    if s.len() >= 1 && s[0] == 0x2d {
        let ds = s.skip(1);
        if is_digits(ds) && digits_val(ds) <= 0x8000000000000000 {
            Some((-(digits_val(ds) as int)) as i64)
        } else {
            None
        }
    } else if is_digits(s) && digits_val(s) <= 0x7fffffffffffffff {
        Some(digits_val(s) as i64)
    } else {
        None
    }
}

pub proof fn lemma_dec_digits_wf(n: nat)
    ensures
        dec_digits(n).len() > 0,
        is_digits(dec_digits(n)),
        digits_val(dec_digits(n)) == n,
    decreases n,
{
    if n < 10 {
        let s = dec_digits(n);
        assert(s =~= seq![(0x30 + n) as u8]);
        assert(s.take(0) =~= Seq::<u8>::empty());
        assert(digits_val(Seq::<u8>::empty()) == 0);
        assert(s.last() == (0x30 + n) as u8);
        assert((s.last() - 0x30) as nat == n);
        assert(digits_val(s) == digits_val(s.take(0)) * 10 + n);
    } else {
        lemma_dec_digits_wf(n / 10);
        let a = dec_digits(n / 10);
        let d = (0x30 + n % 10) as u8;
        let s = a + seq![d];
        assert(s.last() == d);
        assert(s.take(s.len() - 1) =~= a);
        assert(digits_val(s) == digits_val(a) * 10 + n % 10);
        assert(digits_val(a) * 10 + n % 10 == n);
        assert forall|i: int| 0 <= i < s.len() implies is_digit(#[trigger] s[i]) by {
            if i < a.len() {
                assert(s[i] == a[i]);
            } else {
                assert(s[i] == d);
            }
        }
    }
}

/// Formatted text parses back to the integer it came from.
pub proof fn lemma_int_text_roundtrip(x: i64)
    ensures
        parse_i64_text(int_text(x as int)) == Some(x),
{
    if x < 0 {
        let m = (-(x as int)) as nat;
        lemma_dec_digits_wf(m);
        let s = int_text(x as int);
        assert(s[0] == 0x2d);
        assert(s.skip(1) =~= dec_digits(m));
        assert(m <= 0x8000000000000000);
        assert((-(m as int)) as i64 == x);
    } else {
        let s = int_text(x as int);
        lemma_dec_digits_wf(x as nat);
        assert(s =~= dec_digits(x as nat));
        assert(s[0] >= 0x30);
        assert(digits_val(s) == x as nat);
        assert(x as nat <= 0x7fffffffffffffff);
    }
}

/// Decimal text never holds a comma or a bracket.
pub proof fn lemma_int_text_no_separator(i: int)
    ensures
        forall|k: int|
            0 <= k < int_text(i).len() ==> (#[trigger] int_text(i)[k]) != 0x2c && int_text(i)[k]
                != 0x5b && int_text(i)[k] != 0x5d && int_text(i)[k] < 128,
{
    if i < 0 {
        lemma_dec_digits_wf((-i) as nat);
        assert forall|k: int| 0 <= k < int_text(i).len() implies (#[trigger] int_text(i)[k])
            != 0x2c && int_text(i)[k] != 0x5b && int_text(i)[k] != 0x5d && int_text(i)[k]
            < 128 by {
            if k == 0 {
                assert(int_text(i)[0] == 0x2d);
            } else {
                assert(int_text(i)[k] == dec_digits((-i) as nat)[k - 1]);
                assert(is_digit(dec_digits((-i) as nat)[k - 1]));
            }
        }
    } else {
        lemma_dec_digits_wf(i as nat);
        assert forall|k: int| 0 <= k < int_text(i).len() implies (#[trigger] int_text(i)[k])
            != 0x2c && int_text(i)[k] != 0x5b && int_text(i)[k] != 0x5d && int_text(i)[k]
            < 128 by {
            assert(is_digit(dec_digits(i as nat)[k]));
        }
    }
}

/// Append the decimal digits of `n`; mirrors `dec_digits`.
pub fn write_u64_dec(out: &mut Vec<u8>, n: u64)
    ensures
        final(out)@ == old(out)@ + dec_digits(n as nat),
    decreases n,
{
    if n < 10 {
        out.push(0x30 + (n as u8));
        proof {
            assert(old(out)@.push((0x30 + n) as u8) =~= old(out)@ + dec_digits(n as nat));
        }
    } else {
        write_u64_dec(out, n / 10);
        let d: u8 = 0x30 + (n % 10) as u8;
        out.push(d);
        proof {
            assert((old(out)@ + dec_digits((n / 10) as nat)).push(d) =~= old(out)@ + dec_digits(
                n as nat,
            ));
        }
    }
}

/// Append the decimal text of `x`, minus sign included.
pub fn write_i64_dec(out: &mut Vec<u8>, x: i64)
    ensures
        final(out)@ == old(out)@ + int_text(x as int),
{
    if x >= 0 {
        write_u64_dec(out, x as u64);
    } else {
        out.push(0x2d);
        let m: u64 = ((-(x + 1)) as u64) + 1;
        proof {
            assert(m == (-(x as int)) as nat);
            assert(old(out)@.push(0x2du8) + dec_digits(m as nat) =~= old(out)@ + int_text(
                x as int,
            ));
        }
        write_u64_dec(out, m);
    }
}

/// Parse the byte range `[start, end)` as strict signed decimal text;
/// mirrors `parse_i64_text`.
pub fn parse_i64_range(bytes: &Vec<u8>, start: usize, end: usize) -> (r: Option<i64>)
    requires
        start <= end <= bytes@.len(),
    ensures
        r == parse_i64_text(bytes@.subrange(start as int, end as int)),
{
    let ghost s = bytes@.subrange(start as int, end as int);
    if start < end && bytes[start] == 0x2d {
        proof {
            assert(s[0] == 0x2d);
            assert(s.skip(1) =~= bytes@.subrange(start + 1, end as int));
        }
        match parse_u64_range(bytes, start + 1, end) {
            Some(v) => {
                if v <= 0x7fffffffffffffff {
                    Some(-(v as i64))
                } else if v == 0x8000000000000000 {
                    Some(i64::MIN)
                } else {
                    None
                }
            },
            None => None,
        }
    } else {
        proof {
            if s.len() >= 1 {
                assert(s[0] == bytes@[start as int]);
            }
        }
        match parse_u64_range(bytes, start, end) {
            Some(v) => {
                if v <= 0x7fffffffffffffff {
                    Some(v as i64)
                } else {
                    None
                }
            },
            None => None,
        }
    }
}

/// Parse a byte range as one or more decimal digits denoting a value that
/// fits in `u64`.
pub(crate) fn parse_u64_range(bytes: &Vec<u8>, start: usize, end: usize) -> (r: Option<u64>)
    requires
        start <= end <= bytes@.len(),
    ensures
        (match r {
            Some(v) => {
                &&& is_digits(bytes@.subrange(start as int, end as int))
                &&& digits_val(bytes@.subrange(start as int, end as int)) == v
            },
            None => {
                ||| !is_digits(bytes@.subrange(start as int, end as int))
                ||| digits_val(bytes@.subrange(start as int, end as int)) > u64::MAX
            },
        }),
{
    let ghost s = bytes@.subrange(start as int, end as int);
    if start == end {
        proof {
            assert(!is_digits(s));
        }
        return None;
    }
    let mut acc: u64 = 0;
    let mut i: usize = start;
    while i < end
        invariant
            start <= i <= end <= bytes@.len(),
            s == bytes@.subrange(start as int, end as int),
            is_digits_prefix(s, i - start),
            acc == digits_val(s.take(i - start)),
        decreases end - i,
    {
        let b = bytes[i];
        if b < 0x30 || b > 0x39 {
            proof {
                assert(s[i - start] == b);
                assert(!is_digit(s[i - start]));
            }
            return None;
        }
        let d: u64 = (b - 0x30) as u64;
        let acc10 = match acc.checked_mul(10) {
            Some(a) => a,
            None => {
                proof {
                    lemma_overflow_stays(s, i - start, end - start, b, acc, d);
                    assert(s.take(end - start) =~= s);
                    assert(digits_val(s) >= acc * 10 + d);
                    assert(acc * 10 > u64::MAX);
                }
                return None;
            },
        };
        let newacc = match acc10.checked_add(d) {
            Some(a) => a,
            None => {
                proof {
                    lemma_overflow_stays(s, i - start, end - start, b, acc, d);
                    assert(s.take(end - start) =~= s);
                    assert(digits_val(s) >= acc * 10 + d);
                    assert(acc * 10 + d > u64::MAX);
                }
                return None;
            },
        };
        proof {
            assert(s.take(i + 1 - start).take(i - start) =~= s.take(i - start));
            assert(s.take(i + 1 - start).last() == b);
            assert(s[i - start] == b);
        }
        acc = newacc;
        i = i + 1;
    }
    proof {
        assert(s.take(end - start) =~= s);
    }
    Some(acc)
}

/// Once a prefix's value passes the word limit, the whole range's does.
proof fn lemma_overflow_stays(s: Seq<u8>, k: int, n: int, b: u8, acc: u64, d: u64)
    requires
        0 <= k < n <= s.len(),
        s[k] == b,
        is_digit(b),
        d == b - 0x30,
        acc == digits_val(s.take(k)),
    ensures
        digits_val(s.take(n)) >= acc * 10 + d,
{
    assert(s.take(k + 1).take(k) =~= s.take(k));
    assert(s.take(k + 1).last() == b);
    assert(digits_val(s.take(k + 1)) == acc * 10 + d);
    if k + 1 < n {
        lemma_digits_val_grows(s, k, n);
    } else {
        assert(s.take(n) =~= s.take(k + 1));
    }
}

/// The first `k` bytes are digits.
pub open spec fn is_digits_prefix(s: Seq<u8>, k: int) -> bool {
    forall|i: int| 0 <= i < k ==> is_digit(#[trigger] s[i])
}

/// Extending a digit string never shrinks its value: if a prefix already
/// overflows, the whole string's value overflows too.
proof fn lemma_digits_val_grows(s: Seq<u8>, k: int, n: int)
    requires
        0 <= k < n <= s.len(),
    ensures
        digits_val(s.take(n)) >= digits_val(s.take(k + 1)),
    decreases n - k,
{
    if k + 1 < n {
        lemma_digits_val_grows(s, k + 1, n);
        assert(s.take(k + 2).take(k + 1) =~= s.take(k + 1));
        assert(digits_val(s.take(k + 2)) == digits_val(s.take(k + 1)) * 10 + (if s.take(k + 2).last()
            >= 0x30 {
            (s.take(k + 2).last() - 0x30) as nat
        } else {
            0
        }));
        assert(digits_val(s.take(k + 2)) >= digits_val(s.take(k + 1)));
    }
}

// ---------------------------------------------------------------------------
// Bracketed integer lists
// ---------------------------------------------------------------------------

/// The comma-joined decimal texts of the elements.
pub open spec fn items_text(s: Seq<i64>) -> Seq<u8>
    decreases s.len(),
{
    if s.len() == 0 {
        Seq::empty()
    } else if s.len() == 1 {
        int_text(s[0] as int)
    } else {
        int_text(s[0] as int) + seq![0x2cu8] + items_text(s.skip(1))
    }
}

/// The stored text of an uncompressed numeric-sequence column: the decimal
/// elements, comma-separated, in brackets.
pub open spec fn int_list_text(s: Seq<i64>) -> Seq<u8> {
    seq![0x5bu8] + items_text(s) + seq![0x5du8]
}

/// Index of the first `b` in `s`, if any.
pub open spec fn find_byte(s: Seq<u8>, b: u8) -> Option<int>
    decreases s.len(),
{
    if s.len() == 0 {
        None
    } else if s[0] == b {
        Some(0)
    } else {
        match find_byte(s.skip(1), b) {
            None => None,
            Some(k) => Some(k + 1),
        }
    }
}

pub proof fn lemma_find_byte_bound(s: Seq<u8>, b: u8)
    ensures
        match find_byte(s, b) {
            Some(k) => 0 <= k < s.len() && s[k] == b && (forall|j: int|
                0 <= j < k ==> s[j] != b),
            None => forall|j: int| 0 <= j < s.len() ==> s[j] != b,
        },
    decreases s.len(),
{
    if s.len() > 0 && s[0] != b {
        lemma_find_byte_bound(s.skip(1), b);
        match find_byte(s.skip(1), b) {
            Some(k) => {
                assert(s.skip(1)[k] == s[k + 1]);
                assert forall|j: int| 0 <= j < k + 1 implies s[j] != b by {
                    if j > 0 {
                        assert(s.skip(1)[j - 1] == s[j]);
                    }
                }
            },
            None => {
                assert forall|j: int| 0 <= j < s.len() implies s[j] != b by {
                    if j > 0 {
                        assert(s.skip(1)[j - 1] == s[j]);
                    }
                }
            },
        }
    }
}

/// Strict parse of a non-empty comma-separated item list.
pub open spec fn parse_items(s: Seq<u8>) -> Option<Seq<i64>>
    decreases s.len() via parse_items_decreases
{
    match find_byte(s, 0x2c) {
        None => match parse_i64_text(s) {
            None => None,
            Some(x) => Some(seq![x]),
        },
        Some(k) => match parse_i64_text(s.take(k)) {
            None => None,
            Some(x) => match parse_items(s.skip(k + 1)) {
                None => None,
                Some(xs) => Some(seq![x] + xs),
            },
        },
    }
}

#[via_fn]
proof fn parse_items_decreases(s: Seq<u8>) {
    lemma_find_byte_bound(s, 0x2c);
}

/// Strict parse of the bracketed list form.
pub open spec fn parse_int_list(s: Seq<u8>) -> Option<Seq<i64>> {
    if s.len() < 2 || s[0] != 0x5b || s.last() != 0x5d {
        None
    } else if s.len() == 2 {
        Some(Seq::empty())
    } else {
        parse_items(s.subrange(1, s.len() - 1))
    }
}

/// Stepping the joined item text one element forward.
proof fn lemma_items_text_take(s: Seq<i64>, i: int)
    requires
        0 <= i < s.len(),
    ensures
        items_text(s.take(i + 1)) =~= items_text(s.take(i)) + (if i == 0 {
            int_text(s[0] as int)
        } else {
            seq![0x2cu8] + int_text(s[i] as int)
        }),
    decreases i,
{
    if i == 0 {
        assert(s.take(1) =~= seq![s[0]]);
        assert(s.take(0) =~= Seq::<i64>::empty());
        assert(items_text(seq![s[0]]) == int_text(seq![s[0]][0] as int));
    } else {
        let t1 = s.take(i + 1);
        let t0 = s.take(i);
        assert(t1[0] == s[0]);
        assert(t0[0] == s[0]);
        assert(t1.skip(1) =~= s.skip(1).take(i));
        assert(t0.skip(1) =~= s.skip(1).take(i - 1));
        assert(t1.len() == i + 1 >= 2);
        assert(items_text(t1) == int_text(s[0] as int) + seq![0x2cu8] + items_text(
            s.skip(1).take(i),
        ));
        lemma_items_text_take(s.skip(1), i - 1);
        assert(s.skip(1)[i - 1] == s[i]);
        if i == 1 {
            assert(s.skip(1).take(0) =~= Seq::<i64>::empty());
            assert(items_text(s.skip(1).take(0)) == Seq::<u8>::empty());
            assert(items_text(s.skip(1).take(1)) =~= int_text(s[1] as int));
            assert(items_text(t0) == int_text(s[0] as int));
        } else {
            assert(items_text(t0) == int_text(s[0] as int) + seq![0x2cu8] + items_text(
                s.skip(1).take(i - 1),
            ));
        }
    }
}

/// Append the bracketed decimal list of `xs`.
pub fn write_int_list(out: &mut Vec<u8>, xs: &Vec<i64>)
    ensures
        final(out)@ == old(out)@ + int_list_text(xs@),
{
    out.push(0x5b);
    let mut i: usize = 0;
    while i < xs.len()
        invariant
            i <= xs@.len(),
            out@ == old(out)@ + seq![0x5bu8] + items_text(xs@.take(i as int)),
        decreases xs@.len() - i,
    {
        proof {
            lemma_items_text_take(xs@, i as int);
        }
        if i > 0 {
            out.push(0x2c);
        }
        write_i64_dec(out, xs[i]);
        proof {
            assert(out@ =~= old(out)@ + seq![0x5bu8] + items_text(xs@.take(i + 1)));
        }
        i = i + 1;
    }
    out.push(0x5d);
    proof {
        assert(xs@.take(xs@.len() as int) =~= xs@);
        assert(out@ =~= old(out)@ + int_list_text(xs@));
    }
}

/// Every byte of the list text is ASCII.
pub proof fn lemma_int_list_text_ascii(s: Seq<i64>)
    ensures
        forall|k: int| 0 <= k < int_list_text(s).len() ==> (#[trigger] int_list_text(s)[k]) < 128,
{
    lemma_items_text_ascii(s);
    let t = int_list_text(s);
    assert forall|k: int| 0 <= k < t.len() implies (#[trigger] t[k]) < 128 by {
        if k == 0 {
            assert(t[0] == 0x5b);
        } else if k == t.len() - 1 {
            assert(t[k] == 0x5d);
        } else {
            assert(t[k] == items_text(s)[k - 1]);
        }
    }
}

proof fn lemma_items_text_ascii(s: Seq<i64>)
    ensures
        forall|k: int| 0 <= k < items_text(s).len() ==> (#[trigger] items_text(s)[k]) < 128,
    decreases s.len(),
{
    if s.len() == 0 {
    } else if s.len() == 1 {
        lemma_int_text_no_separator(s[0] as int);
        assert(items_text(s) == int_text(s[0] as int));
    } else {
        lemma_int_text_no_separator(s[0] as int);
        lemma_items_text_ascii(s.skip(1));
        let a = int_text(s[0] as int);
        let rest = items_text(s.skip(1));
        assert forall|k: int| 0 <= k < items_text(s).len() implies (#[trigger] items_text(
            s,
        )[k]) < 128 by {
            if k < a.len() {
                assert(items_text(s)[k] == a[k]);
            } else if k == a.len() {
                assert(items_text(s)[k] == 0x2c);
            } else {
                assert(items_text(s)[k] == rest[k - a.len() - 1]);
            }
        }
    }
}

/// The list text of `xs`, as a string.
pub fn int_list_to_string(xs: &Vec<i64>) -> (r: String)
    ensures
        r@ == crate::text::chars_of(int_list_text(xs@)),
{
    let mut buf: Vec<u8> = Vec::new();
    write_int_list(&mut buf, xs);
    proof {
        lemma_int_list_text_ascii(xs@);
        assert(buf@ =~= int_list_text(xs@));
    }
    crate::text::ascii_to_string(buf)
}

/// First comma in `[from, to)`, as an absolute index.
fn find_comma(bytes: &Vec<u8>, from: usize, to: usize) -> (r: Option<usize>)
    requires
        from <= to <= bytes@.len(),
    ensures
        (match r {
            Some(j) => {
                &&& from <= j < to
                &&& find_byte(bytes@.subrange(from as int, to as int), 0x2c) == Some(j - from)
            },
            None => find_byte(bytes@.subrange(from as int, to as int), 0x2c) is None,
        }),
{
    let ghost s = bytes@.subrange(from as int, to as int);
    proof {
        lemma_find_byte_bound(s, 0x2c);
    }
    let mut j: usize = from;
    while j < to
        invariant
            from <= j <= to <= bytes@.len(),
            s == bytes@.subrange(from as int, to as int),
            forall|k: int| 0 <= k < j - from ==> s[k] != 0x2c,
            (match find_byte(s, 0x2c) {
                Some(k) => 0 <= k < s.len() && s[k] == 0x2c && (forall|m: int|
                    0 <= m < k ==> s[m] != 0x2c),
                None => forall|m: int| 0 <= m < s.len() ==> s[m] != 0x2c,
            }),
        decreases to - j,
    {
        if bytes[j] == 0x2c {
            proof {
                assert(s[j - from] == 0x2c);
                match find_byte(s, 0x2c) {
                    Some(k) => {
                        assert(k == j - from);
                    },
                    None => {
                        assert(false);
                    },
                }
            }
            return Some(j);
        }
        proof {
            assert(s[j - from] == bytes@[j as int]);
        }
        j = j + 1;
    }
    proof {
        match find_byte(s, 0x2c) {
            Some(k) => {
                assert(s[k] != 0x2c);
                assert(false);
            },
            None => {},
        }
    }
    None
}

/// Parse a string in the bracketed list form; mirrors `parse_int_list`.
pub fn parse_int_list_str(s: &str) -> (r: Option<Vec<i64>>)
    ensures
        (match r {
            Some(v) => parse_int_list(s.spec_bytes()) == Some(v@),
            None => parse_int_list(s.spec_bytes()) is None,
        }),
{
    let bytes = s.as_bytes_vec();
    let n = bytes.len();
    if n < 2 {
        return None;
    }
    if bytes[0] != 0x5b || bytes[n - 1] != 0x5d {
        proof {
            assert(bytes@[0] == s.spec_bytes()[0]);
            assert(bytes@[n - 1] == s.spec_bytes().last());
        }
        return None;
    }
    proof {
        assert(bytes@[0] == s.spec_bytes()[0]);
        assert(bytes@[n - 1] == s.spec_bytes().last());
    }
    if n == 2 {
        let empty: Vec<i64> = Vec::new();
        proof {
            assert(parse_int_list(s.spec_bytes()) == Some(Seq::<i64>::empty()));
            assert(empty@ =~= Seq::<i64>::empty());
        }
        return Some(empty);
    }
    let ghost inner = s.spec_bytes().subrange(1, n - 1);
    let mut acc: Vec<i64> = Vec::new();
    let mut cur: usize = 1;
    let end = n - 1;
    proof {
        assert(bytes@.subrange(1, n - 1) =~= inner);
        match parse_items(inner) {
            Some(vs) => {
                assert(Seq::<i64>::empty() + vs =~= vs);
            },
            None => {},
        }
    }
    loop
        invariant
            1 <= cur <= end,
            end == n - 1,
            n == bytes@.len(),
            n >= 3,
            bytes@ == s.spec_bytes(),
            inner == s.spec_bytes().subrange(1, n - 1),
            s.spec_bytes()[0] == 0x5b,
            s.spec_bytes().last() == 0x5d,
            (match parse_items(bytes@.subrange(cur as int, end as int)) {
                Some(vs) => parse_items(inner) == Some(acc@ + vs),
                None => parse_items(inner) is None,
            }),
        decreases end - cur,
    {
        let ghost rem = bytes@.subrange(cur as int, end as int);
        match find_comma(&bytes, cur, end) {
            Some(j) => {
                proof {
                    assert(rem.take(j - cur) =~= bytes@.subrange(cur as int, j as int));
                    assert(rem.skip(j - cur + 1) =~= bytes@.subrange(j + 1, end as int));
                }
                match parse_i64_range(&bytes, cur, j) {
                    Some(x) => {
                        proof {
                            match parse_items(bytes@.subrange(j + 1, end as int)) {
                                Some(vs) => {
                                    assert(parse_items(rem) == Some(seq![x] + vs));
                                    assert(acc@ + (seq![x] + vs) =~= acc@.push(x) + vs);
                                },
                                None => {
                                    assert(parse_items(rem) is None);
                                },
                            }
                        }
                        acc.push(x);
                        cur = j + 1;
                    },
                    None => {
                        proof {
                            assert(parse_items(rem) is None);
                        }
                        return None;
                    },
                }
            },
            None => {
                proof {
                    assert(rem =~= bytes@.subrange(cur as int, end as int));
                }
                match parse_i64_range(&bytes, cur, end) {
                    Some(x) => {
                        proof {
                            assert(rem.take(rem.len() as int) =~= rem);
                            assert(parse_items(rem) == Some(seq![x]));
                            assert(acc@ + seq![x] =~= acc@.push(x));
                        }
                        acc.push(x);
                        proof {
                            assert(parse_items(inner) == Some(acc@));
                            assert(parse_int_list(s.spec_bytes()) == Some(acc@));
                        }
                        return Some(acc);
                    },
                    None => {
                        proof {
                            assert(parse_items(rem) is None);
                        }
                        return None;
                    },
                }
            },
        }
    }
}

/// The list text of a sequence parses back to exactly that sequence.
pub proof fn lemma_int_list_roundtrip(s: Seq<i64>)
    ensures
        parse_int_list(int_list_text(s)) == Some(s),
{
    let t = int_list_text(s);
    assert(t[0] == 0x5b);
    assert(t.last() == 0x5d);
    if s.len() == 0 {
        assert(items_text(s) == Seq::<u8>::empty());
        assert(t.len() == 2);
        assert(s =~= Seq::<i64>::empty());
    } else {
        lemma_parse_items_roundtrip(s);
        assert(t.len() > 2) by {
            lemma_dec_digits_wf(
                if s[0] as int >= 0 {
                    s[0] as nat
                } else {
                    (-(s[0] as int)) as nat
                },
            );
            if s.len() == 1 {
            } else {
            }
        }
        assert(t.subrange(1, t.len() - 1) =~= items_text(s));
    }
}

/// Where a no-comma prefix meets a comma, the first comma is found.
proof fn lemma_find_first_comma(a: Seq<u8>, rest: Seq<u8>)
    requires
        forall|k: int| 0 <= k < a.len() ==> (#[trigger] a[k]) != 0x2c,
    ensures
        find_byte(a + seq![0x2cu8] + rest, 0x2c) == Some(a.len() as int),
{
    let t = a + seq![0x2cu8] + rest;
    lemma_find_byte_bound(t, 0x2c);
    assert(t[a.len() as int] == 0x2c);
    match find_byte(t, 0x2c) {
        Some(k) => {
            if k < a.len() {
                assert(t[k] == a[k]);
                assert(false);
            }
            if k > a.len() {
                assert(false);
            }
        },
        None => {
            assert(false);
        },
    }
}

proof fn lemma_parse_items_roundtrip(s: Seq<i64>)
    requires
        s.len() >= 1,
    ensures
        parse_items(items_text(s)) == Some(s),
    decreases s.len(),
{
    lemma_int_text_no_separator(s[0] as int);
    lemma_int_text_roundtrip(s[0]);
    if s.len() == 1 {
        let t = items_text(s);
        assert(t == int_text(s[0] as int));
        lemma_find_byte_bound(t, 0x2c);
        match find_byte(t, 0x2c) {
            Some(k) => {
                assert(t[k] != 0x2c);
                assert(false);
            },
            None => {},
        }
        assert(parse_items(t) == Some(seq![s[0]]));
        assert(seq![s[0]] =~= s);
    } else {
        let a = int_text(s[0] as int);
        let rest = items_text(s.skip(1));
        let t = items_text(s);
        assert(t == a + seq![0x2cu8] + rest);
        lemma_find_first_comma(a, rest);
        assert(t.take(a.len() as int) =~= a);
        assert(t.skip(a.len() as int + 1) =~= rest);
        lemma_parse_items_roundtrip(s.skip(1));
        assert(seq![s[0]] + s.skip(1) =~= s);
    }
}

} // verus!
