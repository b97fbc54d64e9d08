//! Primitive encodings used by the columnar codec: zigzag mapping between
//! signed and unsigned integers, LEB128-style variable-length integers, and
//! wrapping delta / running-sum transforms.

use vstd::prelude::*;

verus! {

// ---------------------------------------------------------------------------
// Zigzag
// ---------------------------------------------------------------------------

/// Zigzag maps small-magnitude signed integers (positive or negative) to
/// small unsigned integers: 0, -1, 1, -2, ... become 0, 1, 2, 3, ...
pub open spec fn zigzag_spec(i: i64) -> u64 {
    if i >= 0 {
        (2 * (i as int)) as u64
    } else {
        (-2 * (i as int) - 1) as u64
    }
}

/// Inverse of `zigzag_spec`.
pub open spec fn unzigzag_spec(u: u64) -> i64 {
    if u % 2 == 0 {
        ((u as int) / 2) as i64
    } else {
        (-((u as int) / 2) - 1) as i64
    }
}

pub proof fn lemma_zigzag_roundtrip(i: i64)
    ensures
        unzigzag_spec(zigzag_spec(i)) == i,
{
}

pub fn zigzag(i: i64) -> (r: u64)
    ensures
        r == zigzag_spec(i),
{
    if i >= 0 {
        2 * (i as u64)
    } else {
        2 * ((-(i + 1)) as u64) + 1
    }
}

pub fn unzigzag(u: u64) -> (r: i64)
    ensures
        r == unzigzag_spec(u),
{
    if u % 2 == 0 {
        (u / 2) as i64
    } else {
        -((u / 2) as i64) - 1
    }
}

// ---------------------------------------------------------------------------
// Variable-length integers (LEB128: low 7 bits first, high bit = continue)
// ---------------------------------------------------------------------------

/// The byte encoding of one unsigned integer.
pub open spec fn varint_bytes(x: u64) -> Seq<u8>
    decreases x,
{
    if x < 128 {
        seq![x as u8]
    } else {
        seq![((x % 128) + 128) as u8] + varint_bytes(x / 128)
    }
}

/// A decoder never follows more than this many continuation bytes; every
/// encoded `u64` fits in it.
pub open spec fn max_varint_len() -> nat {
    10
}

/// Strict decode of one varint from the front of `s`, giving up after
/// `depth` bytes: `Some((value, bytes_consumed))` or `None`.
pub open spec fn varint_parse_d(s: Seq<u8>, depth: nat) -> Option<(u64, int)>
    decreases depth,
{
    if depth == 0 || s.len() == 0 {
        None
    } else if s[0] < 128 {
        Some((s[0] as u64, 1))
    } else {
        match varint_parse_d(s.skip(1), (depth - 1) as nat) {
            None => None,
            Some((v, n)) => {
                let total = (s[0] - 128) + 128 * (v as int);
                if total <= u64::MAX {
                    Some((total as u64, n + 1))
                } else {
                    None
                }
            },
        }
    }
}

pub open spec fn varint_parse(s: Seq<u8>) -> Option<(u64, int)> {
    varint_parse_d(s, max_varint_len())
}

pub open spec fn pow128(k: nat) -> int
    decreases k,
{
    if k == 0 {
        1
    } else {
        128 * pow128((k - 1) as nat)
    }
}

pub proof fn lemma_varint_bytes_len(x: u64)
    ensures
        1 <= varint_bytes(x).len() <= max_varint_len(),
{
    reveal_with_fuel(pow128, 11);
    assert(x < pow128(10));
    lemma_varint_bytes_len_helper(x, 10);
}

/// A value below `128^j` encodes in at most `j` bytes.
proof fn lemma_varint_bytes_len_helper(x: u64, j: nat)
    requires
        1 <= j,
        x < pow128(j),
    ensures
        varint_bytes(x).len() <= j,
    decreases j,
{
    if x >= 128 {
        assert(pow128(j) == 128 * pow128((j - 1) as nat));
        assert(x / 128 < pow128((j - 1) as nat));
        lemma_varint_bytes_len_helper(x / 128, (j - 1) as nat);
    }
}

/// Decoding starts over the encoder's output: the value and length come back
/// exactly, whatever bytes follow.
pub proof fn lemma_varint_roundtrip(x: u64, rest: Seq<u8>)
    ensures
        varint_parse(varint_bytes(x) + rest) == Some((x, varint_bytes(x).len() as int)),
{
    lemma_varint_bytes_len(x);
    lemma_varint_roundtrip_d(x, rest, max_varint_len());
}

proof fn lemma_varint_roundtrip_d(x: u64, rest: Seq<u8>, depth: nat)
    requires
        varint_bytes(x).len() <= depth,
    ensures
        varint_parse_d(varint_bytes(x) + rest, depth) == Some((
            x,
            varint_bytes(x).len() as int,
        )),
    decreases x,
{
    let s = varint_bytes(x) + rest;
    if x < 128 {
        assert(s[0] == x as u8);
    } else {
        assert(s[0] == ((x % 128) + 128) as u8);
        assert(s[0] >= 128);
        assert(s.skip(1) =~= varint_bytes(x / 128) + rest);
        lemma_varint_roundtrip_d(x / 128, rest, (depth - 1) as nat);
        assert((s[0] - 128) + 128 * ((x / 128) as int) == x as int);
    }
}

/// Append one varint to a byte buffer.
pub fn write_varint(buf: &mut Vec<u8>, x: u64)
    ensures
        final(buf)@ == old(buf)@ + varint_bytes(x),
{
    let ghost target = old(buf)@ + varint_bytes(x);
    let mut v: u64 = x;
    while v >= 128
        invariant
            buf@ + varint_bytes(v) == target,
        decreases v,
    {
        let b: u8 = ((v % 128) as u8) + 128;
        proof {
            assert(varint_bytes(v) == seq![((v % 128) + 128) as u8] + varint_bytes(v / 128));
            assert(buf@.push(b) + varint_bytes(v / 128) =~= buf@ + varint_bytes(v));
        }
        buf.push(b);
        v = v / 128;
    }
    proof {
        assert(varint_bytes(v) =~= seq![v as u8]);
        assert(buf@.push(v as u8) =~= buf@ + varint_bytes(v));
    }
    buf.push(v as u8);
}

/// Decode one varint starting at `pos`; mirrors `varint_parse_d` directly.
fn read_varint_rec(bytes: &Vec<u8>, pos: usize, depth: u8) -> (r: Option<(u64, usize)>)
    requires
        pos <= bytes@.len(),
    ensures
        match r {
            Some((v, n)) => {
                &&& 1 <= n
                &&& pos + n <= bytes@.len()
                &&& varint_parse_d(bytes@.skip(pos as int), depth as nat) == Some((v, n as int))
            },
            None => varint_parse_d(bytes@.skip(pos as int), depth as nat) is None,
        },
    decreases depth,
{
    let ghost s = bytes@.skip(pos as int);
    if depth == 0 || pos == bytes.len() {
        return None;
    }
    let b = bytes[pos];
    if b < 128 {
        Some((b as u64, 1))
    } else {
        proof {
            assert(s[0] == b);
            assert(s.skip(1) =~= bytes@.skip(pos as int + 1));
        }
        match read_varint_rec(bytes, pos + 1, depth - 1) {
            None => None,
            Some((v, n)) => {
                let lo: u64 = (b - 128) as u64;
                match v.checked_mul(128) {
                    None => None,
                    Some(hi) => match hi.checked_add(lo) {
                        None => None,
                        Some(total) => Some((total, n + 1)),
                    },
                }
            },
        }
    }
}

/// Decode one varint from `bytes` starting at `pos`, returning the value and
/// the position just past it.
pub fn read_varint(bytes: &Vec<u8>, pos: usize) -> (r: Option<(u64, usize)>)
    requires
        pos <= bytes@.len(),
    ensures
        match r {
            Some((v, newpos)) => {
                &&& pos < newpos <= bytes@.len()
                &&& varint_parse(bytes@.skip(pos as int)) == Some((v, newpos - pos))
            },
            None => varint_parse(bytes@.skip(pos as int)) is None,
        },
{
    let len = bytes.len();
    match read_varint_rec(bytes, pos, 10) {
        None => None,
        Some((v, n)) => {
            proof {
                assert(pos + n <= len);
            }
            Some((v, pos + n))
        },
    }
}

// ---------------------------------------------------------------------------
// Varint streams
// ---------------------------------------------------------------------------

/// The concatenation of the encodings of a sequence of unsigned integers.
pub open spec fn varint_seq(us: Seq<u64>) -> Seq<u8>
    decreases us.len(),
{
    if us.len() == 0 {
        Seq::empty()
    } else {
        varint_bytes(us[0]) + varint_seq(us.skip(1))
    }
}

pub proof fn lemma_varint_seq_push(us: Seq<u64>, u: u64)
    ensures
        varint_seq(us.push(u)) == varint_seq(us) + varint_bytes(u),
    decreases us.len(),
{
    if us.len() == 0 {
        let p = us.push(u);
        assert(p[0] == u);
        assert(p.skip(1) =~= Seq::<u64>::empty());
        assert(varint_seq(p) == varint_bytes(p[0]) + varint_seq(p.skip(1)));
        assert(varint_seq(Seq::<u64>::empty()) == Seq::<u8>::empty());
        assert(varint_seq(us) == Seq::<u8>::empty());
        assert(varint_seq(p) =~= varint_seq(us) + varint_bytes(u));
    } else {
        assert(us.push(u).skip(1) =~= us.skip(1).push(u));
        lemma_varint_seq_push(us.skip(1), u);
        assert(varint_seq(us.push(u)) =~= varint_seq(us) + varint_bytes(u));
    }
}

/// A varint stream is at most ten bytes per value.
pub proof fn lemma_varint_seq_len_bound(us: Seq<u64>)
    ensures
        varint_seq(us).len() <= 10 * us.len(),
    decreases us.len(),
{
    if us.len() > 0 {
        lemma_varint_bytes_len(us[0]);
        lemma_varint_seq_len_bound(us.skip(1));
    }
}

/// Strict decode of exactly `count` varints from the front of `s`; bytes
/// after them are ignored.
pub open spec fn varints_parse(s: Seq<u8>, count: nat) -> Option<Seq<u64>>
    decreases count,
{
    if count == 0 {
        Some(Seq::empty())
    } else {
        match varint_parse(s) {
            None => None,
            Some((v, n)) => match varints_parse(s.skip(n), (count - 1) as nat) {
                None => None,
                Some(vs) => Some(seq![v] + vs),
            },
        }
    }
}

/// Decoding a stream the encoder wrote gives back exactly the encoded values.
pub proof fn lemma_varint_seq_roundtrip(us: Seq<u64>, rest: Seq<u8>)
    ensures
        varints_parse(varint_seq(us) + rest, us.len()) == Some(us),
    decreases us.len(),
{
    if us.len() == 0 {
        assert(varints_parse(varint_seq(us) + rest, 0) == Some(Seq::<u64>::empty()));
        assert(us =~= Seq::<u64>::empty());
    } else {
        let s = varint_seq(us) + rest;
        let head = varint_bytes(us[0]);
        assert(s =~= head + (varint_seq(us.skip(1)) + rest));
        lemma_varint_roundtrip(us[0], varint_seq(us.skip(1)) + rest);
        assert(s.skip(head.len() as int) =~= varint_seq(us.skip(1)) + rest);
        lemma_varint_seq_roundtrip(us.skip(1), rest);
        assert(seq![us[0]] + us.skip(1) =~= us);
    }
}

// ---------------------------------------------------------------------------
// Delta encoding with wrapping arithmetic
// ---------------------------------------------------------------------------

/// First differences of `s` continuing from `prev`, with two's-complement
/// wraparound.
pub open spec fn deltas_from(prev: i64, s: Seq<i64>) -> Seq<i64>
    decreases s.len(),
{
    if s.len() == 0 {
        Seq::empty()
    } else {
        seq![vstd::wrapping::i64_specs::wrapping_sub(s[0], prev)] + deltas_from(s[0], s.skip(1))
    }
}

pub open spec fn deltas(s: Seq<i64>) -> Seq<i64> {
    deltas_from(0, s)
}

pub proof fn lemma_deltas_from_len(prev: i64, s: Seq<i64>)
    ensures
        deltas_from(prev, s).len() == s.len(),
    decreases s.len(),
{
    if s.len() > 0 {
        lemma_deltas_from_len(s[0], s.skip(1));
    }
}

/// Running wrapping sum of `ds` starting from `acc`: the inverse transform.
pub open spec fn undelta_from(acc: i64, ds: Seq<i64>) -> Seq<i64>
    decreases ds.len(),
{
    if ds.len() == 0 {
        Seq::empty()
    } else {
        let x = vstd::wrapping::i64_specs::wrapping_add(acc, ds[0]);
        seq![x] + undelta_from(x, ds.skip(1))
    }
}

pub open spec fn undelta(ds: Seq<i64>) -> Seq<i64> {
    undelta_from(0, ds)
}

pub proof fn lemma_wrapping_add_sub(prev: i64, x: i64)
    ensures
        vstd::wrapping::i64_specs::wrapping_add(
            prev,
            vstd::wrapping::i64_specs::wrapping_sub(x, prev),
        ) == x,
{
}

/// The running sum undoes the delta transform.
pub proof fn lemma_undelta_deltas_from(prev: i64, s: Seq<i64>)
    ensures
        undelta_from(prev, deltas_from(prev, s)) == s,
    decreases s.len(),
{
    if s.len() == 0 {
        assert(undelta_from(prev, deltas_from(prev, s)) =~= s);
    } else {
        let d = vstd::wrapping::i64_specs::wrapping_sub(s[0], prev);
        lemma_wrapping_add_sub(prev, s[0]);
        assert(deltas_from(prev, s).skip(1) =~= deltas_from(s[0], s.skip(1)));
        lemma_undelta_deltas_from(s[0], s.skip(1));
        assert(undelta_from(prev, deltas_from(prev, s)) =~= s);
    }
}

pub proof fn lemma_undelta_deltas(s: Seq<i64>)
    ensures
        undelta(deltas(s)) == s,
{
    lemma_undelta_deltas_from(0, s);
}

} // verus!
