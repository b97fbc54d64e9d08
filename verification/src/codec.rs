//! The typed columnar compression codec. An ordered sequence of 64-bit
//! values becomes a self-describing binary blob: a fixed envelope (magic,
//! version, scheme, element count) followed by the block-compressed
//! concatenation of the varint-encoded zigzag deltas of the sequence.
//!
//! The empty sequence is a deliberate, asymmetric special case: it
//! compresses to the empty blob, with no envelope at all.

use vstd::prelude::*;

use crate::lz4::{lz4_block_compress, lz4_block_decompress, lz4_block_of, lz4_unblock_of};
use rayon::iter::{IntoParallelRefIterator, ParallelIterator};
use crate::varint::{
    deltas, deltas_from, read_varint, undelta, undelta_from, unzigzag, unzigzag_spec,
    varint_parse, varint_seq, varints_parse, write_varint, zigzag, zigzag_spec,
    lemma_varint_seq_push, lemma_varint_seq_roundtrip, lemma_zigzag_roundtrip,
    lemma_undelta_deltas,
};

verus! {

/// Inner block-compression scheme identifier; one value so far.
#[derive(Clone, Copy, Debug, PartialEq, Eq, Structural)]
pub enum Codec {
    Lz4,
}

/// Why a blob was rejected by the decoder. A bad envelope is always a hard
/// error, never a guess.
#[derive(Clone, Copy, Debug, PartialEq, Eq, Structural)]
pub enum DecodeError {
    /// Non-empty blob shorter than the fixed envelope.
    TooShort,
    /// The first four bytes are not the format-family magic.
    BadMagic,
    /// Unknown format version byte.
    BadVersion,
    /// Unknown block-compression scheme byte.
    UnsupportedScheme,
    /// The block payload failed to decompress, or held fewer varints than
    /// the envelope's element count.
    CorruptPayload,
    /// The sequence is too long to encode: its varint payload would
    /// overflow the inner block format's 32-bit size prefix.
    TooLong,
}

/// The most elements one blob can hold. Each element's delta varint takes
/// at most ten bytes, so this many elements keep the uncompressed payload
/// within the inner block format's 32-bit size prefix.
pub const MAX_SEQ_LEN: usize = 0x19999999;

/// Stateless encoder/decoder for sequences of signed 64-bit integers.
#[derive(Clone, Debug)]
pub struct I64Codec {
    pub codec: Codec,
}

impl Default for I64Codec {
    fn default() -> (r: Self)
        ensures
            r.codec == Codec::Lz4,
    {
        I64Codec { codec: Codec::Lz4 }
    }
}

/// The four magic bytes that open every non-empty blob.
pub open spec fn magic() -> Seq<u8> {
    seq![0x4fu8, 0x52u8, 0x53u8, 0x4fu8]
}

/// Little-endian encoding of a count in exactly eight bytes.
pub open spec fn le8_bytes(n: u64) -> Seq<u8> {
    seq![
        (n % 0x100) as u8,
        ((n / 0x100) % 0x100) as u8,
        ((n / 0x10000) % 0x100) as u8,
        ((n / 0x1000000) % 0x100) as u8,
        ((n / 0x100000000) % 0x100) as u8,
        ((n / 0x10000000000) % 0x100) as u8,
        ((n / 0x1000000000000) % 0x100) as u8,
        ((n / 0x100000000000000) % 0x100) as u8,
    ]
}

/// The value the eight bytes of `s` denote in little-endian order.
pub open spec fn le8_decode(s: Seq<u8>) -> int {
    s[0] + s[1] * 0x100 + s[2] * 0x10000 + s[3] * 0x1000000 + s[4] * 0x100000000 + s[5]
        * 0x10000000000 + s[6] * 0x1000000000000 + s[7] * 0x100000000000000
}

pub proof fn lemma_le8_roundtrip(n: u64)
    ensures
        le8_decode(le8_bytes(n)) == n,
{
    assert((n % 0x100) + ((n / 0x100) % 0x100) * 0x100 + ((n / 0x10000) % 0x100) * 0x10000 + ((n
        / 0x1000000) % 0x100) * 0x1000000 + ((n / 0x100000000) % 0x100) * 0x100000000 + ((n
        / 0x10000000000) % 0x100) * 0x10000000000 + ((n / 0x1000000000000) % 0x100)
        * 0x1000000000000 + ((n / 0x100000000000000) % 0x100) * 0x100000000000000 == n)
        by (bit_vector);
}

/// Zigzag each delta.
pub open spec fn zigzag_all(ds: Seq<i64>) -> Seq<u64> {
    ds.map_values(|d: i64| zigzag_spec(d))
}

/// The uncompressed payload: varint-encoded zigzag deltas.
pub open spec fn payload_of(s: Seq<i64>) -> Seq<u8> {
    varint_seq(zigzag_all(deltas(s)))
}

/// A payload is at most ten bytes per element, so a bounded sequence's
/// payload fits the inner block format.
pub proof fn lemma_payload_len_bound(s: Seq<i64>)
    ensures
        payload_of(s).len() <= 10 * s.len(),
{
    crate::varint::lemma_deltas_from_len(0, s);
    crate::varint::lemma_varint_seq_len_bound(zigzag_all(deltas(s)));
}

/// The exact bytes `compress` produces for `s`.
pub open spec fn compress_spec(s: Seq<i64>) -> Seq<u8> {
    if s.len() == 0 {
        Seq::empty()
    } else {
        magic() + seq![1u8, 1u8] + le8_bytes(s.len() as u64) + lz4_block_of(payload_of(s))
    }
}

/// The exact result `decompress` returns for blob `b`.
pub open spec fn decompress_spec(b: Seq<u8>) -> Result<Seq<i64>, DecodeError> {
    if b.len() == 0 {
        Ok(Seq::empty())
    } else if b.len() < 14 {
        Err(DecodeError::TooShort)
    } else if b.subrange(0, 4) != magic() {
        Err(DecodeError::BadMagic)
    } else if b[4] != 1 {
        Err(DecodeError::BadVersion)
    } else if b[5] != 1 {
        Err(DecodeError::UnsupportedScheme)
    } else {
        let n = le8_decode(b.subrange(6, 14));
        match lz4_unblock_of(b.skip(14)) {
            None => Err(DecodeError::CorruptPayload),
            Some(packed) => match varints_parse(packed, n as nat) {
                None => Err(DecodeError::CorruptPayload),
                Some(us) => Ok(undelta(us.map_values(|u: u64| unzigzag_spec(u)))),
            },
        }
    }
}

/// Stepping the delta series one element forward.
proof fn lemma_deltas_from_take(p: i64, s: Seq<i64>, i: int)
    requires
        0 <= i < s.len(),
    ensures
        deltas_from(p, s.take(i + 1)) =~= deltas_from(p, s.take(i)).push(
            vstd::wrapping::i64_specs::wrapping_sub(s[i], if i == 0 { p } else { s[i - 1] }),
        ),
    decreases i,
{
    let ws = vstd::wrapping::i64_specs::wrapping_sub(s[i], if i == 0 { p } else { s[i - 1] });
    if i == 0 {
        assert(s.take(1) =~= seq![s[0]]);
        assert(s.take(0) =~= Seq::<i64>::empty());
        assert(seq![s[0]].skip(1) =~= Seq::<i64>::empty());
        assert(deltas_from(p, seq![s[0]]) == seq![ws] + deltas_from(s[0], seq![s[0]].skip(1)));
        assert(deltas_from(p, s.take(1)) =~= Seq::<i64>::empty().push(ws));
        assert(deltas_from(p, s.take(0)) == Seq::<i64>::empty());
    } else {
        let t1 = s.take(i + 1);
        let t0 = s.take(i);
        let head = vstd::wrapping::i64_specs::wrapping_sub(s[0], p);
        assert(t1[0] == s[0]);
        assert(t0[0] == s[0]);
        assert(t1.skip(1) =~= s.skip(1).take(i));
        assert(t0.skip(1) =~= s.skip(1).take(i - 1));
        assert(deltas_from(p, t1) == seq![head] + deltas_from(s[0], s.skip(1).take(i)));
        assert(deltas_from(p, t0) == seq![head] + deltas_from(s[0], s.skip(1).take(i - 1)));
        lemma_deltas_from_take(s[0], s.skip(1), i - 1);
        assert(s.skip(1)[i - 1] == s[i]);
        if i - 1 > 0 {
            assert(s.skip(1)[i - 2] == s[i - 1]);
        }
        assert(deltas_from(s[0], s.skip(1).take(i)) =~= deltas_from(
            s[0],
            s.skip(1).take(i - 1),
        ).push(ws));
        assert(seq![head] + deltas_from(s[0], s.skip(1).take(i - 1)).push(ws) =~= (seq![head]
            + deltas_from(s[0], s.skip(1).take(i - 1))).push(ws));
    }
}

/// The value the running sum has reached after consuming `ds` from `a`.
pub open spec fn acc_after(a: i64, ds: Seq<i64>) -> i64 {
    if ds.len() == 0 {
        a
    } else {
        undelta_from(a, ds).last()
    }
}

proof fn lemma_undelta_from_take(a: i64, ds: Seq<i64>, i: int)
    requires
        0 <= i < ds.len(),
    ensures
        undelta_from(a, ds.take(i + 1)) =~= undelta_from(a, ds.take(i)).push(
            vstd::wrapping::i64_specs::wrapping_add(acc_after(a, ds.take(i)), ds[i]),
        ),
    decreases i,
{
    let y = vstd::wrapping::i64_specs::wrapping_add(acc_after(a, ds.take(i)), ds[i]);
    if i == 0 {
        assert(ds.take(1) =~= seq![ds[0]]);
        assert(ds.take(0) =~= Seq::<i64>::empty());
        assert(seq![ds[0]].skip(1) =~= Seq::<i64>::empty());
        assert(acc_after(a, ds.take(0)) == a);
        assert(undelta_from(a, seq![ds[0]]) == seq![y] + undelta_from(y, seq![ds[0]].skip(1)));
        assert(undelta_from(a, ds.take(1)) =~= Seq::<i64>::empty().push(y));
        assert(undelta_from(a, ds.take(0)) == Seq::<i64>::empty());
    } else {
        let t1 = ds.take(i + 1);
        let t0 = ds.take(i);
        let x = vstd::wrapping::i64_specs::wrapping_add(a, ds[0]);
        assert(t1[0] == ds[0]);
        assert(t0[0] == ds[0]);
        assert(t1.skip(1) =~= ds.skip(1).take(i));
        assert(t0.skip(1) =~= ds.skip(1).take(i - 1));
        assert(undelta_from(a, t1) == seq![x] + undelta_from(x, ds.skip(1).take(i)));
        assert(undelta_from(a, t0) == seq![x] + undelta_from(x, ds.skip(1).take(i - 1)));
        lemma_undelta_from_take(x, ds.skip(1), i - 1);
        assert(ds.skip(1)[i - 1] == ds[i]);
        // the accumulator after t0 is the accumulator after the shifted prefix
        assert(undelta_from(a, t0).last() == if ds.skip(1).take(i - 1).len() == 0 {
            x
        } else {
            undelta_from(x, ds.skip(1).take(i - 1)).last()
        });
        assert(acc_after(a, t0) == acc_after(x, ds.skip(1).take(i - 1)));
        assert(undelta_from(x, ds.skip(1).take(i)) =~= undelta_from(
            x,
            ds.skip(1).take(i - 1),
        ).push(y));
        assert(seq![x] + undelta_from(x, ds.skip(1).take(i - 1)).push(y) =~= (seq![x]
            + undelta_from(x, ds.skip(1).take(i - 1))).push(y));
    }
}

impl I64Codec {
    /// Compress an ordered sequence of integers into a self-describing blob.
    /// The empty sequence becomes the empty blob; a sequence with more than
    /// `MAX_SEQ_LEN` elements cannot be represented and is refused.
    pub fn compress(&self, data: &Vec<i64>) -> (r: Result<Vec<u8>, DecodeError>)
        ensures
            data@.len() <= MAX_SEQ_LEN ==> (r matches Ok(v) && v@ == compress_spec(data@)),
            data@.len() > MAX_SEQ_LEN ==> (r matches Err(e) && e == DecodeError::TooLong),
    {
        if data.len() > MAX_SEQ_LEN {
            return Err(DecodeError::TooLong);
        }
        if data.len() == 0 {
            return Ok(Vec::new());
        }
        let n: u64 = data.len() as u64;

        // envelope: magic, version, scheme, element count
        let mut buf: Vec<u8> = Vec::new();
        buf.push(0x4f);
        buf.push(0x52);
        buf.push(0x53);
        buf.push(0x4f);
        buf.push(1);
        buf.push(1);
        buf.push((n % 0x100) as u8);
        buf.push(((n / 0x100) % 0x100) as u8);
        buf.push(((n / 0x10000) % 0x100) as u8);
        buf.push(((n / 0x1000000) % 0x100) as u8);
        buf.push(((n / 0x100000000) % 0x100) as u8);
        buf.push(((n / 0x10000000000) % 0x100) as u8);
        buf.push(((n / 0x1000000000000) % 0x100) as u8);
        buf.push(((n / 0x100000000000000) % 0x100) as u8);
        proof {
            assert(buf@ =~= magic() + seq![1u8, 1u8] + le8_bytes(n));
        }

        // payload: varints of the zigzag deltas
        let mut tmp: Vec<u8> = Vec::new();
        let mut prev: i64 = 0;
        let mut i: usize = 0;
        while i < data.len()
            invariant
                i <= data@.len(),
                prev == if i == 0 {
                    0i64
                } else {
                    data@[i - 1]
                },
                tmp@ == varint_seq(zigzag_all(deltas_from(0, data@.take(i as int)))),
            decreases data@.len() - i,
        {
            let x = data[i];
            let d = x.wrapping_sub(prev);
            proof {
                let dprev = deltas_from(0, data@.take(i as int));
                lemma_deltas_from_take(0, data@, i as int);
                assert(zigzag_all(dprev.push(d)) =~= zigzag_all(dprev).push(zigzag_spec(d)));
                lemma_varint_seq_push(zigzag_all(dprev), zigzag_spec(d));
            }
            let z = zigzag(d);
            write_varint(&mut tmp, z);
            prev = x;
            i = i + 1;
        }
        proof {
            assert(data@.take(data@.len() as int) =~= data@);
            assert(tmp@ == payload_of(data@));
            lemma_payload_len_bound(data@);
            assert(tmp@.len() < crate::lz4::lz4_size_limit());
        }

        let comp = lz4_block_compress(&tmp);
        buf.extend_from_slice(comp.as_slice());
        proof {
            assert(buf@ =~= compress_spec(data@));
        }
        Ok(buf)
    }

    /// Decode a blob back into the integer sequence it encodes. The empty
    /// blob decodes to the empty sequence; a non-empty blob with a missing
    /// or unknown envelope is a hard error. Decoding is exact: a blob that
    /// `compress` produced gives back exactly the compressed sequence. The
    /// envelope's element count is never trusted for allocation: the output
    /// grows only as varints actually parse out of the payload, so a forged
    /// count cannot force memory beyond the payload's own size.
    pub fn decompress(&self, blob: &[u8]) -> (r: Result<Vec<i64>, DecodeError>)
        ensures
            r matches Ok(v) ==> decompress_spec(blob@) == Ok::<Seq<i64>, DecodeError>(v@),
            r matches Err(e) ==> decompress_spec(blob@) == Err::<Seq<i64>, DecodeError>(e),
            forall|s: Seq<i64>|
                s.len() <= MAX_SEQ_LEN && blob@ == #[trigger] compress_spec(s) ==> (r matches Ok(
                    v,
                ) && v@ == s),
    {
        let len = blob.len();
        if len == 0 {
            proof {
                assert forall|s: Seq<i64>|
                    s.len() <= MAX_SEQ_LEN && blob@ == #[trigger] compress_spec(s) implies s
                    =~= Seq::<i64>::empty() by {
                    if s.len() != 0 {
                        assert(compress_spec(s).len() >= 14);
                    }
                }
            }
            return Ok(Vec::new());
        }
        proof {
            assert forall|s: Seq<i64>| s.len() != 0 implies #[trigger] compress_spec(s).len()
                >= 14 && compress_spec(s)[0] == 0x4f && compress_spec(s)[1] == 0x52
                && compress_spec(s)[2] == 0x53 && compress_spec(s)[3] == 0x4f
                && compress_spec(s)[4] == 1 && compress_spec(s)[5] == 1 by {
                assert(magic()[0] == 0x4f && magic()[1] == 0x52 && magic()[2] == 0x53 && magic()[3]
                    == 0x4f);
            }
        }
        if len < 14 {
            return Err(DecodeError::TooShort);
        }
        let magic_ok = blob[0] == 0x4f && blob[1] == 0x52 && blob[2] == 0x53 && blob[3] == 0x4f;
        proof {
            assert(blob@.subrange(0, 4) =~= magic() <==> (blob@[0] == 0x4f && blob@[1] == 0x52
                && blob@[2] == 0x53 && blob@[3] == 0x4f)) by {
                assert(blob@.subrange(0, 4)[0] == blob@[0]);
                assert(blob@.subrange(0, 4)[1] == blob@[1]);
                assert(blob@.subrange(0, 4)[2] == blob@[2]);
                assert(blob@.subrange(0, 4)[3] == blob@[3]);
                assert(magic()[0] == 0x4f && magic()[1] == 0x52 && magic()[2] == 0x53 && magic()[3]
                    == 0x4f);
            }
        }
        if !magic_ok {
            return Err(DecodeError::BadMagic);
        }
        if blob[4] != 1 {
            return Err(DecodeError::BadVersion);
        }
        if blob[5] != 1 {
            return Err(DecodeError::UnsupportedScheme);
        }

        // element count, eight bytes little-endian
        let n: u64 = (blob[6] as u64) + (blob[7] as u64) * 0x100 + (blob[8] as u64) * 0x10000 + (
        blob[9] as u64) * 0x1000000 + (blob[10] as u64) * 0x100000000 + (blob[11] as u64)
            * 0x10000000000 + (blob[12] as u64) * 0x1000000000000 + (blob[13] as u64)
            * 0x100000000000000;
        proof {
            let hdr = blob@.subrange(6, 14);
            assert(hdr[0] == blob@[6] && hdr[1] == blob@[7] && hdr[2] == blob@[8] && hdr[3]
                == blob@[9] && hdr[4] == blob@[10] && hdr[5] == blob@[11] && hdr[6] == blob@[12]
                && hdr[7] == blob@[13]);
            assert(n == le8_decode(hdr));
        }

        let payload = vstd::slice::slice_subrange(blob, 14, len);
        let packed = match lz4_block_decompress(payload) {
            Some(p) => p,
            None => {
                proof {
                    assert forall|s: Seq<i64>|
                        s.len() <= MAX_SEQ_LEN && blob@ == #[trigger] compress_spec(s) implies
                        false by {
                        assert(s.len() != 0);
                        lemma_payload_len_bound(s);
                        assert(blob@.subrange(14, blob@.len() as int) =~= lz4_block_of(
                            payload_of(s),
                        ));
                    }
                    assert(blob@.skip(14) =~= payload@);
                }
                return Err(DecodeError::CorruptPayload);
            },
        };
        proof {
            assert(blob@.skip(14) =~= payload@);
        }

        let us = match read_varints(&packed, n) {
            Some(us) => us,
            None => {
                proof {
                    assert forall|s: Seq<i64>|
                        s.len() <= MAX_SEQ_LEN && blob@ == #[trigger] compress_spec(s) implies
                        false by {
                        lemma_compress_payload_parses(s, blob@, payload@, packed@, n);
                    }
                }
                return Err(DecodeError::CorruptPayload);
            },
        };
        let out = decode_values(&us);
        proof {
            assert forall|s: Seq<i64>|
                s.len() <= MAX_SEQ_LEN && blob@ == #[trigger] compress_spec(s) implies out@
                == s by {
                lemma_compress_payload_parses(s, blob@, payload@, packed@, n);
                assert(us@ =~= zigzag_all(deltas(s)));
                assert(us@.map_values(|u: u64| unzigzag_spec(u)) =~= deltas(s)) by {
                    assert forall|j: int| 0 <= j < us@.len() implies unzigzag_spec(us@[j])
                        == deltas(s)[j] by {
                        lemma_zigzag_roundtrip(deltas(s)[j]);
                    }
                }
                lemma_undelta_deltas(s);
            }
        }
        Ok(out)
    }
}

impl I64Codec {
    /// Compress a batch of independent sequences in parallel; result order
    /// mirrors input order, and one oversize sequence fails the whole batch.
    pub fn compress_many(&self, arrays: &[Vec<i64>]) -> (r: Result<Vec<Vec<u8>>, DecodeError>)
        ensures
            r is Ok <==> (forall|i: int|
                0 <= i < arrays@.len() ==> (#[trigger] arrays@[i])@.len() <= MAX_SEQ_LEN),
            r matches Ok(vs) ==> vs@.len() == arrays@.len() && (forall|i: int|
                0 <= i < arrays@.len() ==> #[trigger] vs@[i]@ == compress_spec(arrays@[i]@)),
            r matches Err(e) ==> e == DecodeError::TooLong,
    {
        par_compress_all(self, arrays)
    }

    /// Decompress a batch of independent blobs in parallel; result order
    /// mirrors input order, and any corrupt blob fails the whole batch.
    pub fn decompress_many(&self, blobs: &[Vec<u8>]) -> (r: Result<Vec<Vec<i64>>, DecodeError>)
        ensures
            r is Ok <==> (forall|i: int|
                0 <= i < blobs@.len() ==> #[trigger] decompress_spec(blobs@[i]@) is Ok),
            r matches Ok(vss) ==> vss@.len() == blobs@.len() && (forall|i: int|
                0 <= i < blobs@.len() ==> decompress_spec(blobs@[i]@) == Ok::<
                    Seq<i64>,
                    DecodeError,
                >(#[trigger] vss@[i]@)),
            r matches Err(e) ==> exists|i: int|
                0 <= i < blobs@.len() && #[trigger] decompress_spec(blobs@[i]@) == Err::<
                    Seq<i64>,
                    DecodeError,
                >(e),
            r matches Ok(vss) ==> (forall|i: int, s: Seq<i64>|
                #![trigger vss@[i], compress_spec(s)]
                0 <= i < blobs@.len() && s.len() <= MAX_SEQ_LEN && blobs@[i]@
                    == compress_spec(s) ==> vss@[i]@ == s),
            (forall|i: int|
                0 <= i < blobs@.len() ==> exists|s: Seq<i64>|
                    s.len() <= MAX_SEQ_LEN && (#[trigger] blobs@[i])@ == #[trigger] compress_spec(
                        s,
                    )) ==> r is Ok,
    {
        par_decompress_all(self, blobs)
    }
}

/// Relies on rayon's par_iter + map + collect over a slice: the closure
/// runs once per element with no shared mutable state (the codec is only
/// read), so the batch is free to run across threads, and collecting into
/// a Vec keeps input order whatever the thread count or schedule. The
/// closure is this crate's verified `compress`, so each element is its
/// exact compressed image, Ok exactly when it fits the format.
#[verifier::external_body]
fn par_compress_all(codec: &I64Codec, arrays: &[Vec<i64>]) -> (r: Result<Vec<Vec<u8>>, DecodeError>)
    ensures
        r is Ok <==> (forall|i: int|
            0 <= i < arrays@.len() ==> (#[trigger] arrays@[i])@.len() <= MAX_SEQ_LEN),
        r matches Ok(vs) ==> vs@.len() == arrays@.len() && (forall|i: int|
            0 <= i < arrays@.len() ==> #[trigger] vs@[i]@ == compress_spec(arrays@[i]@)),
        r matches Err(e) ==> e == DecodeError::TooLong,
{
    arrays.par_iter().map(|a| codec.compress(a)).collect()
}

/// Relies on rayon's par_iter + map + collect into Result: each element is
/// decoded independently with no shared mutable state (the codec is only
/// read), order is kept whatever the thread count or schedule, the whole
/// batch is Ok exactly when every element decodes, and a returned error is
/// one of the elements' errors. The closure is this crate's verified
/// `decompress`, so each element's result follows its contract.
#[verifier::external_body]
fn par_decompress_all(codec: &I64Codec, blobs: &[Vec<u8>]) -> (r: Result<Vec<Vec<i64>>, DecodeError>)
    ensures
        r is Ok <==> (forall|i: int|
            0 <= i < blobs@.len() ==> #[trigger] decompress_spec(blobs@[i]@) is Ok),
        r matches Ok(vss) ==> vss@.len() == blobs@.len() && (forall|i: int|
            0 <= i < blobs@.len() ==> decompress_spec(blobs@[i]@) == Ok::<Seq<i64>, DecodeError>(
                #[trigger] vss@[i]@,
            )),
        r matches Err(e) ==> (exists|i: int|
            0 <= i < blobs@.len() && #[trigger] decompress_spec(blobs@[i]@) == Err::<Seq<i64>, DecodeError>(e)
                && (forall|s: Seq<i64>|
                s.len() <= MAX_SEQ_LEN ==> blobs@[i]@ != #[trigger] compress_spec(s))),
        r matches Ok(vss) ==> (forall|i: int, s: Seq<i64>|
            #![trigger vss@[i], compress_spec(s)]
            0 <= i < blobs@.len() && s.len() <= MAX_SEQ_LEN && blobs@[i]@
                == compress_spec(s) ==> vss@[i]@ == s),
{
    blobs.par_iter().map(|b| codec.decompress(b.as_slice())).collect()
}

/// Inside the envelope of `compress_spec(s)`, the packed payload parses back
/// to the zigzag deltas of `s`.
proof fn lemma_compress_payload_parses(
    s: Seq<i64>,
    blob: Seq<u8>,
    payload: Seq<u8>,
    packed: Seq<u8>,
    n: u64,
)
    requires
        s.len() <= MAX_SEQ_LEN,
        blob == compress_spec(s),
        blob.len() >= 14,
        payload == blob.skip(14),
        lz4_unblock_of(payload) == Some(packed),
        forall|x: Seq<u8>|
            x.len() < crate::lz4::lz4_size_limit() && payload == #[trigger] lz4_block_of(x)
                ==> packed == x,
        n == le8_decode(blob.subrange(6, 14)),
    ensures
        packed == payload_of(s),
        n == s.len(),
        varints_parse(packed, n as nat) == Some(zigzag_all(deltas(s))),
{
    assert(s.len() != 0);
    lemma_payload_len_bound(s);
    assert(blob.skip(14) =~= lz4_block_of(payload_of(s)));
    assert(packed == payload_of(s));
    assert(blob.subrange(6, 14) =~= le8_bytes(s.len() as u64));
    lemma_le8_roundtrip(s.len() as u64);
    assert(n == s.len());
    let us = zigzag_all(deltas(s));
    crate::varint::lemma_deltas_from_len(0, s);
    assert(us.len() == s.len());
    lemma_varint_seq_roundtrip(us, Seq::empty());
    assert(varint_seq(us) + Seq::<u8>::empty() =~= varint_seq(us));
    assert(varints_parse(packed, n as nat) == Some(us));
}

/// Read exactly `count` varints from the front of `bytes`, ignoring any
/// bytes after them; mirrors `varints_parse`.
fn read_varints(bytes: &Vec<u8>, count: u64) -> (r: Option<Vec<u64>>)
    ensures
        match r {
            Some(vs) => varints_parse(bytes@, count as nat) == Some(vs@),
            None => varints_parse(bytes@, count as nat) is None,
        },
{
    let mut acc: Vec<u64> = Vec::new();
    let mut pos: usize = 0;
    let mut i: u64 = 0;
    proof {
        assert(bytes@.skip(0) =~= bytes@);
        match varints_parse(bytes@, count as nat) {
            Some(vs) => {
                assert(Seq::<u64>::empty() + vs =~= vs);
            },
            None => {},
        }
    }
    while i < count
        invariant
            pos <= bytes@.len(),
            i <= count,
            acc@.len() == i,
            (match varints_parse(bytes@.skip(pos as int), (count - i) as nat) {
                Some(vs) => varints_parse(bytes@, count as nat) == Some(acc@ + vs),
                None => varints_parse(bytes@, count as nat) is None,
            }),
        decreases count - i,
    {
        let ghost rem = bytes@.skip(pos as int);
        match read_varint(bytes, pos) {
            None => {
                proof {
                    assert(varints_parse(rem, (count - i) as nat) is None);
                }
                return None;
            },
            Some((v, newpos)) => {
                proof {
                    let consumed = newpos - pos;
                    assert(rem.skip(consumed as int) =~= bytes@.skip(newpos as int));
                    match varints_parse(bytes@.skip(newpos as int), (count - i - 1) as nat) {
                        Some(vs) => {
                            assert(varints_parse(rem, (count - i) as nat) == Some(seq![v] + vs));
                            assert(acc@ + (seq![v] + vs) =~= acc@.push(v) + vs);
                        },
                        None => {
                            assert(varints_parse(rem, (count - i) as nat) is None);
                        },
                    }
                }
                acc.push(v);
                pos = newpos;
                i = i + 1;
            },
        }
    }
    proof {
        assert(varints_parse(bytes@.skip(pos as int), 0) == Some(Seq::<u64>::empty()));
        assert(acc@ + Seq::<u64>::empty() =~= acc@);
    }
    Some(acc)
}

/// Un-zigzag each value and take the running wrapping sum.
fn decode_values(us: &Vec<u64>) -> (r: Vec<i64>)
    ensures
        r@ == undelta(us@.map_values(|u: u64| unzigzag_spec(u))),
{
    let ghost ds = us@.map_values(|u: u64| unzigzag_spec(u));
    let mut out: Vec<i64> = Vec::new();
    let mut prev: i64 = 0;
    let mut i: usize = 0;
    while i < us.len()
        invariant
            i <= us@.len(),
            ds == us@.map_values(|u: u64| unzigzag_spec(u)),
            out@ == undelta_from(0, ds.take(i as int)),
            prev == acc_after(0, ds.take(i as int)),
        decreases us@.len() - i,
    {
        let d = unzigzag(us[i]);
        proof {
            assert(ds[i as int] == unzigzag_spec(us@[i as int]));
            lemma_undelta_from_take(0, ds, i as int);
        }
        let x = prev.wrapping_add(d);
        out.push(x);
        prev = x;
        i = i + 1;
        proof {
            assert(out@.last() == x);
            assert(acc_after(0, ds.take(i as int)) == x);
        }
    }
    proof {
        assert(ds.take(us@.len() as int) =~= ds);
    }
    out
}

// ---------------------------------------------------------------------------
// Unsigned and floating views of the integer pipeline
// ---------------------------------------------------------------------------

/// Reinterpret unsigned values through their two's-complement bit pattern.
pub open spec fn u64s_as_i64s(bs: Seq<u64>) -> Seq<i64> {
    bs.map_values(|b: u64| b as i64)
}

pub open spec fn i64s_as_u64s(s: Seq<i64>) -> Seq<u64> {
    s.map_values(|x: i64| x as u64)
}

proof fn lemma_u64_as_i64_as_u64(b: u64)
    ensures
        ((b as i64) as u64) == b,
{
    assert(((b as i64) as u64) == b) by (bit_vector);
}

proof fn lemma_i64_as_u64_as_i64(x: i64)
    ensures
        ((x as u64) as i64) == x,
{
    assert(((x as u64) as i64) == x) by (bit_vector);
}

fn u64s_to_i64s(data: &Vec<u64>) -> (r: Vec<i64>)
    ensures
        r@ == u64s_as_i64s(data@),
{
    let mut out: Vec<i64> = Vec::new();
    let mut i: usize = 0;
    while i < data.len()
        invariant
            i <= data@.len(),
            out@ == u64s_as_i64s(data@.take(i as int)),
        decreases data@.len() - i,
    {
        let x: i64 = #[verifier::truncate] (data[i] as i64);
        proof {
            assert(u64s_as_i64s(data@.take(i + 1)) =~= u64s_as_i64s(data@.take(i as int)).push(
                data@[i as int] as i64,
            ));
        }
        out.push(x);
        i = i + 1;
    }
    proof {
        assert(data@.take(data@.len() as int) =~= data@);
    }
    out
}

fn i64s_to_u64s(data: &Vec<i64>) -> (r: Vec<u64>)
    ensures
        r@ == i64s_as_u64s(data@),
{
    let mut out: Vec<u64> = Vec::new();
    let mut i: usize = 0;
    while i < data.len()
        invariant
            i <= data@.len(),
            out@ == i64s_as_u64s(data@.take(i as int)),
        decreases data@.len() - i,
    {
        let x: u64 = #[verifier::truncate] (data[i] as u64);
        proof {
            assert(i64s_as_u64s(data@.take(i + 1)) =~= i64s_as_u64s(data@.take(i as int)).push(
                data@[i as int] as u64,
            ));
        }
        out.push(x);
        i = i + 1;
    }
    proof {
        assert(data@.take(data@.len() as int) =~= data@);
    }
    out
}

impl I64Codec {
    /// Compress unsigned 64-bit values through their two's-complement view.
    pub fn compress_u64(&self, data: &Vec<u64>) -> (r: Result<Vec<u8>, DecodeError>)
        ensures
            data@.len() <= MAX_SEQ_LEN ==> (r matches Ok(v) && v@ == compress_spec(
                u64s_as_i64s(data@),
            )),
            data@.len() > MAX_SEQ_LEN ==> (r matches Err(e) && e == DecodeError::TooLong),
    {
        let ints = u64s_to_i64s(data);
        self.compress(&ints)
    }

    /// Decode a blob of unsigned 64-bit values; exact inverse of
    /// `compress_u64`.
    pub fn decompress_u64(&self, blob: &[u8]) -> (r: Result<Vec<u64>, DecodeError>)
        ensures
            r matches Ok(v) ==> decompress_spec(blob@) == Ok::<Seq<i64>, DecodeError>(
                u64s_as_i64s(v@),
            ),
            r matches Err(e) ==> decompress_spec(blob@) == Err::<Seq<i64>, DecodeError>(e),
            forall|bs: Seq<u64>|
                bs.len() <= MAX_SEQ_LEN && blob@ == compress_spec(#[trigger] u64s_as_i64s(bs))
                    ==> (r matches Ok(v) && v@ == bs),
    {
        match self.decompress(blob) {
            Ok(v) => {
                let out = i64s_to_u64s(&v);
                proof {
                    assert(u64s_as_i64s(out@) =~= v@) by {
                        assert forall|j: int| 0 <= j < v@.len() implies ((v@[j] as u64) as i64)
                            == v@[j] by {
                            lemma_i64_as_u64_as_i64(v@[j]);
                        }
                    }
                    assert forall|bs: Seq<u64>|
                        bs.len() <= MAX_SEQ_LEN && blob@ == compress_spec(
                            #[trigger] u64s_as_i64s(bs),
                        ) implies out@ =~= bs by {
                        assert(v@ == u64s_as_i64s(bs));
                        assert forall|j: int| 0 <= j < bs.len() implies ((bs[j] as i64) as u64)
                            == bs[j] by {
                            lemma_u64_as_i64_as_u64(bs[j]);
                        }
                    }
                }
                Ok(out)
            },
            Err(e) => {
                proof {
                    assert forall|bs: Seq<u64>|
                        bs.len() <= MAX_SEQ_LEN && blob@ == compress_spec(
                            #[trigger] u64s_as_i64s(bs),
                        ) implies false by {
                        assert(u64s_as_i64s(bs).len() == bs.len());
                    }
                }
                Err(e)
            },
        }
    }
}

/// Quantization policy of the floating codec. In the exact policy the 64-bit
/// pattern of every element is preserved bit for bit. A scaled-integer lossy
/// policy is the integer codec applied to values the caller has already
/// scaled and rounded at the floating boundary, so it needs no variant here.
#[derive(Clone, Copy, Debug, PartialEq, Eq, Structural)]
pub enum FloatMode {
    Exact,
}

/// Floating-variant codec. This crate is float-free: a sequence of 64-bit
/// floats is handed in and out as its IEEE 754 bit patterns (`f64::to_bits`
/// at the caller), and in exact mode the patterns run unchanged through the
/// integer pipeline, so decompression reproduces every element bit for bit.
#[derive(Clone, Debug)]
pub struct F64Codec {
    pub codec: Codec,
    pub mode: FloatMode,
}

impl Default for F64Codec {
    fn default() -> (r: Self)
        ensures
            r.codec == Codec::Lz4,
            r.mode == FloatMode::Exact,
    {
        F64Codec { codec: Codec::Lz4, mode: FloatMode::Exact }
    }
}

impl F64Codec {
    /// Compress a sequence of float bit patterns, exactly.
    pub fn compress_bits(&self, data: &Vec<u64>) -> (r: Result<Vec<u8>, DecodeError>)
        ensures
            data@.len() <= MAX_SEQ_LEN ==> (r matches Ok(v) && v@ == compress_spec(
                u64s_as_i64s(data@),
            )),
            data@.len() > MAX_SEQ_LEN ==> (r matches Err(e) && e == DecodeError::TooLong),
    {
        let inner = I64Codec { codec: self.codec };
        inner.compress_u64(data)
    }

    /// Recover the exact bit patterns `compress_bits` was given.
    pub fn decompress_bits(&self, blob: &[u8]) -> (r: Result<Vec<u64>, DecodeError>)
        ensures
            r matches Ok(v) ==> decompress_spec(blob@) == Ok::<Seq<i64>, DecodeError>(
                u64s_as_i64s(v@),
            ),
            r matches Err(e) ==> decompress_spec(blob@) == Err::<Seq<i64>, DecodeError>(e),
            forall|bs: Seq<u64>|
                bs.len() <= MAX_SEQ_LEN && blob@ == compress_spec(#[trigger] u64s_as_i64s(bs))
                    ==> (r matches Ok(v) && v@ == bs),
    {
        let inner = I64Codec { codec: self.codec };
        inner.decompress_u64(blob)
    }
}

} // verus!
