//! Trusted boundary to the lz4_flex block compressor. The compressed image
//! of a byte sequence is given a name (`lz4_block_of`); nothing else about
//! the compressed bytes is assumed beyond what lz4_flex documents: the
//! size-prepended block format round-trips losslessly.
//!
//! The size-prepended format stores the uncompressed length in a 32-bit
//! prefix, so the compressor silently truncates the recorded size of an
//! input of 2^32 bytes or more and its output then fails to decompress.
//! Every claim here is therefore bounded by that limit: the compressor
//! wrapper refuses larger inputs, and the decompressor's round-trip
//! clauses quantify only over sequences below it.

use vstd::prelude::*;

verus! {

/// Inputs of this many bytes or more do not fit the block format's 32-bit
/// size prefix.
pub open spec fn lz4_size_limit() -> int {
    0x1_0000_0000
}

/// The bytes that lz4_flex's size-prepended block compression produces for
/// input `s`. Within one build the compressor is a pure, deterministic
/// function of its input, so the result is well defined; its exact value is
/// not stated.
pub uninterp spec fn lz4_block_of(s: Seq<u8>) -> Seq<u8>;

/// The result of lz4_flex's size-prepended block decompression on input `b`:
/// `Some` with the decompressed bytes, or `None` where the input is rejected.
/// Also a pure, deterministic function of its input.
pub uninterp spec fn lz4_unblock_of(b: Seq<u8>) -> Option<Seq<u8>>;

/// Relies on lz4_flex::block::compress_prepend_size, which compresses `data`
/// into a block whose uncompressed size is prepended as a 32-bit count —
/// hence the bound on the input length.
#[verifier::external_body]
pub(crate) fn lz4_block_compress(data: &Vec<u8>) -> (r: Vec<u8>)
    requires
        data@.len() < lz4_size_limit(),
    ensures
        r@ == lz4_block_of(data@),
{
    lz4_flex::block::compress_prepend_size(data.as_slice())
}

/// Relies on lz4_flex::block::decompress_size_prepended, which reverses
/// compress_prepend_size: on input that is the compressor's output for some
/// `s` short enough for the format's 32-bit size prefix it returns exactly
/// `s` (the documented lossless round-trip), and on input it cannot decode
/// it returns an error, mapped to `None` here.
#[verifier::external_body]
pub(crate) fn lz4_block_decompress(data: &[u8]) -> (r: Option<Vec<u8>>)
    ensures
        r matches Some(v) ==> lz4_unblock_of(data@) == Some(v@),
        r is Some <==> lz4_unblock_of(data@) is Some,
        r matches Some(v) ==> forall|s: Seq<u8>|
            s.len() < lz4_size_limit() && data@ == #[trigger] lz4_block_of(s) ==> v@ == s,
        r is None ==> forall|s: Seq<u8>|
            s.len() < lz4_size_limit() ==> data@ != #[trigger] lz4_block_of(s),
{
    match lz4_flex::block::decompress_size_prepended(data) {
        Ok(v) => Some(v),
        Err(_) => None,
    }
}

} // verus!
