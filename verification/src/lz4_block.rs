//! LZ4 block compression, done by the `lzzzz` crate.
//!
//! Decoding a block is fixed by the format, so what a block decodes to has a
//! name, `lz4_decoded`. Which block a compressor emits for given data is not
//! fixed (it differs between builds of the library), so the block itself has
//! no name: its size is stated, that it decodes to the data it was made of,
//! and when compressing succeeds. None of these contracts is proved.

use vstd::prelude::*;

verus! {

/// `lzzzz::Error`, which is handed on as it comes.
#[verifier::external_type_specification]
#[verifier::external_body]
pub struct ExLz4Error(lzzzz::Error);

/// The data that the block `block` decodes to where at most `capacity` bytes
/// may come out, or `None` where the decoder rejects it.
pub uninterp spec fn lz4_decoded(block: Seq<u8>, capacity: nat) -> Option<Seq<u8>>;

/// `lzzzz::lz4::decompress` into a zeroed buffer of `size` bytes. On success
/// the buffer comes back, `size` bytes long, and it starts with the decoded
/// data, which may be shorter; the decoder's error comes back otherwise.
#[verifier::external_body]
pub(crate) fn lz4_decompress(block: &[u8], size: usize) -> (r: Result<Vec<u8>, lzzzz::Error>)
    ensures
        r is Ok <==> lz4_decoded(block@, size as nat) is Some,
        r matches Ok(out) ==> out@.len() == size && ({
            let decoded = lz4_decoded(block@, size as nat)->0;
            decoded.len() <= size && out@.take(decoded.len() as int) == decoded
        }),
{
    let mut out = vec![0u8; size];
    match lzzzz::lz4::decompress(block, &mut out) {
        Ok(_) => Ok(out),
        Err(e) => Err(e),
    }
}

/// The most bytes of data that the format can take.
pub const LZ4_MAX_INPUT: usize = 0x7E00_0000;

/// The most bytes that compressing `size` bytes can need, or zero where
/// `size` is more than the format can take.
pub open spec fn lz4_bound(size: int) -> int {
    if size <= LZ4_MAX_INPUT {
        size + size / 255 + 16
    } else {
        0
    }
}

/// The most bytes that compressing `size` bytes can need, by the formula
/// of the format, which is that of `lzzzz::lz4::max_compressed_size`.
pub fn lz4_max_compressed_size(size: usize) -> (r: usize)
    requires
        size + size / 255 + 16 <= usize::MAX,
    ensures
        r == lz4_bound(size as int),
{
    if size <= LZ4_MAX_INPUT {
        size + size / 255 + 16
    } else {
        0
    }
}

/// `lzzzz::lz4::compress` into `buffer`: on success the number of bytes
/// written, which the buffer can hold and which is zero only for empty data.
/// For data that the format can take, what was written is an LZ4 block of
/// the data: decoded into as many bytes as the data has, it gives the data
/// back; and the call succeeds where the buffer holds `lz4_bound` of the
/// data's length and no more than a C `int` can count. Of longer data the
/// library is handed a cut length, so nothing is said of its block. The
/// buffer keeps its length.
#[verifier::external_body]
pub(crate) fn lz4_compress(data: &[u8], buffer: &mut Vec<u8>, acceleration: i32) -> (r: Result<
    usize,
    lzzzz::Error,
>)
    ensures
        final(buffer)@.len() == old(buffer)@.len(),
        r matches Ok(n) ==> n <= old(buffer)@.len() && (n == 0 ==> data@.len() == 0) && (n > 0
            && data@.len() <= LZ4_MAX_INPUT ==> lz4_decoded(
            final(buffer)@.take(n as int),
            data@.len(),
        ) == Some(data@)),
        data@.len() <= LZ4_MAX_INPUT && lz4_bound(data@.len() as int) <= old(buffer)@.len()
            <= i32::MAX ==> r is Ok,
{
    lzzzz::lz4::compress(data, buffer, acceleration)
}

/// `lzzzz::lz4_hc::compress` into `buffer`: on success the number of bytes
/// written, which the buffer can hold and which is zero only for empty data.
/// For data that the format can take, what was written is an LZ4 block of
/// the data: decoded into as many bytes as the data has, it gives the data
/// back; and the call succeeds where the buffer holds `lz4_bound` of the
/// data's length and no more than a C `int` can count. Of longer data the
/// library is handed a cut length, so nothing is said of its block. The
/// buffer keeps its length.
#[verifier::external_body]
pub(crate) fn lz4_hc_compress(data: &[u8], buffer: &mut Vec<u8>, level: i32) -> (r: Result<
    usize,
    lzzzz::Error,
>)
    ensures
        final(buffer)@.len() == old(buffer)@.len(),
        r matches Ok(n) ==> n <= old(buffer)@.len() && (n == 0 ==> data@.len() == 0) && (n > 0
            && data@.len() <= LZ4_MAX_INPUT ==> lz4_decoded(
            final(buffer)@.take(n as int),
            data@.len(),
        ) == Some(data@)),
        data@.len() <= LZ4_MAX_INPUT && lz4_bound(data@.len() as int) <= old(buffer)@.len()
            <= i32::MAX ==> r is Ok,
{
    lzzzz::lz4_hc::compress(data, buffer, level)
}

} // verus!
