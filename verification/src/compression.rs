//! LZ4 compression of message payloads, through the `lz4_flex` crate.

use vstd::prelude::*;
use lz4_flex::block::DecompressError;

verus! {

/// The block that `lz4_flex::compress_prepend_size` makes of `data`.
pub uninterp spec fn spec_lz4_compress(data: Seq<u8>) -> Seq<u8>;

/// What `lz4_flex::decompress_size_prepended` makes of `data`: the
/// decompressed bytes, or `None` when it reports an error.
pub uninterp spec fn spec_lz4_decompress(data: Seq<u8>) -> Option<Seq<u8>>;

/// The four little-endian bytes of `n`.
pub open spec fn le32_bytes(n: u32) -> Seq<u8> {
    seq![
        (n & 0xff) as u8,
        ((n >> 8u32) & 0xff) as u8,
        ((n >> 16u32) & 0xff) as u8,
        ((n >> 24u32) & 0xff) as u8,
    ]
}

/// The bytes of a successful decompression.
pub open spec fn decompressed(r: Result<Vec<u8>, DecompressError>) -> Option<Seq<u8>> {
    match r {
        Ok(v) => Some(v@),
        Err(_) => None,
    }
}

#[verifier::external_type_specification]
#[verifier::external_body]
pub struct ExDecompressError(DecompressError);

/// Trusted: `lz4_flex::compress_prepend_size`. The compressed block is named by
/// `spec_lz4_compress`; the crate's source writes the input length, as a
/// little-endian `u32`, in front of it, into a buffer of
/// `get_maximum_output_size(len) + 4` bytes (`16 + 4 + len * 110 / 100`,
/// the documented worst case) that it only shortens.
#[verifier::external_body]
fn lz4_compress_prepend_size(data: &[u8]) -> (out: Vec<u8>)
    ensures
        out@ == spec_lz4_compress(data@),
        out@.len() >= 4,
        out@.subrange(0, 4) == le32_bytes(data@.len() as u32),
        data@.len() * 110 <= usize::MAX ==> out@.len() <= 24 + data@.len() * 110 / 100,
{
    lz4_flex::compress_prepend_size(data)
}

/// Trusted: `lz4_flex::decompress_size_prepended`. The outcome is named by
/// `spec_lz4_decompress`. The crate's source refuses input shorter than the
/// four-byte size prefix, and the crate documents it as the inverse of
/// `compress_prepend_size` for inputs whose length fits the `u32` prefix.
#[verifier::external_body]
fn lz4_decompress_size_prepended(data: &[u8]) -> (r: Result<Vec<u8>, DecompressError>)
    ensures
        decompressed(r) == spec_lz4_decompress(data@),
        data@.len() < 4 ==> decompressed(r) is None,
        forall|d: Seq<u8>|
            #![trigger spec_lz4_compress(d)]
            d.len() <= u32::MAX && data@ == spec_lz4_compress(d) ==> decompressed(r) == Some(d),
{
    lz4_flex::decompress_size_prepended(data)
}

/// Compresses `data` with LZ4; the uncompressed length is prepended.
pub fn compress(data: &[u8]) -> (out: Vec<u8>)
    ensures
        out@ == spec_lz4_compress(data@),
        out@.len() >= 4,
        out@.subrange(0, 4) == le32_bytes(data@.len() as u32),
        data@.len() * 110 <= usize::MAX ==> out@.len() <= 24 + data@.len() * 110 / 100,
{
    lz4_compress_prepend_size(data)
}

/// Decompresses a block made by `compress`. Whatever `compress` made of bytes
/// whose length fits in 32 bits decompresses back to them.
pub fn decompress(data: &[u8]) -> (r: Result<Vec<u8>, DecompressError>)
    ensures
        decompressed(r) == spec_lz4_decompress(data@),
        data@.len() < 4 ==> decompressed(r) is None,
        forall|d: Seq<u8>|
            #![trigger spec_lz4_compress(d)]
            d.len() <= u32::MAX && data@ == spec_lz4_compress(d) ==> decompressed(r) == Some(d),
{
    lz4_decompress_size_prepended(data)
}

} // verus!
