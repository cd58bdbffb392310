//! zstd compression for `.yip` packing.
//!
//! Compression is applied before framing, so the CRC covers the compressed bytes.

use vstd::prelude::*;

verus! {

/// The frame zstd's `encode_all` writes for `data` at compression `level`.
pub uninterp spec fn zstd_encoded(data: Seq<u8>, level: i32) -> Seq<u8>;

/// What zstd's `decode_all` recovers from `data`: `None` when it reports an
/// error (bytes that are not a sequence of zstd frames, or frames it refuses).
pub uninterp spec fn zstd_decoded(data: Seq<u8>) -> Option<Seq<u8>>;

/// `std::io::Error`, the error type of zstd's stream functions.
#[verifier::external_type_specification]
#[verifier::external_body]
pub struct ExIoError(std::io::Error);

/// The compression level used for `.yip` files.
pub const LEVEL: i32 = 3;

/// `zstd::stream::encode_all` on an in-memory slice, at one of zstd's standard
/// levels 1 to 19. Claimed: the output is a function of the input and level
/// alone, and it is a zstd frame that decodes back to the input. Reading from a
/// slice and writing to a `Vec` cannot fail for want of input or space, so the
/// `io::Result` is unwrapped.
#[verifier::external_body]
fn zstd_encode_all(data: &[u8], level: i32) -> (r: Vec<u8>)
    requires
        1 <= level <= 19,
    ensures
        r@ == zstd_encoded(data@, level),
        zstd_decoded(r@) == Some(data@),
{
    zstd::stream::encode_all(data, level).expect("in-memory zstd compression")
}

/// Compress data with zstd at level 3.
pub fn compress(data: &[u8]) -> (r: Vec<u8>)
    ensures
        r@ == zstd_encoded(data@, LEVEL),
        zstd_decoded(r@) == Some(data@),
{
    zstd_encode_all(data, LEVEL)
}

/// `zstd::stream::decode_all` on an in-memory slice. Claimed: whether it
/// succeeds, and the bytes it then returns, are a function of the input alone
/// (named `zstd_decoded`). The error value itself is not described.
#[verifier::external_body]
fn zstd_decode_all(data: &[u8]) -> (r: Result<Vec<u8>, std::io::Error>)
    ensures
        r is Ok <==> zstd_decoded(data@) is Some,
        r matches Ok(v) ==> zstd_decoded(data@) == Some(v@),
{
    zstd::stream::decode_all(data)
}

/// Decompress zstd-compressed data; an error when zstd cannot decode the bytes.
pub fn decompress(data: &[u8]) -> (r: Result<Vec<u8>, std::io::Error>)
    ensures
        r is Ok <==> zstd_decoded(data@) is Some,
        r matches Ok(v) ==> zstd_decoded(data@) == Some(v@),
{
    zstd_decode_all(data)
}

} // verus!
