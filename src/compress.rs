//! zlib and gzip streams, through the flate2 crate.
use std::io::Read;
use vstd::prelude::*;

verus! {

/// The zlib stream that flate2 writes for `b` at its default level.
pub uninterp spec fn zlib_compressed(b: Seq<u8>) -> Seq<u8>;

/// What inflating the zlib stream `b` gives, or `None` where `b` is not a valid stream.
pub uninterp spec fn zlib_inflated(b: Seq<u8>) -> Option<Seq<u8>>;

/// What inflating the gzip stream `b` gives, or `None` where `b` is not a valid stream.
pub uninterp spec fn gzip_inflated(b: Seq<u8>) -> Option<Seq<u8>>;

/// Relies on `flate2::read::ZlibEncoder` at `Compression::default()`: it deflates `b` into
/// a zlib stream, which depends on `b` alone and inflates back to `b` (zlib is lossless).
/// Reading from a slice does not fail.
#[verifier::external_body]
pub(crate) fn zlib_compress(b: &[u8]) -> (r: Vec<u8>)
    ensures
        r@ == zlib_compressed(b@),
        zlib_inflated(r@) == Some(b@),
{
    let mut out = Vec::new();
    let _ = flate2::read::ZlibEncoder::new(b, flate2::Compression::default()).read_to_end(&mut out);
    out
}

/// Relies on `flate2::read::ZlibDecoder`: it inflates a zlib stream and fails on a
/// malformed one.
#[verifier::external_body]
pub(crate) fn zlib_decompress(b: &[u8]) -> (r: Option<Vec<u8>>)
    ensures
        match zlib_inflated(b@) {
            Some(s) => r matches Some(v) && v@ == s,
            None => r is None,
        },
{
    let mut out = Vec::new();
    match flate2::read::ZlibDecoder::new(b).read_to_end(&mut out) {
        Ok(_) => Some(out),
        Err(_) => None,
    }
}

/// Relies on `flate2::read::GzDecoder`: it inflates a gzip stream and fails on a
/// malformed one.
#[verifier::external_body]
pub(crate) fn gzip_decompress(b: &[u8]) -> (r: Option<Vec<u8>>)
    ensures
        match gzip_inflated(b@) {
            Some(s) => r matches Some(v) && v@ == s,
            None => r is None,
        },
{
    let mut out = Vec::new();
    match flate2::read::GzDecoder::new(b).read_to_end(&mut out) {
        Ok(_) => Some(out),
        Err(_) => None,
    }
}

} // verus!
