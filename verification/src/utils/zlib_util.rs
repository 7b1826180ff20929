//! zlib compression of stored objects, done by `flate2`.
use std::io::{Read, Write};

use flate2::read::ZlibDecoder;
use flate2::write::ZlibEncoder;
use flate2::Compression;
use vstd::prelude::*;

use crate::error::TigError;

verus! {

/// The zlib stream that `flate2` writes for `data` at its default level.
pub uninterp spec fn zlib_deflate(data: Seq<u8>) -> Seq<u8>;

/// The data that `flate2` reads back out of the zlib stream `stream`, or
/// `None` where `stream` is not a valid zlib stream.
pub uninterp spec fn zlib_inflate(stream: Seq<u8>) -> Option<Seq<u8>>;

/// Compresses `content` with `flate2::write::ZlibEncoder` at
/// `Compression::default()` into a `Vec`. Claimed: it succeeds (writing into
/// a `Vec` cannot fail, and the in-memory compressor reports no error), the
/// stream is the one named `zlib_deflate(content)`, and inflating it gives
/// `content` back (zlib is lossless).
#[verifier::external_body]
fn zlib_compress(content: &[u8]) -> (r: Option<Vec<u8>>)
    ensures
        r is Some,
        r matches Some(c) ==> c@ == zlib_deflate(content@) && zlib_inflate(c@) == Some(content@),
{
    let mut encoder = ZlibEncoder::new(Vec::new(), Compression::default());
    if encoder.write_all(content).is_err() {
        return None;
    }
    encoder.finish().ok()
}

/// Decompresses `content` with `flate2::read::ZlibDecoder` and
/// `read_to_end`. Claimed: the result is the one named `zlib_inflate(content)`.
#[verifier::external_body]
fn zlib_decompress(content: &[u8]) -> (r: Option<Vec<u8>>)
    ensures
        match r {
            Some(v) => zlib_inflate(content@) == Some(v@),
            None => zlib_inflate(content@) is None,
        },
{
    let mut decoder = ZlibDecoder::new(content);
    let mut decompressed = Vec::new();
    match decoder.read_to_end(&mut decompressed) {
        Ok(_) => Some(decompressed),
        Err(_) => None,
    }
}

/// Compresses `content` for storage; this always succeeds. What comes out
/// decompresses to `content`.
pub fn encode(content: &[u8]) -> (r: Result<Vec<u8>, TigError>)
    ensures
        r is Ok,
        r matches Ok(c) ==> c@ == zlib_deflate(content@) && zlib_inflate(c@) == Some(content@),
{
    Ok(zlib_compress(content).unwrap())
}

/// Decompresses stored object data.
pub fn decode(content: &[u8]) -> (r: Result<Vec<u8>, TigError>)
    ensures
        match zlib_inflate(content@) {
            Some(d) => r matches Ok(v) && v@ == d,
            None => r == Err::<Vec<u8>, TigError>(TigError::Decompress),
        },
{
    match zlib_decompress(content) {
        Some(v) => Ok(v),
        None => Err(TigError::Decompress),
    }
}

} // verus!
