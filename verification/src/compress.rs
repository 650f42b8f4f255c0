use flate2::Compression;
use flate2::read::ZlibDecoder;
use flate2::write::ZlibEncoder;
use std::io::{Read, Write};
use vstd::prelude::*;

verus! {

/// The zlib stream that the compressor makes of `data`; `None` where it
/// reports an error.
pub uninterp spec fn zlib_deflate(data: Seq<u8>) -> Option<Seq<u8>>;

/// What the decompressor reads from the zlib stream `data`; `None` where it
/// rejects the stream.
pub uninterp spec fn zlib_inflate(data: Seq<u8>) -> Option<Seq<u8>>;

/// Compresses `data` with `flate2::write::ZlibEncoder` (`new` at the default
/// level, `write_all`, `finish`). The encoder writes into a vector at a fixed
/// level, so what it gives, a stream or an error, is a function of `data`
/// alone: the result is the stream, or `None` where the encoder reports an
/// error. That the stream decompresses to `data` again is not claimed here.
#[verifier::external_body]
pub(crate) fn deflate(data: &[u8]) -> (r: Option<Vec<u8>>)
    ensures
        match r {
            Some(out) => zlib_deflate(data@) == Some(out@),
            None => zlib_deflate(data@) is None,
        },
{
    let mut encoder = ZlibEncoder::new(Vec::new(), Compression::default());
    match encoder.write_all(data) {
        Ok(()) => {},
        Err(_) => {
            return None;
        },
    }
    match encoder.finish() {
        Ok(out) => Some(out),
        Err(_) => None,
    }
}

/// Decompresses `data` with `flate2::read::ZlibDecoder` (`new`, `read_to_end`).
/// The result is what the stream holds, or `None` where the decoder reports an
/// error.
#[verifier::external_body]
pub(crate) fn inflate(data: &[u8]) -> (r: Option<Vec<u8>>)
    ensures
        match r {
            Some(out) => zlib_inflate(data@) == Some(out@),
            None => zlib_inflate(data@) is None,
        },
{
    let mut out: Vec<u8> = Vec::new();
    match ZlibDecoder::new(data).read_to_end(&mut out) {
        Ok(_) => Some(out),
        Err(_) => None,
    }
}

} // verus!
