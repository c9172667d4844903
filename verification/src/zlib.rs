//! Zlib compression of stored objects, done by the `flate2` crate.

use vstd::prelude::*;

verus! {

/// The zlib stream that `flate2::bufread::ZlibEncoder`, at its fast level,
/// makes of `data`; nothing where the encoder reports an error.
pub uninterp spec fn zlib_deflated(data: Seq<u8>) -> Option<Seq<u8>>;

/// The bytes that `flate2::bufread::ZlibDecoder` reads out of the zlib
/// stream `data`; nothing where the decoder reports an error.
pub uninterp spec fn zlib_inflated(data: Seq<u8>) -> Option<Seq<u8>>;

/// Reads `flate2::bufread::ZlibEncoder::new(data, Compression::fast())` to
/// its end.
///
/// Not proved: that the bytes read, or the failure to read them, depend on
/// `data` alone, which `zlib_deflated` names.
#[verifier::external_body]
pub(crate) fn deflate(data: &[u8]) -> (stream: Option<Vec<u8>>)
    ensures
        match stream {
            Some(s) => zlib_deflated(data@) == Some(s@),
            None => zlib_deflated(data@).is_none(),
        },
{
    let mut encoder = flate2::bufread::ZlibEncoder::new(data, flate2::Compression::fast());
    let mut stream = Vec::new();
    match std::io::Read::read_to_end(&mut encoder, &mut stream) {
        Ok(_) => Some(stream),
        Err(_) => None,
    }
}

/// Reads `flate2::bufread::ZlibDecoder::new(stream)` to its end.
///
/// Not proved: that the bytes read, or the failure to read them, depend on
/// `stream` alone, which `zlib_inflated` names.
#[verifier::external_body]
pub(crate) fn inflate(stream: &[u8]) -> (data: Option<Vec<u8>>)
    ensures
        match data {
            Some(d) => zlib_inflated(stream@) == Some(d@),
            None => zlib_inflated(stream@).is_none(),
        },
{
    let mut decoder = flate2::bufread::ZlibDecoder::new(stream);
    let mut data = Vec::new();
    match std::io::Read::read_to_end(&mut decoder, &mut data) {
        Ok(_) => Some(data),
        Err(_) => None,
    }
}

} // verus!
