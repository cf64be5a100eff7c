//! The gzip layer around the record stream.
//!
//! The whole record stream is compressed as one standard gzip container;
//! the compressor does not need to understand the record framing. What the
//! decompressor yields is a function of the compressed bytes alone, named
//! here by [`gunzip_of`]; the two wrappers are trusted to agree with it.

use vstd::prelude::*;

verus! {

/// What gzip decompression yields for a given stream: the decompressed
/// bytes, or nothing where the stream is not a well-formed gzip container.
pub uninterp spec fn gunzip_of(compressed: Seq<u8>) -> Option<Seq<u8>>;

/// Relies on flate2's write::GzEncoder and its finish: the output is a gzip
/// container that flate2's own decoder decompresses back to exactly the
/// bytes written in.
#[verifier::external_body]
pub(crate) fn gzip_compress(data: &Vec<u8>) -> (r: Option<Vec<u8>>)
    ensures
        r is Some ==> gunzip_of(r.unwrap()@) == Some(data@),
{
    let mut enc = flate2::write::GzEncoder::new(Vec::new(), flate2::Compression::default());
    if std::io::Write::write_all(&mut enc, data.as_slice()).is_err() {
        return None;
    }
    enc.finish().ok()
}

/// Relies on flate2's bufread::GzDecoder and read_to_end: decompression
/// succeeds on a well-formed container and fails on any other input, and
/// its result depends on the compressed bytes alone.
#[verifier::external_body]
pub(crate) fn gzip_decompress(data: &Vec<u8>) -> (r: Option<Vec<u8>>)
    ensures
        r is Some <==> gunzip_of(data@) is Some,
        r is Some ==> Some(r.unwrap()@) == gunzip_of(data@),
{
    let mut dec = flate2::bufread::GzDecoder::new(data.as_slice());
    let mut out = Vec::new();
    match std::io::Read::read_to_end(&mut dec, &mut out) {
        Ok(_) => Some(out),
        Err(_) => None,
    }
}

} // verus!
