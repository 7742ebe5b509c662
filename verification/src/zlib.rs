use vstd::prelude::*;

use std::io::Read;
use std::io::Write;

verus! {

/// What decoding one zlib stream from the front of `s` yields: the
/// decompressed content and the count of input bytes the stream occupied,
/// or `None` when no well-formed stream sits there.  The name stands for
/// the function the compression crate computes, which depends on the bytes
/// alone.
pub uninterp spec fn zlib_inflate(s: Seq<u8>) -> Option<(Seq<u8>, nat)>;

/// Relies on flate2::read::ZlibDecoder: decodes one zlib stream from the
/// front of `input` and reports, through `total_in`, how many input bytes
/// the stream occupied; fails on a corrupt or truncated stream.
#[verifier::external_body]
pub(crate) fn zlib_decompress(input: &[u8]) -> (r: Option<(Vec<u8>, usize)>)
    ensures
        r matches Some(p) ==> zlib_inflate(input@) == Some((p.0@, p.1 as nat)) && p.1
            <= input@.len(),
        r is Some <==> zlib_inflate(input@) is Some,
{
    let mut decoder = flate2::read::ZlibDecoder::new(input);
    let mut content = Vec::new();
    match decoder.read_to_end(&mut content) {
        Ok(_) => {
            let used = decoder.total_in() as usize;
            if used <= input.len() {
                Some((content, used))
            } else {
                None
            }
        },
        Err(_) => None,
    }
}

/// Relies on flate2::write::ZlibEncoder at the default level: the result is
/// one zlib stream that decodes back to exactly `data`, consuming the whole
/// result.  An in-memory sink cannot fail.
#[verifier::external_body]
pub(crate) fn zlib_compress(data: &[u8]) -> (r: Vec<u8>)
    ensures
        zlib_inflate(r@) == Some((data@, r@.len() as nat)),
{
    let mut encoder = flate2::write::ZlibEncoder::new(Vec::new(), flate2::Compression::default());
    encoder.write_all(data).expect("writing to a byte buffer cannot fail");
    encoder.finish().expect("finishing a byte buffer cannot fail")
}

} // verus!
