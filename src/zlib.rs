//! zlib compression and decompression.

use std::io::{Read, Write};

use flate2::bufread::ZlibDecoder;
use flate2::write::ZlibEncoder;
use flate2::Compression;
use vstd::prelude::*;

use crate::git_error::{GitError, GitResult};

verus! {

/// What reading one zlib stream from the front of a byte sequence gives: the
/// number of input bytes the stream took and the bytes it inflates to, or
/// nothing when the stream is malformed or cut short.
pub uninterp spec fn zlib_inflate(data: Seq<u8>) -> Option<(nat, Seq<u8>)>;

/// What zlib compression at the default level gives for a byte sequence.
pub uninterp spec fn zlib_deflate(data: Seq<u8>) -> Seq<u8>;

/// Relies on flate2's `bufread::ZlibDecoder` over a byte slice: `read_to_end`
/// inflates the one zlib stream at the front of `data` and stops at its end,
/// and `total_in` counts the input bytes the decompressor consumed, which are
/// taken from `data`. Both depend on `data` alone.
#[verifier::external_body]
pub fn read(data: &[u8]) -> (r: GitResult<(usize, Vec<u8>)>)
    ensures
        r is Ok <==> zlib_inflate(data@) is Some,
        r matches Ok((n, out)) ==> zlib_inflate(data@) == Some((n as nat, out@)) && n
            <= data@.len(),
{
    let mut decoder = ZlibDecoder::new(data);
    let mut content = Vec::new();
    match decoder.read_to_end(&mut content) {
        Ok(_) => Ok((decoder.total_in() as usize, content)),
        Err(e) => Err(GitError(e.to_string())),
    }
}

/// Relies on flate2's `write::ZlibEncoder` with `Compression::default()`
/// writing into a `Vec`: the compressed stream depends on `data` alone, and
/// the writer only fails when the compressor reports an error, which a fresh
/// default-level encoder with a growing output buffer does not.
#[verifier::external_body]
pub fn write(data: &[u8]) -> (r: GitResult<Vec<u8>>)
    ensures
        r is Ok,
        r matches Ok(out) ==> out@ == zlib_deflate(data@),
{
    let mut encoder = ZlibEncoder::new(Vec::new(), Compression::default());
    match encoder.write_all(data) {
        Ok(()) => {},
        Err(e) => { return Err(GitError(e.to_string())); },
    }
    encoder.finish().map_err(|e| GitError(e.to_string()))
}

} // verus!
