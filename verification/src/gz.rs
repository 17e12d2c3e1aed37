//! The one outside computation the bundle core needs: gzip decompression.

use std::io::Read;
use vstd::prelude::*;

verus! {

/// What decompressing a byte sequence yields: the decompressed bytes, or
/// nothing when the sequence is not a whole well-formed gzip stream.
pub uninterp spec fn gunzip_of(s: Seq<u8>) -> Option<Seq<u8>>;

/// Relies on flate2::read::GzDecoder: decompression reads the input bytes
/// alone, so its outcome and output are a function of them.
#[verifier::external_body]
pub(crate) fn gunzip(data: &[u8]) -> (r: Option<Vec<u8>>)
    ensures
        r is Some <==> gunzip_of(data@) is Some,
        r is Some ==> r->0@ == gunzip_of(data@)->0,
{
    let mut out: Vec<u8> = Vec::new();
    match flate2::read::GzDecoder::new(data).read_to_end(&mut out) {
        Ok(_) => Some(out),
        Err(_) => None,
    }
}

} // verus!
