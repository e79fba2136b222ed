//! The compression primitive.
//!
//! The generator may store a file's bytes compressed; the runtime then decodes
//! them on access. Both sides consume the primitive as a pure function of the
//! input bytes, whose two directions invert each other.

use vstd::prelude::*;

verus! {

/// The bytes that the compression primitive produces for `data`.
pub uninterp spec fn compress_of(data: Seq<u8>) -> Seq<u8>;

/// The outcome of decoding `data`: the decoded bytes, or `None` when `data` is
/// not a well-formed compressed stream.
pub uninterp spec fn decode_of(data: Seq<u8>) -> Option<Seq<u8>>;

/// Relies on `deflate::deflate_bytes_zlib_conf`: a pure function of the input
/// bytes that emits a zlib stream holding exactly the input, so the matching
/// decoder yields the input back.
#[verifier::external_body]
pub fn compress_bytes(data: &[u8]) -> (r: Vec<u8>)
    ensures
        r@ == compress_of(data@),
        decode_of(r@) == Some(data@),
{
    deflate::deflate_bytes_zlib_conf(data, deflate::Compression::Best)
}

/// Relies on `inflate::inflate_bytes_zlib`: a pure function of the input bytes
/// that decodes a zlib stream, or reports failure.
#[verifier::external_body]
pub(crate) fn decompress_bytes(data: &[u8]) -> (r: Option<Vec<u8>>)
    ensures
        match r {
            Some(v) => decode_of(data@) == Some(v@),
            None => decode_of(data@) is None,
        },
{
    match inflate::inflate_bytes_zlib(data) {
        Ok(v) => Some(v),
        Err(_) => None,
    }
}

} // verus!
