//! Trusted wrappers around the streaming compressor. Compression runs at
//! the fixed default level, so archive bytes are a function of the input
//! alone and written archives stay byte-stable.

use vstd::prelude::*;
use crate::error::CacheError;

verus! {

/// What the compressor emits for a byte sequence at the fixed default
/// level; a function of the input alone.
pub uninterp spec fn zstd_encode_of(bytes: Seq<u8>) -> Seq<u8>;

/// What decompression reads out of a byte sequence, when it is a valid
/// compressed stream; a function of the input alone.
pub uninterp spec fn zstd_decode_of(bytes: Seq<u8>) -> Option<Seq<u8>>;

/// Relies on `zstd::stream::encode_all` at the default level: the output
/// depends on the input bytes alone, decoding it yields them back, and
/// compressing into memory always succeeds.
#[verifier::external_body]
pub(crate) fn zstd_compress(bytes: &Vec<u8>) -> (r: Result<Vec<u8>, CacheError>)
    ensures
        r is Ok,
        r matches Ok(out) ==> out@ == zstd_encode_of(bytes@) && zstd_decode_of(out@) == Some(
            bytes@,
        ),
{
    match zstd::stream::encode_all(bytes.as_slice(), 0) {
        Ok(v) => Ok(v),
        Err(e) => Err(CacheError::Io(e.to_string())),
    }
}

/// Relies on `zstd::stream::decode_all`: the result depends on the input
/// bytes alone, and inputs that no encoder produced are rejected.
#[verifier::external_body]
pub(crate) fn zstd_decompress(bytes: &Vec<u8>) -> (r: Result<Vec<u8>, CacheError>)
    ensures
        r matches Ok(out) ==> zstd_decode_of(bytes@) == Some(out@),
        r is Err ==> zstd_decode_of(bytes@) is None,
{
    match zstd::stream::decode_all(bytes.as_slice()) {
        Ok(v) => Ok(v),
        Err(e) => Err(CacheError::Io(e.to_string())),
    }
}

} // verus!
