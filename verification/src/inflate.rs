use vstd::prelude::*;

use miniz_oxide::inflate::decompress_to_vec_zlib;
use rust_lzo::{LZOContext, LZOError};

verus! {

/// Name for the result of inflating a zlib stream: `None` where the bytes
/// are not a well-formed stream.
pub uninterp spec fn zlib_inflated(data: Seq<u8>) -> Option<Seq<u8>>;

/// Relies on miniz_oxide::inflate::decompress_to_vec_zlib: inflating a
/// byte buffer is a function of its bytes alone, and whether it succeeds
/// is too; the decoder accepts or rejects every input with a `Result`.
#[verifier::external_body]
pub(crate) fn zlib_decompress(data: &[u8]) -> (r: Option<Vec<u8>>)
    ensures
        r is Some <==> zlib_inflated(data@) is Some,
        r matches Some(v) ==> Some(v@) == zlib_inflated(data@),
{
    match decompress_to_vec_zlib(data) {
        Ok(out) => Some(out),
        Err(_) => None,
    }
}

/// Name for the result of LZO1X decompression into a buffer of the given
/// capacity: `None` where the input is rejected.
pub uninterp spec fn lzo_inflated(data: Seq<u8>, cap: nat) -> Option<Seq<u8>>;

/// Relies on rust_lzo::LZOContext::decompress_to_slice: the decompressed
/// bytes are a function of the input and of the output capacity alone, and
/// never exceed that capacity.
#[verifier::external_body]
pub(crate) fn lzo_decompress(data: &[u8], cap: usize) -> (r: Option<Vec<u8>>)
    ensures
        r is Some <==> lzo_inflated(data@, cap as nat) is Some,
        r matches Some(v) ==> Some(v@) == lzo_inflated(data@, cap as nat) && v@.len() <= cap,
{
    let mut out = vec![0u8; cap];
    let (result, err) = LZOContext::decompress_to_slice(data, &mut out);
    if err != LZOError::OK {
        return None;
    }
    let n = result.len();
    out.truncate(n);
    Some(out)
}

} // verus!
