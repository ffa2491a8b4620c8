use vstd::prelude::*;

use adler32::RollingAdler32;

use crate::{Error, Section};

verus! {

/// Name for the Adler-32 checksum of a byte string.
pub uninterp spec fn adler32_of(data: Seq<u8>) -> u32;

/// Relies on adler32::RollingAdler32: the rolling checksum of a buffer is a
/// function of its bytes alone.
#[verifier::external_body]
pub(crate) fn adler32_hash(data: &[u8]) -> (r: u32)
    ensures
        r == adler32_of(data@),
{
    RollingAdler32::from_buffer(data).hash()
}

/// Verifies the Adler-32 checksum of a buffer against a stored value,
/// reporting the section in which a mismatch was found.
pub fn check_adler32(data: &[u8], checksum: u32, section: Section) -> (r: Result<(), Error>)
    ensures
        r is Ok <==> adler32_of(data@) == checksum,
        r is Err ==> r == Result::<(), Error>::Err(Error::InvalidCheckSum(section)),
{
    if adler32_hash(data) != checksum {
        return Err(Error::InvalidCheckSum(section));
    }
    Ok(())
}

} // verus!
