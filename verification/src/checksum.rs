//! The CRC-32 checksum of entry content.

use vstd::prelude::*;

verus! {

/// The CRC-32 (IEEE) checksum of `data`, as the `crc32fast` crate computes it.
pub uninterp spec fn crc32_checksum(data: Seq<u8>) -> u32;

/// `crc32fast::hash`: the CRC-32 checksum of a byte slice. Trusted: the
/// result is taken to depend on the bytes alone, and is given the name
/// `crc32_checksum`; nothing is claimed of its value.
#[verifier::external_body]
pub(crate) fn crc32(data: &[u8]) -> (sum: u32)
    ensures
        sum == crc32_checksum(data@),
{
    crc32fast::hash(data)
}

} // verus!
