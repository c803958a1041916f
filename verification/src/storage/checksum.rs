use vstd::prelude::*;

verus! {

/// The CRC-32 (IEEE) checksum of a byte sequence, as computed by `crc32fast::hash`.
/// Only its name is used here: the polynomial arithmetic is left to the crate.
pub uninterp spec fn crc32_ieee(bytes: Seq<u8>) -> u32;

/// Calls `crc32fast::hash`, which returns the CRC-32 (IEEE) checksum of the slice.
/// Claimed: the result depends on the bytes alone, and is `crc32_ieee` of them.
#[verifier::external_body]
pub(crate) fn checksum(bytes: &[u8]) -> (crc: u32)
    ensures
        crc == crc32_ieee(bytes@),
{
    crc32fast::hash(bytes)
}

} // verus!
