//! The packet checksum of the netchannel header.
use vstd::prelude::*;

verus! {

/// The CRC-32 (IEEE polynomial, reflected, initial and final XOR `0xFFFFFFFF`) of `data`.
pub uninterp spec fn crc32_ieee(data: Seq<u8>) -> u32;

/// Relies on crc's `crc32::checksum_ieee`, which computes the CRC-32/IEEE of the bytes.
#[verifier::external_body]
fn crc32(data: &[u8]) -> (r: u32)
    ensures
        r == crc32_ieee(data@),
{
    crc::crc32::checksum_ieee(data)
}

/// A CRC folded to 16 bits: its upper half XORed into its lower half.
pub open spec fn fold_crc(crc: u32) -> u16 {
    ((crc ^ (crc >> 16u32)) & 0xFFFFu32) as u16
}

/// The checksum carried in a netchannel header for a payload.
pub open spec fn valve_checksum_of(data: Seq<u8>) -> u16 {
    fold_crc(crc32_ieee(data))
}

/// Folds a CRC-32 into the 16-bit netchannel checksum.
pub fn fold_checksum(crc: u32) -> (r: u16)
    ensures
        r == fold_crc(crc),
{
    ((crc ^ (crc >> 16u32)) & 0xFFFFu32) as u16
}

/// The 16-bit netchannel checksum of `data`.
pub fn valve_checksum(data: &[u8]) -> (r: u16)
    ensures
        r == valve_checksum_of(data@),
{
    fold_checksum(crc32(data))
}

} // verus!
