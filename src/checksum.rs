//! Checksum unit: the masked CRC-32C that guards each record fragment.

use vstd::prelude::*;

verus! {

/// The constant added to a CRC before it is stored.
pub const MASK_DELTA: u32 = 0xa282ead8;

/// The stored form `c` of a checksum, turned back into the checksum: subtract
/// the mask delta modulo `2^32`, then rotate right by 17 bits.
pub open spec fn unmask_spec(c: u32) -> u32 {
    let rot = (c as int - MASK_DELTA as int) % 0x1_0000_0000;
    (rot / 0x20000 + (rot % 0x20000) * 0x8000) as u32
}

/// Undoes the masking that is applied to a checksum when it is written.
pub fn unmask_crc(c: u32) -> (r: u32)
    ensures
        r == unmask_spec(c),
{
    let rot = c.wrapping_sub(MASK_DELTA);
    let r = (rot >> 17) | (rot << 15);
    assert(r == ((rot / 0x20000) + (rot % 0x20000) * 0x8000) as u32) by (bit_vector)
        requires
            r == (rot >> 17) | (rot << 15),
    ;
    r
}

/// The CRC-32C (Castagnoli) checksum of `data`.
pub uninterp spec fn crc32c_of(data: Seq<u8>) -> u32;

/// Relies on `crc32c::crc32c`: the CRC-32C of the bytes, which depends on the
/// bytes alone.
#[verifier::external_body]
fn crc32c_checksum(data: &[u8]) -> (r: u32)
    ensures
        r == crc32c_of(data@),
{
    crc32c::crc32c(data)
}

/// Whether a fragment of type `record_type` with `payload` agrees with the
/// stored (masked) checksum: its CRC-32C over the type byte followed by the
/// payload equals the unmasked stored value.
pub fn checksum_matches(record_type: u8, payload: &[u8], stored: u32) -> (r: bool)
    ensures
        r == (crc32c_of(seq![record_type] + payload@) == unmask_spec(stored)),
{
    checksum_agrees(computed_checksum(record_type, payload), stored)
}

/// Whether a computed checksum `actual` agrees with the stored (masked)
/// value.
pub fn checksum_agrees(actual: u32, stored: u32) -> (r: bool)
    ensures
        r == (actual == unmask_spec(stored)),
{
    actual == unmask_crc(stored)
}

/// The CRC-32C over the type byte followed by the payload.
pub fn computed_checksum(record_type: u8, payload: &[u8]) -> (r: u32)
    ensures
        r == crc32c_of(seq![record_type] + payload@),
{
    let mut data: Vec<u8> = Vec::new();
    data.push(record_type);
    data.extend_from_slice(payload);
    assert(data@ == seq![record_type] + payload@);
    crc32c_checksum(data.as_slice())
}

} // verus!
