//! Packing the committed part of a balance and its blinder into field
//! elements.
use crate::bytes::{le_u32, u32_from_le_bytes};
use crate::field::{qm31_from_u32s, spec_qm31_from_u32s, QM31};
use vstd::prelude::*;

verus! {

pub const COMMITTED_PART_LEN: usize = 12;

/// Packs 12 ASCII bytes into a QM31.
///
/// Layout: `coord0 = bytes[0..4]`, `coord1 = bytes[4..8]`, `coord2 = bytes[8..12]`,
/// `coord3 = 0`, each word little-endian and reduced mod `P`.
pub fn pack_balance_str(bytes: &[u8; COMMITTED_PART_LEN]) -> (r: QM31)
    ensures
        r == spec_qm31_from_u32s(
            le_u32(bytes@, 0) as u32,
            le_u32(bytes@, 4) as u32,
            le_u32(bytes@, 8) as u32,
            0,
        ),
{
    qm31_from_u32s(u32_from_le_bytes(bytes, 0), u32_from_le_bytes(bytes, 4), u32_from_le_bytes(bytes, 8), 0)
}

/// Packs 16 blinder bytes into a QM31: four little-endian words, each reduced
/// mod `P`.
pub fn pack_blinder(bytes: &[u8; 16]) -> (r: QM31)
    ensures
        r == spec_qm31_from_u32s(
            le_u32(bytes@, 0) as u32,
            le_u32(bytes@, 4) as u32,
            le_u32(bytes@, 8) as u32,
            le_u32(bytes@, 12) as u32,
        ),
{
    qm31_from_u32s(
        u32_from_le_bytes(bytes, 0),
        u32_from_le_bytes(bytes, 4),
        u32_from_le_bytes(bytes, 8),
        u32_from_le_bytes(bytes, 12),
    )
}

} // verus!
