use vstd::prelude::*;

verus! {

/// The id of a graph node: the 128 bits of a version-4 UUID.
pub type NodeId = u128;

/// The version-4 UUID made from 128 random bits: the version field (bits
/// 76 to 79) reads 4, the variant field (bits 62 and 63) reads `0b10`, and
/// every other bit is the random one.
pub open spec fn spec_node_id(random: u128) -> u128 {
    (random & 0xFFFF_FFFF_FFFF_4FFF_BFFF_FFFF_FFFF_FFFFu128) | 0x4000_8000_0000_0000_0000u128
}

/// The node id made from 128 random bits, drawn by the caller.
pub fn node_id(random: u128) -> (id: u128)
    ensures
        id == spec_node_id(random),
        (id >> 76u128) & 0xfu128 == 4u128,
        (id >> 62u128) & 0x3u128 == 2u128,
{
    let id = (random & 0xFFFF_FFFF_FFFF_4FFF_BFFF_FFFF_FFFF_FFFFu128) | 0x4000_8000_0000_0000_0000u128;
    assert((id >> 76u128) & 0xfu128 == 4u128 && (id >> 62u128) & 0x3u128 == 2u128) by (bit_vector)
        requires
            id == (random & 0xFFFF_FFFF_FFFF_4FFF_BFFF_FFFF_FFFF_FFFFu128) | 0x4000_8000_0000_0000_0000u128,
    ;
    id
}

} // verus!
