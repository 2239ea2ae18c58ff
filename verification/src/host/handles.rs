//! Handles of bodies, colliders and joints, and the one number that stands for a handle.
//!
//! A handle is an index into a table and the generation of that entry. Packed into one number,
//! the index is shifted by one so that zero stands for no handle at all.

use vstd::prelude::*;

verus! {

#[derive(Clone, Copy, Debug, PartialEq, Eq, Structural)]
pub struct AlchemyRapierRigidBodyHandle {
    pub index: u32,
    pub generation: u32,
}

#[derive(Clone, Copy, Debug, PartialEq, Eq, Structural)]
pub struct AlchemyRapierColliderHandle {
    pub index: u32,
    pub generation: u32,
}

#[derive(Clone, Copy, Debug, PartialEq, Eq, Structural)]
pub struct AlchemyRapierJointHandle {
    pub index: u32,
    pub generation: u32,
}

impl Default for AlchemyRapierRigidBodyHandle {
    fn default() -> (r: Self)
        ensures
            r == (AlchemyRapierRigidBodyHandle { index: 0, generation: 0 }),
    {
        AlchemyRapierRigidBodyHandle { index: 0, generation: 0 }
    }
}

impl Default for AlchemyRapierColliderHandle {
    fn default() -> (r: Self)
        ensures
            r == (AlchemyRapierColliderHandle { index: 0, generation: 0 }),
    {
        AlchemyRapierColliderHandle { index: 0, generation: 0 }
    }
}

impl Default for AlchemyRapierJointHandle {
    fn default() -> (r: Self)
        ensures
            r == (AlchemyRapierJointHandle { index: 0, generation: 0 }),
    {
        AlchemyRapierJointHandle { index: 0, generation: 0 }
    }
}

/// The number for an index and a generation. The last index reaches into the lowest bit of the
/// generation.
pub open spec fn packed(index: u32, generation: u32) -> u64 {
    if index < u32::MAX {
        (generation * 0x1_0000_0000 + index + 1) as u64
    } else {
        ((generation | 1) * 0x1_0000_0000) as u64
    }
}

/// The index and the generation that a number stands for.
pub open spec fn unpacked(packed_id: u64) -> Option<(u32, u32)> {
    if packed_id % 0x1_0000_0000 == 0 {
        None
    } else {
        Some(((packed_id % 0x1_0000_0000 - 1) as u32, (packed_id / 0x1_0000_0000) as u32))
    }
}

pub open spec fn packed_collider(handle: AlchemyRapierColliderHandle) -> u64 {
    packed(handle.index, handle.generation)
}

pub open spec fn packed_body(handle: AlchemyRapierRigidBodyHandle) -> u64 {
    packed(handle.index, handle.generation)
}

pub open spec fn packed_joint(handle: AlchemyRapierJointHandle) -> u64 {
    packed(handle.index, handle.generation)
}

pub fn pack_parts(index: u32, generation: u32) -> (r: u64)
    ensures
        r == packed(index, generation),
{
    let low: u64 = index as u64 + 1;
    let high: u64 = (generation as u64) << 32;
    assert(high == generation * 0x1_0000_0000) by (bit_vector)
        requires
            high == (generation as u64) << 32,
    ;
    assert(low | high == if low < 0x1_0000_0000 {
        generation * 0x1_0000_0000 + low
    } else {
        (generation | 1) * 0x1_0000_0000
    }) by (bit_vector)
        requires
            low <= 0x1_0000_0000,
            high == (generation as u64) << 32,
    ;
    low | high
}

pub fn pack_body_handle(handle: AlchemyRapierRigidBodyHandle) -> (r: u64)
    ensures
        r == packed_body(handle),
{
    pack_parts(handle.index, handle.generation)
}

pub fn pack_collider_handle(handle: AlchemyRapierColliderHandle) -> (r: u64)
    ensures
        r == packed_collider(handle),
{
    pack_parts(handle.index, handle.generation)
}

pub fn pack_joint_handle(handle: AlchemyRapierJointHandle) -> (r: u64)
    ensures
        r == packed_joint(handle),
{
    pack_parts(handle.index, handle.generation)
}

/// The handle that a number stands for; none where the lower half is zero.
pub fn collider_handle_from_packed(packed_id: u64) -> (r: Option<AlchemyRapierColliderHandle>)
    ensures
        match unpacked(packed_id) {
            Some((index, generation)) => r == Some(
                AlchemyRapierColliderHandle { index, generation },
            ),
            None => r is None,
        },
{
    let low: u64 = packed_id % 0x1_0000_0000;
    if low == 0 {
        None
    } else {
        Some(
            AlchemyRapierColliderHandle {
                index: (low - 1) as u32,
                generation: (packed_id / 0x1_0000_0000) as u32,
            },
        )
    }
}

/// The number of a body, zero where there is none.
pub fn body_packed_id(body: Option<AlchemyRapierRigidBodyHandle>) -> (r: u64)
    ensures
        r == match body {
            Some(handle) => packed_body(handle),
            None => 0,
        },
{
    match body {
        Some(handle) => pack_body_handle(handle),
        None => 0,
    }
}

/// Two numbers, the lesser first.
pub open spec fn ordered_pair(a: u64, b: u64) -> (u64, u64) {
    if a <= b {
        (a, b)
    } else {
        (b, a)
    }
}

/// The pair of two colliders in contact, whichever of them is named first.
pub fn sorted_contact_pair_key(
    collider1: AlchemyRapierColliderHandle,
    collider2: AlchemyRapierColliderHandle,
) -> (r: (u64, u64))
    ensures
        r == ordered_pair(packed_collider(collider1), packed_collider(collider2)),
{
    let packed1 = pack_collider_handle(collider1);
    let packed2 = pack_collider_handle(collider2);
    if packed1 <= packed2 {
        (packed1, packed2)
    } else {
        (packed2, packed1)
    }
}

/// A packed handle can be unpacked, unless its index is the last one.
pub proof fn lemma_unpack_packed(index: u32, generation: u32)
    requires
        index < u32::MAX,
    ensures
        unpacked(packed(index, generation)) == Some((index, generation)),
{
}

/// Packing what a number stands for gives the number back.
pub proof fn lemma_pack_unpacked(packed_id: u64)
    requires
        unpacked(packed_id) is Some,
    ensures
        packed((unpacked(packed_id)->0).0, (unpacked(packed_id)->0).1) == packed_id,
{
}

/// No handle is packed into zero, which stands for no handle.
pub proof fn lemma_packed_is_not_zero(index: u32, generation: u32)
    ensures
        packed(index, generation) != 0,
{
    assert((generation | 1) >= 1) by (bit_vector);
}

/// Different handles have different numbers, as long as neither index is the last one.
pub proof fn lemma_packed_apart(index: u32, generation: u32, index2: u32, generation2: u32)
    requires
        index < u32::MAX,
        index2 < u32::MAX,
        packed(index, generation) == packed(index2, generation2),
    ensures
        index == index2,
        generation == generation2,
{
}

/// The pair of two colliders does not depend on their order.
pub proof fn lemma_contact_pair_symmetric(
    collider1: AlchemyRapierColliderHandle,
    collider2: AlchemyRapierColliderHandle,
)
    ensures
        ordered_pair(packed_collider(collider1), packed_collider(collider2)) == ordered_pair(
            packed_collider(collider2),
            packed_collider(collider1),
        ),
{
}

} // verus!
