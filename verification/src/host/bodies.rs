//! Bodies and colliders: how a description is read, and which colliders are accepted.

use crate::geometry::{origin, vec_finite, Vec2};
use crate::host::cells::positive;
use crate::host::contacts::AlchemyRapierVoxelCell;
use crate::host::handles::{
    pack_body_handle, pack_collider_handle, packed_body, packed_collider,
    AlchemyRapierColliderHandle, AlchemyRapierRigidBodyHandle,
};
use crate::host::joints::{status_of, to_status};
use crate::host::motors::{is_not_negative, not_negative};
use crate::host::status::{AlchemyRapierBodyType, AlchemyRapierStatus};
use crate::scalar::{at_most, maximum, Scalar, ONE_BITS};
use vstd::prelude::*;

verus! {

#[derive(Clone, Copy, Debug, PartialEq, Eq, Structural)]
pub struct AlchemyRapierBodyDesc {
    pub body_type: AlchemyRapierBodyType,
    pub position: Vec2,
    pub rotation: Scalar,
    pub linear_velocity: Vec2,
    pub angular_velocity: Scalar,
    pub linear_damping: Scalar,
    pub angular_damping: Scalar,
    pub gravity_scale: Scalar,
    pub local_center_of_mass: Vec2,
    pub mass: Scalar,
    pub inertia: Scalar,
    pub fixed_rotation: u8,
    pub can_sleep: u8,
    pub write_transform: u8,
    pub write_velocity: u8,
    pub wake_up: u8,
    pub sleep: u8,
    pub use_collider_mass: u8,
    pub user_data: u64,
}

#[derive(Clone, Copy, Debug, PartialEq, Eq, Structural)]
pub struct AlchemyRapierCreateBodyResult {
    pub status: AlchemyRapierStatus,
    pub handle: AlchemyRapierRigidBodyHandle,
    pub packed_id: u64,
}

#[derive(Clone, Copy, Debug, PartialEq, Eq, Structural)]
pub struct AlchemyRapierCreateColliderResult {
    pub status: AlchemyRapierStatus,
    pub handle: AlchemyRapierColliderHandle,
    pub packed_id: u64,
}

#[derive(Debug)]
pub struct AlchemyRapierVoxelColliderDesc {
    pub translation: Vec2,
    pub voxel_size: Vec2,
    pub cells: Vec<AlchemyRapierVoxelCell>,
}

#[derive(Debug)]
pub struct AlchemyRapierStaticTerrainVoxelColliderDesc {
    pub voxel: AlchemyRapierVoxelColliderDesc,
    pub chunk_x: i32,
    pub chunk_y: i32,
    pub collision_revision: i64,
}

/// Where the voxels of a collider come from.
#[derive(Clone, Copy, Debug, PartialEq, Eq, Structural)]
pub struct VoxelTerrainSourceMetadata {
    pub chunk_x: i32,
    pub chunk_y: i32,
    pub revision: i64,
}

/// The mass that a body has besides that of its colliders.
#[derive(Clone, Copy, Debug, PartialEq, Eq, Structural)]
pub struct OwnMass {
    pub local_center_of_mass: Vec2,
    pub mass: Scalar,
    pub inertia: Scalar,
}

/// What happens to the sleep of a body.
#[derive(Clone, Copy, Debug, PartialEq, Eq, Structural)]
pub enum SleepChange {
    Sleep,
    Wake,
    Keep,
}

/// How the description of a body is carried out.
#[derive(Clone, Copy, Debug, PartialEq, Eq, Structural)]
pub struct BodyPlan {
    pub linear_damping: Scalar,
    pub angular_damping: Scalar,
    pub own_mass: Option<OwnMass>,
    pub lock_rotations: bool,
    pub can_sleep: bool,
    pub starts_asleep: bool,
    pub write_transform: bool,
    pub write_velocity: bool,
    pub wake_up: bool,
    pub sleep_change: SleepChange,
}

/// The number, or the fallback where it is not finite or not above zero.
pub open spec fn sanitized(value: Scalar, fallback: Scalar) -> Scalar {
    if positive(value) {
        value
    } else {
        fallback
    }
}

pub fn sanitize_positive(value: Scalar, fallback: Scalar) -> (r: Scalar)
    ensures
        r == sanitized(value, fallback),
{
    if value.is_finite() && Scalar::from_bits(0).is_below(value) {
        value
    } else {
        fallback
    }
}

/// How the description of a body is carried out: damping is not below zero, a body with a mass of
/// its own has at least a usable one, and sleeping goes before waking.
pub open spec fn body_plan(desc: AlchemyRapierBodyDesc) -> BodyPlan {
    let one = Scalar { bits: ONE_BITS };
    BodyPlan {
        linear_damping: maximum(desc.linear_damping, Scalar { bits: 0 }),
        angular_damping: maximum(desc.angular_damping, Scalar { bits: 0 }),
        own_mass: if desc.use_collider_mass == 0 {
            Some(
                OwnMass {
                    local_center_of_mass: desc.local_center_of_mass,
                    mass: sanitized(desc.mass, one),
                    inertia: sanitized(desc.inertia, one),
                },
            )
        } else {
            None
        },
        lock_rotations: desc.fixed_rotation != 0,
        can_sleep: desc.can_sleep != 0,
        starts_asleep: desc.sleep != 0,
        write_transform: desc.write_transform != 0,
        write_velocity: desc.write_velocity != 0,
        wake_up: desc.wake_up != 0,
        sleep_change: if desc.sleep != 0 {
            SleepChange::Sleep
        } else if desc.wake_up != 0 {
            SleepChange::Wake
        } else {
            SleepChange::Keep
        },
    }
}

pub fn plan_body(desc: &AlchemyRapierBodyDesc) -> (r: BodyPlan)
    ensures
        r == body_plan(*desc),
{
    let zero = Scalar::from_bits(0);
    let one = Scalar::from_bits(ONE_BITS);
    BodyPlan {
        linear_damping: desc.linear_damping.max(zero),
        angular_damping: desc.angular_damping.max(zero),
        own_mass: if desc.use_collider_mass == 0 {
            Some(
                OwnMass {
                    local_center_of_mass: desc.local_center_of_mass,
                    mass: sanitize_positive(desc.mass, one),
                    inertia: sanitize_positive(desc.inertia, one),
                },
            )
        } else {
            None
        },
        lock_rotations: desc.fixed_rotation != 0,
        can_sleep: desc.can_sleep != 0,
        starts_asleep: desc.sleep != 0,
        write_transform: desc.write_transform != 0,
        write_velocity: desc.write_velocity != 0,
        wake_up: desc.wake_up != 0,
        sleep_change: if desc.sleep != 0 {
            SleepChange::Sleep
        } else if desc.wake_up != 0 {
            SleepChange::Wake
        } else {
            SleepChange::Keep
        },
    }
}

/// A body that has a mass of its own has a mass and an inertia that can be used.
pub proof fn lemma_own_mass_usable(desc: AlchemyRapierBodyDesc)
    requires
        body_plan(desc).own_mass is Some,
    ensures
        positive(body_plan(desc).own_mass->0.mass),
        positive(body_plan(desc).own_mass->0.inertia),
{
}

/// How a body moves, as the host reads it.
#[derive(Clone, Copy, Debug, PartialEq, Eq, Structural)]
pub struct AlchemyRapierBodyStateResult {
    pub status: AlchemyRapierStatus,
    pub packed_id: u64,
    pub body_type: AlchemyRapierBodyType,
    pub position: Vec2,
    pub rotation: Scalar,
    pub linear_velocity: Vec2,
    pub angular_velocity: Scalar,
    pub linear_damping: Scalar,
    pub angular_damping: Scalar,
    pub can_sleep: u8,
    pub is_awake: u8,
}

#[derive(Clone, Copy, Debug, PartialEq, Eq, Structural)]
pub struct AlchemyRapierMassResult {
    pub status: AlchemyRapierStatus,
    pub local_center_of_mass: Vec2,
    pub mass: Scalar,
    pub inertia: Scalar,
}

#[derive(Clone, Copy, Debug, PartialEq, Eq, Structural)]
pub struct AlchemyRapierVec2Result {
    pub status: AlchemyRapierStatus,
    pub value: Vec2,
}

/// How a body moves, as the simulation knows it.
#[derive(Clone, Copy, Debug, PartialEq, Eq, Structural)]
pub struct BodyMotion {
    pub handle: AlchemyRapierRigidBodyHandle,
    pub body_type: AlchemyRapierBodyType,
    pub center_of_mass: Vec2,
    pub rotation: Scalar,
    pub linear_velocity: Vec2,
    pub angular_velocity: Scalar,
    pub linear_damping: Scalar,
    pub angular_damping: Scalar,
    /// How slow a body has to be to fall asleep; below zero it never does.
    pub sleep_threshold: Scalar,
    pub sleeping: bool,
}

/// What the host reads of a body: nothing but the status where there is no world or no body.
pub open spec fn body_state(world_given: bool, body: Option<BodyMotion>) ->
    AlchemyRapierBodyStateResult {
    match (world_given, body) {
        (true, Some(b)) => AlchemyRapierBodyStateResult {
            status: AlchemyRapierStatus::Success,
            packed_id: packed_body(b.handle),
            body_type: b.body_type,
            position: b.center_of_mass,
            rotation: b.rotation,
            linear_velocity: b.linear_velocity,
            angular_velocity: b.angular_velocity,
            linear_damping: b.linear_damping,
            angular_damping: b.angular_damping,
            can_sleep: if at_most(Scalar { bits: 0 }, b.sleep_threshold) {
                1
            } else {
                0
            },
            is_awake: if b.sleeping {
                0
            } else {
                1
            },
        },
        _ => AlchemyRapierBodyStateResult {
            status: if world_given {
                AlchemyRapierStatus::InvalidHandle
            } else {
                AlchemyRapierStatus::NullPointer
            },
            packed_id: 0,
            body_type: AlchemyRapierBodyType::Dynamic,
            position: origin(),
            rotation: Scalar { bits: 0 },
            linear_velocity: origin(),
            angular_velocity: Scalar { bits: 0 },
            linear_damping: Scalar { bits: 0 },
            angular_damping: Scalar { bits: 0 },
            can_sleep: 0,
            is_awake: 0,
        },
    }
}

/// A body can sleep unless its threshold is below zero.
pub fn body_can_sleep(sleep_threshold: Scalar) -> (r: bool)
    ensures
        r == at_most(Scalar { bits: 0 }, sleep_threshold),
{
    Scalar::from_bits(0).is_at_most(sleep_threshold)
}

pub fn body_state_result(world_given: bool, body: Option<BodyMotion>) -> (r:
    AlchemyRapierBodyStateResult)
    ensures
        r == body_state(world_given, body),
{
    let zero = Scalar::from_bits(0);
    let status = if !world_given {
        AlchemyRapierStatus::NullPointer
    } else {
        match body {
            Some(b) => {
                return AlchemyRapierBodyStateResult {
                    status: AlchemyRapierStatus::Success,
                    packed_id: pack_body_handle(b.handle),
                    body_type: b.body_type,
                    position: b.center_of_mass,
                    rotation: b.rotation,
                    linear_velocity: b.linear_velocity,
                    angular_velocity: b.angular_velocity,
                    linear_damping: b.linear_damping,
                    angular_damping: b.angular_damping,
                    can_sleep: if body_can_sleep(b.sleep_threshold) {
                        1
                    } else {
                        0
                    },
                    is_awake: if b.sleeping {
                        0
                    } else {
                        1
                    },
                };
            },
            None => AlchemyRapierStatus::InvalidHandle,
        }
    };
    AlchemyRapierBodyStateResult {
        status,
        packed_id: 0,
        body_type: AlchemyRapierBodyType::Dynamic,
        position: Vec2::zero(),
        rotation: zero,
        linear_velocity: Vec2::zero(),
        angular_velocity: zero,
        linear_damping: zero,
        angular_damping: zero,
        can_sleep: 0,
        is_awake: 0,
    }
}

/// Whether a body can be moved along a path: the place has to be finite.
pub fn kinematic_position_status(position: Vec2, rotation: Scalar, body_known: bool) -> (r:
    AlchemyRapierStatus)
    ensures
        r == status_of(vec_finite(position) && rotation.finite(), body_known),
{
    to_status(position.is_finite() && rotation.is_finite(), body_known)
}

/// The outcome of making a body.
pub fn create_body_result(handle: AlchemyRapierRigidBodyHandle) -> (r:
    AlchemyRapierCreateBodyResult)
    ensures
        r == (AlchemyRapierCreateBodyResult {
            status: AlchemyRapierStatus::Success,
            handle,
            packed_id: packed_body(handle),
        }),
{
    AlchemyRapierCreateBodyResult {
        status: AlchemyRapierStatus::Success,
        handle,
        packed_id: pack_body_handle(handle),
    }
}

/// The outcome of making a collider that was refused.
pub fn empty_create_collider_result(status: AlchemyRapierStatus) -> (r:
    AlchemyRapierCreateColliderResult)
    ensures
        r == (AlchemyRapierCreateColliderResult {
            status,
            handle: AlchemyRapierColliderHandle { index: 0, generation: 0 },
            packed_id: 0,
        }),
{
    AlchemyRapierCreateColliderResult {
        status,
        handle: AlchemyRapierColliderHandle { index: 0, generation: 0 },
        packed_id: 0,
    }
}

/// The outcome of making a collider.
pub fn create_collider_result(handle: AlchemyRapierColliderHandle) -> (r:
    AlchemyRapierCreateColliderResult)
    ensures
        r == (AlchemyRapierCreateColliderResult {
            status: AlchemyRapierStatus::Success,
            handle,
            packed_id: packed_collider(handle),
        }),
{
    AlchemyRapierCreateColliderResult {
        status: AlchemyRapierStatus::Success,
        handle,
        packed_id: pack_collider_handle(handle),
    }
}

/// Whether a capsule can be given to a body.
pub fn capsule_collider_status(radius: Scalar, half_height: Scalar, body_known: bool) -> (r:
    AlchemyRapierStatus)
    ensures
        r == status_of(positive(radius) && not_negative(half_height), body_known),
{
    let valid = radius.is_finite() && Scalar::from_bits(0).is_below(radius) && is_not_negative(
        half_height,
    );
    to_status(valid, body_known)
}

/// Whether a convex shape can be given to a body: it needs three points, and the points have to
/// have a hull.
pub fn convex_collider_status(point_count: usize, body_known: bool, has_hull: bool) -> (r:
    AlchemyRapierStatus)
    ensures
        r == if point_count >= 3 && body_known && !has_hull {
            AlchemyRapierStatus::InvalidArgument
        } else {
            status_of(point_count >= 3, body_known)
        },
{
    if point_count >= 3 && body_known && !has_hull {
        return AlchemyRapierStatus::InvalidArgument;
    }
    to_status(point_count >= 3, body_known)
}

/// Whether the material of a collider can be set: friction is not below zero, and restitution
/// lies between zero and one.
pub fn collider_material_status(friction: Scalar, restitution: Scalar, collider_known: bool) -> (r:
    AlchemyRapierStatus)
    ensures
        r == status_of(
            not_negative(friction) && not_negative(restitution) && at_most(
                restitution,
                Scalar { bits: ONE_BITS },
            ),
            collider_known,
        ),
{
    let valid = is_not_negative(friction) && is_not_negative(restitution)
        && restitution.is_at_most(Scalar::from_bits(ONE_BITS));
    to_status(valid, collider_known)
}

/// Whether the collision filter of a collider can be set.
pub fn collision_filter_status(
    memberships: u32,
    self_collision_group: u64,
    self_collision_enabled: u8,
    collider_known: bool,
) -> (r: AlchemyRapierStatus)
    ensures
        r == status_of(
            memberships != 0 && self_collision_group != 0 && self_collision_enabled <= 1,
            collider_known,
        ),
{
    to_status(
        memberships != 0 && self_collision_group != 0 && self_collision_enabled <= 1,
        collider_known,
    )
}

/// A collider of voxels has a finite place, voxels of a usable size, and at least one of them.
pub open spec fn voxel_collider_valid(desc: AlchemyRapierVoxelColliderDesc) -> bool {
    &&& vec_finite(desc.translation)
    &&& positive(desc.voxel_size.x)
    &&& positive(desc.voxel_size.y)
    &&& desc.cells@.len() > 0
}

/// Whether a collider of voxels can be made, or an existing one changed.
pub fn voxel_collider_status(desc: &AlchemyRapierVoxelColliderDesc, collider_known: bool) -> (r:
    AlchemyRapierStatus)
    ensures
        r == status_of(voxel_collider_valid(*desc), collider_known),
{
    let zero = Scalar::from_bits(0);
    let valid = desc.translation.is_finite() && desc.voxel_size.x.is_finite()
        && desc.voxel_size.y.is_finite() && zero.is_below(desc.voxel_size.x) && zero.is_below(
        desc.voxel_size.y,
    ) && desc.cells.len() > 0;
    to_status(valid, collider_known)
}

/// Where the voxels of a terrain collider come from; a revision below zero is refused.
pub fn voxel_terrain_source_metadata(desc: &AlchemyRapierStaticTerrainVoxelColliderDesc) -> (r:
    Result<VoxelTerrainSourceMetadata, AlchemyRapierStatus>)
    ensures
        r == if desc.collision_revision < 0 {
            Err::<VoxelTerrainSourceMetadata, AlchemyRapierStatus>(
                AlchemyRapierStatus::InvalidArgument,
            )
        } else {
            Ok(
                VoxelTerrainSourceMetadata {
                    chunk_x: desc.chunk_x,
                    chunk_y: desc.chunk_y,
                    revision: desc.collision_revision,
                },
            )
        },
{
    if desc.collision_revision < 0 {
        return Err(AlchemyRapierStatus::InvalidArgument);
    }
    Ok(
        VoxelTerrainSourceMetadata {
            chunk_x: desc.chunk_x,
            chunk_y: desc.chunk_y,
            revision: desc.collision_revision,
        },
    )
}

} // verus!
