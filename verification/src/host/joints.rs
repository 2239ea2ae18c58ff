//! Joints between bodies: which descriptions are accepted, and how soft a joint is.

use crate::geometry::{origin, vec_finite, vec_sum, Vec2};
use crate::host::cells::positive;
use crate::host::handles::{
    pack_joint_handle, packed_joint, AlchemyRapierJointHandle, AlchemyRapierRigidBodyHandle,
};
use crate::host::motors::{is_not_negative, not_negative};
use crate::host::status::AlchemyRapierStatus;
use crate::scalar::{below, equals, Scalar};
use vstd::prelude::*;

verus! {

/// The axes of a joint, one bit for each: two along which it moves and one about which it turns.
pub const ALL_AXES: u8 = 7;

#[derive(Clone, Copy, Debug, PartialEq, Eq, Structural)]
pub struct AlchemyRapierRevoluteJointDesc {
    pub body1: AlchemyRapierRigidBodyHandle,
    pub body2: AlchemyRapierRigidBodyHandle,
    pub local_anchor1: Vec2,
    pub local_anchor2: Vec2,
    pub natural_frequency: Scalar,
    pub damping_ratio: Scalar,
    pub contacts_enabled: u8,
    pub wake_up: u8,
}

#[derive(Clone, Copy, Debug, PartialEq, Eq, Structural)]
pub struct AlchemyRapierGenericJointDesc {
    pub body1: AlchemyRapierRigidBodyHandle,
    pub body2: AlchemyRapierRigidBodyHandle,
    pub local_anchor1: Vec2,
    pub local_anchor2: Vec2,
    pub local_rotation1: Scalar,
    pub local_rotation2: Scalar,
    pub natural_frequency: Scalar,
    pub damping_ratio: Scalar,
    pub limit_min: Scalar,
    pub limit_max: Scalar,
    pub locked_axes: u8,
    pub limit_enabled: u8,
    pub contacts_enabled: u8,
    pub wake_up: u8,
}

#[derive(Clone, Copy, Debug, PartialEq, Eq, Structural)]
pub struct AlchemyRapierRopeJointDesc {
    pub body1: AlchemyRapierRigidBodyHandle,
    pub body2: AlchemyRapierRigidBodyHandle,
    pub local_anchor1: Vec2,
    pub local_anchor2: Vec2,
    pub max_distance: Scalar,
    pub contacts_enabled: u8,
    pub wake_up: u8,
}

#[derive(Clone, Copy, Debug, PartialEq, Eq, Structural)]
pub struct AlchemyRapierCreateJointResult {
    pub status: AlchemyRapierStatus,
    pub handle: AlchemyRapierJointHandle,
    pub packed_id: u64,
}

/// What a joint has held back, as the host reads it.
#[derive(Clone, Copy, Debug, PartialEq, Eq, Structural)]
pub struct AlchemyRapierJointImpulseResult {
    pub status: AlchemyRapierStatus,
    pub linear_impulse: Vec2,
    pub angular_impulse: Scalar,
}

/// How a joint gives way.
#[derive(Clone, Copy, Debug, PartialEq, Eq, Structural)]
pub enum JointSoftness {
    /// As hard as joints are by default.
    Hard,
    Spring { natural_frequency: Scalar, damping_ratio: Scalar },
}

/// A spring that does not swing is a hard joint.
pub open spec fn softness(natural_frequency: Scalar, damping_ratio: Scalar) -> JointSoftness {
    if equals(natural_frequency, Scalar { bits: 0 }) {
        JointSoftness::Hard
    } else {
        JointSoftness::Spring { natural_frequency, damping_ratio }
    }
}

pub fn joint_softness(natural_frequency: Scalar, damping_ratio: Scalar) -> (r: JointSoftness)
    ensures
        r == softness(natural_frequency, damping_ratio),
{
    if natural_frequency.equals_value(Scalar::from_bits(0)) {
        JointSoftness::Hard
    } else {
        JointSoftness::Spring { natural_frequency, damping_ratio }
    }
}

/// Both anchors are finite.
pub open spec fn anchors_valid(a: Vec2, b: Vec2) -> bool {
    vec_finite(a) && vec_finite(b)
}

/// The frequency and the damping are finite and not below zero.
pub open spec fn spring_valid(natural_frequency: Scalar, damping_ratio: Scalar) -> bool {
    not_negative(natural_frequency) && not_negative(damping_ratio)
}

/// The status for arguments that are valid or not, and objects that are known or not. Arguments
/// are looked at first.
pub open spec fn status_of(valid: bool, known: bool) -> AlchemyRapierStatus {
    if !valid {
        AlchemyRapierStatus::InvalidArgument
    } else if !known {
        AlchemyRapierStatus::InvalidHandle
    } else {
        AlchemyRapierStatus::Success
    }
}

pub(crate) fn to_status(valid: bool, known: bool) -> (r: AlchemyRapierStatus)
    ensures
        r == status_of(valid, known),
{
    if !valid {
        AlchemyRapierStatus::InvalidArgument
    } else if !known {
        AlchemyRapierStatus::InvalidHandle
    } else {
        AlchemyRapierStatus::Success
    }
}

fn are_anchors_valid(a: Vec2, b: Vec2) -> (r: bool)
    ensures
        r == anchors_valid(a, b),
{
    a.is_finite() && b.is_finite()
}

fn is_spring_valid(natural_frequency: Scalar, damping_ratio: Scalar) -> (r: bool)
    ensures
        r == spring_valid(natural_frequency, damping_ratio),
{
    is_not_negative(natural_frequency) && is_not_negative(damping_ratio)
}

pub open spec fn generic_joint_valid(desc: AlchemyRapierGenericJointDesc) -> bool {
    &&& anchors_valid(desc.local_anchor1, desc.local_anchor2)
    &&& desc.local_rotation1.finite()
    &&& desc.local_rotation2.finite()
    &&& spring_valid(desc.natural_frequency, desc.damping_ratio)
    &&& desc.limit_min.finite()
    &&& desc.limit_max.finite()
    &&& desc.limit_enabled <= 1
    &&& desc.limit_enabled != 0 ==> !below(desc.limit_max, desc.limit_min)
    &&& desc.locked_axes <= ALL_AXES
}

/// Whether a joint of any kind can be made. The locked axes have to be axes, and both bodies have
/// to exist.
pub fn generic_joint_status(desc: &AlchemyRapierGenericJointDesc, bodies_known: bool) -> (r:
    AlchemyRapierStatus)
    ensures
        r == status_of(generic_joint_valid(*desc), bodies_known),
{
    let valid = are_anchors_valid(desc.local_anchor1, desc.local_anchor2)
        && desc.local_rotation1.is_finite() && desc.local_rotation2.is_finite()
        && is_spring_valid(desc.natural_frequency, desc.damping_ratio)
        && desc.limit_min.is_finite() && desc.limit_max.is_finite() && desc.limit_enabled <= 1 && (
    desc.limit_enabled == 0 || !desc.limit_max.is_below(desc.limit_min)) && desc.locked_axes
        <= ALL_AXES;
    to_status(valid, bodies_known)
}

pub open spec fn revolute_joint_valid(desc: AlchemyRapierRevoluteJointDesc) -> bool {
    &&& anchors_valid(desc.local_anchor1, desc.local_anchor2)
    &&& spring_valid(desc.natural_frequency, desc.damping_ratio)
}

/// Whether a joint that turns about a point can be made between two bodies.
pub fn revolute_joint_status(desc: &AlchemyRapierRevoluteJointDesc, bodies_known: bool) -> (r:
    AlchemyRapierStatus)
    ensures
        r == status_of(revolute_joint_valid(*desc), bodies_known),
{
    let valid = are_anchors_valid(desc.local_anchor1, desc.local_anchor2) && is_spring_valid(
        desc.natural_frequency,
        desc.damping_ratio,
    );
    to_status(valid, bodies_known)
}

pub open spec fn rope_joint_valid(desc: AlchemyRapierRopeJointDesc) -> bool {
    &&& anchors_valid(desc.local_anchor1, desc.local_anchor2)
    &&& positive(desc.max_distance)
}

/// Whether a rope can be hung between two bodies.
pub fn rope_joint_status(desc: &AlchemyRapierRopeJointDesc, bodies_known: bool) -> (r:
    AlchemyRapierStatus)
    ensures
        r == status_of(rope_joint_valid(*desc), bodies_known),
{
    let valid = are_anchors_valid(desc.local_anchor1, desc.local_anchor2)
        && desc.max_distance.is_finite() && Scalar::from_bits(0).is_below(desc.max_distance);
    to_status(valid, bodies_known)
}

/// Whether the softness of a joint can be set.
pub fn joint_softness_status(
    natural_frequency: Scalar,
    damping_ratio: Scalar,
    joint_known: bool,
) -> (r: AlchemyRapierStatus)
    ensures
        r == status_of(spring_valid(natural_frequency, damping_ratio), joint_known),
{
    to_status(is_spring_valid(natural_frequency, damping_ratio), joint_known)
}

/// Whether the anchors of a joint can be set.
pub fn joint_anchors_status(local_anchor1: Vec2, local_anchor2: Vec2, joint_known: bool) -> (r:
    AlchemyRapierStatus)
    ensures
        r == status_of(anchors_valid(local_anchor1, local_anchor2), joint_known),
{
    to_status(are_anchors_valid(local_anchor1, local_anchor2), joint_known)
}

/// Whether the length of a rope can be set.
pub fn rope_distance_status(max_distance: Scalar, joint_known: bool) -> (r: AlchemyRapierStatus)
    ensures
        r == status_of(positive(max_distance), joint_known),
{
    to_status(
        max_distance.is_finite() && Scalar::from_bits(0).is_below(max_distance),
        joint_known,
    )
}

/// The outcome of making a joint that was refused.
pub fn empty_create_joint_result(status: AlchemyRapierStatus) -> (r:
    AlchemyRapierCreateJointResult)
    ensures
        r == (AlchemyRapierCreateJointResult {
            status,
            handle: AlchemyRapierJointHandle { index: 0, generation: 0 },
            packed_id: 0,
        }),
{
    AlchemyRapierCreateJointResult {
        status,
        handle: AlchemyRapierJointHandle { index: 0, generation: 0 },
        packed_id: 0,
    }
}

/// The outcome of making a joint.
pub fn create_joint_result(handle: AlchemyRapierJointHandle) -> (r: AlchemyRapierCreateJointResult)
    ensures
        r == (AlchemyRapierCreateJointResult {
            status: AlchemyRapierStatus::Success,
            handle,
            packed_id: packed_joint(handle),
        }),
{
    AlchemyRapierCreateJointResult {
        status: AlchemyRapierStatus::Success,
        handle,
        packed_id: pack_joint_handle(handle),
    }
}

/// What is read of a joint that does not exist.
pub fn empty_joint_impulse_result(status: AlchemyRapierStatus) -> (r:
    AlchemyRapierJointImpulseResult)
    ensures
        r == (AlchemyRapierJointImpulseResult {
            status,
            linear_impulse: origin(),
            angular_impulse: Scalar { bits: 0 },
        }),
{
    AlchemyRapierJointImpulseResult {
        status,
        linear_impulse: Vec2::zero(),
        angular_impulse: Scalar::from_bits(0),
    }
}

/// What a joint has held back: along each axis by itself and by its limit together.
pub fn joint_impulse_result(
    axis_impulses: Vec2,
    limit_impulses: Vec2,
    angular_impulse: Scalar,
) -> (r: AlchemyRapierJointImpulseResult)
    ensures
        r == (AlchemyRapierJointImpulseResult {
            status: AlchemyRapierStatus::Success,
            linear_impulse: vec_sum(axis_impulses, limit_impulses),
            angular_impulse,
        }),
{
    AlchemyRapierJointImpulseResult {
        status: AlchemyRapierStatus::Success,
        linear_impulse: axis_impulses.plus(limit_impulses),
        angular_impulse,
    }
}

} // verus!
