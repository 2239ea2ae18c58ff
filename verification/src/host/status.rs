//! How a call of the host ends, and the small choices that the host makes.

use crate::commands::DamageSource;
use crate::geometry::Vec2;
use crate::snapshot::SnapshotMode;
use vstd::prelude::*;

verus! {

#[derive(Clone, Copy, Debug, PartialEq, Eq, Structural)]
pub enum AlchemyRapierStatus {
    Success,
    NullPointer,
    Panic,
    InvalidHandle,
    InvalidArgument,
    Unsupported,
}

impl Default for AlchemyRapierStatus {
    fn default() -> (r: Self)
        ensures
            r == AlchemyRapierStatus::Success,
    {
        AlchemyRapierStatus::Success
    }
}

#[derive(Clone, Copy, Debug, PartialEq, Eq, Structural)]
pub enum AlchemyRapierBodyType {
    Dynamic,
    Kinematic,
    Fixed,
    KinematicPosition,
}

impl Default for AlchemyRapierBodyType {
    fn default() -> (r: Self)
        ensures
            r == AlchemyRapierBodyType::Dynamic,
    {
        AlchemyRapierBodyType::Dynamic
    }
}

/// What a query has hit.
#[derive(Clone, Copy, Debug, PartialEq, Eq, Structural)]
pub enum AlchemyRapierQuerySourceKind {
    Unknown,
    StaticTerrain,
    DynamicPixelRigidbody,
}

impl Default for AlchemyRapierQuerySourceKind {
    fn default() -> (r: Self)
        ensures
            r == AlchemyRapierQuerySourceKind::Unknown,
    {
        AlchemyRapierQuerySourceKind::Unknown
    }
}

#[derive(Clone, Copy, Debug, PartialEq, Eq, Structural)]
pub enum AlchemyFxSnapshotMode {
    Normal,
    Deterministic,
}

#[derive(Clone, Copy, Debug, PartialEq, Eq, Structural)]
pub enum AlchemyFxDamageSource {
    Script,
    ContactImpulse,
    JointFeedback,
    Stress,
}

impl Default for AlchemyFxDamageSource {
    fn default() -> (r: Self)
        ensures
            r == AlchemyFxDamageSource::Script,
    {
        AlchemyFxDamageSource::Script
    }
}

#[derive(Clone, Copy, Debug, PartialEq, Eq, Structural)]
pub enum AlchemyFxFractureFieldMode {
    Stress,
    DirectDamage,
}

impl Default for AlchemyFxFractureFieldMode {
    fn default() -> (r: Self)
        ensures
            r == AlchemyFxFractureFieldMode::Stress,
    {
        AlchemyFxFractureFieldMode::Stress
    }
}

/// A plane vector as the host writes it.
pub type AlchemyRapierVec2 = Vec2;

#[derive(Clone, Copy, Debug, PartialEq, Eq, Structural)]
pub struct AlchemyRapierIVec2 {
    pub x: i32,
    pub y: i32,
}

pub fn snapshot_mode_from_ffi(mode: AlchemyFxSnapshotMode) -> (r: SnapshotMode)
    ensures
        r == match mode {
            AlchemyFxSnapshotMode::Normal => SnapshotMode::Normal,
            AlchemyFxSnapshotMode::Deterministic => SnapshotMode::Deterministic,
        },
{
    match mode {
        AlchemyFxSnapshotMode::Normal => SnapshotMode::Normal,
        AlchemyFxSnapshotMode::Deterministic => SnapshotMode::Deterministic,
    }
}

pub fn damage_source_from_ffi(source: AlchemyFxDamageSource) -> (r: DamageSource)
    ensures
        r == match source {
            AlchemyFxDamageSource::Script => DamageSource::Script,
            AlchemyFxDamageSource::ContactImpulse => DamageSource::ContactImpulse,
            AlchemyFxDamageSource::JointFeedback => DamageSource::JointFeedback,
            AlchemyFxDamageSource::Stress => DamageSource::Stress,
        },
{
    match source {
        AlchemyFxDamageSource::Script => DamageSource::Script,
        AlchemyFxDamageSource::ContactImpulse => DamageSource::ContactImpulse,
        AlchemyFxDamageSource::JointFeedback => DamageSource::JointFeedback,
        AlchemyFxDamageSource::Stress => DamageSource::Stress,
    }
}

} // verus!
