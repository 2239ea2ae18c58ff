//! Identifiers.

use vstd::prelude::*;

verus! {

/// Identifies an asset.
#[derive(Clone, Copy, Debug, Default, PartialEq, Eq, Structural, PartialOrd, Ord, Hash)]
pub struct FxAssetId(pub u32);

impl FxAssetId {
    pub fn new(value: u32) -> (r: Self)
        ensures
            r.0 == value,
    {
        FxAssetId(value)
    }
}

/// Identifies a family of actors.
#[derive(Clone, Copy, Debug, Default, PartialEq, Eq, Structural, PartialOrd, Ord, Hash)]
pub struct FxFamilyId(pub u32);

impl FxFamilyId {
    pub fn new(value: u32) -> (r: Self)
        ensures
            r.0 == value,
    {
        FxFamilyId(value)
    }
}

/// Identifies an actor of a family.
#[derive(Clone, Copy, Debug, Default, PartialEq, Eq, Structural, PartialOrd, Ord, Hash)]
pub struct FxActorId(pub u32);

impl FxActorId {
    pub fn new(value: u32) -> (r: Self)
        ensures
            r.0 == value,
    {
        FxActorId(value)
    }
}

/// Identifies a support node of an asset.
#[derive(Clone, Copy, Debug, Default, PartialEq, Eq, Structural, PartialOrd, Ord, Hash)]
pub struct SupportNodeId(pub u32);

impl SupportNodeId {
    pub fn new(value: u32) -> (r: Self)
        ensures
            r.0 == value,
    {
        SupportNodeId(value)
    }
}

/// Identifies a chunk of an asset.
#[derive(Clone, Copy, Debug, Default, PartialEq, Eq, Structural, PartialOrd, Ord, Hash)]
pub struct ChunkId(pub u32);

impl ChunkId {
    pub fn new(value: u32) -> (r: Self)
        ensures
            r.0 == value,
    {
        ChunkId(value)
    }
}

/// Identifies an internal bond; it is the bond's index in its asset.
#[derive(Clone, Copy, Debug, Default, PartialEq, Eq, Structural, PartialOrd, Ord, Hash)]
pub struct BondId(pub u32);

impl BondId {
    pub fn new(value: u32) -> (r: Self)
        ensures
            r.0 == value,
    {
        BondId(value)
    }
}

/// Identifies a dynamic structural bond of a family.
#[derive(Clone, Copy, Debug, Default, PartialEq, Eq, Structural, PartialOrd, Ord, Hash)]
pub struct ConnectionId(pub u32);

impl ConnectionId {
    pub fn new(value: u32) -> (r: Self)
        ensures
            r.0 == value,
    {
        ConnectionId(value)
    }
}

/// Identifies a bond of a family to something outside it.
#[derive(Clone, Copy, Debug, Default, PartialEq, Eq, Structural, PartialOrd, Ord, Hash)]
pub struct ExternalBondId(pub u32);

impl ExternalBondId {
    pub fn new(value: u32) -> (r: Self)
        ensures
            r.0 == value,
    {
        ExternalBondId(value)
    }
}

/// Names what an external bond is attached to.
#[derive(Clone, Copy, Debug, Default, PartialEq, Eq, Structural, PartialOrd, Ord, Hash)]
pub struct ExternalTargetToken(pub u32);

impl ExternalTargetToken {
    pub fn new(value: u32) -> (r: Self)
        ensures
            r.0 == value,
    {
        ExternalTargetToken(value)
    }
}

/// Identifies a command of one source.
#[derive(Clone, Copy, Debug, Default, PartialEq, Eq, Structural, PartialOrd, Ord, Hash)]
pub struct CommandId(pub u32);

impl CommandId {
    pub fn new(value: u32) -> (r: Self)
        ensures
            r.0 == value,
    {
        CommandId(value)
    }
}

/// Identifies an event of a family.
#[derive(Clone, Copy, Debug, Default, PartialEq, Eq, Structural, PartialOrd, Ord, Hash)]
pub struct EventId(pub u32);

impl EventId {
    pub fn new(value: u32) -> (r: Self)
        ensures
            r.0 == value,
    {
        EventId(value)
    }
}

} // verus!
