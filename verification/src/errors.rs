//! Why an asset, a connection or a repair is refused.

use crate::geometry::GridCoord;
use crate::ids::{BondId, ChunkId, ConnectionId, ExternalBondId, FxActorId, SupportNodeId};
use vstd::prelude::*;

verus! {

#[derive(Clone, Copy, Debug, PartialEq, Eq)]
#[allow(inconsistent_fields)]
pub enum ValidationError {
    /// A per-cell table has another length than the grid has cells.
    GridSizeMismatch { expected: usize, actual: usize },
    /// The occupancy rows do not all have the same width.
    RaggedRows,
    /// A byte of an occupancy row stands for no cell.
    InvalidOccupancyByte(u8),
    /// The voxel size is not positive.
    InvalidVoxelSize,
    /// An occupied voxel has no support node.
    MissingSupportCoverage(GridCoord),
    /// An empty voxel has a support node.
    EmptyVoxelCovered { coord: GridCoord, node: SupportNodeId },
    /// A voxel belongs to two support nodes.
    OverlappingSupportCoverage {
        coord: GridCoord,
        first: SupportNodeId,
        second: SupportNodeId,
    },
    /// A support node has no voxels.
    EmptySupportNode(SupportNodeId),
    /// The voxels of a support node do not hang together through shared sides.
    SupportNodeNotFourConnected(SupportNodeId),
    DuplicateSupportNodeId(SupportNodeId),
    DuplicateChunkId(ChunkId),
    /// A chunk names a support node that does not exist.
    ChunkEndpointMissing(SupportNodeId),
    /// A chunk names a parent that does not exist.
    ChunkParentMissing(ChunkId),
    /// Following the parents of a chunk leads back to a chunk seen before.
    ChunkParentCycle(ChunkId),
    /// The support chunks do not cover every support node exactly once.
    ChunkHierarchyNotExact,
    DuplicateInternalBondId(BondId),
    /// The internal bonds are not numbered by their index.
    NonContiguousInternalBondId { expected: BondId, actual: BondId },
    /// A bond names a support node that does not exist.
    BondEndpointMissing(SupportNodeId),
    /// A bond joins a support node to itself.
    SelfBond(SupportNodeId),
    /// The first endpoint of a bond is not the lesser one.
    NonCanonicalBondEndpoints(BondId),
    /// A quantity of a bond is not finite or below zero.
    InvalidBondScalar(BondId),
    /// The directions of a bond are not a right-handed pair of unit vectors.
    InvalidBondDirection(BondId),
    NonPositiveBondLength(BondId),
    /// A bond has no interface edges.
    EmptyBondInterface(BondId),
}

#[derive(Clone, Copy, Debug, PartialEq, Eq)]
#[allow(inconsistent_fields)]
pub enum ConnectionError {
    /// The node is not in the asset or has no owner.
    UnknownNode(SupportNodeId),
    DuplicateExternalBond(ExternalBondId),
    DuplicateConnection(ConnectionId),
    /// A connection joins a node to itself.
    SelfConnection(SupportNodeId),
    /// A quantity or direction of an external bond is not valid.
    InvalidExternalBondRuntime(ExternalBondId),
    /// A quantity or direction of a connection is not valid.
    InvalidConnectionRuntime(ConnectionId),
    UnknownActor(FxActorId),
    /// An actor is to be merged with itself.
    SelfMerge(FxActorId),
    /// No unbroken connection joins the two actors.
    MissingMergeConnection { actor_a: FxActorId, actor_b: FxActorId },
}

#[derive(Clone, Copy, Debug, PartialEq, Eq)]
#[allow(inconsistent_fields)]
pub enum RepairError {
    /// The new asset is not valid.
    Validation(ValidationError),
    MissingNodeOwner(SupportNodeId),
    UnknownNode(SupportNodeId),
    /// A node is given to an actor that does not exist.
    MissingNodeOwnerActor { node: SupportNodeId, actor: FxActorId },
    DuplicateNodeOwner(SupportNodeId),
    MissingNodeState(SupportNodeId),
    DuplicateNodeState(SupportNodeId),
    InvalidNodeState(SupportNodeId),
    InvalidBondState(BondId),
    UnknownDirtyActor(FxActorId),
    /// An actor's nodes change though it is not marked dirty.
    ActorChangedNotDirty(FxActorId),
    /// An actor falls apart though it is not marked dirty.
    DisconnectedActorNotDirty(FxActorId),
    BondStateCountMismatch { expected: usize, actual: usize },
    /// An external bond would lose its node.
    StaleExternalBondEndpoint { bond: ExternalBondId, node: SupportNodeId },
    /// A dynamic connection would lose a node.
    StaleDynamicConnectionEndpoint { connection: ConnectionId, node: SupportNodeId },
}

} // verus!
