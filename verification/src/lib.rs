//! Deterministic fracture of two-dimensional voxel bodies.
//!
//! An asset is a grid of voxels, grouped into support nodes that bonds hold together. A family is
//! an asset at run time: damage wears bonds, nodes and chunks, and when what held the nodes of an
//! actor together is broken, the actor is split into its connected parts.

pub mod rounding;
pub mod scalar;
pub mod arithmetic;
pub mod truncation;
pub mod ids;
pub mod geometry;
pub mod order;
pub mod idmap;
pub mod reach;
pub mod errors;
pub mod occupancy;
pub mod hash;
pub mod hash_laws;
pub mod asset;
pub mod hierarchy;
pub mod validation;
pub mod components;
pub mod authoring;
pub mod bonding;
pub mod soundness;
pub mod structure;
pub mod actor;
pub mod family;
pub mod access;
pub mod commands;
pub mod fracture;
pub mod split;
pub mod connection;
pub mod repair;
pub mod digest;
pub mod replay;
pub mod stress_graph;
pub mod stress_solve;
pub mod stress;
pub mod codec;
pub mod asset_codec;
pub mod asset_read;
pub mod snapshot_check;
pub mod family_codec;
pub mod family_entries;
pub mod family_payload;
pub mod snapshot;
pub mod number_laws;
pub mod mean_laws;
pub mod inertia_laws;
pub mod interface_laws;
pub mod author_laws;
pub mod laws;
pub mod stress_laws;
pub mod digest_laws;
pub mod field_laws;
pub mod damage_laws;
pub mod wear_laws;
pub mod split_laws;
pub mod force_laws;
pub mod load_laws;
pub mod flow_laws;
pub mod change_laws;
pub mod replay_laws;
pub mod accept_laws;
pub mod event_laws;
pub mod host;

pub use crate::access::actor_components;
pub use crate::actor::{build_actor, FxActor};
pub use crate::asset::{Bond2D, Chunk2D, FxAsset, SupportNode2D};
pub use crate::authoring::{CellOrientation, FxAssetDesc};
pub use crate::codec::FxCoreSnapshotError;
pub use crate::commands::{
    generate_damage_commands, sort_fracture_commands, DamageInput, DamageSource,
    DeterministicOrderKey, FractureCommand, FractureTarget,
};
pub use crate::connection::{DynamicStructuralBondDesc, MergeActorsResult, StaticAnchorDesc};
pub use crate::errors::{ConnectionError, RepairError, ValidationError};
pub use crate::family::{ChunkRuntimeState, FxFamily, NodeRuntimeState};
pub use crate::fracture::{apply_fracture_commands, FractureEvent};
pub use crate::geometry::{GridAabb, GridCoord, InterfaceEdge, LatticePoint, Vec2};
pub use crate::ids::{
    BondId, ChunkId, CommandId, ConnectionId, EventId, ExternalBondId, ExternalTargetToken,
    FxActorId, FxAssetId, FxFamilyId, SupportNodeId,
};
pub use crate::occupancy::DenseOccupancy;
pub use crate::repair::{RepairCommitSummary, RepairPlan};
pub use crate::replay::{run_replay_ticks, ReplayCommand, ReplayError, ReplayTickTrace};
pub use crate::scalar::Scalar;
pub use crate::snapshot::{encode_family_snapshot, restore_family_snapshot, SnapshotMode};
pub use crate::split::{split_dirty_actors, SplitEvent};
pub use crate::stress::{StressProfile, StressSettings, StressSolveReport, StressSolver2D};
pub use crate::stress_graph::{StressContext2D, StressInput, StressNodeContext2D};
pub use crate::structure::{
    BondRuntimeState, DynamicConnectionPolicy, DynamicStructuralBond2D, ExternalBond2D,
    ExternalTarget2D, ExternalTargetKind,
};
