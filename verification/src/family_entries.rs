//! The entries of the tables of a body, read back from bytes.

use crate::actor::{ActorModel, FxActor};
use crate::asset_codec::id_out;
use crate::asset_read::{get_axes, get_limits, lemma_axes_back, lemma_limits_back, read_axes, read_limits};
use crate::codec::{
    at, get_coord, get_list, get_scalar, get_u32, get_u8, get_vec, gives, gives_view,
    lemma_at_split, lemma_coord_back, lemma_list_back, lemma_scalar_back, lemma_u32_back,
    lemma_u8_back, lemma_vec_back, models, put_coord, put_list, put_vec, read_list, reads_back,
    with_got, FxCoreSnapshotError, Got, Readable, Reader, Writer,
};
use crate::family::{ChunkRuntimeState, NodeRuntimeState};
use crate::family_codec::{
    kind_byte, put_actor, put_bond_state, put_bounds, put_chunk_state, put_dynamic, put_external,
    put_node_state, put_owner, write_actor, write_chunk_state, write_dynamic, write_external,
    write_node_state, write_owner, TableEntry,
};
use crate::geometry::{vec_finite, GridAabb, GridCoord, Vec2};
use crate::hash::le32;
use crate::ids::{
    ConnectionId, ExternalBondId, ExternalTargetToken, FxActorId, SupportNodeId,
};
use crate::repair::{bond_state_ok, valid_bond_state};
use crate::scalar::Scalar;
use crate::structure::{
    BondRuntimeState, DynamicConnectionPolicy, DynamicStructuralBond2D, ExternalBond2D,
    ExternalTarget2D, ExternalTargetKind,
};
use vstd::prelude::*;

verus! {

/// A node in the list of an actor.
pub struct OwnedNode {
    pub id: SupportNodeId,
}

pub open spec fn owned_in(b: Seq<u8>) -> spec_fn(int) -> Got<SupportNodeId> {
    |p: int|
        with_got(get_u32(b, p, "actor.owned_node"), |v: u32, q: int| Ok((SupportNodeId(v), q)))
}

impl Readable for OwnedNode {
    type Model = SupportNodeId;

    open spec fn model(&self) -> SupportNodeId {
        self.id
    }

    open spec fn item(b: Seq<u8>) -> spec_fn(int) -> Got<SupportNodeId> {
        owned_in(b)
    }

    fn read_item(reader: &mut Reader) -> (r: Result<Self, FxCoreSnapshotError>) {
        Ok(OwnedNode { id: SupportNodeId(reader.u32("actor.owned_node")?) })
    }
}

pub open spec fn get_bounds(b: Seq<u8>, pos: int) -> Got<Option<GridAabb>> {
    with_got(
        get_u8(b, pos, "actor.bounds.tag"),
        |tag: u8, p: int|
            if tag == 0 {
                Ok((None, p))
            } else if tag == 1 {
                with_got(
                    get_coord(b, p),
                    |min: GridCoord, p: int|
                        with_got(
                            get_coord(b, p),
                            |max: GridCoord, p: int| Ok((Some(GridAabb { min, max }), p)),
                        ),
                )
            } else {
                Err(FxCoreSnapshotError::InvalidValue("actor.bounds.tag"))
            },
    )
}

/// The mass properties and bounds of an actor.
pub open spec fn get_actor_rest(b: Seq<u8>, pos: int) -> Got<
    (Scalar, Vec2, Scalar, Option<GridAabb>),
> {
    with_got(
        get_scalar(b, pos, "actor.mass"),
        |mass: Scalar, p: int|
            with_got(
                get_vec(b, p, "actor.local_com"),
                |com: Vec2, p: int|
                    with_got(
                        get_scalar(b, p, "actor.inertia"),
                        |inertia: Scalar, p: int|
                            with_got(
                                get_bounds(b, p),
                                |bounds: Option<GridAabb>, p: int|
                                    Ok(((mass, com, inertia, bounds), p)),
                            ),
                    ),
            ),
    )
}

#[verifier::opaque]
pub open spec fn get_actor(b: Seq<u8>, pos: int) -> Got<(u32, ActorModel)> {
    with_got(
        get_u32(b, pos, "actor.key"),
        |key: u32, p: int|
            with_got(
                get_u32(b, p, "actor.id"),
                |id: u32, p: int|
                    with_got(
                        get_list(b, p, "actor.owned_nodes", owned_in(b)),
                        |nodes: Seq<SupportNodeId>, p: int|
                            with_got(
                                get_actor_rest(b, p),
                                |rest: (Scalar, Vec2, Scalar, Option<GridAabb>), p: int|
                                    if key != id {
                                        Err(
                                            FxCoreSnapshotError::StateMismatch(
                                                "actor key/id mismatch or duplicate",
                                            ),
                                        )
                                    } else {
                                        Ok(
                                            (
                                                (
                                                    key,
                                                    ActorModel {
                                                        id: FxActorId(id),
                                                        owned_nodes: nodes,
                                                        mass: rest.0,
                                                        local_com: rest.1,
                                                        inertia: rest.2,
                                                        bounds: rest.3,
                                                    },
                                                ),
                                                p,
                                            ),
                                        )
                                    },
                            ),
                    ),
            ),
    )
}

fn read_bounds(reader: &mut Reader) -> (r: Result<Option<GridAabb>, FxCoreSnapshotError>)
    requires
        old(reader).wf(),
    ensures
        final(reader).follows(*old(reader)),
        gives(
            get_bounds(old(reader).bytes@, old(reader).pos as int),
            r,
            final(reader).pos as int,
        ),
{
    let tag = reader.u8("actor.bounds.tag")?;
    if tag == 0 {
        Ok(None)
    } else if tag == 1 {
        let min = reader.grid_coord()?;
        let max = reader.grid_coord()?;
        Ok(Some(GridAabb { min, max }))
    } else {
        Err(FxCoreSnapshotError::InvalidValue("actor.bounds.tag"))
    }
}

fn read_owned(reader: &mut Reader) -> (r: Result<Vec<SupportNodeId>, FxCoreSnapshotError>)
    requires
        old(reader).wf(),
    ensures
        final(reader).follows(*old(reader)),
        gives_view(
            get_list(
                old(reader).bytes@,
                old(reader).pos as int,
                "actor.owned_nodes",
                owned_in(old(reader).bytes@),
            ),
            r,
            final(reader).pos as int,
        ),
{
    let nodes: Vec<OwnedNode> = read_list(reader, "actor.owned_nodes")?;
    let mut ids: Vec<SupportNodeId> = Vec::new();
    let mut i: usize = 0;
    while i < nodes.len()
        invariant
            i <= nodes.len(),
            ids.len() == i,
            forall|k: int| 0 <= k < i ==> #[trigger] ids@[k] == nodes@[k].id,
        decreases nodes.len() - i,
    {
        ids.push(nodes[i].id);
        i = i + 1;
    }
    assert(models(nodes@) =~= ids@);
    Ok(ids)
}

impl TableEntry for FxActor {
    type Model = ActorModel;

    open spec fn entry_model(&self) -> ActorModel {
        self@
    }

    open spec fn entry_bytes(k: u32, m: ActorModel) -> Seq<u8> {
        put_actor(k, m)
    }

    open spec fn entry_at(b: Seq<u8>, pos: int) -> Got<(u32, ActorModel)> {
        get_actor(b, pos)
    }

    fn write_entry(&self, key: u32, writer: &mut Writer) {
        write_actor(writer, key, self)
    }

    fn read_entry(reader: &mut Reader) -> (r: Result<(u32, Self), FxCoreSnapshotError>) {
        proof {
            reveal(get_actor);
        }
        let key = reader.u32("actor.key")?;
        let id = reader.u32("actor.id")?;
        let owned_nodes = read_owned(reader)?;
        let mass = reader.scalar("actor.mass")?;
        let local_com = reader.vec2("actor.local_com")?;
        let inertia = reader.scalar("actor.inertia")?;
        let bounds = read_bounds(reader)?;
        if key != id {
            return Err(FxCoreSnapshotError::StateMismatch("actor key/id mismatch or duplicate"));
        }
        Ok((key, FxActor { id: FxActorId(id), owned_nodes, mass, local_com, inertia, bounds }))
    }
}

#[verifier::opaque]
pub open spec fn get_owner_entry(b: Seq<u8>, pos: int) -> Got<(u32, FxActorId)> {
    with_got(
        get_u32(b, pos, "node_owner.node"),
        |node: u32, p: int|
            with_got(
                get_u32(b, p, "node_owner.actor"),
                |actor: u32, p: int| Ok(((node, FxActorId(actor)), p)),
            ),
    )
}

impl TableEntry for FxActorId {
    type Model = FxActorId;

    open spec fn entry_model(&self) -> FxActorId {
        *self
    }

    open spec fn entry_bytes(k: u32, m: FxActorId) -> Seq<u8> {
        put_owner(k, m)
    }

    open spec fn entry_at(b: Seq<u8>, pos: int) -> Got<(u32, FxActorId)> {
        get_owner_entry(b, pos)
    }

    fn write_entry(&self, key: u32, writer: &mut Writer) {
        write_owner(writer, key, *self)
    }

    fn read_entry(reader: &mut Reader) -> (r: Result<(u32, Self), FxCoreSnapshotError>) {
        proof {
            reveal(get_owner_entry);
        }
        let node = reader.u32("node_owner.node")?;
        let actor = reader.u32("node_owner.actor")?;
        Ok((node, FxActorId(actor)))
    }
}

#[verifier::opaque]
pub open spec fn get_node_state(b: Seq<u8>, pos: int) -> Got<(u32, NodeRuntimeState)> {
    with_got(
        get_u32(b, pos, "node_state.node"),
        |node: u32, p: int|
            with_got(
                get_scalar(b, p, "node_state.health"),
                |health: Scalar, p: int|
                    with_got(
                        get_scalar(b, p, "node_state.accumulated_damage"),
                        |damage: Scalar, p: int|
                            Ok(
                                (
                                    (node, NodeRuntimeState { health, accumulated_damage: damage }),
                                    p,
                                ),
                            ),
                    ),
            ),
    )
}

impl TableEntry for NodeRuntimeState {
    type Model = NodeRuntimeState;

    open spec fn entry_model(&self) -> NodeRuntimeState {
        *self
    }

    open spec fn entry_bytes(k: u32, m: NodeRuntimeState) -> Seq<u8> {
        put_node_state(k, m)
    }

    open spec fn entry_at(b: Seq<u8>, pos: int) -> Got<(u32, NodeRuntimeState)> {
        get_node_state(b, pos)
    }

    fn write_entry(&self, key: u32, writer: &mut Writer) {
        write_node_state(writer, key, self)
    }

    fn read_entry(reader: &mut Reader) -> (r: Result<(u32, Self), FxCoreSnapshotError>) {
        proof {
            reveal(get_node_state);
        }
        let node = reader.u32("node_state.node")?;
        let health = reader.scalar("node_state.health")?;
        let accumulated_damage = reader.scalar("node_state.accumulated_damage")?;
        Ok((node, NodeRuntimeState { health, accumulated_damage }))
    }
}

#[verifier::opaque]
pub open spec fn get_chunk_state(b: Seq<u8>, pos: int) -> Got<(u32, ChunkRuntimeState)> {
    with_got(
        get_u32(b, pos, "chunk_state.chunk"),
        |chunk: u32, p: int|
            with_got(
                get_scalar(b, p, "chunk_state.health"),
                |health: Scalar, p: int|
                    with_got(
                        get_scalar(b, p, "chunk_state.accumulated_damage"),
                        |damage: Scalar, p: int|
                            Ok(
                                (
                                    (
                                        chunk,
                                        ChunkRuntimeState { health, accumulated_damage: damage },
                                    ),
                                    p,
                                ),
                            ),
                    ),
            ),
    )
}

impl TableEntry for ChunkRuntimeState {
    type Model = ChunkRuntimeState;

    open spec fn entry_model(&self) -> ChunkRuntimeState {
        *self
    }

    open spec fn entry_bytes(k: u32, m: ChunkRuntimeState) -> Seq<u8> {
        put_chunk_state(k, m)
    }

    open spec fn entry_at(b: Seq<u8>, pos: int) -> Got<(u32, ChunkRuntimeState)> {
        get_chunk_state(b, pos)
    }

    fn write_entry(&self, key: u32, writer: &mut Writer) {
        write_chunk_state(writer, key, self)
    }

    fn read_entry(reader: &mut Reader) -> (r: Result<(u32, Self), FxCoreSnapshotError>) {
        proof {
            reveal(get_chunk_state);
        }
        let chunk = reader.u32("chunk_state.chunk")?;
        let health = reader.scalar("chunk_state.health")?;
        let accumulated_damage = reader.scalar("chunk_state.accumulated_damage")?;
        Ok((chunk, ChunkRuntimeState { health, accumulated_damage }))
    }
}

#[verifier::opaque]
pub open spec fn get_bond_state(b: Seq<u8>, pos: int) -> Got<BondRuntimeState> {
    with_got(
        get_scalar(b, pos, "bond_state.health"),
        |health: Scalar, p: int|
            with_got(
                get_scalar(b, p, "bond_state.effective_length"),
                |length: Scalar, p: int|
                    with_got(
                        get_scalar(b, p, "bond_state.accumulated_damage"),
                        |damage: Scalar, p: int|
                            {
                                let s = BondRuntimeState {
                                    health,
                                    effective_length: length,
                                    accumulated_damage: damage,
                                };
                                if bond_state_ok(s) {
                                    Ok((s, p))
                                } else {
                                    Err(FxCoreSnapshotError::InvalidValue("bond_state"))
                                }
                            },
                    ),
            ),
    )
}

pub open spec fn bond_state_in(b: Seq<u8>) -> spec_fn(int) -> Got<BondRuntimeState> {
    |p: int| get_bond_state(b, p)
}

impl Readable for BondRuntimeState {
    type Model = BondRuntimeState;

    open spec fn model(&self) -> BondRuntimeState {
        *self
    }

    open spec fn item(b: Seq<u8>) -> spec_fn(int) -> Got<BondRuntimeState> {
        bond_state_in(b)
    }

    fn read_item(reader: &mut Reader) -> (r: Result<Self, FxCoreSnapshotError>) {
        proof {
            reveal(get_bond_state);
        }
        let health = reader.scalar("bond_state.health")?;
        let effective_length = reader.scalar("bond_state.effective_length")?;
        let accumulated_damage = reader.scalar("bond_state.accumulated_damage")?;
        let state = BondRuntimeState { health, effective_length, accumulated_damage };
        if !valid_bond_state(&state) {
            return Err(FxCoreSnapshotError::InvalidValue("bond_state"));
        }
        Ok(state)
    }
}

/// What an anchor ties and to what.
pub open spec fn get_external_head(b: Seq<u8>, pos: int) -> Got<
    (u32, u32, u32, ExternalTarget2D),
> {
    with_got(
        get_u32(b, pos, "external_bond.key"),
        |key: u32, p: int|
            with_got(
                get_u32(b, p, "external_bond.id"),
                |id: u32, p: int|
                    with_got(
                        get_u32(b, p, "external_bond.node"),
                        |node: u32, p: int|
                            with_got(
                                get_target(b, p),
                                |target: ExternalTarget2D, p: int| Ok(((key, id, node, target), p)),
                            ),
                    ),
            ),
    )
}

pub open spec fn get_kind(b: Seq<u8>, pos: int) -> Got<ExternalTargetKind> {
    with_got(
        get_u8(b, pos, "external_bond.kind"),
        |kind: u8, p: int|
            if kind == 0 {
                Ok((ExternalTargetKind::World, p))
            } else if kind == 1 {
                Ok((ExternalTargetKind::Static, p))
            } else if kind == 2 {
                Ok((ExternalTargetKind::Kinematic, p))
            } else {
                Err(FxCoreSnapshotError::InvalidValue("external_bond.kind"))
            },
    )
}

pub open spec fn get_target(b: Seq<u8>, pos: int) -> Got<ExternalTarget2D> {
    with_got(
        get_kind(b, pos),
        |kind: ExternalTargetKind, p: int|
            with_got(
                get_u32(b, p, "external_bond.token"),
                |token: u32, p: int|
                    Ok((ExternalTarget2D { kind, token: ExternalTargetToken(token) }, p)),
            ),
    )
}

#[verifier::opaque]
pub open spec fn get_external(b: Seq<u8>, pos: int) -> Got<(u32, ExternalBond2D)> {
    with_got(
        get_external_head(b, pos),
        |head: (u32, u32, u32, ExternalTarget2D), p: int|
            with_got(
                get_axes(
                    b,
                    p,
                    "external_bond.anchor",
                    "external_bond.normal",
                    "external_bond.tangent",
                ),
                |axes: (Vec2, Vec2, Vec2), p: int|
                    with_got(
                        get_limits(
                            b,
                            p,
                            "external_bond.base_health",
                            "external_bond.tension_limit",
                            "external_bond.compression_limit",
                            "external_bond.shear_limit",
                        ),
                        |limits: (Scalar, Scalar, Scalar, Scalar), p: int|
                            with_got(
                                get_bond_state(b, p),
                                |runtime: BondRuntimeState, p: int|
                                    if head.0 != head.1 {
                                        Err(
                                            FxCoreSnapshotError::StateMismatch(
                                                "external bond key/id mismatch or duplicate",
                                            ),
                                        )
                                    } else {
                                        Ok(
                                            (
                                                (
                                                    head.0,
                                                    ExternalBond2D {
                                                        id: ExternalBondId(head.1),
                                                        node: SupportNodeId(head.2),
                                                        target: head.3,
                                                        anchor: axes.0,
                                                        normal: axes.1,
                                                        tangent: axes.2,
                                                        base_health: limits.0,
                                                        tension_limit: limits.1,
                                                        compression_limit: limits.2,
                                                        shear_limit: limits.3,
                                                        runtime,
                                                    },
                                                ),
                                                p,
                                            ),
                                        )
                                    },
                            ),
                    ),
            ),
    )
}

fn read_target(reader: &mut Reader) -> (r: Result<ExternalTarget2D, FxCoreSnapshotError>)
    requires
        old(reader).wf(),
    ensures
        final(reader).follows(*old(reader)),
        gives(
            get_target(old(reader).bytes@, old(reader).pos as int),
            r,
            final(reader).pos as int,
        ),
{
    let kind = match reader.u8("external_bond.kind")? {
        0 => ExternalTargetKind::World,
        1 => ExternalTargetKind::Static,
        2 => ExternalTargetKind::Kinematic,
        _ => {
            return Err(FxCoreSnapshotError::InvalidValue("external_bond.kind"));
        },
    };
    let token = ExternalTargetToken(reader.u32("external_bond.token")?);
    Ok(ExternalTarget2D { kind, token })
}

impl TableEntry for ExternalBond2D {
    type Model = ExternalBond2D;

    open spec fn entry_model(&self) -> ExternalBond2D {
        *self
    }

    open spec fn entry_bytes(k: u32, m: ExternalBond2D) -> Seq<u8> {
        put_external(k, m)
    }

    open spec fn entry_at(b: Seq<u8>, pos: int) -> Got<(u32, ExternalBond2D)> {
        get_external(b, pos)
    }

    fn write_entry(&self, key: u32, writer: &mut Writer) {
        write_external(writer, key, self)
    }

    fn read_entry(reader: &mut Reader) -> (r: Result<(u32, Self), FxCoreSnapshotError>) {
        proof {
            reveal(get_external);
        }
        let key = reader.u32("external_bond.key")?;
        let id = reader.u32("external_bond.id")?;
        let node = reader.u32("external_bond.node")?;
        let target = read_target(reader)?;
        let (anchor, normal, tangent) = read_axes(
            reader,
            "external_bond.anchor",
            "external_bond.normal",
            "external_bond.tangent",
        )?;
        let (base_health, tension_limit, compression_limit, shear_limit) = read_limits(
            reader,
            "external_bond.base_health",
            "external_bond.tension_limit",
            "external_bond.compression_limit",
            "external_bond.shear_limit",
        )?;
        let runtime = BondRuntimeState::read_item(reader)?;
        if key != id {
            return Err(
                FxCoreSnapshotError::StateMismatch("external bond key/id mismatch or duplicate"),
            );
        }
        Ok(
            (
                key,
                ExternalBond2D {
                    id: ExternalBondId(id),
                    node: SupportNodeId(node),
                    target,
                    anchor,
                    normal,
                    tangent,
                    base_health,
                    tension_limit,
                    compression_limit,
                    shear_limit,
                    runtime,
                },
            ),
        )
    }
}

/// The ids and nodes of a connection, whose policy has to be the one that can be stored.
pub open spec fn get_dynamic_head(b: Seq<u8>, pos: int) -> Got<(u32, u32, u32, u32)> {
    with_got(
        get_u32(b, pos, "dynamic_bond.key"),
        |key: u32, p: int|
            with_got(
                get_u32(b, p, "dynamic_bond.id"),
                |id: u32, p: int|
                    with_got(
                        get_u32(b, p, "dynamic_bond.node_a"),
                        |x: u32, p: int|
                            with_got(
                                get_u32(b, p, "dynamic_bond.node_b"),
                                |y: u32, p: int|
                                    with_got(
                                        get_u8(b, p, "dynamic_bond.policy"),
                                        |policy: u8, p: int|
                                            if policy == 0 {
                                                Ok(((key, id, x, y), p))
                                            } else if policy == 1 {
                                                Err(
                                                    FxCoreSnapshotError::UnsupportedCustomHardConstraint(
                                                        ConnectionId(id),
                                                    ),
                                                )
                                            } else {
                                                Err(
                                                    FxCoreSnapshotError::InvalidValue(
                                                        "dynamic_bond.policy",
                                                    ),
                                                )
                                            },
                                    ),
                            ),
                    ),
            ),
    )
}

#[verifier::opaque]
pub open spec fn get_dynamic(b: Seq<u8>, pos: int) -> Got<(u32, DynamicStructuralBond2D)> {
    with_got(
        get_dynamic_head(b, pos),
        |head: (u32, u32, u32, u32), p: int|
            with_got(
                get_axes(
                    b,
                    p,
                    "dynamic_bond.centroid",
                    "dynamic_bond.normal",
                    "dynamic_bond.tangent",
                ),
                |axes: (Vec2, Vec2, Vec2), p: int|
                    with_got(
                        get_limits(
                            b,
                            p,
                            "dynamic_bond.base_health",
                            "dynamic_bond.tension_limit",
                            "dynamic_bond.compression_limit",
                            "dynamic_bond.shear_limit",
                        ),
                        |limits: (Scalar, Scalar, Scalar, Scalar), p: int|
                            with_got(
                                get_bond_state(b, p),
                                |runtime: BondRuntimeState, p: int|
                                    if head.0 != head.1 {
                                        Err(
                                            FxCoreSnapshotError::StateMismatch(
                                                "dynamic bond key/id mismatch or duplicate",
                                            ),
                                        )
                                    } else {
                                        Ok(
                                            (
                                                (
                                                    head.0,
                                                    DynamicStructuralBond2D {
                                                        id: ConnectionId(head.1),
                                                        node_a: SupportNodeId(head.2),
                                                        node_b: SupportNodeId(head.3),
                                                        policy: DynamicConnectionPolicy::GraphOnly,
                                                        centroid: axes.0,
                                                        normal: axes.1,
                                                        tangent: axes.2,
                                                        base_health: limits.0,
                                                        tension_limit: limits.1,
                                                        compression_limit: limits.2,
                                                        shear_limit: limits.3,
                                                        runtime,
                                                    },
                                                ),
                                                p,
                                            ),
                                        )
                                    },
                            ),
                    ),
            ),
    )
}

impl TableEntry for DynamicStructuralBond2D {
    type Model = DynamicStructuralBond2D;

    open spec fn entry_model(&self) -> DynamicStructuralBond2D {
        *self
    }

    open spec fn entry_bytes(k: u32, m: DynamicStructuralBond2D) -> Seq<u8> {
        put_dynamic(k, m)
    }

    open spec fn entry_at(b: Seq<u8>, pos: int) -> Got<(u32, DynamicStructuralBond2D)> {
        get_dynamic(b, pos)
    }

    fn write_entry(&self, key: u32, writer: &mut Writer) {
        write_dynamic(writer, key, self)
    }

    fn read_entry(reader: &mut Reader) -> (r: Result<(u32, Self), FxCoreSnapshotError>) {
        proof {
            reveal(get_dynamic);
        }
        let key = reader.u32("dynamic_bond.key")?;
        let id = reader.u32("dynamic_bond.id")?;
        let node_a = reader.u32("dynamic_bond.node_a")?;
        let node_b = reader.u32("dynamic_bond.node_b")?;
        match reader.u8("dynamic_bond.policy")? {
            0 => {},
            1 => {
                return Err(FxCoreSnapshotError::UnsupportedCustomHardConstraint(ConnectionId(id)));
            },
            _ => {
                return Err(FxCoreSnapshotError::InvalidValue("dynamic_bond.policy"));
            },
        }
        let (centroid, normal, tangent) = read_axes(
            reader,
            "dynamic_bond.centroid",
            "dynamic_bond.normal",
            "dynamic_bond.tangent",
        )?;
        let (base_health, tension_limit, compression_limit, shear_limit) = read_limits(
            reader,
            "dynamic_bond.base_health",
            "dynamic_bond.tension_limit",
            "dynamic_bond.compression_limit",
            "dynamic_bond.shear_limit",
        )?;
        let runtime = BondRuntimeState::read_item(reader)?;
        if key != id {
            return Err(
                FxCoreSnapshotError::StateMismatch("dynamic bond key/id mismatch or duplicate"),
            );
        }
        Ok(
            (
                key,
                DynamicStructuralBond2D {
                    id: ConnectionId(id),
                    node_a: SupportNodeId(node_a),
                    node_b: SupportNodeId(node_b),
                    policy: DynamicConnectionPolicy::GraphOnly,
                    centroid,
                    normal,
                    tangent,
                    base_health,
                    tension_limit,
                    compression_limit,
                    shear_limit,
                    runtime,
                },
            ),
        )
    }
}

proof fn lemma_bounds_back(b: Seq<u8>, pos: int, v: Option<GridAabb>)
    requires
        at(b, pos, put_bounds(v)),
    ensures
        get_bounds(b, pos) == Ok::<(Option<GridAabb>, int), FxCoreSnapshotError>(
            (v, pos + put_bounds(v).len()),
        ),
{
    match v {
        Some(g) => {
            lemma_at_split(b, pos, seq![1u8], put_coord(g.min) + put_coord(g.max));
            lemma_at_split(b, pos + 1, put_coord(g.min), put_coord(g.max));
            lemma_u8_back(b, pos, 1, "actor.bounds.tag");
            lemma_coord_back(b, pos + 1, g.min);
            lemma_coord_back(b, pos + 9, g.max);
        },
        None => {
            lemma_u8_back(b, pos, 0, "actor.bounds.tag");
        },
    }
}

proof fn lemma_owned_back(b: Seq<u8>, pos: int, nodes: Seq<SupportNodeId>)
    requires
        at(b, pos, put_list(nodes, id_out())),
        nodes.len() <= u32::MAX,
    ensures
        get_list(b, pos, "actor.owned_nodes", owned_in(b)) == Ok::<
            (Seq<SupportNodeId>, int),
            FxCoreSnapshotError,
        >((nodes, pos + put_list(nodes, id_out()).len())),
{
    assert forall|i: int| 0 <= i < nodes.len() implies reads_back(
        b,
        #[trigger] nodes[i],
        id_out(),
        owned_in(b),
    ) by {
        let n = nodes[i];
        assert forall|p: int| #[trigger] at(b, p, id_out()(n)) implies owned_in(b)(p) == Ok::<
            (SupportNodeId, int),
            FxCoreSnapshotError,
        >((n, p + id_out()(n).len())) by {
            lemma_u32_back(b, p, n.0, "actor.owned_node");
        }
    }
    lemma_list_back(b, pos, nodes, id_out(), owned_in(b), "actor.owned_nodes");
}

pub open spec fn put_actor_rest(a: ActorModel) -> Seq<u8> {
    le32(a.mass.bits) + put_vec(a.local_com) + le32(a.inertia.bits) + put_bounds(a.bounds)
}

proof fn lemma_actor_rest_back(b: Seq<u8>, pos: int, a: ActorModel)
    requires
        at(b, pos, put_actor_rest(a)),
        a.mass.finite() && vec_finite(a.local_com) && a.inertia.finite(),
    ensures
        get_actor_rest(b, pos) == Ok::<
            ((Scalar, Vec2, Scalar, Option<GridAabb>), int),
            FxCoreSnapshotError,
        >(((a.mass, a.local_com, a.inertia, a.bounds), pos + put_actor_rest(a).len())),
{
    let x = le32(a.mass.bits);
    let y = put_vec(a.local_com);
    let z = le32(a.inertia.bits);
    let w = put_bounds(a.bounds);
    lemma_at_split(b, pos, x + y + z, w);
    lemma_at_split(b, pos, x + y, z);
    lemma_at_split(b, pos, x, y);
    lemma_scalar_back(b, pos, a.mass, "actor.mass");
    lemma_vec_back(b, pos + 4, a.local_com, "actor.local_com");
    lemma_scalar_back(b, pos + 12, a.inertia, "actor.inertia");
    lemma_bounds_back(b, pos + 16, a.bounds);
}

/// An actor that was written is read back.
pub proof fn lemma_actor_back(b: Seq<u8>, pos: int, k: u32, a: ActorModel)
    requires
        at(b, pos, put_actor(k, a)),
        a.id.0 == k,
        a.owned_nodes.len() <= u32::MAX,
        a.mass.finite() && vec_finite(a.local_com) && a.inertia.finite(),
    ensures
        get_actor(b, pos) == Ok::<((u32, ActorModel), int), FxCoreSnapshotError>(
            ((k, a), pos + put_actor(k, a).len()),
        ),
{
    reveal(get_actor);
    reveal(put_actor);
    let x = le32(k);
    let y = le32(a.id.0);
    let z = put_list(a.owned_nodes, id_out());
    lemma_at_split(b, pos, x + y + z, put_actor_rest(a));
    lemma_at_split(b, pos, x + y, z);
    lemma_at_split(b, pos, x, y);
    lemma_u32_back(b, pos, k, "actor.key");
    lemma_u32_back(b, pos + 4, a.id.0, "actor.id");
    lemma_owned_back(b, pos + 8, a.owned_nodes);
    lemma_actor_rest_back(b, pos + 8 + z.len(), a);
}

/// The owner of a node that was written is read back.
pub proof fn lemma_owner_back(b: Seq<u8>, pos: int, k: u32, a: FxActorId)
    requires
        at(b, pos, put_owner(k, a)),
    ensures
        get_owner_entry(b, pos) == Ok::<((u32, FxActorId), int), FxCoreSnapshotError>(
            ((k, a), pos + put_owner(k, a).len()),
        ),
{
    reveal(get_owner_entry);
    reveal(put_owner);
    lemma_at_split(b, pos, le32(k), le32(a.0));
    lemma_u32_back(b, pos, k, "node_owner.node");
    lemma_u32_back(b, pos + 4, a.0, "node_owner.actor");
}

/// The state of a node that was written is read back.
pub proof fn lemma_node_state_back(b: Seq<u8>, pos: int, k: u32, s: NodeRuntimeState)
    requires
        at(b, pos, put_node_state(k, s)),
        s.health.finite() && s.accumulated_damage.finite(),
    ensures
        get_node_state(b, pos) == Ok::<((u32, NodeRuntimeState), int), FxCoreSnapshotError>(
            ((k, s), pos + put_node_state(k, s).len()),
        ),
{
    reveal(get_node_state);
    reveal(put_node_state);
    lemma_at_split(b, pos, le32(k) + le32(s.health.bits), le32(s.accumulated_damage.bits));
    lemma_at_split(b, pos, le32(k), le32(s.health.bits));
    lemma_u32_back(b, pos, k, "node_state.node");
    lemma_scalar_back(b, pos + 4, s.health, "node_state.health");
    lemma_scalar_back(b, pos + 8, s.accumulated_damage, "node_state.accumulated_damage");
}

/// The state of a chunk that was written is read back.
pub proof fn lemma_chunk_state_back(b: Seq<u8>, pos: int, k: u32, s: ChunkRuntimeState)
    requires
        at(b, pos, put_chunk_state(k, s)),
        s.health.finite() && s.accumulated_damage.finite(),
    ensures
        get_chunk_state(b, pos) == Ok::<((u32, ChunkRuntimeState), int), FxCoreSnapshotError>(
            ((k, s), pos + put_chunk_state(k, s).len()),
        ),
{
    reveal(get_chunk_state);
    reveal(put_chunk_state);
    lemma_at_split(b, pos, le32(k) + le32(s.health.bits), le32(s.accumulated_damage.bits));
    lemma_at_split(b, pos, le32(k), le32(s.health.bits));
    lemma_u32_back(b, pos, k, "chunk_state.chunk");
    lemma_scalar_back(b, pos + 4, s.health, "chunk_state.health");
    lemma_scalar_back(b, pos + 8, s.accumulated_damage, "chunk_state.accumulated_damage");
}

/// The state of a bond that was written is read back.
pub proof fn lemma_bond_state_back(b: Seq<u8>, pos: int, s: BondRuntimeState)
    requires
        at(b, pos, put_bond_state(s)),
        bond_state_ok(s),
    ensures
        get_bond_state(b, pos) == Ok::<(BondRuntimeState, int), FxCoreSnapshotError>((s, pos + 12)),
        put_bond_state(s).len() == 12,
{
    reveal(get_bond_state);
    reveal(put_bond_state);
    let x = le32(s.health.bits);
    let y = le32(s.effective_length.bits);
    let z = le32(s.accumulated_damage.bits);
    lemma_at_split(b, pos, x + y, z);
    lemma_at_split(b, pos, x, y);
    lemma_scalar_back(b, pos, s.health, "bond_state.health");
    lemma_scalar_back(b, pos + 4, s.effective_length, "bond_state.effective_length");
    lemma_scalar_back(b, pos + 8, s.accumulated_damage, "bond_state.accumulated_damage");
}

pub open spec fn put_three(x: Vec2, y: Vec2, z: Vec2) -> Seq<u8> {
    put_vec(x) + put_vec(y) + put_vec(z)
}

pub open spec fn put_four(x: Scalar, y: Scalar, z: Scalar, w: Scalar) -> Seq<u8> {
    le32(x.bits) + le32(y.bits) + le32(z.bits) + le32(w.bits)
}

proof fn lemma_four_pieces(b: Seq<u8>, pos: int, x: Scalar, y: Scalar, z: Scalar, w: Scalar)
    requires
        at(b, pos, put_four(x, y, z, w)),
    ensures
        at(b, pos, le32(x.bits)),
        at(b, pos + 4, le32(y.bits)),
        at(b, pos + 8, le32(z.bits)),
        at(b, pos + 12, le32(w.bits)),
{
    lemma_at_split(b, pos, le32(x.bits) + le32(y.bits) + le32(z.bits), le32(w.bits));
    lemma_at_split(b, pos, le32(x.bits) + le32(y.bits), le32(z.bits));
    lemma_at_split(b, pos, le32(x.bits), le32(y.bits));
}

proof fn lemma_external_head_back(b: Seq<u8>, pos: int, k: u32, v: ExternalBond2D)
    requires
        at(
            b,
            pos,
            le32(k) + le32(v.id.0) + le32(v.node.0) + seq![kind_byte(v.target.kind)] + le32(
                v.target.token.0,
            ),
        ),
    ensures
        get_external_head(b, pos) == Ok::<((u32, u32, u32, ExternalTarget2D), int), FxCoreSnapshotError>(
            ((k, v.id.0, v.node.0, v.target), pos + 17),
        ),
{
    let x = le32(k);
    let y = le32(v.id.0);
    let z = le32(v.node.0);
    let w = seq![kind_byte(v.target.kind)];
    let t = le32(v.target.token.0);
    lemma_at_split(b, pos, x + y + z + w, t);
    lemma_at_split(b, pos, x + y + z, w);
    lemma_at_split(b, pos, x + y, z);
    lemma_at_split(b, pos, x, y);
    lemma_u32_back(b, pos, k, "external_bond.key");
    lemma_u32_back(b, pos + 4, v.id.0, "external_bond.id");
    lemma_u32_back(b, pos + 8, v.node.0, "external_bond.node");
    lemma_u8_back(b, pos + 12, kind_byte(v.target.kind), "external_bond.kind");
    lemma_u32_back(b, pos + 13, v.target.token.0, "external_bond.token");
}

/// An anchor that was written is read back.
pub proof fn lemma_external_back(b: Seq<u8>, pos: int, k: u32, v: ExternalBond2D)
    requires
        at(b, pos, put_external(k, v)),
        v.id.0 == k,
        vec_finite(v.anchor) && vec_finite(v.normal) && vec_finite(v.tangent),
        v.base_health.finite() && v.tension_limit.finite() && v.compression_limit.finite()
            && v.shear_limit.finite(),
        bond_state_ok(v.runtime),
    ensures
        get_external(b, pos) == Ok::<((u32, ExternalBond2D), int), FxCoreSnapshotError>(
            ((k, v), pos + put_external(k, v).len()),
        ),
{
    reveal(get_external);
    reveal(put_external);
    let head = le32(k) + le32(v.id.0) + le32(v.node.0) + seq![kind_byte(v.target.kind)] + le32(
        v.target.token.0,
    );
    let axes = put_three(v.anchor, v.normal, v.tangent);
    let limits = put_four(v.base_health, v.tension_limit, v.compression_limit, v.shear_limit);
    let state = put_bond_state(v.runtime);
    lemma_at_split(b, pos, head + axes + limits, state);
    lemma_at_split(b, pos, head + axes, limits);
    lemma_at_split(b, pos, head, axes);
    lemma_external_head_back(b, pos, k, v);
    lemma_axes_back(
        b,
        pos + 17,
        v.anchor,
        v.normal,
        v.tangent,
        "external_bond.anchor",
        "external_bond.normal",
        "external_bond.tangent",
    );
    lemma_four_pieces(
        b,
        pos + 41,
        v.base_health,
        v.tension_limit,
        v.compression_limit,
        v.shear_limit,
    );
    lemma_limits_back(
        b,
        pos + 41,
        (v.base_health, v.tension_limit, v.compression_limit, v.shear_limit),
        "external_bond.base_health",
        "external_bond.tension_limit",
        "external_bond.compression_limit",
        "external_bond.shear_limit",
    );
    lemma_bond_state_back(b, pos + 57, v.runtime);
}

proof fn lemma_dynamic_head_back(b: Seq<u8>, pos: int, k: u32, v: DynamicStructuralBond2D)
    requires
        at(b, pos, le32(k) + le32(v.id.0) + le32(v.node_a.0) + le32(v.node_b.0) + seq![0u8]),
    ensures
        get_dynamic_head(b, pos) == Ok::<((u32, u32, u32, u32), int), FxCoreSnapshotError>(
            ((k, v.id.0, v.node_a.0, v.node_b.0), pos + 17),
        ),
{
    let x = le32(k);
    let y = le32(v.id.0);
    let z = le32(v.node_a.0);
    let w = le32(v.node_b.0);
    lemma_at_split(b, pos, x + y + z + w, seq![0u8]);
    lemma_at_split(b, pos, x + y + z, w);
    lemma_at_split(b, pos, x + y, z);
    lemma_at_split(b, pos, x, y);
    lemma_u32_back(b, pos, k, "dynamic_bond.key");
    lemma_u32_back(b, pos + 4, v.id.0, "dynamic_bond.id");
    lemma_u32_back(b, pos + 8, v.node_a.0, "dynamic_bond.node_a");
    lemma_u32_back(b, pos + 12, v.node_b.0, "dynamic_bond.node_b");
    lemma_u8_back(b, pos + 16, 0, "dynamic_bond.policy");
}

/// A connection that was written is read back.
pub proof fn lemma_dynamic_back(b: Seq<u8>, pos: int, k: u32, v: DynamicStructuralBond2D)
    requires
        at(b, pos, put_dynamic(k, v)),
        v.id.0 == k,
        v.policy == DynamicConnectionPolicy::GraphOnly,
        vec_finite(v.centroid) && vec_finite(v.normal) && vec_finite(v.tangent),
        v.base_health.finite() && v.tension_limit.finite() && v.compression_limit.finite()
            && v.shear_limit.finite(),
        bond_state_ok(v.runtime),
    ensures
        get_dynamic(b, pos) == Ok::<((u32, DynamicStructuralBond2D), int), FxCoreSnapshotError>(
            ((k, v), pos + put_dynamic(k, v).len()),
        ),
{
    reveal(get_dynamic);
    reveal(put_dynamic);
    let head = le32(k) + le32(v.id.0) + le32(v.node_a.0) + le32(v.node_b.0) + seq![0u8];
    let axes = put_three(v.centroid, v.normal, v.tangent);
    let limits = put_four(v.base_health, v.tension_limit, v.compression_limit, v.shear_limit);
    let state = put_bond_state(v.runtime);
    lemma_at_split(b, pos, head + axes + limits, state);
    lemma_at_split(b, pos, head + axes, limits);
    lemma_at_split(b, pos, head, axes);
    lemma_dynamic_head_back(b, pos, k, v);
    lemma_axes_back(
        b,
        pos + 17,
        v.centroid,
        v.normal,
        v.tangent,
        "dynamic_bond.centroid",
        "dynamic_bond.normal",
        "dynamic_bond.tangent",
    );
    lemma_four_pieces(
        b,
        pos + 41,
        v.base_health,
        v.tension_limit,
        v.compression_limit,
        v.shear_limit,
    );
    lemma_limits_back(
        b,
        pos + 41,
        (v.base_health, v.tension_limit, v.compression_limit, v.shear_limit),
        "dynamic_bond.base_health",
        "dynamic_bond.tension_limit",
        "dynamic_bond.compression_limit",
        "dynamic_bond.shear_limit",
    );
    lemma_bond_state_back(b, pos + 57, v.runtime);
}

} // verus!
