//! That the digest of a body tells every quantity of it.

use crate::actor::ActorModel;
use crate::asset::{AssetModel, BondModel, ChunkModel, NodeModel};
use crate::digest::{
    actor_words, anchor_words, bond_state_words, bond_words, bounds_words, chunk_state_words,
    chunk_words, connection_words, coord_pair, edge_words, flat_all, node_state_words, node_words,
    state_digest, state_words,
};
use crate::digest_laws::{
    lemma_anchor_tells, lemma_bond_state_tells, lemma_bond_tells, lemma_chunk_state_tells,
    lemma_connection_tells, lemma_differ_within, lemma_item_tells, lemma_part_tells, state_parts,
    with_bond,
};
use crate::family::{ChunkRuntimeState, FamilyModel, NodeRuntimeState};
use crate::geometry::{GridCoord, InterfaceEdge};
use crate::hash::fnv_words;
use crate::hash_laws::{differ_at, differ_once};
use crate::ids::SupportNodeId;
use crate::structure::{
    BondRuntimeState, DynamicConnectionPolicy, DynamicStructuralBond2D, ExternalBond2D,
    ExternalTargetKind,
};
use vstd::prelude::*;

verus! {

/// Where quantities stand for words, one for one, those that differ once do so as words too.
proof fn lemma_differ_as_words(a: Seq<int>, b: Seq<int>, x: Seq<u32>, y: Seq<u32>)
    requires
        differ_once(a, b),
        a.len() == x.len(),
        b.len() == y.len(),
        forall|i: int| 0 <= i < a.len() ==> (#[trigger] a[i] == b[i] <==> x[i] == y[i]),
    ensures
        differ_once(x, y),
{
    let i = choose|i: int| differ_at(a, b, i);
    assert(a[i] != b[i]);
    assert forall|j: int| 0 <= j < x.len() && j != i implies #[trigger] x[j] == y[j] by {
        assert(a[j] == b[j]);
    }
    assert(differ_at(x, y, i));
}

/// What a body as a whole is described by.
pub open spec fn body_fields(f: FamilyModel) -> Seq<int> {
    seq![
        f.id.0 as int,
        f.asset.id.0 as int,
        f.next_actor_id as int,
        f.next_event_id as int,
        f.asset.voxel_size.bits as int,
    ]
}

/// The ids of a body and of its asset, the next ids it gives out and the size of its voxels are
/// part of the digest.
pub proof fn lemma_body_fields_tell(f: FamilyModel, g: FamilyModel)
    requires
        g == (FamilyModel {
            id: g.id,
            next_actor_id: g.next_actor_id,
            next_event_id: g.next_event_id,
            asset: AssetModel { id: g.asset.id, voxel_size: g.asset.voxel_size, ..f.asset },
            ..f
        }),
        differ_once(body_fields(f), body_fields(g)),
    ensures
        state_digest(f) != state_digest(g),
{
    lemma_differ_as_words(body_fields(f), body_fields(g), state_parts(f)[0], state_parts(g)[0]);
    lemma_part_tells(f, g, 0);
}

/// What a node is described by, but for its voxels.
pub open spec fn node_fields(n: NodeModel) -> Seq<int> {
    seq![
        n.id.0 as int,
        n.chunk_id.0 as int,
        n.material_id as int,
        match n.orientation_summary {
            Some(a) => a as int,
            None => -1,
        },
        n.anisotropy_axis.x.bits as int,
        n.anisotropy_axis.y.bits as int,
        n.stable_seed as int % 0x1_0000_0000,
        n.stable_seed as int / 0x1_0000_0000,
    ]
}

/// A body with the node in a place replaced.
pub open spec fn with_node(f: FamilyModel, k: int, n: NodeModel) -> FamilyModel {
    FamilyModel {
        asset: AssetModel { support_nodes: f.asset.support_nodes.update(k, n), ..f.asset },
        ..f
    }
}

/// Whatever a node is described by is part of the digest.
pub proof fn lemma_node_fields_tell(f: FamilyModel, k: int, n: NodeModel)
    requires
        0 <= k < f.asset.support_nodes.len(),
        n.voxels == f.asset.support_nodes[k].voxels,
        differ_once(node_fields(f.asset.support_nodes[k]), node_fields(n)),
    ensures
        state_digest(with_node(f, k, n)) != state_digest(f),
{
    let m = f.asset.support_nodes[k];
    let a = node_words(m).take(8);
    let b = node_words(n).take(8);
    let cells = flat_all(n.voxels, |c: GridCoord| coord_pair(c));
    lemma_differ_as_words(node_fields(m), node_fields(n), a, b);
    assert(node_words(m) =~= a + cells);
    assert(node_words(n) =~= b + cells);
    lemma_differ_within(Seq::empty(), a, b, cells);
    lemma_item_tells(f.asset.support_nodes, n, |n: NodeModel| node_words(n), k);
    lemma_part_tells(f, with_node(f, k, n), 1);
}

/// Every voxel of a node is part of the digest, by its column and by its row.
pub proof fn lemma_node_voxel_tells(f: FamilyModel, k: int, i: int, c: GridCoord)
    requires
        0 <= k < f.asset.support_nodes.len(),
        0 <= i < f.asset.support_nodes[k].voxels.len(),
        ({
            let d = f.asset.support_nodes[k].voxels[i];
            (c.x == d.x) != (c.y == d.y)
        }),
    ensures
        ({
            let n = f.asset.support_nodes[k];
            state_digest(with_node(f, k, NodeModel { voxels: n.voxels.update(i, c), ..n }))
                != state_digest(f)
        }),
{
    let m = f.asset.support_nodes[k];
    let n = NodeModel { voxels: m.voxels.update(i, c), ..m };
    let words = |c: GridCoord| coord_pair(c);
    let d = m.voxels[i];
    assert(differ_at(words(d), words(c), if c.x == d.x {
        1
    } else {
        0
    }));
    lemma_item_tells(m.voxels, c, words, i);
    let head = node_words(m).take(8);
    let a = flat_all(m.voxels, words);
    let b = flat_all(n.voxels, words);
    assert(node_words(m) =~= head + a);
    assert(node_words(n) =~= head + b);
    lemma_differ_within(head, a, b, Seq::empty());
    lemma_item_tells(f.asset.support_nodes, n, |n: NodeModel| node_words(n), k);
    lemma_part_tells(f, with_node(f, k, n), 1);
}

/// A body with the chunk in a place replaced.
pub open spec fn with_chunk(f: FamilyModel, k: int, c: ChunkModel) -> FamilyModel {
    FamilyModel {
        asset: AssetModel { chunks: f.asset.chunks.update(k, c), ..f.asset },
        ..f
    }
}

/// The id of a chunk, its parent and each of its nodes are part of the digest.
pub proof fn lemma_chunk_tells(f: FamilyModel, k: int, c: ChunkModel)
    requires
        0 <= k < f.asset.chunks.len(),
        ({
            let d = f.asset.chunks[k];
            ||| c.id != d.id && c.parent == d.parent && c.support_nodes == d.support_nodes
            ||| c.id == d.id && c.support_nodes == d.support_nodes && c.parent is Some
                && d.parent is Some && c.parent != d.parent
            ||| c.id == d.id && c.parent == d.parent && differ_once(
                c.support_nodes,
                d.support_nodes,
            )
        }),
    ensures
        state_digest(with_chunk(f, k, c)) != state_digest(f),
{
    let d = f.asset.chunks[k];
    let words = |n: SupportNodeId| seq![n.0];
    let a = chunk_words(d);
    let b = chunk_words(c);
    let s = flat_all(d.support_nodes, words);
    let t = flat_all(c.support_nodes, words);
    let head = seq![d.id.0, d.support_nodes.len() as u32];
    let tail = seq![
        match d.parent {
            Some(p) => p.0,
            None => u32::MAX,
        },
    ];
    if c.id != d.id {
        assert(a =~= seq![d.id.0, d.support_nodes.len() as u32] + (s + tail));
        assert(b =~= seq![c.id.0, c.support_nodes.len() as u32] + (s + tail));
        let x = seq![d.id.0, d.support_nodes.len() as u32];
        let y = seq![c.id.0, c.support_nodes.len() as u32];
        assert(differ_at(x, y, 0));
        lemma_differ_within(Seq::empty(), x, y, s + tail);
    } else if c.parent != d.parent {
        let last = seq![(c.parent->0).0];
        assert(differ_at(tail, last, 0));
        lemma_differ_within(head + s, tail, last, Seq::empty());
    } else {
        let i = choose|i: int| differ_at(c.support_nodes, d.support_nodes, i);
        let n = c.support_nodes[i];
        assert(d.support_nodes.update(i, n) =~= c.support_nodes);
        assert(differ_at(words(d.support_nodes[i]), words(n), 0));
        lemma_item_tells(d.support_nodes, n, words, i);
        lemma_differ_within(head, s, t, Seq::empty());
        lemma_differ_within(Seq::empty(), head + s, head + t, tail);
    }
    assert(differ_once(a, b));
    lemma_item_tells(f.asset.chunks, c, |c: ChunkModel| chunk_words(c), k);
    lemma_part_tells(f, with_chunk(f, k, c), 2);
}

/// What of an internal bond is told by the digest, but for its edges.
pub open spec fn bond_fields(b: BondModel) -> Seq<int> {
    seq![
        b.id.0 as int,
        b.node_a.0 as int,
        b.node_b.0 as int,
        b.length.bits as int,
        b.tension_limit.bits as int,
        b.compression_limit.bits as int,
        b.shear_limit.bits as int,
    ]
}

/// The id of a bond, its ends, its length and its limits are part of the digest.
pub proof fn lemma_bond_fields_tell(f: FamilyModel, k: int, b: BondModel)
    requires
        0 <= k < f.asset.internal_bonds.len(),
        b.interface_edges == f.asset.internal_bonds[k].interface_edges,
        differ_once(bond_fields(f.asset.internal_bonds[k]), bond_fields(b)),
    ensures
        state_digest(with_bond(f, k, b)) != state_digest(f),
{
    let c = f.asset.internal_bonds[k];
    let x = bond_words(c).take(7);
    let y = bond_words(b).take(7);
    let edges = flat_all(b.interface_edges, |e: InterfaceEdge| edge_words(e));
    lemma_differ_as_words(bond_fields(c), bond_fields(b), x, y);
    assert(bond_words(c) =~= x + edges);
    assert(bond_words(b) =~= y + edges);
    lemma_differ_within(Seq::empty(), x, y, edges);
    lemma_bond_tells(f, k, b);
}

/// Every edge of a bond is part of the digest, by both its ends.
pub proof fn lemma_bond_edge_tells(f: FamilyModel, k: int, i: int, e: InterfaceEdge)
    requires
        0 <= k < f.asset.internal_bonds.len(),
        0 <= i < f.asset.internal_bonds[k].interface_edges.len(),
        ({
            let d = f.asset.internal_bonds[k].interface_edges[i];
            differ_once(
                seq![d.start.x, d.start.y, d.end.x, d.end.y],
                seq![e.start.x, e.start.y, e.end.x, e.end.y],
            )
        }),
    ensures
        ({
            let b = f.asset.internal_bonds[k];
            state_digest(
                with_bond(
                    f,
                    k,
                    BondModel { interface_edges: b.interface_edges.update(i, e), ..b },
                ),
            ) != state_digest(f)
        }),
{
    let c = f.asset.internal_bonds[k];
    let b = BondModel { interface_edges: c.interface_edges.update(i, e), ..c };
    let words = |e: InterfaceEdge| edge_words(e);
    lemma_item_tells(c.interface_edges, e, words, i);
    let head = bond_words(c).take(7);
    let x = flat_all(c.interface_edges, words);
    let y = flat_all(b.interface_edges, words);
    assert(bond_words(c) =~= head + x);
    assert(bond_words(b) =~= head + y);
    lemma_differ_within(head, x, y, Seq::empty());
    lemma_bond_tells(f, k, b);
}

/// What of an actor is told by the digest, but for its id and its nodes.
pub open spec fn actor_fields(a: ActorModel) -> Seq<int> {
    let b = a.bounds->0;
    seq![
        a.mass.bits as int,
        a.local_com.x.bits as int,
        a.local_com.y.bits as int,
        a.inertia.bits as int,
        b.min.x as int,
        b.min.y as int,
        b.max.x as int,
        b.max.y as int,
    ]
}

/// The nodes of an actor, its mass, center and inertia and the cells it spans are part of the
/// digest.
pub proof fn lemma_actor_tells(f: FamilyModel, k: int, a: ActorModel)
    requires
        0 <= k < f.actors.len(),
        a.bounds is Some,
        f.actors[k].1.bounds is Some,
        ({
            let c = f.actors[k].1;
            ||| a.owned_nodes == c.owned_nodes && differ_once(actor_fields(c), actor_fields(a))
            ||| differ_once(c.owned_nodes, a.owned_nodes) && actor_fields(c) == actor_fields(a)
        }),
    ensures
        state_digest(FamilyModel { actors: f.actors.update(k, (f.actors[k].0, a)), ..f })
            != state_digest(f),
{
    let key = f.actors[k].0;
    let c = f.actors[k].1;
    let e = (key, a);
    let words = |n: SupportNodeId| seq![n.0];
    let s = flat_all(c.owned_nodes, words);
    let t = flat_all(a.owned_nodes, words);
    let head = seq![key];
    let x = seq![c.mass.bits, c.local_com.x.bits, c.local_com.y.bits, c.inertia.bits]
        + bounds_words(c.bounds);
    let y = seq![a.mass.bits, a.local_com.x.bits, a.local_com.y.bits, a.inertia.bits]
        + bounds_words(a.bounds);
    assert(actor_words(f.actors[k]) =~= head + s + x);
    assert(actor_words(e) =~= head + t + y);
    if a.owned_nodes == c.owned_nodes && differ_once(actor_fields(c), actor_fields(a)) {
        lemma_differ_as_words(actor_fields(c), actor_fields(a), x, y);
        lemma_differ_within(head + s, x, y, Seq::empty());
    } else {
        let p = actor_fields(c);
        let q = actor_fields(a);
        assert(p[0] == q[0] && p[1] == q[1] && p[2] == q[2] && p[3] == q[3]);
        assert(p[4] == q[4] && p[5] == q[5] && p[6] == q[6] && p[7] == q[7]);
        assert(x =~= y);
        let i = choose|i: int| differ_at(c.owned_nodes, a.owned_nodes, i);
        let n = a.owned_nodes[i];
        assert(c.owned_nodes.update(i, n) =~= a.owned_nodes);
        assert(differ_at(words(c.owned_nodes[i]), words(n), 0));
        lemma_item_tells(c.owned_nodes, n, words, i);
        lemma_differ_within(head, s, t, Seq::empty());
        lemma_differ_within(Seq::empty(), head + s, head + t, x);
    }
    lemma_item_tells(f.actors, e, |e: (u32, ActorModel)| actor_words(e), k);
    lemma_part_tells(f, FamilyModel { actors: f.actors.update(k, e), ..f }, 4);
}

/// The health and the damage of a node are part of the digest.
pub proof fn lemma_node_state_fields_tell(f: FamilyModel, k: int, s: NodeRuntimeState)
    requires
        0 <= k < f.node_states.len(),
        ({
            let r = f.node_states[k].1;
            (s.health == r.health) != (s.accumulated_damage == r.accumulated_damage)
        }),
    ensures
        state_digest(
            FamilyModel { node_states: f.node_states.update(k, (f.node_states[k].0, s)), ..f },
        ) != state_digest(f),
{
    let e = (f.node_states[k].0, s);
    let r = f.node_states[k].1;
    assert(differ_at(
        node_state_words(f.node_states[k]),
        node_state_words(e),
        if s.health == r.health {
            2
        } else {
            1
        },
    ));
    lemma_item_tells(f.node_states, e, |e: (u32, NodeRuntimeState)| node_state_words(e), k);
    lemma_part_tells(f, FamilyModel { node_states: f.node_states.update(k, e), ..f }, 6);
}

/// The health of a chunk and its damage are each part of the digest.
pub proof fn lemma_chunk_state_fields_tell(f: FamilyModel, k: int, s: ChunkRuntimeState)
    requires
        0 <= k < f.chunk_states.len(),
        ({
            let r = f.chunk_states[k].1;
            (s.health == r.health) != (s.accumulated_damage == r.accumulated_damage)
        }),
    ensures
        state_digest(
            FamilyModel { chunk_states: f.chunk_states.update(k, (f.chunk_states[k].0, s)), ..f },
        ) != state_digest(f),
{
    let e = (f.chunk_states[k].0, s);
    let r = f.chunk_states[k].1;
    assert(differ_at(
        chunk_state_words(f.chunk_states[k]),
        chunk_state_words(e),
        if s.health == r.health {
            2
        } else {
            1
        },
    ));
    lemma_chunk_state_tells(f, k, e);
}

/// What is left of a bond.
pub open spec fn wear_fields(s: BondRuntimeState) -> Seq<int> {
    seq![
        s.health.bits as int,
        s.effective_length.bits as int,
        s.accumulated_damage.bits as int,
    ]
}

/// The health of a bond, its effective length and its damage are each part of the digest.
pub proof fn lemma_bond_state_fields_tell(f: FamilyModel, k: int, s: BondRuntimeState)
    requires
        0 <= k < f.bond_states.len(),
        differ_once(wear_fields(f.bond_states[k]), wear_fields(s)),
    ensures
        state_digest(FamilyModel { bond_states: f.bond_states.update(k, s), ..f })
            != state_digest(f),
{
    let r = f.bond_states[k];
    lemma_differ_as_words(wear_fields(r), wear_fields(s), bond_state_words(r), bond_state_words(s));
    lemma_bond_state_tells(f, k, s);
}

/// What an anchor is described by.
pub open spec fn anchor_fields(b: ExternalBond2D) -> Seq<int> {
    seq![
        b.node.0 as int,
        match b.target.kind {
            ExternalTargetKind::World => 0int,
            ExternalTargetKind::Static => 1,
            ExternalTargetKind::Kinematic => 2,
        },
        b.target.token.0 as int,
        b.anchor.x.bits as int,
        b.anchor.y.bits as int,
        b.normal.x.bits as int,
        b.normal.y.bits as int,
        b.tangent.x.bits as int,
        b.tangent.y.bits as int,
        b.base_health.bits as int,
        b.tension_limit.bits as int,
        b.compression_limit.bits as int,
        b.shear_limit.bits as int,
    ] + wear_fields(b.runtime)
}

/// Whatever an anchor is described by is part of the digest.
pub proof fn lemma_anchor_fields_tell(f: FamilyModel, k: int, b: ExternalBond2D)
    requires
        0 <= k < f.external_bonds.len(),
        differ_once(anchor_fields(f.external_bonds[k].1), anchor_fields(b)),
    ensures
        state_digest(
            FamilyModel {
                external_bonds: f.external_bonds.update(k, (f.external_bonds[k].0, b)),
                ..f
            },
        ) != state_digest(f),
{
    let e = (f.external_bonds[k].0, b);
    let c = f.external_bonds[k].1;
    let head = seq![e.0];
    let x = anchor_words(f.external_bonds[k]).skip(1);
    let y = anchor_words(e).skip(1);
    lemma_differ_as_words(anchor_fields(c), anchor_fields(b), x, y);
    lemma_differ_within(head, x, y, Seq::empty());
    assert(anchor_words(f.external_bonds[k]) =~= head + x);
    assert(anchor_words(e) =~= head + y);
    lemma_anchor_tells(f, k, e);
}

/// What a connection is described by.
pub open spec fn connection_fields(b: DynamicStructuralBond2D) -> Seq<int> {
    seq![
        b.node_a.0 as int,
        b.node_b.0 as int,
        match b.policy {
            DynamicConnectionPolicy::GraphOnly => 0int,
            DynamicConnectionPolicy::CustomHardConstraint => 1,
        },
        b.centroid.x.bits as int,
        b.centroid.y.bits as int,
        b.normal.x.bits as int,
        b.normal.y.bits as int,
        b.tangent.x.bits as int,
        b.tangent.y.bits as int,
        b.base_health.bits as int,
        b.tension_limit.bits as int,
        b.compression_limit.bits as int,
        b.shear_limit.bits as int,
    ] + wear_fields(b.runtime)
}

/// Whatever a connection is described by is part of the digest.
pub proof fn lemma_connection_fields_tell(f: FamilyModel, k: int, b: DynamicStructuralBond2D)
    requires
        0 <= k < f.dynamic_structural_bonds.len(),
        differ_once(connection_fields(f.dynamic_structural_bonds[k].1), connection_fields(b)),
    ensures
        state_digest(
            FamilyModel {
                dynamic_structural_bonds: f.dynamic_structural_bonds.update(
                    k,
                    (f.dynamic_structural_bonds[k].0, b),
                ),
                ..f
            },
        ) != state_digest(f),
{
    let e = (f.dynamic_structural_bonds[k].0, b);
    let c = f.dynamic_structural_bonds[k].1;
    let head = seq![e.0];
    let x = connection_words(f.dynamic_structural_bonds[k]).skip(1);
    let y = connection_words(e).skip(1);
    lemma_differ_as_words(connection_fields(c), connection_fields(b), x, y);
    lemma_differ_within(head, x, y, Seq::empty());
    assert(connection_words(f.dynamic_structural_bonds[k]) =~= head + x);
    assert(connection_words(e) =~= head + y);
    lemma_connection_tells(f, k, e);
}

/// Which actors are to be looked at again is part of the digest.
pub proof fn lemma_marked_actors_tell(f: FamilyModel, dirty: Seq<u32>)
    requires
        differ_once(f.dirty_actors, dirty),
    ensures
        state_digest(FamilyModel { dirty_actors: dirty, ..f }) != state_digest(f),
{
    lemma_part_tells(f, FamilyModel { dirty_actors: dirty, ..f }, 11);
}

/// The digest is the hash of the numbers of the body from the usual start on.
pub proof fn lemma_digest_starts(f: FamilyModel)
    ensures
        state_digest(f) == fnv_words(0xcbf2_9ce4_8422_2325, state_words(f)),
{
}

} // verus!
