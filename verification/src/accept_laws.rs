//! Just which bonds, plans and bodies are accepted.

use crate::actor::ActorModel;
use crate::asset::{has_chunk, has_node, AssetModel, ChunkModel};
use crate::family::FamilyModel;
use crate::geometry::{norm, GridCoord, Vec2};
use crate::hierarchy::{
    chunk_list_error, chunk_nodes_error, cycle_error, hierarchy_error, listed, missing_parent,
    repeats_at, support_overlaps,
};
use crate::idmap::{has_key, lookup};
use crate::ids::{BondId, ChunkId, FxActorId, SupportNodeId};
use crate::number_laws::lemma_value_sign;
use crate::repair::{
    actors_of, bond_states_error, change_error, dirty_error, disconnected_error, first_missing,
    owned_nodes, owners_error, plan_dirty, plan_links, plan_owner, plan_states, repair_error,
    stale_anchor, stale_connection, states_error, PlanModel,
};
use crate::scalar::{absolute, at_most, below, difference, negated, Scalar};
use crate::snapshot_check::{
    actors_error, dynamic_error, external_error, owned_error, snapshot_error,
};
use crate::soundness::lemma_bonds_clear;
use crate::structure::{
    node_parts, BondRuntimeState, DynamicConnectionPolicy, DynamicStructuralBond2D, ExternalBond2D,
    LinkModel,
};
use crate::validation::{
    asset_error, bond_error, bonds_error, chunk_matches, coverage_error, covered_before,
    four_connected, node_ids, nodes_error, runtime_scalar, voxels_error,
};
use vstd::prelude::*;

verus! {

/// The quantity is a finite number that is not below zero.
pub open spec fn is_amount(a: Scalar) -> bool {
    a.finite() && a.value() >= 0
}

/// Both components are finite numbers.
pub open spec fn is_place(v: Vec2) -> bool {
    v.x.finite() && v.y.finite()
}

/// The numbers are no more than a ten-thousandth apart.
pub open spec fn hardly_apart(a: Scalar, b: Scalar) -> bool {
    !below(Scalar { bits: 0x38d1_b717 }, absolute(difference(a, b)))
}

/// Two axes of length one, the second one left of the first.
pub open spec fn are_axes(normal: Vec2, tangent: Vec2) -> bool {
    let one = Scalar { bits: 0x3f80_0000 };
    &&& hardly_apart(norm(normal), one)
    &&& hardly_apart(norm(tangent), one)
    &&& hardly_apart(tangent.x, negated(normal.y))
    &&& hardly_apart(tangent.y, normal.x)
}

/// What is left of a bond is given in amounts.
pub open spec fn is_state(s: BondRuntimeState) -> bool {
    is_amount(s.health) && is_amount(s.effective_length) && is_amount(s.accumulated_damage)
}

pub proof fn lemma_amount(a: Scalar)
    ensures
        is_amount(a) <==> runtime_scalar(a),
        a.finite() ==> (a.value() > 0 <==> !at_most(a, Scalar { bits: 0 })),
{
    if a.finite() {
        lemma_value_sign(a);
    }
}

/// A bond is fit when it has the number of its place, leads from a node of the asset to one with a
/// greater id, has amounts for its strengths, a length above zero, axes, and an edge.
pub open spec fn is_fit_bond(m: AssetModel, i: int) -> bool {
    let b = m.internal_bonds[i];
    &&& b.id.0 == i
    &&& b.node_a.0 < b.node_b.0
    &&& has_node(m.support_nodes, b.node_a)
    &&& has_node(m.support_nodes, b.node_b)
    &&& is_place(b.centroid)
    &&& is_amount(b.base_health)
    &&& is_amount(b.tension_limit)
    &&& is_amount(b.compression_limit)
    &&& is_amount(b.shear_limit)
    &&& b.length.finite()
    &&& b.length.value() > 0
    &&& is_place(b.normal)
    &&& is_place(b.tangent)
    &&& are_axes(b.normal, b.tangent)
    &&& b.interface_edges.len() > 0
}

proof fn lemma_fit_bond(m: AssetModel, i: int)
    requires
        0 <= i < m.internal_bonds.len() <= u32::MAX,
        forall|a: int| 0 <= a < i ==> (#[trigger] m.internal_bonds[a]).id.0 == a,
    ensures
        bond_error(m, i) is None <==> is_fit_bond(m, i),
{
    let b = m.internal_bonds[i];
    lemma_amount(b.base_health);
    lemma_amount(b.tension_limit);
    lemma_amount(b.compression_limit);
    lemma_amount(b.shear_limit);
    lemma_amount(b.length);
    if is_fit_bond(m, i) {
        assert(b.id == BondId(i as u32));
        assert forall|a: int| 0 <= a < i implies (#[trigger] m.internal_bonds[a]).id != b.id by {
            assert(m.internal_bonds[a].id.0 == a);
        }
    }
    if bond_error(m, i) is None {
        assert(b.id == BondId(i as u32));
        if b.node_a.0 == b.node_b.0 {
            assert(b.node_a == b.node_b);
        }
    }
}

/// The bonds of an asset are accepted just when all of them are fit.
pub proof fn lemma_bonds_accepted(m: AssetModel)
    requires
        m.internal_bonds.len() <= u32::MAX,
    ensures
        bonds_error(m, 0) is None <==> forall|i: int|
            0 <= i < m.internal_bonds.len() ==> #[trigger] is_fit_bond(m, i),
{
    if bonds_error(m, 0) is None {
        lemma_fit_upto(m, m.internal_bonds.len() as int);
    } else if forall|i: int| 0 <= i < m.internal_bonds.len() ==> #[trigger] is_fit_bond(m, i) {
        lemma_fit_from(m, 0);
    }
}

proof fn lemma_fit_upto(m: AssetModel, n: int)
    requires
        m.internal_bonds.len() <= u32::MAX,
        0 <= n <= m.internal_bonds.len(),
        bonds_error(m, 0) is None,
    ensures
        forall|i: int| 0 <= i < n ==> #[trigger] is_fit_bond(m, i),
    decreases n,
{
    if n > 0 {
        lemma_fit_upto(m, n - 1);
        lemma_bonds_clear(m, 0, n - 1);
        assert forall|a: int| 0 <= a < n - 1 implies (#[trigger] m.internal_bonds[a]).id.0 == a by {
            assert(is_fit_bond(m, a));
        }
        lemma_fit_bond(m, n - 1);
    }
}

proof fn lemma_fit_from(m: AssetModel, i: int)
    requires
        m.internal_bonds.len() <= u32::MAX,
        0 <= i <= m.internal_bonds.len(),
        forall|i: int| 0 <= i < m.internal_bonds.len() ==> #[trigger] is_fit_bond(m, i),
    ensures
        bonds_error(m, i) is None,
    decreases m.internal_bonds.len() - i,
{
    if i < m.internal_bonds.len() {
        lemma_fit_from(m, i + 1);
        assert(is_fit_bond(m, i));
        assert forall|a: int| 0 <= a < i implies (#[trigger] m.internal_bonds[a]).id.0 == a by {
            assert(is_fit_bond(m, a));
        }
        lemma_fit_bond(m, i);
    }
}

/// The owner that a plan gives to a node is fit: the node and the actor are there, and no earlier
/// entry is for the node.
pub open spec fn is_fit_owner(f: FamilyModel, p: PlanModel, i: int) -> bool {
    let (node, actor) = p.node_owners[i];
    &&& has_node(p.asset.support_nodes, node)
    &&& has_key(f.actors, actor.0)
    &&& forall|j: int| 0 <= j < i ==> (#[trigger] p.node_owners[j]).0 != node
}

proof fn lemma_fit_owners(f: FamilyModel, p: PlanModel, i: int)
    requires
        0 <= i <= p.node_owners.len(),
    ensures
        owners_error(f, p, i) is None <==> forall|k: int|
            i <= k < p.node_owners.len() ==> #[trigger] is_fit_owner(f, p, k),
    decreases p.node_owners.len() - i,
{
    if i < p.node_owners.len() {
        lemma_fit_owners(f, p, i + 1);
        if owners_error(f, p, i) is None {
            assert(is_fit_owner(f, p, i));
        }
        if forall|k: int| i <= k < p.node_owners.len() ==> #[trigger] is_fit_owner(f, p, k) {
            assert(is_fit_owner(f, p, i));
        }
    }
}

/// The state that a plan gives to a node is fit.
pub open spec fn is_fit_state(p: PlanModel, i: int) -> bool {
    let (node, state) = p.node_states[i];
    &&& has_node(p.asset.support_nodes, node)
    &&& is_amount(state.health)
    &&& is_amount(state.accumulated_damage)
    &&& forall|j: int| 0 <= j < i ==> (#[trigger] p.node_states[j]).0 != node
}

proof fn lemma_fit_states(p: PlanModel, i: int)
    requires
        0 <= i <= p.node_states.len(),
    ensures
        states_error(p, i) is None <==> forall|k: int|
            i <= k < p.node_states.len() ==> #[trigger] is_fit_state(p, k),
    decreases p.node_states.len() - i,
{
    if i < p.node_states.len() {
        lemma_fit_states(p, i + 1);
        lemma_amount(p.node_states[i].1.health);
        lemma_amount(p.node_states[i].1.accumulated_damage);
        if states_error(p, i) is None {
            assert(is_fit_state(p, i));
        }
        if forall|k: int| i <= k < p.node_states.len() ==> #[trigger] is_fit_state(p, k) {
            assert(is_fit_state(p, i));
        }
    }
}

proof fn lemma_none_missing<V>(m: AssetModel, table: Seq<(u32, V)>, i: int)
    requires
        0 <= i <= m.support_nodes.len(),
    ensures
        first_missing(m, table, i) is None <==> forall|k: int|
            i <= k < m.support_nodes.len() ==> has_key(table, (#[trigger] m.support_nodes[k]).id.0),
    decreases m.support_nodes.len() - i,
{
    if i < m.support_nodes.len() {
        lemma_none_missing(m, table, i + 1);
        if forall|k: int|
            i <= k < m.support_nodes.len() ==> has_key(table, (#[trigger] m.support_nodes[k]).id.0) {
            assert(has_key(table, m.support_nodes[i].id.0));
        }
    }
}

proof fn lemma_anchors_kept(f: FamilyModel, m: AssetModel, i: int)
    requires
        0 <= i <= f.external_bonds.len(),
    ensures
        stale_anchor(f, m, i) is None <==> forall|k: int|
            i <= k < f.external_bonds.len() ==> has_node(
                m.support_nodes,
                (#[trigger] f.external_bonds[k]).1.node,
            ),
    decreases f.external_bonds.len() - i,
{
    if i < f.external_bonds.len() {
        lemma_anchors_kept(f, m, i + 1);
        if forall|k: int|
            i <= k < f.external_bonds.len() ==> has_node(
                m.support_nodes,
                (#[trigger] f.external_bonds[k]).1.node,
            ) {
            assert(has_node(m.support_nodes, f.external_bonds[i].1.node));
        }
    }
}

proof fn lemma_connections_kept(f: FamilyModel, m: AssetModel, i: int)
    requires
        0 <= i <= f.dynamic_structural_bonds.len(),
    ensures
        stale_connection(f, m, i) is None <==> forall|k: int|
            i <= k < f.dynamic_structural_bonds.len() ==> has_node(
                m.support_nodes,
                (#[trigger] f.dynamic_structural_bonds[k]).1.node_a,
            ) && has_node(m.support_nodes, f.dynamic_structural_bonds[k].1.node_b),
    decreases f.dynamic_structural_bonds.len() - i,
{
    if i < f.dynamic_structural_bonds.len() {
        lemma_connections_kept(f, m, i + 1);
        if forall|k: int|
            i <= k < f.dynamic_structural_bonds.len() ==> has_node(
                m.support_nodes,
                (#[trigger] f.dynamic_structural_bonds[k]).1.node_a,
            ) && has_node(m.support_nodes, f.dynamic_structural_bonds[k].1.node_b) {
            assert(has_node(m.support_nodes, f.dynamic_structural_bonds[i].1.node_a));
        }
    }
}

proof fn lemma_bond_states_fit(states: Seq<BondRuntimeState>, i: int)
    requires
        0 <= i <= states.len(),
    ensures
        bond_states_error(states, i) is None <==> forall|k: int|
            i <= k < states.len() ==> is_state(#[trigger] states[k]),
    decreases states.len() - i,
{
    if i < states.len() {
        lemma_bond_states_fit(states, i + 1);
        lemma_amount(states[i].health);
        lemma_amount(states[i].effective_length);
        lemma_amount(states[i].accumulated_damage);
        if forall|k: int| i <= k < states.len() ==> is_state(#[trigger] states[k]) {
            assert(is_state(states[i]));
        }
    }
}

proof fn lemma_dirty_known(list: Seq<FxActorId>, actors: Seq<(u32, ActorModel)>, i: int)
    requires
        0 <= i <= list.len(),
    ensures
        dirty_error(list, actors, i) is None <==> forall|k: int|
            i <= k < list.len() ==> has_key(actors, (#[trigger] list[k]).0),
    decreases list.len() - i,
{
    if i < list.len() {
        lemma_dirty_known(list, actors, i + 1);
        if forall|k: int| i <= k < list.len() ==> has_key(actors, (#[trigger] list[k]).0) {
            assert(has_key(actors, list[i].0));
        }
    }
}

proof fn lemma_changes_marked(
    old_actors: Seq<(u32, ActorModel)>,
    owner: Seq<(u32, FxActorId)>,
    dirty: Seq<u32>,
    i: int,
)
    requires
        0 <= i <= old_actors.len(),
    ensures
        change_error(old_actors, owner, dirty, i) is None <==> forall|k: int|
            i <= k < old_actors.len() ==> (#[trigger] old_actors[k]).1.owned_nodes == owned_nodes(
                owner,
                FxActorId(old_actors[k].0),
            ) || dirty.contains(old_actors[k].0),
    decreases old_actors.len() - i,
{
    if i < old_actors.len() {
        lemma_changes_marked(old_actors, owner, dirty, i + 1);
        if forall|k: int|
            i <= k < old_actors.len() ==> (#[trigger] old_actors[k]).1.owned_nodes == owned_nodes(
                owner,
                FxActorId(old_actors[k].0),
            ) || dirty.contains(old_actors[k].0) {
            assert(old_actors[i].1.owned_nodes == owned_nodes(owner, FxActorId(old_actors[i].0))
                || dirty.contains(old_actors[i].0));
        }
    }
}

proof fn lemma_apart_marked(
    links: LinkModel,
    actors: Seq<(u32, ActorModel)>,
    dirty: Seq<u32>,
    i: int,
)
    requires
        0 <= i <= actors.len(),
    ensures
        disconnected_error(links, actors, dirty, i) is None <==> forall|k: int|
            i <= k < actors.len() ==> node_parts(links, (#[trigger] actors[k]).1.owned_nodes).len()
                <= 1 || dirty.contains(actors[k].0),
    decreases actors.len() - i,
{
    if i < actors.len() {
        lemma_apart_marked(links, actors, dirty, i + 1);
        if forall|k: int|
            i <= k < actors.len() ==> node_parts(links, (#[trigger] actors[k]).1.owned_nodes).len()
                <= 1 || dirty.contains(actors[k].0) {
            assert(node_parts(links, actors[i].1.owned_nodes).len() <= 1 || dirty.contains(
                actors[i].0,
            ));
        }
    }
}

/// A plan is fit when its asset is valid and its tables are complete and name each node once, with
/// owners among the actors of the body and states in amounts; when every anchor and connection
/// keeps its nodes; and when it marks only actors that own nodes, but all that get other nodes than
/// they had and all that do not hang together.
pub open spec fn is_fit_plan(f: FamilyModel, p: PlanModel) -> bool {
    let owner = plan_owner(p);
    let actors = actors_of(owner, p.asset);
    let dirty = plan_dirty(p);
    &&& asset_error(p.asset) is None
    &&& forall|i: int| 0 <= i < p.node_owners.len() ==> #[trigger] is_fit_owner(f, p, i)
    &&& forall|i: int|
        0 <= i < p.asset.support_nodes.len() ==> has_key(
            owner,
            (#[trigger] p.asset.support_nodes[i]).id.0,
        )
    &&& p.bond_states.len() == p.asset.internal_bonds.len()
    &&& forall|i: int| 0 <= i < p.node_states.len() ==> #[trigger] is_fit_state(p, i)
    &&& forall|i: int|
        0 <= i < p.asset.support_nodes.len() ==> has_key(
            plan_states(p),
            (#[trigger] p.asset.support_nodes[i]).id.0,
        )
    &&& forall|i: int|
        0 <= i < f.external_bonds.len() ==> has_node(
            p.asset.support_nodes,
            (#[trigger] f.external_bonds[i]).1.node,
        )
    &&& forall|i: int|
        0 <= i < f.dynamic_structural_bonds.len() ==> has_node(
            p.asset.support_nodes,
            (#[trigger] f.dynamic_structural_bonds[i]).1.node_a,
        ) && has_node(p.asset.support_nodes, f.dynamic_structural_bonds[i].1.node_b)
    &&& forall|i: int| 0 <= i < p.bond_states.len() ==> is_state(#[trigger] p.bond_states[i])
    &&& forall|i: int|
        0 <= i < p.dirty_actors.len() ==> has_key(actors, (#[trigger] p.dirty_actors[i]).0)
    &&& forall|i: int|
        0 <= i < f.actors.len() ==> (#[trigger] f.actors[i]).1.owned_nodes == owned_nodes(
            owner,
            FxActorId(f.actors[i].0),
        ) || dirty.contains(f.actors[i].0)
    &&& forall|i: int|
        0 <= i < actors.len() ==> node_parts(
            plan_links(f, p),
            (#[trigger] actors[i]).1.owned_nodes,
        ).len() <= 1 || dirty.contains(actors[i].0)
}

/// A plan is accepted just when it is fit.
#[verifier::rlimit(40)]
pub proof fn lemma_plans_accepted(f: FamilyModel, p: PlanModel)
    ensures
        repair_error(f, p) is None <==> is_fit_plan(f, p),
{
    let owner = plan_owner(p);
    let actors = actors_of(owner, p.asset);
    lemma_fit_owners(f, p, 0);
    lemma_fit_states(p, 0);
    lemma_none_missing(p.asset, owner, 0);
    lemma_none_missing(p.asset, plan_states(p), 0);
    lemma_anchors_kept(f, p.asset, 0);
    lemma_connections_kept(f, p.asset, 0);
    lemma_bond_states_fit(p.bond_states, 0);
    lemma_dirty_known(p.dirty_actors, actors, 0);
    lemma_changes_marked(f.actors, owner, plan_dirty(p), 0);
    lemma_apart_marked(plan_links(f, p), actors, plan_dirty(p), 0);
}

/// An anchor that can stand in a snapshot.
pub open spec fn is_fit_anchor(m: AssetModel, b: ExternalBond2D) -> bool {
    &&& has_node(m.support_nodes, b.node)
    &&& is_place(b.anchor)
    &&& is_place(b.normal)
    &&& is_place(b.tangent)
    &&& is_amount(b.base_health)
    &&& is_amount(b.tension_limit)
    &&& is_amount(b.compression_limit)
    &&& is_amount(b.shear_limit)
    &&& are_axes(b.normal, b.tangent)
    &&& is_state(b.runtime)
}

/// A connection that can stand in a snapshot.
pub open spec fn is_fit_connection(m: AssetModel, b: DynamicStructuralBond2D) -> bool {
    &&& b.policy == DynamicConnectionPolicy::GraphOnly
    &&& has_node(m.support_nodes, b.node_a)
    &&& has_node(m.support_nodes, b.node_b)
    &&& b.node_a.0 < b.node_b.0
    &&& is_place(b.centroid)
    &&& is_place(b.normal)
    &&& is_place(b.tangent)
    &&& is_amount(b.base_health)
    &&& is_amount(b.tension_limit)
    &&& is_amount(b.compression_limit)
    &&& is_amount(b.shear_limit)
    &&& are_axes(b.normal, b.tangent)
    &&& is_state(b.runtime)
}

/// An actor that can stand in a snapshot.
pub open spec fn is_fit_actor(f: FamilyModel, i: int) -> bool {
    let (k, a) = f.actors[i];
    &&& a.id.0 == k
    &&& a.owned_nodes.len() > 0
    &&& is_amount(a.mass)
    &&& is_place(a.local_com)
    &&& is_amount(a.inertia)
    &&& forall|j: int|
        0 <= j < a.owned_nodes.len() ==> has_node(
            f.asset.support_nodes,
            #[trigger] a.owned_nodes[j],
        ) && lookup(f.node_owner, a.owned_nodes[j].0) == Some(FxActorId(k))
}

proof fn lemma_anchors_fit(f: FamilyModel, i: int)
    requires
        0 <= i <= f.external_bonds.len(),
    ensures
        external_error(f, i) is None <==> forall|k: int|
            i <= k < f.external_bonds.len() ==> is_fit_anchor(
                f.asset,
                (#[trigger] f.external_bonds[k]).1,
            ),
    decreases f.external_bonds.len() - i,
{
    if i < f.external_bonds.len() {
        lemma_anchors_fit(f, i + 1);
        let b = f.external_bonds[i].1;
        lemma_amount(b.base_health);
        lemma_amount(b.tension_limit);
        lemma_amount(b.compression_limit);
        lemma_amount(b.shear_limit);
        lemma_amount(b.runtime.health);
        lemma_amount(b.runtime.effective_length);
        lemma_amount(b.runtime.accumulated_damage);
        if forall|k: int|
            i <= k < f.external_bonds.len() ==> is_fit_anchor(
                f.asset,
                (#[trigger] f.external_bonds[k]).1,
            ) {
            assert(is_fit_anchor(f.asset, f.external_bonds[i].1));
        }
    }
}

proof fn lemma_connections_fit(f: FamilyModel, i: int)
    requires
        0 <= i <= f.dynamic_structural_bonds.len(),
    ensures
        dynamic_error(f, i) is None <==> forall|k: int|
            i <= k < f.dynamic_structural_bonds.len() ==> is_fit_connection(
                f.asset,
                (#[trigger] f.dynamic_structural_bonds[k]).1,
            ),
    decreases f.dynamic_structural_bonds.len() - i,
{
    if i < f.dynamic_structural_bonds.len() {
        lemma_connections_fit(f, i + 1);
        let b = f.dynamic_structural_bonds[i].1;
        lemma_amount(b.base_health);
        lemma_amount(b.tension_limit);
        lemma_amount(b.compression_limit);
        lemma_amount(b.shear_limit);
        lemma_amount(b.runtime.health);
        lemma_amount(b.runtime.effective_length);
        lemma_amount(b.runtime.accumulated_damage);
        if forall|k: int|
            i <= k < f.dynamic_structural_bonds.len() ==> is_fit_connection(
                f.asset,
                (#[trigger] f.dynamic_structural_bonds[k]).1,
            ) {
            assert(is_fit_connection(f.asset, f.dynamic_structural_bonds[i].1));
        }
    }
}

proof fn lemma_owned_clear(f: FamilyModel, i: int, j: int, k: int)
    requires
        0 <= j <= k < f.actors[i].1.owned_nodes.len(),
        owned_error(f, i, j) is None,
    ensures
        has_node(f.asset.support_nodes, f.actors[i].1.owned_nodes[k]),
        lookup(f.node_owner, f.actors[i].1.owned_nodes[k].0) == Some(FxActorId(f.actors[i].0)),
    decreases k - j,
{
    if j < k {
        lemma_owned_clear(f, i, j + 1, k);
    }
}

proof fn lemma_actors_fit(f: FamilyModel, i: int, k: int)
    requires
        0 <= i <= k < f.actors.len(),
        actors_error(f, i) is None,
    ensures
        is_fit_actor(f, k),
    decreases k - i,
{
    if i < k {
        lemma_actors_fit(f, i + 1, k);
    } else {
        let a = f.actors[k].1;
        lemma_amount(a.mass);
        lemma_amount(a.inertia);
        assert forall|j: int| 0 <= j < a.owned_nodes.len() implies has_node(
            f.asset.support_nodes,
            #[trigger] a.owned_nodes[j],
        ) && lookup(f.node_owner, a.owned_nodes[j].0) == Some(FxActorId(f.actors[k].0)) by {
            lemma_owned_clear(f, k, 0, j);
        }
    }
}

/// A body that can be saved has fit actors, anchors and connections and states in amounts, with ids
/// of actors below the next one, and marks only actors that it has.
#[verifier::rlimit(40)]
pub proof fn lemma_saved_body_is_fit(f: FamilyModel, i: int)
    requires
        snapshot_error(f) is None,
    ensures
        asset_error(f.asset) is None,
        0 <= i < f.actors.len() ==> is_fit_actor(f, i) && f.actors[i].0 < f.next_actor_id,
        0 <= i < f.external_bonds.len() ==> is_fit_anchor(f.asset, f.external_bonds[i].1),
        0 <= i < f.dynamic_structural_bonds.len() ==> is_fit_connection(
            f.asset,
            f.dynamic_structural_bonds[i].1,
        ),
        0 <= i < f.bond_states.len() ==> is_state(f.bond_states[i]),
        0 <= i < f.node_states.len() ==> is_amount(f.node_states[i].1.health) && is_amount(
            f.node_states[i].1.accumulated_damage,
        ),
        0 <= i < f.chunk_states.len() ==> is_amount(f.chunk_states[i].1.health) && is_amount(
            f.chunk_states[i].1.accumulated_damage,
        ),
        0 <= i < f.dirty_actors.len() ==> has_key(f.actors, f.dirty_actors[i]),
        f.bond_states.len() == f.asset.internal_bonds.len(),
{
    reveal(snapshot_error);
    lemma_anchors_fit(f, 0);
    lemma_connections_fit(f, 0);
    if 0 <= i < f.actors.len() {
        lemma_actors_fit(f, 0, i);
        assert(has_key(f.actors, f.actors[i].0));
    }
    if 0 <= i < f.bond_states.len() {
        lemma_amount(f.bond_states[i].health);
        lemma_amount(f.bond_states[i].effective_length);
        lemma_amount(f.bond_states[i].accumulated_damage);
    }
    if 0 <= i < f.node_states.len() {
        lemma_amount(f.node_states[i].1.health);
        lemma_amount(f.node_states[i].1.accumulated_damage);
    }
    if 0 <= i < f.chunk_states.len() {
        lemma_amount(f.chunk_states[i].1.health);
        lemma_amount(f.chunk_states[i].1.accumulated_damage);
    }
}

/// A node is fit when no earlier one has its id, it has cells that hang together, and each of them
/// is occupied and belongs to no earlier node.
pub open spec fn is_fit_node(m: AssetModel, i: int) -> bool {
    let node = m.support_nodes[i];
    &&& forall|j: int| 0 <= j < i ==> (#[trigger] m.support_nodes[j]).id != node.id
    &&& node.voxels.len() > 0
    &&& four_connected(node.voxels)
    &&& forall|c: GridCoord| #[trigger] node.voxels.contains(c) ==> m.occupancy.occupied(c)
    &&& forall|c: GridCoord, j: int|
        0 <= j < i && #[trigger] node.voxels.contains(c) ==> !(
        #[trigger] m.support_nodes[j]).voxels.contains(c)
}

proof fn lemma_fit_voxels(m: AssetModel, i: int, j: int)
    requires
        0 <= i < m.support_nodes.len(),
        0 <= j <= m.support_nodes[i].voxels.len(),
    ensures
        voxels_error(m, i, j) is None <==> forall|k: int|
            j <= k < m.support_nodes[i].voxels.len() ==> m.occupancy.occupied(
                #[trigger] m.support_nodes[i].voxels[k],
            ) && !covered_before(m.support_nodes, i, m.support_nodes[i].voxels[k]),
    decreases m.support_nodes[i].voxels.len() - j,
{
    let voxels = m.support_nodes[i].voxels;
    if j < voxels.len() {
        lemma_fit_voxels(m, i, j + 1);
        if forall|k: int|
            j <= k < voxels.len() ==> m.occupancy.occupied(#[trigger] voxels[k]) && !covered_before(
                m.support_nodes,
                i,
                voxels[k],
            ) {
            assert(m.occupancy.occupied(voxels[j]));
        }
    }
}

proof fn lemma_fit_node(m: AssetModel, i: int)
    requires
        0 <= i < m.support_nodes.len(),
    ensures
        is_fit_node(m, i) <==> !has_node(m.support_nodes.take(i), m.support_nodes[i].id)
            && m.support_nodes[i].voxels.len() > 0 && four_connected(m.support_nodes[i].voxels)
            && voxels_error(m, i, 0) is None,
{
    let nodes = m.support_nodes;
    let node = nodes[i];
    let early = nodes.take(i);
    lemma_fit_voxels(m, i, 0);
    if has_node(early, node.id) {
        let j = choose|j: int| 0 <= j < early.len() && (#[trigger] early[j]).id == node.id;
        assert(nodes[j].id == node.id);
    }
    if !(forall|j: int| 0 <= j < i ==> (#[trigger] nodes[j]).id != node.id) {
        let j = choose|j: int| 0 <= j < i && !((#[trigger] nodes[j]).id != node.id);
        assert(early[j].id == node.id);
    }
    if is_fit_node(m, i) {
        assert forall|k: int| 0 <= k < node.voxels.len() implies m.occupancy.occupied(
            #[trigger] node.voxels[k],
        ) && !covered_before(nodes, i, node.voxels[k]) by {
            assert(node.voxels.contains(node.voxels[k]));
        }
    }
    if voxels_error(m, i, 0) is None {
        assert forall|c: GridCoord| #[trigger] node.voxels.contains(c) implies m.occupancy.occupied(
            c,
        ) && !covered_before(nodes, i, c) by {
            let k = choose|k: int| 0 <= k < node.voxels.len() && node.voxels[k] == c;
            assert(m.occupancy.occupied(node.voxels[k]));
        }
    }
}

proof fn lemma_fit_nodes(m: AssetModel, i: int)
    requires
        0 <= i <= m.support_nodes.len(),
    ensures
        nodes_error(m, i) is None <==> forall|k: int|
            i <= k < m.support_nodes.len() ==> #[trigger] is_fit_node(m, k),
    decreases m.support_nodes.len() - i,
{
    if i < m.support_nodes.len() {
        lemma_fit_nodes(m, i + 1);
        lemma_fit_node(m, i);
        if forall|k: int| i <= k < m.support_nodes.len() ==> #[trigger] is_fit_node(m, k) {
            assert(is_fit_node(m, i));
        }
    }
}

proof fn lemma_all_covered(m: AssetModel, p: int)
    requires
        0 <= p <= m.occupancy.cells.len(),
    ensures
        coverage_error(m, p) is None <==> forall|q: int|
            p <= q < m.occupancy.cells.len() && #[trigger] m.occupancy.cells[q] ==> covered_before(
                m.support_nodes,
                m.support_nodes.len() as int,
                m.occupancy.coord_at(q),
            ),
    decreases m.occupancy.cells.len() - p,
{
    if p < m.occupancy.cells.len() {
        lemma_all_covered(m, p + 1);
        if forall|q: int|
            p <= q < m.occupancy.cells.len() && #[trigger] m.occupancy.cells[q] ==> covered_before(
                m.support_nodes,
                m.support_nodes.len() as int,
                m.occupancy.coord_at(q),
            ) {
            assert(m.occupancy.cells[p] ==> covered_before(
                m.support_nodes,
                m.support_nodes.len() as int,
                m.occupancy.coord_at(p),
            ));
        }
    }
}

/// A chunk is fit when no earlier one has its id, and it lists known nodes, each of them once.
pub open spec fn is_fit_chunk(chunks: Seq<ChunkModel>, ids: Seq<u32>, i: int) -> bool {
    let nodes = chunks[i].support_nodes;
    &&& forall|j: int| 0 <= j < i ==> (#[trigger] chunks[j]).id != chunks[i].id
    &&& forall|k: int| 0 <= k < nodes.len() ==> ids.contains((#[trigger] nodes[k]).0)
    &&& forall|j: int, k: int|
        0 <= j < k < nodes.len() ==> #[trigger] nodes[j] != #[trigger] nodes[k]
}

proof fn lemma_fit_list(nodes: Seq<SupportNodeId>, ids: Seq<u32>, j: int)
    requires
        0 <= j <= nodes.len(),
    ensures
        chunk_nodes_error(nodes, ids, j) is None <==> forall|k: int|
            j <= k < nodes.len() ==> ids.contains((#[trigger] nodes[k]).0) && !nodes.take(
                k,
            ).contains(nodes[k]),
    decreases nodes.len() - j,
{
    if j < nodes.len() {
        lemma_fit_list(nodes, ids, j + 1);
        if forall|k: int|
            j <= k < nodes.len() ==> ids.contains((#[trigger] nodes[k]).0) && !nodes.take(
                k,
            ).contains(nodes[k]) {
            assert(ids.contains(nodes[j].0));
        }
    }
}

proof fn lemma_fit_chunk(chunks: Seq<ChunkModel>, ids: Seq<u32>, i: int)
    requires
        0 <= i < chunks.len(),
    ensures
        is_fit_chunk(chunks, ids, i) <==> !has_chunk(chunks.take(i), chunks[i].id)
            && chunk_nodes_error(chunks[i].support_nodes, ids, 0) is None,
{
    let nodes = chunks[i].support_nodes;
    let early = chunks.take(i);
    lemma_fit_list(nodes, ids, 0);
    if has_chunk(early, chunks[i].id) {
        let j = choose|j: int| 0 <= j < early.len() && (#[trigger] early[j]).id == chunks[i].id;
        assert(chunks[j].id == chunks[i].id);
    }
    if !(forall|j: int| 0 <= j < i ==> (#[trigger] chunks[j]).id != chunks[i].id) {
        let j = choose|j: int| 0 <= j < i && !((#[trigger] chunks[j]).id != chunks[i].id);
        assert(early[j].id == chunks[i].id);
    }
    if is_fit_chunk(chunks, ids, i) {
        assert forall|k: int| 0 <= k < nodes.len() implies ids.contains((#[trigger] nodes[k]).0)
            && !nodes.take(k).contains(nodes[k]) by {
            if nodes.take(k).contains(nodes[k]) {
                let j = choose|j: int| 0 <= j < k && nodes.take(k)[j] == nodes[k];
                assert(nodes[j] == nodes[k]);
            }
        }
    }
    if chunk_nodes_error(nodes, ids, 0) is None {
        assert forall|j: int, k: int| 0 <= j < k < nodes.len() implies #[trigger] nodes[j]
            != #[trigger] nodes[k] by {
            assert(nodes.take(k)[j] == nodes[j]);
            assert(!nodes.take(k).contains(nodes[k]));
        }
    }
}

proof fn lemma_fit_chunks(chunks: Seq<ChunkModel>, ids: Seq<u32>, i: int)
    requires
        0 <= i <= chunks.len(),
    ensures
        chunk_list_error(chunks, ids, i) is None <==> forall|k: int|
            i <= k < chunks.len() ==> #[trigger] is_fit_chunk(chunks, ids, k),
    decreases chunks.len() - i,
{
    if i < chunks.len() {
        lemma_fit_chunks(chunks, ids, i + 1);
        lemma_fit_chunk(chunks, ids, i);
        if forall|k: int| i <= k < chunks.len() ==> #[trigger] is_fit_chunk(chunks, ids, k) {
            assert(is_fit_chunk(chunks, ids, i));
        }
    }
}

proof fn lemma_no_cycles(chunks: Seq<ChunkModel>, i: int)
    requires
        0 <= i <= chunks.len(),
    ensures
        cycle_error(chunks, i) is None <==> forall|j: int, k: nat|
            i <= j < chunks.len() ==> !#[trigger] repeats_at(chunks, chunks[j].id, k),
    decreases chunks.len() - i,
{
    if i < chunks.len() {
        lemma_no_cycles(chunks, i + 1);
        if forall|j: int, k: nat|
            i <= j < chunks.len() ==> !#[trigger] repeats_at(chunks, chunks[j].id, k) {
            assert forall|k: nat| !repeats_at(chunks, chunks[i].id, k) by {}
        }
    }
}

/// Chunks form a fit hierarchy over nodes when each of them is fit, all parents are there, no chunk
/// is above itself, no chunk with nodes is above another one with nodes, and each node is in just
/// one chunk.
pub open spec fn is_fit_hierarchy(chunks: Seq<ChunkModel>, ids: Seq<u32>) -> bool {
    &&& forall|i: int| 0 <= i < chunks.len() ==> #[trigger] is_fit_chunk(chunks, ids, i)
    &&& forall|i: int|
        0 <= i < chunks.len() ==> match (#[trigger] chunks[i]).parent {
            Some(parent) => has_chunk(chunks, parent),
            None => true,
        }
    &&& forall|i: int, k: nat|
        0 <= i < chunks.len() ==> !#[trigger] repeats_at(chunks, chunks[i].id, k)
    &&& !support_overlaps(chunks)
    &&& forall|i: int, j: int, node: SupportNodeId|
        #[trigger] listed(chunks, i, node) && #[trigger] listed(chunks, j, node) ==> i == j
    &&& forall|id: u32| #[trigger] ids.contains(id) ==> exists|i: int|
        listed(chunks, i, SupportNodeId(id))
}

/// A hierarchy is accepted just when it is fit.
pub proof fn lemma_hierarchies_accepted(chunks: Seq<ChunkModel>, ids: Seq<u32>)
    ensures
        hierarchy_error(chunks, ids) is None <==> is_fit_hierarchy(chunks, ids),
{
    lemma_fit_chunks(chunks, ids, 0);
    lemma_no_cycles(chunks, 0);
    let known = forall|i: int|
        0 <= i < chunks.len() ==> match (#[trigger] chunks[i]).parent {
            Some(parent) => has_chunk(chunks, parent),
            None => true,
        };
    let missing = exists|id: ChunkId| missing_parent(chunks, id);
    assert(known <==> !missing) by {
        if missing {
            let id = choose|id: ChunkId| missing_parent(chunks, id);
            let i = choose|i: int| 0 <= i < chunks.len() && (#[trigger] chunks[i]).parent == Some(id);
            assert(chunks[i].parent == Some(id));
        } else {
            assert forall|i: int| 0 <= i < chunks.len() implies match (#[trigger] chunks[i]).parent {
                Some(parent) => has_chunk(chunks, parent),
                None => true,
            } by {
                if let Some(parent) = chunks[i].parent {
                    assert(!missing_parent(chunks, parent));
                }
            }
        }
    }
}

/// An asset is fit when its nodes are and cover every occupied cell, its chunks form a fit
/// hierarchy in which every node is in the chunk that it names, and its bonds are fit.
pub open spec fn is_fit_asset(m: AssetModel) -> bool {
    &&& forall|i: int| 0 <= i < m.support_nodes.len() ==> #[trigger] is_fit_node(m, i)
    &&& forall|q: int|
        0 <= q < m.occupancy.cells.len() && #[trigger] m.occupancy.cells[q] ==> exists|a: int|
            0 <= a < m.support_nodes.len() && (#[trigger] m.support_nodes[a]).voxels.contains(
                m.occupancy.coord_at(q),
            )
    &&& is_fit_hierarchy(m.chunks, node_ids(m.support_nodes))
    &&& forall|i: int|
        0 <= i < m.support_nodes.len() ==> exists|c: int| #[trigger]
            listed(m.chunks, c, (#[trigger] m.support_nodes[i]).id) && m.chunks[c].id
                == m.support_nodes[i].chunk_id
    &&& forall|i: int| 0 <= i < m.internal_bonds.len() ==> #[trigger] is_fit_bond(m, i)
}

/// An asset is accepted just when it is fit.
#[verifier::rlimit(40)]
pub proof fn lemma_assets_accepted(m: AssetModel)
    requires
        m.internal_bonds.len() <= u32::MAX,
    ensures
        asset_error(m) is None <==> is_fit_asset(m),
{
    lemma_fit_nodes(m, 0);
    lemma_all_covered(m, 0);
    lemma_hierarchies_accepted(m.chunks, node_ids(m.support_nodes));
    lemma_bonds_accepted(m);
    lemma_named_chunks(m);
}

proof fn lemma_named_chunks(m: AssetModel)
    ensures
        (exists|i: int|
            0 <= i < m.support_nodes.len() && !chunk_matches(m, #[trigger] m.support_nodes[i]))
            <==> !(forall|i: int|
            0 <= i < m.support_nodes.len() ==> exists|c: int| #[trigger]
                listed(m.chunks, c, (#[trigger] m.support_nodes[i]).id) && m.chunks[c].id
                    == m.support_nodes[i].chunk_id),
{
}

} // verus!
