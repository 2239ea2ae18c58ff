//! Replacing the asset of a body by a repaired one.

use crate::actor::{actor_of, build_actor, ActorModel, FxActor};
use crate::asset::{
    chunk_index, has_chunk, has_node, node_index, nodes_ascending, AssetModel, FxAsset,
};
use crate::errors::RepairError;
use crate::family::{
    actor_entries, actor_fits, actor_view, initial_chunk_state, lemma_ordered_actors,
    ChunkRuntimeState, FamilyModel, FxFamily, NodeRuntimeState,
};
use crate::hierarchy::node_order;
use crate::idmap::{
    ascending, ascending_ids, has_key, keys_of, lemma_lookup_at, lemma_lookup_found, lemma_mapped,
    lemma_put, lemma_with_id, lookup, put, rank, with_id, IdMap, IdSet,
};
use crate::ids::{BondId, ChunkId, FxActorId, SupportNodeId};
use crate::order::{in_order, key_le, lemma_sorted_idle};
use crate::scalar::{Scalar, ONE_BITS};
use crate::soundness::{lemma_valid_sound, stored};
use crate::structure::{
    connected_parts, node_list_ascending, node_lists, node_parts, sorted_nodes, BondRuntimeState,
    LinkModel, Links,
};
use crate::validation::{asset_error, runtime_scalar, valid_runtime_scalar};
use vstd::prelude::*;

verus! {

/// A new asset for a body, with the owner and the state of every node.
#[derive(Debug, PartialEq)]
pub struct RepairPlan {
    pub asset: FxAsset,
    pub node_owners: Vec<(SupportNodeId, FxActorId)>,
    pub node_states: Vec<(SupportNodeId, NodeRuntimeState)>,
    pub bond_states: Vec<BondRuntimeState>,
    pub dirty_actors: Vec<FxActorId>,
}

pub ghost struct PlanModel {
    pub asset: AssetModel,
    pub node_owners: Seq<(SupportNodeId, FxActorId)>,
    pub node_states: Seq<(SupportNodeId, NodeRuntimeState)>,
    pub bond_states: Seq<BondRuntimeState>,
    pub dirty_actors: Seq<FxActorId>,
}

impl View for RepairPlan {
    type V = PlanModel;

    open spec fn view(&self) -> PlanModel {
        PlanModel {
            asset: self.asset@,
            node_owners: self.node_owners@,
            node_states: self.node_states@,
            bond_states: self.bond_states@,
            dirty_actors: self.dirty_actors@,
        }
    }
}

#[derive(Debug, PartialEq)]
pub struct RepairCommitSummary {
    pub dirty_actors: Vec<FxActorId>,
    pub actor_order: Vec<FxActorId>,
}

/// The first `n` entries of a list filed by their nodes.
pub open spec fn filed<V>(list: Seq<(SupportNodeId, V)>, n: int) -> Seq<(u32, V)>
    decreases n,
{
    if n <= 0 {
        Seq::empty()
    } else {
        put(filed(list, n - 1), list[n - 1].0.0, list[n - 1].1)
    }
}

/// One of the first `n` entries is for the node.
pub open spec fn listed_before<V>(list: Seq<(SupportNodeId, V)>, node: SupportNodeId, n: int) -> bool {
    exists|j: int| 0 <= j < n && (#[trigger] list[j]).0 == node
}

pub proof fn lemma_filed<V>(list: Seq<(SupportNodeId, V)>, n: int)
    requires
        0 <= n <= list.len(),
    ensures
        ascending(filed(list, n)),
        forall|k: u32| #[trigger]
            has_key(filed(list, n), k) <==> listed_before(list, SupportNodeId(k), n),
        forall|k: u32|
            (#[trigger] lookup(filed(list, n), k)) is Some ==> list.contains(
                (SupportNodeId(k), lookup(filed(list, n), k)->0),
            ),
    decreases n,
{
    if n > 0 {
        lemma_filed(list, n - 1);
        let before = filed(list, n - 1);
        let (node, v) = list[n - 1];
        lemma_put(before, node.0, v);
        assert forall|k: u32| #[trigger] has_key(filed(list, n), k) <==> listed_before(
            list,
            SupportNodeId(k),
            n,
        ) by {
            assert(has_key(before, k) <==> listed_before(list, SupportNodeId(k), n - 1));
            if listed_before(list, SupportNodeId(k), n - 1) {
                let j = choose|j: int| 0 <= j < n - 1 && (#[trigger] list[j]).0 == SupportNodeId(k);
                assert(list[j].0 == SupportNodeId(k));
            }
            if node.0 == k {
                assert(list[n - 1].0 == SupportNodeId(k));
            }
        }
        assert forall|k: u32| (#[trigger] lookup(filed(list, n), k)) is Some implies list.contains(
            (SupportNodeId(k), lookup(filed(list, n), k)->0),
        ) by {
            if k == node.0 {
                assert(list[n - 1] == (SupportNodeId(k), v));
            } else {
                assert(lookup(filed(list, n), k) == lookup(before, k));
            }
        }
    }
}

/// What is wrong with the owners in a plan, from the entry at `i` on.
pub open spec fn owners_error(f: FamilyModel, p: PlanModel, i: int) -> Option<RepairError>
    decreases p.node_owners.len() - i,
{
    if i < 0 || i >= p.node_owners.len() {
        None
    } else {
        let (node, actor) = p.node_owners[i];
        if !has_node(p.asset.support_nodes, node) {
            Some(RepairError::UnknownNode(node))
        } else if !has_key(f.actors, actor.0) {
            Some(RepairError::MissingNodeOwnerActor { node, actor })
        } else if listed_before(p.node_owners, node, i) {
            Some(RepairError::DuplicateNodeOwner(node))
        } else {
            owners_error(f, p, i + 1)
        }
    }
}

/// The first node, counted from `i`, that a table has no entry for.
pub open spec fn first_missing<V>(m: AssetModel, table: Seq<(u32, V)>, i: int) -> Option<SupportNodeId>
    decreases m.support_nodes.len() - i,
{
    if i < 0 || i >= m.support_nodes.len() {
        None
    } else if !has_key(table, m.support_nodes[i].id.0) {
        Some(m.support_nodes[i].id)
    } else {
        first_missing(m, table, i + 1)
    }
}

/// What is wrong with the node states in a plan, from the entry at `i` on.
pub open spec fn states_error(p: PlanModel, i: int) -> Option<RepairError>
    decreases p.node_states.len() - i,
{
    if i < 0 || i >= p.node_states.len() {
        None
    } else {
        let (node, state) = p.node_states[i];
        if !has_node(p.asset.support_nodes, node) {
            Some(RepairError::UnknownNode(node))
        } else if !runtime_scalar(state.health) || !runtime_scalar(state.accumulated_damage) {
            Some(RepairError::InvalidNodeState(node))
        } else if listed_before(p.node_states, node, i) {
            Some(RepairError::DuplicateNodeState(node))
        } else {
            states_error(p, i + 1)
        }
    }
}

/// The first anchor, counted from `i`, whose node the new asset lacks.
pub open spec fn stale_anchor(f: FamilyModel, m: AssetModel, i: int) -> Option<RepairError>
    decreases f.external_bonds.len() - i,
{
    if i < 0 || i >= f.external_bonds.len() {
        None
    } else {
        let b = f.external_bonds[i].1;
        if !has_node(m.support_nodes, b.node) {
            Some(RepairError::StaleExternalBondEndpoint { bond: b.id, node: b.node })
        } else {
            stale_anchor(f, m, i + 1)
        }
    }
}

/// The first connection, counted from `i`, one of whose nodes the new asset lacks.
pub open spec fn stale_connection(f: FamilyModel, m: AssetModel, i: int) -> Option<RepairError>
    decreases f.dynamic_structural_bonds.len() - i,
{
    if i < 0 || i >= f.dynamic_structural_bonds.len() {
        None
    } else {
        let b = f.dynamic_structural_bonds[i].1;
        if !has_node(m.support_nodes, b.node_a) {
            Some(RepairError::StaleDynamicConnectionEndpoint { connection: b.id, node: b.node_a })
        } else if !has_node(m.support_nodes, b.node_b) {
            Some(RepairError::StaleDynamicConnectionEndpoint { connection: b.id, node: b.node_b })
        } else {
            stale_connection(f, m, i + 1)
        }
    }
}

pub open spec fn bond_state_ok(s: BondRuntimeState) -> bool {
    runtime_scalar(s.health) && runtime_scalar(s.effective_length) && runtime_scalar(
        s.accumulated_damage,
    )
}

/// The first bond state, counted from `i`, that is not valid.
pub open spec fn bond_states_error(states: Seq<BondRuntimeState>, i: int) -> Option<RepairError>
    decreases states.len() - i,
{
    if i < 0 || i >= states.len() {
        None
    } else if !bond_state_ok(states[i]) {
        Some(RepairError::InvalidBondState(BondId(i as u32)))
    } else {
        bond_states_error(states, i + 1)
    }
}

/// The nodes that an actor owns, among the first `n` entries.
pub open spec fn owned_in(owner: Seq<(u32, FxActorId)>, actor: FxActorId, n: int) -> Seq<SupportNodeId>
    decreases n,
{
    if n <= 0 {
        Seq::empty()
    } else if owner[n - 1].1 == actor {
        owned_in(owner, actor, n - 1).push(SupportNodeId(owner[n - 1].0))
    } else {
        owned_in(owner, actor, n - 1)
    }
}

pub open spec fn owned_nodes(owner: Seq<(u32, FxActorId)>, actor: FxActorId) -> Seq<SupportNodeId> {
    owned_in(owner, actor, owner.len() as int)
}

/// The owners among the first `n` entries, in ascending order.
pub open spec fn owner_ids(owner: Seq<(u32, FxActorId)>, n: int) -> Seq<u32>
    decreases n,
{
    if n <= 0 {
        Seq::empty()
    } else {
        with_id(owner_ids(owner, n - 1), owner[n - 1].1.0)
    }
}

/// The actors that the owners of nodes make up.
pub open spec fn actors_of(owner: Seq<(u32, FxActorId)>, m: AssetModel) -> Seq<(u32, ActorModel)> {
    let ids = owner_ids(owner, owner.len() as int);
    Seq::new(
        ids.len(),
        |i: int| (ids[i], actor_of(FxActorId(ids[i]), owned_nodes(owner, FxActorId(ids[i])), m)),
    )
}

/// The first `n` of some actors as a set.
pub open spec fn marked(list: Seq<FxActorId>, n: int) -> Seq<u32>
    decreases n,
{
    if n <= 0 {
        Seq::empty()
    } else {
        with_id(marked(list, n - 1), list[n - 1].0)
    }
}

/// The first actor to be marked, counted from `i`, that owns no node.
pub open spec fn dirty_error(
    list: Seq<FxActorId>,
    actors: Seq<(u32, ActorModel)>,
    i: int,
) -> Option<RepairError>
    decreases list.len() - i,
{
    if i < 0 || i >= list.len() {
        None
    } else if !has_key(actors, list[i].0) {
        Some(RepairError::UnknownDirtyActor(list[i]))
    } else {
        dirty_error(list, actors, i + 1)
    }
}

/// The first actor, counted from `i`, whose nodes change without its being marked.
pub open spec fn change_error(
    old_actors: Seq<(u32, ActorModel)>,
    owner: Seq<(u32, FxActorId)>,
    dirty: Seq<u32>,
    i: int,
) -> Option<RepairError>
    decreases old_actors.len() - i,
{
    if i < 0 || i >= old_actors.len() {
        None
    } else {
        let (k, a) = old_actors[i];
        if a.owned_nodes != owned_nodes(owner, FxActorId(k)) && !dirty.contains(k) {
            Some(RepairError::ActorChangedNotDirty(FxActorId(k)))
        } else {
            change_error(old_actors, owner, dirty, i + 1)
        }
    }
}

/// The first actor, counted from `i`, that does not hang together and is not marked.
pub open spec fn disconnected_error(
    links: LinkModel,
    actors: Seq<(u32, ActorModel)>,
    dirty: Seq<u32>,
    i: int,
) -> Option<RepairError>
    decreases actors.len() - i,
{
    if i < 0 || i >= actors.len() {
        None
    } else {
        let (k, a) = actors[i];
        if node_parts(links, a.owned_nodes).len() > 1 && !dirty.contains(k) {
            Some(RepairError::DisconnectedActorNotDirty(FxActorId(k)))
        } else {
            disconnected_error(links, actors, dirty, i + 1)
        }
    }
}

/// The owners of nodes that a plan gives.
pub open spec fn plan_owner(p: PlanModel) -> Seq<(u32, FxActorId)> {
    filed(p.node_owners, p.node_owners.len() as int)
}

pub open spec fn plan_states(p: PlanModel) -> Seq<(u32, NodeRuntimeState)> {
    filed(p.node_states, p.node_states.len() as int)
}

pub open spec fn plan_dirty(p: PlanModel) -> Seq<u32> {
    marked(p.dirty_actors, p.dirty_actors.len() as int)
}

pub open spec fn plan_links(f: FamilyModel, p: PlanModel) -> LinkModel {
    LinkModel {
        bonds: p.asset.internal_bonds,
        states: p.bond_states,
        external: f.external_bonds,
        dynamic: f.dynamic_structural_bonds,
    }
}

/// The first of several checks that fails.
pub open spec fn first_of(a: Option<RepairError>, b: Option<RepairError>) -> Option<RepairError> {
    match a {
        Some(e) => Some(e),
        None => b,
    }
}

/// What is wrong with the tables of a plan, given that its asset is valid.
pub open spec fn tables_error(f: FamilyModel, p: PlanModel) -> Option<RepairError> {
    first_of(
        owners_error(f, p, 0),
        match first_missing(p.asset, plan_owner(p), 0) {
            Some(node) => Some(RepairError::MissingNodeOwner(node)),
            None => if p.bond_states.len() != p.asset.internal_bonds.len() {
                Some(
                    RepairError::BondStateCountMismatch {
                        expected: p.asset.internal_bonds.len() as usize,
                        actual: p.bond_states.len() as usize,
                    },
                )
            } else {
                first_of(
                    states_error(p, 0),
                    match first_missing(p.asset, plan_states(p), 0) {
                        Some(node) => Some(RepairError::MissingNodeState(node)),
                        None => None,
                    },
                )
            },
        },
    )
}

/// What is wrong with a plan for a body: the first failing check.
pub open spec fn repair_error(f: FamilyModel, p: PlanModel) -> Option<RepairError> {
    let actors = actors_of(plan_owner(p), p.asset);
    match asset_error(p.asset) {
        Some(e) => Some(RepairError::Validation(e)),
        None => first_of(
            tables_error(f, p),
            first_of(
                stale_anchor(f, p.asset, 0),
                first_of(
                    stale_connection(f, p.asset, 0),
                    first_of(
                        bond_states_error(p.bond_states, 0),
                        first_of(
                            dirty_error(p.dirty_actors, actors, 0),
                            first_of(
                                change_error(f.actors, plan_owner(p), plan_dirty(p), 0),
                                disconnected_error(plan_links(f, p), actors, plan_dirty(p), 0),
                            ),
                        ),
                    ),
                ),
            ),
        ),
    }
}

/// The states of the chunks of an asset: those of chunks that were there before stay.
pub open spec fn reconciled(
    old_states: Seq<(u32, ChunkRuntimeState)>,
    m: AssetModel,
) -> Seq<(u32, ChunkRuntimeState)> {
    Seq::new(
        m.chunks.len(),
        |i: int|
            (
                m.chunks[i].id.0,
                match lookup(old_states, m.chunks[i].id.0) {
                    Some(s) => s,
                    None => initial_chunk_state(),
                },
            ),
    )
}

/// The body after a plan has been carried out. Every owner is one of its actors, so that the
/// next actor id stays.
pub open spec fn repaired(f: FamilyModel, p: PlanModel) -> FamilyModel {
    FamilyModel {
        asset: p.asset,
        actors: actors_of(plan_owner(p), p.asset),
        node_owner: plan_owner(p),
        node_states: plan_states(p),
        chunk_states: reconciled(f.chunk_states, p.asset),
        bond_states: p.bond_states,
        dirty_actors: plan_dirty(p),
        ..f
    }
}

pub proof fn lemma_owned_in(owner: Seq<(u32, FxActorId)>, actor: FxActorId, n: int)
    requires
        ascending(owner),
        0 <= n <= owner.len(),
    ensures
        node_list_ascending(owned_in(owner, actor, n)),
        forall|x: SupportNodeId| #[trigger]
            owned_in(owner, actor, n).contains(x) <==> exists|i: int|
                0 <= i < n && #[trigger] owner[i] == (x.0, actor),
        forall|i: int|
            0 <= i < owned_in(owner, actor, n).len() && n < owner.len() ==> (
            #[trigger] owned_in(owner, actor, n)[i]).0 < owner[n].0,
    decreases n,
{
    if n > 0 {
        lemma_owned_in(owner, actor, n - 1);
        let before = owned_in(owner, actor, n - 1);
        let now = owned_in(owner, actor, n);
        assert forall|x: SupportNodeId| #[trigger] now.contains(x) <==> exists|i: int|
            0 <= i < n && #[trigger] owner[i] == (x.0, actor) by {
            assert(before.contains(x) <==> exists|i: int|
                0 <= i < n - 1 && #[trigger] owner[i] == (x.0, actor));
            if before.contains(x) {
                let i = choose|i: int| 0 <= i < n - 1 && #[trigger] owner[i] == (x.0, actor);
                assert(owner[i] == (x.0, actor));
                let w = choose|w: int| 0 <= w < before.len() && before[w] == x;
                assert(now[w] == x);
            }
            if owner[n - 1] == (x.0, actor) {
                assert(now[now.len() - 1] == x);
            }
            if now.contains(x) {
                let w = choose|w: int| 0 <= w < now.len() && now[w] == x;
                if w < before.len() {
                    assert(before[w] == x);
                } else {
                    assert(owner[n - 1] == (x.0, actor));
                }
            }
        }
        if n < owner.len() {
            assert(owner[n - 1].0 < owner[n].0);
            assert forall|i: int| 0 <= i < now.len() implies (#[trigger] now[i]).0 < owner[n].0 by {
                if i < before.len() {
                    assert(before[i].0 < owner[n - 1].0);
                }
            }
        }
        assert forall|i: int, j: int| 0 <= i < j < now.len() implies (#[trigger] now[i]).0 < (
        #[trigger] now[j]).0 by {
            if j < before.len() {
                assert(before[i].0 < before[j].0);
            } else {
                assert(before[i].0 < owner[n - 1].0);
            }
        }
    }
}

pub proof fn lemma_owned_nodes(owner: Seq<(u32, FxActorId)>, actor: FxActorId)
    requires
        ascending(owner),
    ensures
        node_list_ascending(owned_nodes(owner, actor)),
        sorted_nodes(owned_nodes(owner, actor)) == owned_nodes(owner, actor),
        forall|x: SupportNodeId| #[trigger]
            owned_nodes(owner, actor).contains(x) <==> lookup(owner, x.0) == Some(actor),
{
    let s = owned_nodes(owner, actor);
    lemma_owned_in(owner, actor, owner.len() as int);
    assert(in_order(s, node_order())) by {
        assert forall|i: int, j: int| 0 <= i <= j < s.len() implies key_le(
            node_order()(#[trigger] s[i]),
            node_order()(#[trigger] s[j]),
        ) by {
            if i < j {
                assert(s[i].0 < s[j].0);
            }
        }
    }
    lemma_sorted_idle(s, node_order());
    assert forall|x: SupportNodeId| #[trigger] s.contains(x) <==> lookup(owner, x.0) == Some(
        actor,
    ) by {
        if s.contains(x) {
            let i = choose|i: int| 0 <= i < owner.len() && #[trigger] owner[i] == (x.0, actor);
            lemma_lookup_at(owner, i);
        }
        if lookup(owner, x.0) == Some(actor) {
            lemma_lookup_found(owner, x.0);
            let i = rank(owner, x.0);
            assert(owner[i] == (x.0, actor));
        }
    }
}

pub proof fn lemma_owner_ids(owner: Seq<(u32, FxActorId)>, n: int)
    requires
        0 <= n <= owner.len(),
    ensures
        ascending_ids(owner_ids(owner, n)),
        forall|k: u32| #[trigger]
            owner_ids(owner, n).contains(k) <==> exists|i: int|
                0 <= i < n && (#[trigger] owner[i]).1.0 == k,
    decreases n,
{
    if n > 0 {
        lemma_owner_ids(owner, n - 1);
        let before = owner_ids(owner, n - 1);
        lemma_with_id(before, owner[n - 1].1.0);
        assert forall|k: u32| #[trigger] owner_ids(owner, n).contains(k) <==> exists|i: int|
            0 <= i < n && (#[trigger] owner[i]).1.0 == k by {
            assert(before.contains(k) <==> exists|i: int|
                0 <= i < n - 1 && (#[trigger] owner[i]).1.0 == k);
            if before.contains(k) {
                let i = choose|i: int| 0 <= i < n - 1 && (#[trigger] owner[i]).1.0 == k;
                assert(owner[i].1.0 == k);
            }
            if owner[n - 1].1.0 == k {
                assert(owner[n - 1].1.0 == k);
            }
        }
    }
}

pub proof fn lemma_marked(list: Seq<FxActorId>, n: int)
    requires
        0 <= n <= list.len(),
    ensures
        ascending_ids(marked(list, n)),
    decreases n,
{
    if n > 0 {
        lemma_marked(list, n - 1);
        lemma_with_id(marked(list, n - 1), list[n - 1].0);
    }
}

/// The actors that the owners make up are in order, and each owns just its nodes.
pub proof fn lemma_actors_of(owner: Seq<(u32, FxActorId)>, m: AssetModel)
    requires
        ascending(owner),
    ensures
        ascending(actors_of(owner, m)),
        forall|k: u32| #[trigger] has_key(actors_of(owner, m), k) ==> lookup(actors_of(owner, m), k)
            == Some(actor_of(FxActorId(k), owned_nodes(owner, FxActorId(k)), m)),
        forall|k: u32| #[trigger]
            has_key(actors_of(owner, m), k) <==> exists|i: int|
                0 <= i < owner.len() && (#[trigger] owner[i]).1.0 == k,
        forall|k: u32| #[trigger]
            has_key(actors_of(owner, m), k) ==> actor_fits(actors_of(owner, m), owner, k),
{
    let actors = actors_of(owner, m);
    let ids = owner_ids(owner, owner.len() as int);
    lemma_owner_ids(owner, owner.len() as int);
    assert forall|i: int, j: int| 0 <= i < j < actors.len() implies (#[trigger] actors[i]).0 < (
    #[trigger] actors[j]).0 by {
        assert(ids[i] < ids[j]);
    }
    assert forall|k: u32| #[trigger] has_key(actors, k) <==> exists|i: int|
        0 <= i < owner.len() && (#[trigger] owner[i]).1.0 == k by {
        if has_key(actors, k) {
            let i = choose|i: int| 0 <= i < actors.len() && (#[trigger] actors[i]).0 == k;
            assert(ids[i] == k);
            assert(ids.contains(k));
        }
        if ids.contains(k) {
            let i = choose|i: int| 0 <= i < ids.len() && ids[i] == k;
            assert(actors[i].0 == k);
        }
    }
    assert forall|k: u32| #[trigger] has_key(actors, k) implies lookup(actors, k) == Some(
        actor_of(FxActorId(k), owned_nodes(owner, FxActorId(k)), m),
    ) by {
        lemma_lookup_found(actors, k);
    }
    assert forall|k: u32| #[trigger] has_key(actors, k) implies actor_fits(actors, owner, k) by {
        let id = FxActorId(k);
        lemma_owned_nodes(owner, id);
        let s = owned_nodes(owner, id);
        let a = lookup(actors, k)->0;
        assert(a.owned_nodes == s);
        assert(s.no_duplicates()) by {
            assert(node_list_ascending(s));
        }
        let i = choose|i: int| 0 <= i < owner.len() && (#[trigger] owner[i]).1.0 == k;
        lemma_lookup_at(owner, i);
        assert(owner[i].1 == id);
        assert(s.contains(SupportNodeId(owner[i].0)));
    }
}

proof fn lemma_owners_clear(f: FamilyModel, p: PlanModel, i: int, k: int)
    requires
        0 <= i <= k < p.node_owners.len(),
        owners_error(f, p, i) is None,
    ensures
        has_node(p.asset.support_nodes, p.node_owners[k].0),
        has_key(f.actors, p.node_owners[k].1.0),
    decreases k - i,
{
    if i < k {
        lemma_owners_clear(f, p, i + 1, k);
    }
}

proof fn lemma_states_clear(p: PlanModel, i: int, k: int)
    requires
        0 <= i <= k < p.node_states.len(),
        states_error(p, i) is None,
    ensures
        has_node(p.asset.support_nodes, p.node_states[k].0),
    decreases k - i,
{
    if i < k {
        lemma_states_clear(p, i + 1, k);
    }
}

proof fn lemma_missing_clear<V>(m: AssetModel, table: Seq<(u32, V)>, i: int, k: int)
    requires
        0 <= i <= k < m.support_nodes.len(),
        first_missing(m, table, i) is None,
    ensures
        has_key(table, m.support_nodes[k].id.0),
    decreases k - i,
{
    if i < k {
        lemma_missing_clear(m, table, i + 1, k);
    }
}

proof fn lemma_anchors_clear(f: FamilyModel, m: AssetModel, i: int, k: int)
    requires
        0 <= i <= k < f.external_bonds.len(),
        stale_anchor(f, m, i) is None,
    ensures
        has_node(m.support_nodes, f.external_bonds[k].1.node),
    decreases k - i,
{
    if i < k {
        lemma_anchors_clear(f, m, i + 1, k);
    }
}

proof fn lemma_connections_clear(f: FamilyModel, m: AssetModel, i: int, k: int)
    requires
        0 <= i <= k < f.dynamic_structural_bonds.len(),
        stale_connection(f, m, i) is None,
    ensures
        has_node(m.support_nodes, f.dynamic_structural_bonds[k].1.node_a),
        has_node(m.support_nodes, f.dynamic_structural_bonds[k].1.node_b),
    decreases k - i,
{
    if i < k {
        lemma_connections_clear(f, m, i + 1, k);
    }
}

/// Carrying out a plan without errors keeps the body well-formed.
pub proof fn lemma_repaired_wf(f: FamilyModel, p: PlanModel)
    requires
        f.wf(),
        stored(p.asset),
        repair_error(f, p) is None,
    ensures
        repaired(f, p).wf(),
{
    let g = repaired(f, p);
    let m = p.asset;
    let owner = plan_owner(p);
    let states = plan_states(p);
    lemma_valid_sound(m);
    lemma_filed(p.node_owners, p.node_owners.len() as int);
    lemma_filed(p.node_states, p.node_states.len() as int);
    lemma_actors_of(owner, m);
    lemma_marked(p.dirty_actors, p.dirty_actors.len() as int);
    assert forall|n: u32| #[trigger] has_key(owner, n) <==> has_node(
        m.support_nodes,
        SupportNodeId(n),
    ) by {
        if has_key(owner, n) {
            let j = choose|j: int|
                0 <= j < p.node_owners.len() && (#[trigger] p.node_owners[j]).0 == SupportNodeId(n);
            lemma_owners_clear(f, p, 0, j);
        }
        if has_node(m.support_nodes, SupportNodeId(n)) {
            let i = node_index(m.support_nodes, SupportNodeId(n));
            lemma_missing_clear(m, owner, 0, i);
        }
    }
    assert forall|n: u32| #[trigger] has_key(states, n) <==> has_node(
        m.support_nodes,
        SupportNodeId(n),
    ) by {
        if has_key(states, n) {
            let j = choose|j: int|
                0 <= j < p.node_states.len() && (#[trigger] p.node_states[j]).0 == SupportNodeId(n);
            lemma_states_clear(p, 0, j);
        }
        if has_node(m.support_nodes, SupportNodeId(n)) {
            let i = node_index(m.support_nodes, SupportNodeId(n));
            lemma_missing_clear(m, states, 0, i);
        }
    }
    assert forall|n: u32| (#[trigger] lookup(owner, n)) is Some implies has_key(
        f.actors,
        (lookup(owner, n)->0).0,
    ) by {
        let entry = (SupportNodeId(n), lookup(owner, n)->0);
        assert(p.node_owners.contains(entry));
        let j = choose|j: int| 0 <= j < p.node_owners.len() && p.node_owners[j] == entry;
        lemma_owners_clear(f, p, 0, j);
    }
    assert forall|k: u32| #[trigger] has_key(g.actors, k) implies k < g.next_actor_id && actor_fits(
        g.actors,
        g.node_owner,
        k,
    ) by {
        let i = choose|i: int| 0 <= i < owner.len() && (#[trigger] owner[i]).1.0 == k;
        lemma_lookup_at(owner, i);
        assert(has_key(f.actors, k));
    }
    assert forall|n: u32| (#[trigger] lookup(owner, n)) is Some implies has_key(
        g.actors,
        (lookup(owner, n)->0).0,
    ) by {
        lemma_lookup_found(owner, n);
        let i = rank(owner, n);
        assert(owner[i].1.0 == (lookup(owner, n)->0).0);
    }
    assert forall|c: u32| #[trigger] has_key(g.chunk_states, c) <==> has_chunk(
        m.chunks,
        ChunkId(c),
    ) by {
        if has_chunk(m.chunks, ChunkId(c)) {
            let i = chunk_index(m.chunks, ChunkId(c));
            assert(g.chunk_states[i].0 == c);
        }
        if has_key(g.chunk_states, c) {
            let i = choose|i: int|
                0 <= i < g.chunk_states.len() && (#[trigger] g.chunk_states[i]).0 == c;
            assert(m.chunks[i].id == ChunkId(c));
        }
    }
    assert(ascending(g.chunk_states)) by {
        assert forall|i: int, j: int| 0 <= i < j < g.chunk_states.len() implies (
        #[trigger] g.chunk_states[i]).0 < (#[trigger] g.chunk_states[j]).0 by {
            assert(m.chunks[i].id.0 < m.chunks[j].id.0);
        }
    }
    assert forall|i: int| 0 <= i < g.external_bonds.len() implies (
    #[trigger] g.external_bonds[i]).1.id.0 == g.external_bonds[i].0 && has_node(
        m.support_nodes,
        g.external_bonds[i].1.node,
    ) by {
        assert(f.external_bonds[i].1.id.0 == f.external_bonds[i].0);
        lemma_anchors_clear(f, m, 0, i);
    }
    assert forall|i: int| 0 <= i < g.dynamic_structural_bonds.len() implies (
    #[trigger] g.dynamic_structural_bonds[i]).1.id.0 == g.dynamic_structural_bonds[i].0
        && has_node(m.support_nodes, g.dynamic_structural_bonds[i].1.node_a) && has_node(
        m.support_nodes,
        g.dynamic_structural_bonds[i].1.node_b,
    ) && g.dynamic_structural_bonds[i].1.node_a.0 < g.dynamic_structural_bonds[i].1.node_b.0 by {
        assert(f.dynamic_structural_bonds[i].1.id.0 == f.dynamic_structural_bonds[i].0);
        lemma_connections_clear(f, m, 0, i);
    }
}

/// Files the owners of a plan by their nodes.
fn file_owners(plan: &RepairPlan, family: &FxFamily) -> (r: Result<IdMap<FxActorId>, RepairError>)
    requires
        nodes_ascending(plan@.asset.support_nodes),
        ascending(family@.actors),
    ensures
        match r {
            Ok(owner) => owners_error(family@, plan@, 0) is None && owner@ == plan_owner(plan@)
                && ascending(owner@),
            Err(e) => owners_error(family@, plan@, 0) == Some(e),
        },
{
    let ghost p = plan@;
    let ghost f = family@;
    let ghost list = p.node_owners;
    let mut owner = IdMap::<FxActorId>::new();
    let mut i: usize = 0;
    while i < plan.node_owners.len()
        invariant
            i <= plan.node_owners.len(),
            p == plan@,
            f == family@,
            list == p.node_owners,
            nodes_ascending(p.asset.support_nodes),
            ascending(f.actors),
            owner@ == filed(list, i as int),
            ascending(owner@),
            owners_error(f, p, 0) == owners_error(f, p, i as int),
        decreases plan.node_owners.len() - i,
    {
        let (node, actor) = plan.node_owners[i];
        assert(list[i as int] == (node, actor));
        if plan.asset.node(node).is_none() {
            return Err(RepairError::UnknownNode(node));
        }
        proof {
            lemma_ordered_actors(family.actors@);
            lemma_mapped(family.actors@, actor_view(), actor.0);
            lemma_filed(list, i as int);
            assert(SupportNodeId(node.0) == node);
            assert(has_key(owner@, node.0) <==> listed_before(list, SupportNodeId(node.0), i as int));
        }
        if !family.actors.contains(actor.0) {
            return Err(RepairError::MissingNodeOwnerActor { node, actor });
        }
        if owner.insert(node.0, actor) {
            return Err(RepairError::DuplicateNodeOwner(node));
        }
        i = i + 1;
    }
    Ok(owner)
}

/// Files the node states of a plan by their nodes.
fn file_states(plan: &RepairPlan) -> (r: Result<IdMap<NodeRuntimeState>, RepairError>)
    requires
        nodes_ascending(plan@.asset.support_nodes),
    ensures
        match r {
            Ok(states) => states_error(plan@, 0) is None && states@ == plan_states(plan@)
                && ascending(states@),
            Err(e) => states_error(plan@, 0) == Some(e),
        },
{
    let ghost p = plan@;
    let ghost list = p.node_states;
    let mut states = IdMap::<NodeRuntimeState>::new();
    let mut i: usize = 0;
    while i < plan.node_states.len()
        invariant
            i <= plan.node_states.len(),
            p == plan@,
            list == p.node_states,
            nodes_ascending(p.asset.support_nodes),
            states@ == filed(list, i as int),
            ascending(states@),
            states_error(p, 0) == states_error(p, i as int),
        decreases plan.node_states.len() - i,
    {
        let (node, state) = plan.node_states[i];
        assert(list[i as int] == (node, state));
        if plan.asset.node(node).is_none() {
            return Err(RepairError::UnknownNode(node));
        }
        if !valid_runtime_scalar(state.health) || !valid_runtime_scalar(state.accumulated_damage) {
            return Err(RepairError::InvalidNodeState(node));
        }
        proof {
            lemma_filed(list, i as int);
            assert(SupportNodeId(node.0) == node);
            assert(has_key(states@, node.0) <==> listed_before(
                list,
                SupportNodeId(node.0),
                i as int,
            ));
        }
        if states.insert(node.0, state) {
            return Err(RepairError::DuplicateNodeState(node));
        }
        i = i + 1;
    }
    Ok(states)
}

/// Finds the first node without an entry.
fn find_missing<V>(asset: &FxAsset, table: &IdMap<V>) -> (r: Option<SupportNodeId>)
    requires
        ascending(table@),
    ensures
        r == first_missing(asset@, table@, 0),
{
    let ghost m = asset@;
    let mut i: usize = 0;
    while i < asset.support_nodes.len()
        invariant
            i <= asset.support_nodes.len(),
            m == asset@,
            ascending(table@),
            first_missing(m, table@, 0) == first_missing(m, table@, i as int),
        decreases asset.support_nodes.len() - i,
    {
        let id = asset.support_nodes[i].id;
        assert(m.support_nodes[i as int].id == id);
        if !table.contains(id.0) {
            return Some(id);
        }
        i = i + 1;
    }
    None
}

/// Finds the first anchor or connection whose node the new asset lacks.
fn find_stale(family: &FxFamily, asset: &FxAsset) -> (r: Option<RepairError>)
    requires
        nodes_ascending(asset@.support_nodes),
    ensures
        r == first_of(
            stale_anchor(family@, asset@, 0),
            stale_connection(family@, asset@, 0),
        ),
{
    let ghost f = family@;
    let ghost m = asset@;
    let mut i: usize = 0;
    while i < family.external_bonds.entries.len()
        invariant
            i <= family.external_bonds.entries.len(),
            f == family@,
            m == asset@,
            nodes_ascending(m.support_nodes),
            stale_anchor(f, m, 0) == stale_anchor(f, m, i as int),
        decreases family.external_bonds.entries.len() - i,
    {
        let bond = family.external_bonds.entries[i].1;
        assert(f.external_bonds[i as int].1 == bond);
        if asset.node(bond.node).is_none() {
            return Some(
                RepairError::StaleExternalBondEndpoint { bond: bond.id, node: bond.node },
            );
        }
        i = i + 1;
    }
    let mut i: usize = 0;
    while i < family.dynamic_structural_bonds.entries.len()
        invariant
            i <= family.dynamic_structural_bonds.entries.len(),
            f == family@,
            m == asset@,
            nodes_ascending(m.support_nodes),
            stale_anchor(f, m, 0) is None,
            stale_connection(f, m, 0) == stale_connection(f, m, i as int),
        decreases family.dynamic_structural_bonds.entries.len() - i,
    {
        let bond = family.dynamic_structural_bonds.entries[i].1;
        assert(f.dynamic_structural_bonds[i as int].1 == bond);
        if asset.node(bond.node_a).is_none() {
            return Some(
                RepairError::StaleDynamicConnectionEndpoint {
                    connection: bond.id,
                    node: bond.node_a,
                },
            );
        }
        if asset.node(bond.node_b).is_none() {
            return Some(
                RepairError::StaleDynamicConnectionEndpoint {
                    connection: bond.id,
                    node: bond.node_b,
                },
            );
        }
        i = i + 1;
    }
    None
}

/// The state of a bond is valid.
pub fn valid_bond_state(s: &BondRuntimeState) -> (r: bool)
    ensures
        r == bond_state_ok(*s),
{
    valid_runtime_scalar(s.health) && valid_runtime_scalar(s.effective_length)
        && valid_runtime_scalar(s.accumulated_damage)
}

fn find_bad_bond_state(states: &Vec<BondRuntimeState>) -> (r: Option<RepairError>)
    ensures
        r == bond_states_error(states@, 0),
{
    let mut i: usize = 0;
    while i < states.len()
        invariant
            i <= states.len(),
            bond_states_error(states@, 0) == bond_states_error(states@, i as int),
        decreases states.len() - i,
    {
        if !valid_bond_state(&states[i]) {
            return Some(RepairError::InvalidBondState(BondId(i as u32)));
        }
        i = i + 1;
    }
    None
}

/// The nodes that an actor owns.
fn collect_owned(owner: &IdMap<FxActorId>, actor: FxActorId) -> (r: Vec<SupportNodeId>)
    ensures
        r@ == owned_nodes(owner@, actor),
{
    let mut nodes: Vec<SupportNodeId> = Vec::new();
    let mut i: usize = 0;
    while i < owner.entries.len()
        invariant
            i <= owner.entries.len(),
            nodes@ == owned_in(owner@, actor, i as int),
        decreases owner.entries.len() - i,
    {
        if owner.entries[i].1 == actor {
            nodes.push(SupportNodeId(owner.entries[i].0));
        }
        i = i + 1;
    }
    nodes
}

/// Builds the actors that the owners of nodes make up.
fn group_owned(owner: &IdMap<FxActorId>, asset: &FxAsset) -> (r: IdMap<FxActor>)
    requires
        nodes_ascending(asset@.support_nodes),
    ensures
        actor_entries(r@) == actors_of(owner@, asset@),
{
    let mut ids = IdSet::new();
    let mut i: usize = 0;
    while i < owner.entries.len()
        invariant
            i <= owner.entries.len(),
            ids@ == owner_ids(owner@, i as int),
            ascending_ids(ids@),
        decreases owner.entries.len() - i,
    {
        let _ = ids.insert(owner.entries[i].1.0);
        i = i + 1;
    }
    let mut actors = IdMap::<FxActor>::new();
    let mut i: usize = 0;
    while i < ids.ids.len()
        invariant
            i <= ids.ids.len(),
            ids@ == owner_ids(owner@, owner@.len() as int),
            nodes_ascending(asset@.support_nodes),
            actors@.len() == i,
            forall|k: int|
                0 <= k < i ==> (#[trigger] actors@[k]).0 == ids@[k] && actors@[k].1@ == actor_of(
                    FxActorId(ids@[k]),
                    owned_nodes(owner@, FxActorId(ids@[k])),
                    asset@,
                ),
        decreases ids.ids.len() - i,
    {
        let id = FxActorId(ids.ids[i]);
        let nodes = collect_owned(owner, id);
        let actor = build_actor(id, &nodes, asset);
        actors.entries.push((id.0, actor));
        i = i + 1;
    }
    assert(actor_entries(actors@) =~= actors_of(owner@, asset@));
    actors
}

/// The states of the chunks of an asset: those of chunks that were there before stay.
fn reconcile_chunk_states(old_states: &IdMap<ChunkRuntimeState>, asset: &FxAsset) -> (r: IdMap<
    ChunkRuntimeState,
>)
    requires
        ascending(old_states@),
    ensures
        r@ == reconciled(old_states@, asset@),
{
    let ghost m = asset@;
    let mut states = IdMap::<ChunkRuntimeState>::new();
    let mut i: usize = 0;
    while i < asset.chunks.len()
        invariant
            i <= asset.chunks.len(),
            m == asset@,
            ascending(old_states@),
            states@.len() == i,
            forall|k: int|
                0 <= k < i ==> #[trigger] states@[k] == reconciled(old_states@, m)[k],
        decreases asset.chunks.len() - i,
    {
        let id = asset.chunks[i].id;
        assert(m.chunks[i as int].id == id);
        let state = match old_states.get(id.0) {
            Some(state) => *state,
            None => ChunkRuntimeState {
                health: Scalar { bits: ONE_BITS },
                accumulated_damage: Scalar { bits: 0 },
            },
        };
        states.entries.push((id.0, state));
        i = i + 1;
    }
    assert(states@ =~= reconciled(old_states@, m));
    states
}

/// Collects the actors to be marked.
fn collect_dirty(list: &Vec<FxActorId>, actors: &IdMap<FxActor>) -> (r: Result<IdSet, RepairError>)
    requires
        ascending(actor_entries(actors@)),
    ensures
        match r {
            Ok(dirty) => {
                &&& dirty_error(list@, actor_entries(actors@), 0) is None
                &&& dirty@ == marked(list@, list.len() as int)
                &&& ascending_ids(dirty@)
            },
            Err(e) => dirty_error(list@, actor_entries(actors@), 0) == Some(e),
        },
{
    let ghost models = actor_entries(actors@);
    let mut dirty = IdSet::new();
    let mut i: usize = 0;
    while i < list.len()
        invariant
            i <= list.len(),
            models == actor_entries(actors@),
            ascending(models),
            dirty@ == marked(list@, i as int),
            ascending_ids(dirty@),
            dirty_error(list@, models, 0) == dirty_error(list@, models, i as int),
        decreases list.len() - i,
    {
        proof {
            lemma_ordered_actors(actors@);
            lemma_mapped(actors@, actor_view(), list@[i as int].0);
        }
        if !actors.contains(list[i].0) {
            return Err(RepairError::UnknownDirtyActor(list[i]));
        }
        let _ = dirty.insert(list[i].0);
        i = i + 1;
    }
    Ok(dirty)
}

/// Finds out whether two lists of nodes are the same.
fn same_nodes(a: &Vec<SupportNodeId>, b: &Vec<SupportNodeId>) -> (r: bool)
    ensures
        r == (a@ == b@),
{
    if a.len() != b.len() {
        return false;
    }
    let mut i: usize = 0;
    while i < a.len()
        invariant
            i <= a.len(),
            a.len() == b.len(),
            forall|k: int| 0 <= k < i ==> #[trigger] a@[k] == b@[k],
        decreases a.len() - i,
    {
        if a[i] != b[i] {
            assert(a@[i as int] != b@[i as int]);
            return false;
        }
        i = i + 1;
    }
    assert(a@ =~= b@);
    true
}

/// Finds the first actor whose nodes change without its being marked.
fn find_unmarked_change(
    actors: &IdMap<FxActor>,
    owner: &IdMap<FxActorId>,
    dirty: &IdSet,
) -> (r: Option<RepairError>)
    requires
        ascending_ids(dirty@),
    ensures
        r == change_error(actor_entries(actors@), owner@, dirty@, 0),
{
    let ghost models = actor_entries(actors@);
    let mut i: usize = 0;
    while i < actors.entries.len()
        invariant
            i <= actors.entries.len(),
            models == actor_entries(actors@),
            ascending_ids(dirty@),
            change_error(models, owner@, dirty@, 0) == change_error(
                models,
                owner@,
                dirty@,
                i as int,
            ),
        decreases actors.entries.len() - i,
    {
        let id = FxActorId(actors.entries[i].0);
        assert(models[i as int] == (id.0, actors@[i as int].1@));
        let nodes = collect_owned(owner, id);
        if !same_nodes(&actors.entries[i].1.owned_nodes, &nodes) && !dirty.contains(id.0) {
            return Some(RepairError::ActorChangedNotDirty(id));
        }
        i = i + 1;
    }
    None
}

/// Finds the first actor that does not hang together and is not marked.
fn find_disconnected(links: &Links, actors: &IdMap<FxActor>, dirty: &IdSet) -> (r: Option<
    RepairError,
>)
    requires
        ascending_ids(dirty@),
        forall|i: int|
            0 <= i < actors@.len() ==> (#[trigger] actors@[i]).1.owned_nodes@.no_duplicates(),
    ensures
        r == disconnected_error(links@, actor_entries(actors@), dirty@, 0),
{
    let ghost models = actor_entries(actors@);
    let mut i: usize = 0;
    while i < actors.entries.len()
        invariant
            i <= actors.entries.len(),
            models == actor_entries(actors@),
            ascending_ids(dirty@),
            forall|i: int|
                0 <= i < actors@.len() ==> (#[trigger] actors@[i]).1.owned_nodes@.no_duplicates(),
            disconnected_error(links@, models, dirty@, 0) == disconnected_error(
                links@,
                models,
                dirty@,
                i as int,
            ),
        decreases actors.entries.len() - i,
    {
        let k = actors.entries[i].0;
        assert(models[i as int] == (k, actors@[i as int].1@));
        assert(actors@[i as int].1.owned_nodes@.no_duplicates());
        let parts = connected_parts(links, &actors.entries[i].1.owned_nodes);
        assert(node_lists(parts@).len() == parts@.len());
        if parts.len() > 1 && !dirty.contains(k) {
            return Some(RepairError::DisconnectedActorNotDirty(FxActorId(k)));
        }
        i = i + 1;
    }
    None
}

/// Identifiers as those of actors.
pub open spec fn actor_ids(ids: Seq<u32>) -> Seq<FxActorId> {
    ids.map_values(|k: u32| FxActorId(k))
}

/// The actors of a set, in order.
pub fn list_actors(set: &IdSet) -> (r: Vec<FxActorId>)
    ensures
        r@ == actor_ids(set@),
{
    let mut list: Vec<FxActorId> = Vec::new();
    let mut i: usize = 0;
    while i < set.ids.len()
        invariant
            i <= set.ids.len(),
            list.len() == i,
            forall|k: int| 0 <= k < i ==> #[trigger] list[k] == FxActorId(set@[k]),
        decreases set.ids.len() - i,
    {
        list.push(FxActorId(set.ids[i]));
        i = i + 1;
    }
    assert(list@ =~= actor_ids(set@));
    list
}

impl FxFamily {
    /// Carries out a plan, or refuses it and leaves everything as it is.
    pub fn apply_repair_plan(&mut self, plan: RepairPlan) -> (r: Result<
        RepairCommitSummary,
        RepairError,
    >)
        requires
            old(self)@.wf(),
            stored(plan@.asset),
        ensures
            match r {
                Ok(done) => {
                    &&& repair_error(old(self)@, plan@) is None
                    &&& final(self)@ == repaired(old(self)@, plan@)
                    &&& done.dirty_actors@ == actor_ids(repaired(old(self)@, plan@).dirty_actors)
                    &&& done.actor_order@ == actor_ids(
                        keys_of(repaired(old(self)@, plan@).actors),
                    )
                },
                Err(e) => repair_error(old(self)@, plan@) == Some(e) && final(self)@ == old(self)@,
            },
            final(self)@.wf(),
    {
        let ghost f = self@;
        let ghost p = plan@;
        if let Err(e) = plan.asset.validate() {
            return Err(RepairError::Validation(e));
        }
        let owner = match file_owners(&plan, self) {
            Ok(owner) => owner,
            Err(e) => {
                return Err(e);
            },
        };
        if let Some(node) = find_missing(&plan.asset, &owner) {
            return Err(RepairError::MissingNodeOwner(node));
        }
        if plan.bond_states.len() != plan.asset.internal_bonds.len() {
            return Err(
                RepairError::BondStateCountMismatch {
                    expected: plan.asset.internal_bonds.len(),
                    actual: plan.bond_states.len(),
                },
            );
        }
        let node_states = match file_states(&plan) {
            Ok(states) => states,
            Err(e) => {
                return Err(e);
            },
        };
        if let Some(node) = find_missing(&plan.asset, &node_states) {
            return Err(RepairError::MissingNodeState(node));
        }
        assert(tables_error(f, p) is None);
        if let Some(e) = find_stale(self, &plan.asset) {
            return Err(e);
        }
        let actors = group_owned(&owner, &plan.asset);
        if let Some(e) = find_bad_bond_state(&plan.bond_states) {
            return Err(e);
        }
        let chunk_states = reconcile_chunk_states(&self.chunk_states, &plan.asset);
        proof {
            lemma_actors_of(owner@, p.asset);
        }
        let dirty = match collect_dirty(&plan.dirty_actors, &actors) {
            Ok(dirty) => dirty,
            Err(e) => {
                return Err(e);
            },
        };
        if let Some(e) = find_unmarked_change(&self.actors, &owner, &dirty) {
            return Err(e);
        }
        let links = Links {
            bonds: &plan.asset.internal_bonds,
            states: &plan.bond_states,
            external: &self.external_bonds,
            dynamic: &self.dynamic_structural_bonds,
        };
        proof {
            assert(links@ == plan_links(f, p));
            let models = actor_entries(actors@);
            assert forall|i: int| 0 <= i < actors@.len() implies (
            #[trigger] actors@[i]).1.owned_nodes@.no_duplicates() by {
                let k = actors@[i].0;
                assert(models[i] == (k, actors@[i].1@));
                lemma_lookup_at(models, i);
                assert(actor_fits(models, owner@, k));
            }
        }
        if let Some(e) = find_disconnected(&links, &actors, &dirty) {
            return Err(e);
        }
        proof {
            assert(repair_error(f, p) is None);
            lemma_repaired_wf(f, p);
        }
        let mut actor_order: Vec<FxActorId> = Vec::new();
        let mut i: usize = 0;
        while i < actors.entries.len()
            invariant
                i <= actors.entries.len(),
                actor_order.len() == i,
                forall|k: int| 0 <= k < i ==> #[trigger] actor_order[k] == FxActorId(actors@[k].0),
            decreases actors.entries.len() - i,
        {
            actor_order.push(FxActorId(actors.entries[i].0));
            i = i + 1;
        }
        let dirty_actors = list_actors(&dirty);
        assert(actor_order@ =~= actor_ids(keys_of(actor_entries(actors@))));
        self.asset = plan.asset;
        self.actors = actors;
        self.node_owner = owner;
        self.node_states = node_states;
        self.chunk_states = chunk_states;
        self.bond_states = plan.bond_states;
        self.dirty_actors = dirty;
        Ok(RepairCommitSummary { dirty_actors, actor_order })
    }
}

} // verus!
