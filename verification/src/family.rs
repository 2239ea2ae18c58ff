//! A body at run time: its actors, who owns which node, and the state of its nodes, chunks and
//! bonds.

use crate::actor::{actor_of, build_actor, ActorModel, FxActor};
use crate::asset::{
    chunk_index, has_chunk, has_node, node_index, nodes_ascending, AssetModel, FxAsset,
};
use crate::components::{in_parts, lemma_filter_shrinks, lemma_parts_partition, parts_of, separate};
use crate::idmap::{
    ascending, ascending_ids, has_key, lemma_mapped, lemma_mapped_edits, lemma_put, lookup, mapped,
    put, IdMap, IdSet,
};
use crate::ids::{ChunkId, FxActorId, FxFamilyId, SupportNodeId};
use crate::reach::{lemma_reaches_self, reaches};
use crate::scalar::{Scalar, ONE_BITS};
use crate::soundness::sound;
use crate::structure::{
    connected_parts, held_among, lemma_sorted_nodes, node_list_ascending, node_lists, node_parts,
    sorted_nodes, BondRuntimeState, DynamicStructuralBond2D, ExternalBond2D, LinkModel, Links,
};
use vstd::prelude::*;

verus! {

#[derive(Clone, Copy, Debug, PartialEq, Eq, Structural)]
pub struct NodeRuntimeState {
    pub health: Scalar,
    pub accumulated_damage: Scalar,
}

#[derive(Clone, Copy, Debug, PartialEq, Eq, Structural)]
pub struct ChunkRuntimeState {
    pub health: Scalar,
    pub accumulated_damage: Scalar,
}

/// The pieces that one asset has come apart into.
#[derive(Debug, PartialEq)]
pub struct FxFamily {
    pub id: FxFamilyId,
    pub asset: FxAsset,
    pub actors: IdMap<FxActor>,
    pub node_owner: IdMap<FxActorId>,
    pub node_states: IdMap<NodeRuntimeState>,
    pub chunk_states: IdMap<ChunkRuntimeState>,
    pub bond_states: Vec<BondRuntimeState>,
    pub external_bonds: IdMap<ExternalBond2D>,
    pub dynamic_structural_bonds: IdMap<DynamicStructuralBond2D>,
    pub dirty_actors: IdSet,
    pub next_actor_id: u32,
    pub next_event_id: u32,
}

#[verifier::ext_equal]
pub ghost struct FamilyModel {
    pub id: FxFamilyId,
    pub asset: AssetModel,
    pub actors: Seq<(u32, ActorModel)>,
    pub node_owner: Seq<(u32, FxActorId)>,
    pub node_states: Seq<(u32, NodeRuntimeState)>,
    pub chunk_states: Seq<(u32, ChunkRuntimeState)>,
    pub bond_states: Seq<BondRuntimeState>,
    pub external_bonds: Seq<(u32, ExternalBond2D)>,
    pub dynamic_structural_bonds: Seq<(u32, DynamicStructuralBond2D)>,
    pub dirty_actors: Seq<u32>,
    pub next_actor_id: u32,
    pub next_event_id: u32,
}

/// What an actor stands for.
pub open spec fn actor_view() -> spec_fn(FxActor) -> ActorModel {
    |a: FxActor| a@
}

pub open spec fn actor_entries(s: Seq<(u32, FxActor)>) -> Seq<(u32, ActorModel)> {
    mapped(s, actor_view())
}

impl View for FxFamily {
    type V = FamilyModel;

    open spec fn view(&self) -> FamilyModel {
        FamilyModel {
            id: self.id,
            asset: self.asset@,
            actors: actor_entries(self.actors@),
            node_owner: self.node_owner@,
            node_states: self.node_states@,
            chunk_states: self.chunk_states@,
            bond_states: self.bond_states@,
            external_bonds: self.external_bonds@,
            dynamic_structural_bonds: self.dynamic_structural_bonds@,
            dirty_actors: self.dirty_actors@,
            next_actor_id: self.next_actor_id,
            next_event_id: self.next_event_id,
        }
    }
}

/// The tables are in the order of their keys.
pub open spec fn tables_ordered(f: FamilyModel) -> bool {
    &&& ascending(f.actors)
    &&& ascending(f.node_owner)
    &&& ascending(f.node_states)
    &&& ascending(f.chunk_states)
    &&& ascending(f.external_bonds)
    &&& ascending(f.dynamic_structural_bonds)
    &&& ascending_ids(f.dirty_actors)
}

/// The actor under a key has that id and lists, without repetition, just the nodes that it owns.
pub open spec fn actor_fits(
    actors: Seq<(u32, ActorModel)>,
    owner: Seq<(u32, FxActorId)>,
    k: u32,
) -> bool {
    let a = lookup(actors, k)->0;
    &&& a.id == FxActorId(k)
    &&& a.owned_nodes.len() > 0
    &&& a.owned_nodes.no_duplicates()
    &&& forall|n: SupportNodeId| #[trigger]
        a.owned_nodes.contains(n) <==> lookup(owner, n.0) == Some(FxActorId(k))
}

/// Actors and the owners of nodes agree, and actor ids are below the next one.
pub open spec fn ownership(
    actors: Seq<(u32, ActorModel)>,
    owner: Seq<(u32, FxActorId)>,
    next: int,
) -> bool {
    &&& forall|k: u32| #[trigger] has_key(actors, k) ==> k < next && actor_fits(actors, owner, k)
    &&& forall|n: u32|
        (#[trigger] lookup(owner, n)) is Some ==> has_key(actors, (lookup(owner, n)->0).0)
}

/// The keys are the ids of the nodes of the asset.
pub open spec fn keyed_by_nodes<V>(s: Seq<(u32, V)>, m: AssetModel) -> bool {
    forall|n: u32| #[trigger] has_key(s, n) <==> has_node(m.support_nodes, SupportNodeId(n))
}

/// The keys are the ids of the chunks of the asset.
pub open spec fn keyed_by_chunks<V>(s: Seq<(u32, V)>, m: AssetModel) -> bool {
    forall|c: u32| #[trigger] has_key(s, c) <==> has_chunk(m.chunks, ChunkId(c))
}

/// The anchors have the ids they are filed under, at nodes of the asset.
pub open spec fn anchors_fit(s: Seq<(u32, ExternalBond2D)>, m: AssetModel) -> bool {
    forall|i: int|
        0 <= i < s.len() ==> (#[trigger] s[i]).1.id.0 == s[i].0 && has_node(
            m.support_nodes,
            s[i].1.node,
        )
}

/// The connections have the ids they are filed under, between two nodes of the asset, the lesser
/// one first.
pub open spec fn connections_fit(s: Seq<(u32, DynamicStructuralBond2D)>, m: AssetModel) -> bool {
    forall|i: int|
        0 <= i < s.len() ==> (#[trigger] s[i]).1.id.0 == s[i].0 && has_node(
            m.support_nodes,
            s[i].1.node_a,
        ) && has_node(m.support_nodes, s[i].1.node_b) && s[i].1.node_a.0 < s[i].1.node_b.0
}

impl FamilyModel {
    /// What holds of every body at run time.
    pub open spec fn wf(self) -> bool {
        &&& sound(self.asset)
        &&& tables_ordered(self)
        &&& ownership(self.actors, self.node_owner, self.next_actor_id as int)
        &&& keyed_by_nodes(self.node_owner, self.asset)
        &&& keyed_by_nodes(self.node_states, self.asset)
        &&& keyed_by_chunks(self.chunk_states, self.asset)
        &&& self.bond_states.len() == self.asset.internal_bonds.len()
        &&& anchors_fit(self.external_bonds, self.asset)
        &&& connections_fit(self.dynamic_structural_bonds, self.asset)
    }

    /// The bonds.
    pub open spec fn links(self) -> LinkModel {
        LinkModel {
            bonds: self.asset.internal_bonds,
            states: self.bond_states,
            external: self.external_bonds,
            dynamic: self.dynamic_structural_bonds,
        }
    }

    /// The connected parts of the nodes of an actor.
    pub open spec fn parts(self, a: ActorModel) -> Seq<Seq<SupportNodeId>> {
        node_parts(self.links(), a.owned_nodes)
    }

    pub open spec fn owner_of(self, n: SupportNodeId) -> Option<FxActorId> {
        lookup(self.node_owner, n.0)
    }
}

/// The owners after the first `n` of some nodes have gone to an actor.
pub open spec fn assigned(
    owner: Seq<(u32, FxActorId)>,
    nodes: Seq<SupportNodeId>,
    actor: FxActorId,
    n: int,
) -> Seq<(u32, FxActorId)>
    decreases n,
{
    if n <= 0 {
        owner
    } else {
        put(assigned(owner, nodes, actor, n - 1), nodes[n - 1].0, actor)
    }
}

pub proof fn lemma_assigned(
    owner: Seq<(u32, FxActorId)>,
    nodes: Seq<SupportNodeId>,
    actor: FxActorId,
    n: int,
)
    requires
        ascending(owner),
        0 <= n <= nodes.len(),
    ensures
        ascending(assigned(owner, nodes, actor, n)),
        forall|k: u32|
            #[trigger] lookup(assigned(owner, nodes, actor, n), k) == if nodes.take(n).contains(
                SupportNodeId(k),
            ) {
                Some(actor)
            } else {
                lookup(owner, k)
            },
    decreases n,
{
    if n > 0 {
        lemma_assigned(owner, nodes, actor, n - 1);
        let before = assigned(owner, nodes, actor, n - 1);
        lemma_put(before, nodes[n - 1].0, actor);
        let was = nodes.take(n - 1);
        let now = nodes.take(n);
        assert forall|k: u32|
            #[trigger] lookup(assigned(owner, nodes, actor, n), k) == if now.contains(
                SupportNodeId(k),
            ) {
                Some(actor)
            } else {
                lookup(owner, k)
            } by {
            assert(lookup(before, k) == if was.contains(SupportNodeId(k)) {
                Some(actor)
            } else {
                lookup(owner, k)
            });
            if was.contains(SupportNodeId(k)) {
                let w = choose|w: int| 0 <= w < was.len() && was[w] == SupportNodeId(k);
                assert(now[w] == SupportNodeId(k));
            }
            if now.contains(SupportNodeId(k)) && nodes[n - 1].0 != k {
                let w = choose|w: int| 0 <= w < now.len() && now[w] == SupportNodeId(k);
                assert(was[w] == SupportNodeId(k));
            }
            if nodes[n - 1].0 == k {
                assert(now[n - 1] == SupportNodeId(k));
            }
        }
    } else {
        assert(nodes.take(0) =~= Seq::<SupportNodeId>::empty());
    }
}

/// The body after some nodes have become an actor of their own, under the next free id.
pub open spec fn with_child(f: FamilyModel, nodes: Seq<SupportNodeId>) -> FamilyModel {
    let id = FxActorId(f.next_actor_id);
    FamilyModel {
        actors: put(f.actors, id.0, actor_of(id, nodes, f.asset)),
        node_owner: assigned(f.node_owner, nodes, id, nodes.len() as int),
        next_actor_id: (f.next_actor_id + 1) as u32,
        ..f
    }
}

/// The body after the first `n` parts have each become an actor.
pub open spec fn with_children(f: FamilyModel, parts: Seq<Seq<SupportNodeId>>, n: int) -> FamilyModel
    decreases n,
{
    if n <= 0 {
        f
    } else {
        with_child(with_children(f, parts, n - 1), parts[n - 1])
    }
}

/// What the children change: the actors with the new ids, and the owners of their nodes.
pub proof fn lemma_with_children(f: FamilyModel, parts: Seq<Seq<SupportNodeId>>, n: int)
    requires
        ascending(f.actors),
        ascending(f.node_owner),
        0 <= n <= parts.len(),
        f.next_actor_id + n <= u32::MAX,
        separate(parts),
    ensures
        ({
            let g = with_children(f, parts, n);
            &&& g == (FamilyModel {
                actors: g.actors,
                node_owner: g.node_owner,
                next_actor_id: (f.next_actor_id + n) as u32,
                ..f
            })
            &&& g.next_actor_id == f.next_actor_id + n
            &&& ascending(g.actors)
            &&& ascending(g.node_owner)
            &&& forall|k: u32|
                #[trigger] lookup(g.actors, k) == if f.next_actor_id <= k < f.next_actor_id + n {
                    Some(actor_of(FxActorId(k), parts[k - f.next_actor_id], f.asset))
                } else {
                    lookup(f.actors, k)
                }
            &&& forall|i: int, x: SupportNodeId|
                0 <= i < n && #[trigger] parts[i].contains(x) ==> lookup(g.node_owner, x.0) == Some(
                    FxActorId((f.next_actor_id + i) as u32),
                )
            &&& forall|x: SupportNodeId|
                !#[trigger] in_parts(parts.take(n), x) ==> lookup(g.node_owner, x.0) == lookup(
                    f.node_owner,
                    x.0,
                )
        }),
    decreases n,
{
    if n > 0 {
        lemma_with_children(f, parts, n - 1);
        let h = with_children(f, parts, n - 1);
        let g = with_children(f, parts, n);
        let part = parts[n - 1];
        let id = FxActorId(h.next_actor_id);
        lemma_put(h.actors, id.0, actor_of(id, part, h.asset));
        lemma_assigned(h.node_owner, part, id, part.len() as int);
        assert(part.take(part.len() as int) =~= part);
        assert forall|k: u32|
            #[trigger] lookup(g.actors, k) == if f.next_actor_id <= k < f.next_actor_id + n {
                Some(actor_of(FxActorId(k), parts[k - f.next_actor_id], f.asset))
            } else {
                lookup(f.actors, k)
            } by {
            assert(lookup(h.actors, k) == if f.next_actor_id <= k < f.next_actor_id + n - 1 {
                Some(actor_of(FxActorId(k), parts[k - f.next_actor_id], f.asset))
            } else {
                lookup(f.actors, k)
            });
        }
        assert forall|i: int, x: SupportNodeId|
            0 <= i < n && #[trigger] parts[i].contains(x) implies lookup(g.node_owner, x.0) == Some(
            FxActorId((f.next_actor_id + i) as u32),
        ) by {
            assert(SupportNodeId(x.0) == x);
            if i < n - 1 {
                assert(lookup(h.node_owner, x.0) == Some(
                    FxActorId((f.next_actor_id + i) as u32),
                ));
                assert(!parts[n - 1].contains(x));
            }
        }
        assert forall|x: SupportNodeId| !#[trigger] in_parts(parts.take(n), x) implies lookup(
            g.node_owner,
            x.0,
        ) == lookup(f.node_owner, x.0) by {
            assert(SupportNodeId(x.0) == x);
            assert(parts.take(n)[n - 1] == part);
            assert(!part.contains(x));
            if in_parts(parts.take(n - 1), x) {
                let i = choose|i: int|
                    0 <= i < n - 1 && (#[trigger] parts.take(n - 1)[i]).contains(x);
                assert(parts.take(n)[i] == parts.take(n - 1)[i]);
            }
            assert(!in_parts(parts.take(n - 1), x));
        }
    } else {
        assert(with_children(f, parts, n) == f);
    }
}

/// The actor, apart from the nodes that are to go to children, lists just what it owns.
pub open spec fn actor_keeps(
    f: FamilyModel,
    parts: Seq<Seq<SupportNodeId>>,
    k: u32,
) -> bool {
    let a = lookup(f.actors, k)->0;
    &&& a.id == FxActorId(k)
    &&& a.owned_nodes.len() > 0
    &&& a.owned_nodes.no_duplicates()
    &&& forall|n: SupportNodeId| #[trigger]
        a.owned_nodes.contains(n) <==> lookup(f.node_owner, n.0) == Some(FxActorId(k)) && !in_parts(
            parts,
            n,
        )
}

/// Once every part has become an actor, actors and owners agree.
pub proof fn lemma_children_ownership(f: FamilyModel, parts: Seq<Seq<SupportNodeId>>)
    requires
        ascending(f.actors),
        ascending(f.node_owner),
        f.next_actor_id + parts.len() <= u32::MAX,
        separate(parts),
        forall|k: u32| #[trigger]
            has_key(f.actors, k) ==> k < f.next_actor_id && actor_keeps(f, parts, k),
        forall|n: u32|
            (#[trigger] lookup(f.node_owner, n)) is Some && !in_parts(parts, SupportNodeId(n))
                ==> has_key(f.actors, (lookup(f.node_owner, n)->0).0),
        forall|n: u32|
            (#[trigger] lookup(f.node_owner, n)) is Some ==> (lookup(f.node_owner, n)->0).0
                < f.next_actor_id,
    ensures
        ({
            let g = with_children(f, parts, parts.len() as int);
            ownership(g.actors, g.node_owner, g.next_actor_id as int)
        }),
        forall|n: u32| #[trigger]
            has_key(with_children(f, parts, parts.len() as int).node_owner, n) <==> has_key(
                f.node_owner,
                n,
            ) || in_parts(parts, SupportNodeId(n)),
{
    let n = parts.len() as int;
    let g = with_children(f, parts, n);
    lemma_with_children(f, parts, n);
    assert(parts.take(n) =~= parts);
    assert forall|k: u32| #[trigger] has_key(g.actors, k) implies k < g.next_actor_id && actor_fits(
        g.actors,
        g.node_owner,
        k,
    ) by {
        assert(lookup(g.actors, k) is Some);
        let a = lookup(g.actors, k)->0;
        if f.next_actor_id <= k < f.next_actor_id + n {
            let i = k - f.next_actor_id;
            let part = parts[i];
            lemma_sorted_nodes(part);
            assert(a.owned_nodes == sorted_nodes(part));
            assert(a.owned_nodes.no_duplicates()) by {
                assert(node_list_ascending(a.owned_nodes));
            }
            assert forall|x: SupportNodeId| #[trigger] a.owned_nodes.contains(x) <==> lookup(
                g.node_owner,
                x.0,
            ) == Some(FxActorId(k)) by {
                if part.contains(x) {
                    assert(parts[i].contains(x));
                }
                if lookup(g.node_owner, x.0) == Some(FxActorId(k)) {
                    if in_parts(parts, x) {
                        let j = choose|j: int|
                            0 <= j < parts.len() && (#[trigger] parts[j]).contains(x);
                        assert(parts[j].contains(x));
                        assert(j == i);
                    } else {
                        assert(lookup(f.node_owner, x.0) is Some);
                    }
                }
            }
        } else {
            assert(has_key(f.actors, k));
            assert(actor_keeps(f, parts, k));
            assert forall|x: SupportNodeId| #[trigger] a.owned_nodes.contains(x) <==> lookup(
                g.node_owner,
                x.0,
            ) == Some(FxActorId(k)) by {
                if in_parts(parts, x) {
                    let j = choose|j: int|
                        0 <= j < parts.len() && (#[trigger] parts[j]).contains(x);
                    assert(parts[j].contains(x));
                }
            }
        }
    }
    assert forall|x: u32| (#[trigger] lookup(g.node_owner, x)) is Some implies has_key(
        g.actors,
        (lookup(g.node_owner, x)->0).0,
    ) by {
        let node = SupportNodeId(x);
        if in_parts(parts, node) {
            let j = choose|j: int| 0 <= j < parts.len() && (#[trigger] parts[j]).contains(node);
            assert(parts[j].contains(node));
            let k = (f.next_actor_id + j) as u32;
            assert(lookup(g.actors, k) is Some);
        } else {
            assert(lookup(g.node_owner, node.0) == lookup(f.node_owner, node.0));
            assert(lookup(f.node_owner, x) is Some);
            let k = (lookup(f.node_owner, x)->0).0;
            assert(has_key(f.actors, k));
            assert(lookup(g.actors, k) == lookup(f.actors, k));
        }
    }
    assert forall|x: u32| #[trigger] has_key(g.node_owner, x) <==> has_key(f.node_owner, x)
        || in_parts(parts, SupportNodeId(x)) by {
        let node = SupportNodeId(x);
        if in_parts(parts, node) {
            let j = choose|j: int| 0 <= j < parts.len() && (#[trigger] parts[j]).contains(node);
            assert(parts[j].contains(node));
            assert(lookup(g.node_owner, node.0) is Some);
        } else {
            assert(lookup(g.node_owner, node.0) == lookup(f.node_owner, node.0));
        }
    }
}

impl FxFamily {
    /// Makes some nodes an actor of their own.
    pub(crate) fn adopt(&mut self, nodes: &Vec<SupportNodeId>) -> (id: FxActorId)
        requires
            ascending(old(self)@.actors),
            ascending(old(self)@.node_owner),
            nodes_ascending(old(self)@.asset.support_nodes),
            old(self).next_actor_id < u32::MAX,
        ensures
            id == FxActorId(old(self).next_actor_id),
            final(self)@ == with_child(old(self)@, nodes@),
            ascending(final(self)@.actors),
            ascending(final(self)@.node_owner),
    {
        let ghost f = self@;
        let id = FxActorId(self.next_actor_id);
        self.next_actor_id = self.next_actor_id + 1;
        let actor = build_actor(id, nodes, &self.asset);
        self.assign(nodes, id);
        self.put_actor(actor);
        id
    }

    /// Makes an actor the owner of some nodes.
    pub(crate) fn assign(&mut self, nodes: &Vec<SupportNodeId>, id: FxActorId)
        requires
            ascending(old(self)@.node_owner),
        ensures
            ascending(final(self)@.node_owner),
            final(self)@ == (FamilyModel {
                node_owner: assigned(old(self)@.node_owner, nodes@, id, nodes.len() as int),
                ..old(self)@
            }),
    {
        let ghost f = self@;
        let mut i: usize = 0;
        while i < nodes.len()
            invariant
                i <= nodes.len(),
                ascending(self@.node_owner),
                self@ == (FamilyModel {
                    node_owner: assigned(f.node_owner, nodes@, id, i as int),
                    ..f
                }),
            decreases nodes.len() - i,
        {
            let _ = self.node_owner.insert(nodes[i].0, id);
            i = i + 1;
        }
    }

    /// Files an actor under its id.
    pub(crate) fn put_actor(&mut self, actor: FxActor)
        requires
            ascending(old(self)@.actors),
        ensures
            ascending(final(self)@.actors),
            final(self)@ == (FamilyModel {
                actors: put(old(self)@.actors, actor.id.0, actor@),
                ..old(self)@
            }),
    {
        proof {
            lemma_ordered_actors(self.actors@);
            lemma_mapped_edits(self.actors@, actor_view(), actor.id.0, actor);
        }
        let _ = self.actors.insert(actor.id.0, actor);
        proof {
            lemma_mapped(self.actors@, actor_view(), actor.id.0);
        }
    }
}

/// The models of actors are in order just when the actors are.
pub proof fn lemma_ordered_actors(s: Seq<(u32, FxActor)>)
    ensures
        ascending(s) <==> ascending(actor_entries(s)),
{
    let m = actor_entries(s);
    if ascending(s) {
        lemma_mapped(s, actor_view(), 0);
    }
    if ascending(m) {
        assert forall|i: int, j: int| 0 <= i < j < s.len() implies (#[trigger] s[i]).0 < (
        #[trigger] s[j]).0 by {
            assert(m[i].0 < m[j].0);
        }
    }
}

/// The ids of the nodes of an asset, in order.
pub open spec fn all_nodes(m: AssetModel) -> Seq<SupportNodeId> {
    Seq::new(m.support_nodes.len(), |i: int| m.support_nodes[i].id)
}

pub open spec fn initial_chunk_state() -> ChunkRuntimeState {
    ChunkRuntimeState { health: Scalar { bits: ONE_BITS }, accumulated_damage: Scalar { bits: 0 } }
}

pub open spec fn initial_node_state() -> NodeRuntimeState {
    NodeRuntimeState { health: Scalar { bits: ONE_BITS }, accumulated_damage: Scalar { bits: 0 } }
}

/// A body before its nodes have owners: everything is whole.
pub open spec fn fresh_family(id: FxFamilyId, m: AssetModel) -> FamilyModel {
    FamilyModel {
        id,
        asset: m,
        actors: Seq::empty(),
        node_owner: Seq::empty(),
        node_states: Seq::new(
            m.support_nodes.len(),
            |i: int| (m.support_nodes[i].id.0, initial_node_state()),
        ),
        chunk_states: Seq::new(
            m.chunks.len(),
            |i: int| (m.chunks[i].id.0, initial_chunk_state()),
        ),
        bond_states: Seq::new(
            m.internal_bonds.len(),
            |i: int|
                BondRuntimeState {
                    health: m.internal_bonds[i].base_health,
                    effective_length: m.internal_bonds[i].length,
                    accumulated_damage: Scalar { bits: 0 },
                },
        ),
        external_bonds: Seq::empty(),
        dynamic_structural_bonds: Seq::empty(),
        dirty_actors: Seq::empty(),
        next_actor_id: 0,
        next_event_id: 0,
    }
}

/// The body that an asset starts as: one actor for each connected part.
pub open spec fn instantiated(id: FxFamilyId, m: AssetModel) -> FamilyModel {
    let f = fresh_family(id, m);
    let parts = node_parts(f.links(), all_nodes(m));
    with_children(f, parts, parts.len() as int)
}

/// There are no more parts than items.
pub proof fn lemma_parts_bounded<T>(rel: spec_fn(T, T) -> bool, rest: Seq<T>)
    ensures
        parts_of(rel, rest).len() <= rest.len(),
    decreases rest.len(),
{
    if rest.len() > 0 {
        lemma_reaches_self(rel, rest[0]);
        let miss = |x: T| !reaches(rel, rest[0], x);
        lemma_filter_shrinks(rest, miss, 0);
        lemma_parts_bounded(rel, rest.filter(miss));
    }
}

/// The parts of distinct nodes divide them, and there are no more parts than nodes.
pub proof fn lemma_node_parts(m: LinkModel, nodes: Seq<SupportNodeId>)
    requires
        nodes.no_duplicates(),
    ensures
        separate(node_parts(m, nodes)),
        forall|x: SupportNodeId| #[trigger]
            in_parts(node_parts(m, nodes), x) <==> nodes.contains(x),
        node_parts(m, nodes).len() <= nodes.len(),
{
    let s = sorted_nodes(nodes);
    lemma_sorted_nodes(nodes);
    assert(s.no_duplicates()) by {
        assert(node_list_ascending(s));
    }
    lemma_parts_partition(held_among(m, nodes), s);
    lemma_parts_bounded(held_among(m, nodes), s);
}

/// A body that was just made is well-formed.
pub proof fn lemma_instantiated_wf(id: FxFamilyId, m: AssetModel)
    requires
        sound(m),
        m.support_nodes.len() <= u32::MAX,
    ensures
        instantiated(id, m).wf(),
{
    let f = fresh_family(id, m);
    let nodes = all_nodes(m);
    let parts = node_parts(f.links(), nodes);
    assert(nodes.no_duplicates()) by {
        assert forall|i: int, j: int| 0 <= i < nodes.len() && 0 <= j < nodes.len() && i != j implies nodes[i]
            != nodes[j] by {
            if i < j {
                assert(m.support_nodes[i].id.0 < m.support_nodes[j].id.0);
            } else {
                assert(m.support_nodes[j].id.0 < m.support_nodes[i].id.0);
            }
        }
    }
    lemma_node_parts(f.links(), nodes);
    lemma_children_ownership(f, parts);
    lemma_with_children(f, parts, parts.len() as int);
    let g = instantiated(id, m);
    assert forall|n: u32| #[trigger] has_key(g.node_owner, n) <==> has_node(
        m.support_nodes,
        SupportNodeId(n),
    ) by {
        assert(has_key(g.node_owner, n) <==> in_parts(parts, SupportNodeId(n)));
        if has_node(m.support_nodes, SupportNodeId(n)) {
            let i = node_index(m.support_nodes, SupportNodeId(n));
            assert(nodes[i] == SupportNodeId(n));
        }
        if nodes.contains(SupportNodeId(n)) {
            let i = choose|i: int| 0 <= i < nodes.len() && nodes[i] == SupportNodeId(n);
            assert(m.support_nodes[i].id == SupportNodeId(n));
        }
    }
    assert forall|n: u32| #[trigger] has_key(g.node_states, n) <==> has_node(
        m.support_nodes,
        SupportNodeId(n),
    ) by {
        if has_node(m.support_nodes, SupportNodeId(n)) {
            let i = node_index(m.support_nodes, SupportNodeId(n));
            assert(g.node_states[i].0 == n);
        }
        if has_key(g.node_states, n) {
            let i = choose|i: int| 0 <= i < g.node_states.len() && (#[trigger] g.node_states[i]).0 == n;
            assert(m.support_nodes[i].id == SupportNodeId(n));
        }
    }
    assert forall|c: u32| #[trigger] has_key(g.chunk_states, c) <==> has_chunk(
        m.chunks,
        ChunkId(c),
    ) by {
        if has_chunk(m.chunks, ChunkId(c)) {
            let i = chunk_index(m.chunks, ChunkId(c));
            assert(g.chunk_states[i].0 == c);
        }
        if has_key(g.chunk_states, c) {
            let i = choose|i: int|
                0 <= i < g.chunk_states.len() && (#[trigger] g.chunk_states[i]).0 == c;
            assert(m.chunks[i].id == ChunkId(c));
        }
    }
    assert(ascending(g.node_states)) by {
        assert forall|i: int, j: int| 0 <= i < j < g.node_states.len() implies (
        #[trigger] g.node_states[i]).0 < (#[trigger] g.node_states[j]).0 by {
            assert(m.support_nodes[i].id.0 < m.support_nodes[j].id.0);
        }
    }
    assert(ascending(g.chunk_states)) by {
        assert forall|i: int, j: int| 0 <= i < j < g.chunk_states.len() implies (
        #[trigger] g.chunk_states[i]).0 < (#[trigger] g.chunk_states[j]).0 by {
            assert(m.chunks[i].id.0 < m.chunks[j].id.0);
        }
    }
}

impl FxFamily {
    /// The bonds, by reference.
    pub(crate) fn links(&self) -> (r: Links<'_>)
        ensures
            r@ == self@.links(),
    {
        Links {
            bonds: &self.asset.internal_bonds,
            states: &self.bond_states,
            external: &self.external_bonds,
            dynamic: &self.dynamic_structural_bonds,
        }
    }

    /// The body of an asset, with one actor for each connected part.
    pub fn instantiate(id: FxFamilyId, asset: FxAsset) -> (r: Self)
        requires
            sound(asset@),
            asset@.support_nodes.len() <= u32::MAX,
        ensures
            r@ == instantiated(id, asset@),
            r@.wf(),
    {
        let ghost m = asset@;
        let mut all: Vec<SupportNodeId> = Vec::new();
        let mut node_states = IdMap::<NodeRuntimeState>::new();
        let mut i: usize = 0;
        while i < asset.support_nodes.len()
            invariant
                i <= asset.support_nodes.len(),
                m == asset@,
                all.len() == i,
                node_states@.len() == i,
                forall|k: int| 0 <= k < i ==> #[trigger] all[k] == m.support_nodes[k].id,
                forall|k: int|
                    0 <= k < i ==> #[trigger] node_states@[k] == (
                        m.support_nodes[k].id.0,
                        initial_node_state(),
                    ),
            decreases asset.support_nodes.len() - i,
        {
            let node = asset.support_nodes[i].id;
            assert(m.support_nodes[i as int].id == node);
            all.push(node);
            node_states.entries.push(
                (
                    node.0,
                    NodeRuntimeState {
                        health: Scalar { bits: ONE_BITS },
                        accumulated_damage: Scalar { bits: 0 },
                    },
                ),
            );
            i = i + 1;
        }
        let mut chunk_states = IdMap::<ChunkRuntimeState>::new();
        let mut i: usize = 0;
        while i < asset.chunks.len()
            invariant
                i <= asset.chunks.len(),
                m == asset@,
                chunk_states@.len() == i,
                forall|k: int|
                    0 <= k < i ==> #[trigger] chunk_states@[k] == (
                        m.chunks[k].id.0,
                        initial_chunk_state(),
                    ),
            decreases asset.chunks.len() - i,
        {
            assert(m.chunks[i as int].id == asset.chunks[i as int].id);
            chunk_states.entries.push(
                (
                    asset.chunks[i].id.0,
                    ChunkRuntimeState {
                        health: Scalar { bits: ONE_BITS },
                        accumulated_damage: Scalar { bits: 0 },
                    },
                ),
            );
            i = i + 1;
        }
        let mut bond_states: Vec<BondRuntimeState> = Vec::new();
        let mut i: usize = 0;
        while i < asset.internal_bonds.len()
            invariant
                i <= asset.internal_bonds.len(),
                m == asset@,
                bond_states.len() == i,
                forall|k: int|
                    0 <= k < i ==> #[trigger] bond_states[k] == (BondRuntimeState {
                        health: m.internal_bonds[k].base_health,
                        effective_length: m.internal_bonds[k].length,
                        accumulated_damage: Scalar { bits: 0 },
                    }),
            decreases asset.internal_bonds.len() - i,
        {
            assert(m.internal_bonds[i as int] == asset.internal_bonds[i as int]@);
            bond_states.push(
                BondRuntimeState {
                    health: asset.internal_bonds[i].base_health,
                    effective_length: asset.internal_bonds[i].length,
                    accumulated_damage: Scalar { bits: 0 },
                },
            );
            i = i + 1;
        }
        let mut family = FxFamily {
            id,
            asset,
            actors: IdMap::new(),
            node_owner: IdMap::new(),
            node_states,
            chunk_states,
            bond_states,
            external_bonds: IdMap::new(),
            dynamic_structural_bonds: IdMap::new(),
            dirty_actors: IdSet::new(),
            next_actor_id: 0,
            next_event_id: 0,
        };
        let ghost f = fresh_family(id, m);
        let ghost parts = node_parts(f.links(), all_nodes(m));
        proof {
            let g = family@;
            assert(g.actors =~= f.actors);
            assert(g.node_owner =~= f.node_owner);
            assert(g.node_states =~= f.node_states);
            assert(g.chunk_states =~= f.chunk_states);
            assert(g.bond_states =~= f.bond_states);
            assert(g.external_bonds =~= f.external_bonds);
            assert(g.dynamic_structural_bonds =~= f.dynamic_structural_bonds);
            assert(g.dirty_actors =~= f.dirty_actors);
            assert(g == f);
            assert(all@ =~= all_nodes(m));
            lemma_instantiated_wf(id, m);
            assert(all@.no_duplicates()) by {
                assert forall|i: int, j: int|
                    0 <= i < all@.len() && 0 <= j < all@.len() && i != j implies all@[i]
                    != all@[j] by {
                    if i < j {
                        assert(m.support_nodes[i].id.0 < m.support_nodes[j].id.0);
                    } else {
                        assert(m.support_nodes[j].id.0 < m.support_nodes[i].id.0);
                    }
                }
            }
            lemma_node_parts(f.links(), all@);
        }
        let components = connected_parts(&family.links(), &all);
        let mut i: usize = 0;
        while i < components.len()
            invariant
                i <= components.len(),
                node_lists(components@) == parts,
                parts.len() <= u32::MAX,
                f.next_actor_id == 0,
                f.asset == m,
                nodes_ascending(m.support_nodes),
                separate(parts),
                ascending(f.actors),
                ascending(f.node_owner),
                family@ == with_children(f, parts, i as int),
                ascending(family@.actors),
                ascending(family@.node_owner),
            decreases components.len() - i,
        {
            proof {
                lemma_with_children(f, parts, i as int);
                assert(parts[i as int] == components[i as int]@);
            }
            let _ = family.adopt(&components[i]);
            i = i + 1;
        }
        family
    }
}

} // verus!
