//! Splitting actors whose nodes no longer hang together.

use crate::actor::{actor_of, build_actor, voxels_of};
use crate::asset::{has_node, node_index, nodes_ascending, AssetModel, FxAsset};
use crate::components::{in_parts, lemma_filter_none, lemma_parts_connected, parts_of, separate};
use crate::family::{
    actor_fits, actor_keeps, actor_view, assigned, lemma_assigned, lemma_children_ownership,
    lemma_node_parts, lemma_ordered_actors, lemma_with_children, with_children, FamilyModel,
    FxFamily,
};
use crate::idmap::{
    ascending, has_key, is_id_rank, lemma_id_rank_is, lemma_lookup_at, lemma_lookup_found,
    lemma_mapped, lemma_put, lemma_rank_exists, lemma_without_id, lookup, put, without_id,
};
use crate::ids::{EventId, FxActorId, FxFamilyId, SupportNodeId};
use crate::reach::{
    lemma_distinct_within, lemma_reaches_self, lemma_reaches_step, lemma_reaches_within, reaches,
    symmetric,
};
use crate::structure::{
    anchors_join, bond_joins, connected_parts, connection_joins, held_among, lemma_sorted_nodes,
    node_list_ascending, node_lists, node_parts, sorted_nodes, LinkModel,
};
use vstd::prelude::*;

verus! {

/// An actor has come apart: it keeps one fragment, and each other one is a new actor.
#[derive(Debug, PartialEq)]
pub struct SplitEvent {
    pub event_id: EventId,
    pub family: FxFamilyId,
    pub parent_actor: FxActorId,
    pub kept_actor: FxActorId,
    pub created_children: Vec<FxActorId>,
    pub fragments: Vec<Vec<SupportNodeId>>,
    pub kept_fragment: Vec<SupportNodeId>,
}

#[verifier::ext_equal]
pub ghost struct SplitModel {
    pub event_id: EventId,
    pub family: FxFamilyId,
    pub parent_actor: FxActorId,
    pub kept_actor: FxActorId,
    pub created_children: Seq<FxActorId>,
    pub fragments: Seq<Seq<SupportNodeId>>,
    pub kept_fragment: Seq<SupportNodeId>,
}

impl View for SplitEvent {
    type V = SplitModel;

    open spec fn view(&self) -> SplitModel {
        SplitModel {
            event_id: self.event_id,
            family: self.family,
            parent_actor: self.parent_actor,
            kept_actor: self.kept_actor,
            created_children: self.created_children@,
            fragments: node_lists(self.fragments@),
            kept_fragment: self.kept_fragment@,
        }
    }
}

pub open spec fn split_models(s: Seq<SplitEvent>) -> Seq<SplitModel> {
    s.map_values(|e: SplitEvent| e@)
}

/// The number of voxels of the first `n` of some nodes.
pub open spec fn voxel_total(m: AssetModel, nodes: Seq<SupportNodeId>, n: int) -> nat
    decreases n,
{
    if n <= 0 {
        0
    } else {
        voxel_total(m, nodes, n - 1) + voxels_of(m, nodes[n - 1]).len()
    }
}

pub open spec fn fragment_size(m: AssetModel, nodes: Seq<SupportNodeId>) -> nat {
    voxel_total(m, nodes, nodes.len() as int)
}

/// No fragment is larger, and none before this one is as large.
pub open spec fn is_largest(m: AssetModel, parts: Seq<Seq<SupportNodeId>>, k: int) -> bool {
    &&& 0 <= k < parts.len()
    &&& forall|i: int|
        0 <= i < parts.len() ==> fragment_size(m, #[trigger] parts[i]) <= fragment_size(m, parts[k])
    &&& forall|i: int|
        0 <= i < k ==> fragment_size(m, #[trigger] parts[i]) < fragment_size(m, parts[k])
}

/// The fragment that the actor keeps: the largest one, of several the one with the least node.
/// Fragments are in the order of their least nodes.
pub open spec fn kept_place(m: AssetModel, parts: Seq<Seq<SupportNodeId>>) -> int {
    choose|k: int| is_largest(m, parts, k)
}

/// The ids of `n` new actors.
pub open spec fn new_ids(first: u32, n: int) -> Seq<FxActorId> {
    Seq::new(n as nat, |i: int| FxActorId((first + i) as u32))
}

/// The body after an actor has been reduced to one of its fragments.
pub open spec fn reduced_to(f: FamilyModel, actor: FxActorId, kept: Seq<SupportNodeId>) -> FamilyModel {
    FamilyModel {
        actors: put(f.actors, actor.0, actor_of(actor, kept, f.asset)),
        node_owner: assigned(f.node_owner, kept, actor, kept.len() as int),
        ..f
    }
}

/// What a look at an actor does: it is no longer marked, and where it has come apart, all its
/// fragments but the kept one become actors.
pub open spec fn split_one(f: FamilyModel, k: u32) -> (FamilyModel, Option<SplitModel>) {
    let unmarked = FamilyModel { dirty_actors: without_id(f.dirty_actors, k), ..f };
    match lookup(f.actors, k) {
        None => (unmarked, None),
        Some(a) => {
            let parts = f.parts(a);
            if parts.len() <= 1 {
                (unmarked, None)
            } else {
                let kept = kept_place(f.asset, parts);
                let others = parts.remove(kept);
                let g = with_children(
                    reduced_to(f, FxActorId(k), parts[kept]),
                    others,
                    others.len() as int,
                );
                (
                    FamilyModel {
                        dirty_actors: without_id(f.dirty_actors, k),
                        next_event_id: (f.next_event_id + 1) as u32,
                        ..g
                    },
                    Some(
                        SplitModel {
                            event_id: EventId(f.next_event_id),
                            family: f.id,
                            parent_actor: FxActorId(k),
                            kept_actor: FxActorId(k),
                            created_children: new_ids(f.next_actor_id, others.len() as int),
                            fragments: parts,
                            kept_fragment: parts[kept],
                        },
                    ),
                )
            }
        },
    }
}

/// What looks at the first `n` of some actors do, one after the other.
pub open spec fn split_upto(f: FamilyModel, keys: Seq<u32>, n: int) -> (FamilyModel, Seq<SplitModel>)
    decreases n,
{
    if n <= 0 {
        (f, Seq::empty())
    } else {
        let (g, events) = split_upto(f, keys, n - 1);
        let (h, event) = split_one(g, keys[n - 1]);
        (
            h,
            match event {
                Some(e) => events.push(e),
                None => events,
            },
        )
    }
}

/// What looks at all marked actors do.
pub open spec fn split_all(f: FamilyModel) -> (FamilyModel, Seq<SplitModel>) {
    split_upto(f, f.dirty_actors, f.dirty_actors.len() as int)
}

/// Some fragment is the largest.
pub proof fn lemma_largest_unique(m: AssetModel, parts: Seq<Seq<SupportNodeId>>, k: int)
    requires
        is_largest(m, parts, k),
    ensures
        kept_place(m, parts) == k,
{
    let j = kept_place(m, parts);
    assert(is_largest(m, parts, j));
    if j < k {
        assert(fragment_size(m, parts[j]) < fragment_size(m, parts[k]));
    }
    if k < j {
        assert(fragment_size(m, parts[k]) < fragment_size(m, parts[j]));
    }
}

/// There is a largest among the fragments.
pub proof fn lemma_largest_exists(m: AssetModel, parts: Seq<Seq<SupportNodeId>>)
    requires
        parts.len() > 0,
    ensures
        is_largest(m, parts, kept_place(m, parts)),
    decreases parts.len(),
{
    if parts.len() == 1 {
        assert(is_largest(m, parts, 0));
    } else {
        let t = parts.drop_last();
        lemma_largest_exists(m, t);
        let k = kept_place(m, t);
        let last = parts.len() - 1;
        assert(t[k] == parts[k]);
        if fragment_size(m, parts[last]) > fragment_size(m, parts[k]) {
            assert forall|i: int| 0 <= i < last implies fragment_size(m, #[trigger] parts[i])
                < fragment_size(m, parts[last]) by {
                assert(fragment_size(m, t[i]) <= fragment_size(m, t[k]));
            }
            assert(is_largest(m, parts, last));
        } else {
            assert forall|i: int| 0 <= i < parts.len() implies fragment_size(m, #[trigger] parts[i])
                <= fragment_size(m, parts[k]) by {
                if i < last {
                    assert(fragment_size(m, t[i]) <= fragment_size(m, t[k]));
                }
            }
            assert forall|i: int| 0 <= i < k implies fragment_size(m, #[trigger] parts[i])
                < fragment_size(m, parts[k]) by {
                assert(fragment_size(m, t[i]) < fragment_size(m, t[k]));
            }
            assert(is_largest(m, parts, k));
        }
    }
}

/// Taking one part out leaves parts that are separate, without its items.
pub proof fn lemma_others(parts: Seq<Seq<SupportNodeId>>, k: int)
    requires
        separate(parts),
        0 <= k < parts.len(),
    ensures
        separate(parts.remove(k)),
        forall|x: SupportNodeId| #[trigger]
            in_parts(parts.remove(k), x) <==> in_parts(parts, x) && !parts[k].contains(x),
{
    let others = parts.remove(k);
    assert forall|i: int| 0 <= i < others.len() implies (#[trigger] others[i]).len() > 0
        && others[i].no_duplicates() by {
        let j = if i < k {
            i
        } else {
            i + 1
        };
        assert(others[i] == parts[j]);
    }
    assert forall|i: int, j: int, x: SupportNodeId|
        0 <= i < others.len() && 0 <= j < others.len() && #[trigger] others[i].contains(x)
            && #[trigger] others[j].contains(x) implies i == j by {
        let a = if i < k {
            i
        } else {
            i + 1
        };
        let b = if j < k {
            j
        } else {
            j + 1
        };
        assert(parts[a].contains(x) && parts[b].contains(x));
    }
    assert forall|x: SupportNodeId| #[trigger] in_parts(others, x) <==> in_parts(parts, x)
        && !parts[k].contains(x) by {
        if in_parts(others, x) {
            let i = choose|i: int| 0 <= i < others.len() && (#[trigger] others[i]).contains(x);
            let a = if i < k {
                i
            } else {
                i + 1
            };
            assert(parts[a].contains(x));
        }
        if in_parts(parts, x) && !parts[k].contains(x) {
            let a = choose|a: int| 0 <= a < parts.len() && (#[trigger] parts[a]).contains(x);
            let i = if a < k {
                a
            } else {
                a - 1
            };
            assert(others[i] == parts[a]);
        }
    }
}

/// The look at one actor, step by step: which parts there are and what becomes of the owners.
proof fn lemma_split_step(f: FamilyModel, k: u32)
    requires
        f.wf(),
        lookup(f.actors, k) is Some,
        f.parts(lookup(f.actors, k)->0).len() > 1,
        f.next_actor_id + f.parts(lookup(f.actors, k)->0).len() <= u32::MAX + 1,
        f.next_event_id < u32::MAX,
    ensures
        ({
            let parts = f.parts(lookup(f.actors, k)->0);
            let kept = kept_place(f.asset, parts);
            let others = parts.remove(kept);
            let g = reduced_to(f, FxActorId(k), parts[kept]);
            &&& is_largest(f.asset, parts, kept)
            &&& separate(parts)
            &&& separate(others)
            &&& ascending(g.actors)
            &&& ascending(g.node_owner)
        }),
        split_one(f, k).0.wf(),
        split_one(f, k).0.asset == f.asset,
        split_one(f, k).0.next_event_id == f.next_event_id + 1,
        split_one(f, k).0.next_actor_id == f.next_actor_id + f.parts(
            lookup(f.actors, k)->0,
        ).len() - 1,
        forall|j: u32| #[trigger]
            has_key(f.actors, j) && j != k ==> lookup(split_one(f, k).0.actors, j) == lookup(
                f.actors,
                j,
            ),
{
    let a = lookup(f.actors, k)->0;
    let id = FxActorId(k);
    assert(has_key(f.actors, k));
    assert(actor_fits(f.actors, f.node_owner, k));
    let parts = f.parts(a);
    lemma_node_parts(f.links(), a.owned_nodes);
    lemma_largest_exists(f.asset, parts);
    let kept = kept_place(f.asset, parts);
    let mine = parts[kept];
    let others = parts.remove(kept);
    lemma_others(parts, kept);
    let g = reduced_to(f, id, mine);
    let actor = actor_of(id, mine, f.asset);
    lemma_put(f.actors, k, actor);
    lemma_assigned(f.node_owner, mine, id, mine.len() as int);
    assert(mine.take(mine.len() as int) =~= mine);
    lemma_sorted_nodes(mine);
    assert forall|x: SupportNodeId| #[trigger] mine.contains(x) implies lookup(f.node_owner, x.0)
        == Some(id) by {
        assert(in_parts(parts, x));
        assert(a.owned_nodes.contains(x));
    }
    assert forall|n: u32| #[trigger] lookup(g.node_owner, n) == lookup(f.node_owner, n) by {
        if mine.contains(SupportNodeId(n)) {
            assert(lookup(f.node_owner, SupportNodeId(n).0) == Some(id));
        }
    }
    assert forall|j: u32| #[trigger] has_key(g.actors, j) implies j < g.next_actor_id
        && actor_keeps(g, others, j) by {
        assert(has_key(f.actors, j));
        assert(actor_fits(f.actors, f.node_owner, j));
        if j == k {
            assert(lookup(g.actors, j) == Some(actor));
            assert(actor.owned_nodes.no_duplicates()) by {
                assert(node_list_ascending(actor.owned_nodes));
            }
            assert forall|x: SupportNodeId| #[trigger] actor.owned_nodes.contains(x) <==> lookup(
                g.node_owner,
                x.0,
            ) == Some(FxActorId(j)) && !in_parts(others, x) by {
                assert(lookup(g.node_owner, x.0) == lookup(f.node_owner, x.0));
                assert(actor.owned_nodes.contains(x) <==> mine.contains(x));
                assert(a.owned_nodes.contains(x) <==> lookup(f.node_owner, x.0) == Some(id));
                assert(in_parts(parts, x) <==> a.owned_nodes.contains(x));
                assert(in_parts(others, x) <==> in_parts(parts, x) && !mine.contains(x));
                if mine.contains(x) {
                    assert(parts[kept].contains(x));
                }
            }
        } else {
            let b = lookup(f.actors, j)->0;
            assert(lookup(g.actors, j) == Some(b));
            assert forall|x: SupportNodeId| #[trigger] b.owned_nodes.contains(x) <==> lookup(
                g.node_owner,
                x.0,
            ) == Some(FxActorId(j)) && !in_parts(others, x) by {
                assert(lookup(g.node_owner, x.0) == lookup(f.node_owner, x.0));
                if in_parts(others, x) {
                    assert(in_parts(parts, x));
                    assert(a.owned_nodes.contains(x));
                }
            }
        }
    }
    assert forall|n: u32|
        (#[trigger] lookup(g.node_owner, n)) is Some && !in_parts(others, SupportNodeId(n))
            implies has_key(g.actors, (lookup(g.node_owner, n)->0).0) by {
        assert(lookup(g.node_owner, n) == lookup(f.node_owner, n));
        assert(has_key(f.actors, (lookup(f.node_owner, n)->0).0));
    }
    assert forall|n: u32| (#[trigger] lookup(g.node_owner, n)) is Some implies (lookup(
        g.node_owner,
        n,
    )->0).0 < g.next_actor_id by {
        assert(lookup(g.node_owner, n) == lookup(f.node_owner, n));
        assert(has_key(f.actors, (lookup(f.node_owner, n)->0).0));
    }
    lemma_children_ownership(g, others);
    lemma_with_children(g, others, others.len() as int);
    lemma_without_id(f.dirty_actors, k);
    let h = split_one(f, k).0;
    assert forall|n: u32| #[trigger] has_key(h.node_owner, n) <==> has_node(
        f.asset.support_nodes,
        SupportNodeId(n),
    ) by {
        assert(has_key(h.node_owner, n) <==> has_key(g.node_owner, n) || in_parts(
            others,
            SupportNodeId(n),
        ));
        assert(lookup(g.node_owner, n) == lookup(f.node_owner, n));
        assert(has_key(f.node_owner, n) <==> has_node(
            f.asset.support_nodes,
            SupportNodeId(n),
        ));
        if in_parts(others, SupportNodeId(n)) {
            assert(in_parts(parts, SupportNodeId(n)));
            assert(a.owned_nodes.contains(SupportNodeId(n)));
            assert(lookup(f.node_owner, SupportNodeId(n).0) is Some);
        }
    }
    assert forall|j: u32| #[trigger] has_key(f.actors, j) && j != k implies lookup(h.actors, j)
        == lookup(f.actors, j) by {
        assert(j < f.next_actor_id);
        assert(lookup(g.actors, j) == lookup(f.actors, j));
    }
}

/// Adds up the voxels of a fragment.
fn fragment_voxels(nodes: &Vec<SupportNodeId>, asset: &FxAsset) -> (r: u128)
    requires
        nodes_ascending(asset@.support_nodes),
    ensures
        r == fragment_size(asset@, nodes@),
{
    let mut total: u128 = 0;
    let mut i: usize = 0;
    while i < nodes.len()
        invariant
            i <= nodes.len(),
            nodes_ascending(asset@.support_nodes),
            total == voxel_total(asset@, nodes@, i as int),
            total <= i * usize::MAX,
        decreases nodes.len() - i,
    {
        let count: usize = match asset.node(nodes[i]) {
            Some(node) => node.voxels.len(),
            None => 0,
        };
        proof {
            assert(i * usize::MAX + usize::MAX == (i + 1) * usize::MAX) by (nonlinear_arith);
            assert((i + 1) * usize::MAX <= 0xffff_ffff_ffff_ffff * 0xffff_ffff_ffff_ffff)
                by (nonlinear_arith)
                requires
                    0 <= i + 1 <= 0xffff_ffff_ffff_ffff,
                    0 <= usize::MAX <= 0xffff_ffff_ffff_ffff,
            ;
        }
        total = total + count as u128;
        i = i + 1;
    }
    total
}

/// The place of the fragment that an actor keeps.
fn choose_kept(parts: &Vec<Vec<SupportNodeId>>, asset: &FxAsset) -> (r: usize)
    requires
        nodes_ascending(asset@.support_nodes),
        parts.len() > 0,
    ensures
        is_largest(asset@, node_lists(parts@), r as int),
        r == kept_place(asset@, node_lists(parts@)),
{
    let ghost lists = node_lists(parts@);
    let ghost m = asset@;
    let mut best: usize = 0;
    let mut best_size: u128 = fragment_voxels(&parts[0], asset);
    let mut i: usize = 1;
    assert(lists[0] == parts[0]@);
    while i < parts.len()
        invariant
            1 <= i <= parts.len(),
            best < i,
            m == asset@,
            lists == node_lists(parts@),
            nodes_ascending(m.support_nodes),
            best_size == fragment_size(m, lists[best as int]),
            forall|k: int| 0 <= k < i ==> fragment_size(m, #[trigger] lists[k]) <= best_size,
            forall|k: int| 0 <= k < best ==> fragment_size(m, #[trigger] lists[k]) < best_size,
        decreases parts.len() - i,
    {
        let size = fragment_voxels(&parts[i], asset);
        assert(lists[i as int] == parts[i as int]@);
        if size > best_size {
            best = i;
            best_size = size;
        }
        i = i + 1;
    }
    proof {
        assert(is_largest(m, lists, best as int));
        lemma_largest_unique(m, lists, best as int);
    }
    best
}

/// A copy of a list of nodes.
pub fn copy_nodes(nodes: &Vec<SupportNodeId>) -> (r: Vec<SupportNodeId>)
    ensures
        r@ == nodes@,
{
    let r = nodes.clone();
    assert(r@ =~= nodes@);
    r
}

impl FxFamily {
    /// Looks at one actor.
    fn split_actor(&mut self, k: u32) -> (r: Option<SplitEvent>)
        requires
            old(self)@.wf(),
            one_fits(old(self)@, k),
        ensures
            final(self)@ == split_one(old(self)@, k).0,
            match r {
                Some(e) => split_one(old(self)@, k).1 == Some(e@),
                None => split_one(old(self)@, k).1 is None,
            },
            final(self)@.wf(),
    {
        let ghost f = self@;
        proof {
            lemma_ordered_actors(self.actors@);
            lemma_mapped(self.actors@, actor_view(), k);
            lemma_without_id(f.dirty_actors, k);
        }
        let owned = match self.actors.get(k) {
            None => {
                self.dirty_actors.remove(k);
                return None;
            },
            Some(actor) => {
                assert(lookup(f.actors, k) == Some(actor@));
                copy_nodes(&actor.owned_nodes)
            },
        };
        let ghost a = lookup(f.actors, k)->0;
        proof {
            assert(has_key(f.actors, k));
            assert(actor_fits(f.actors, f.node_owner, k));
        }
        let fragments = connected_parts(&self.links(), &owned);
        let ghost parts = f.parts(a);
        assert(node_lists(fragments@) == parts);
        if fragments.len() <= 1 {
            self.dirty_actors.remove(k);
            return None;
        }
        proof {
            lemma_split_step(f, k);
        }
        let id = FxActorId(k);
        let kept = choose_kept(&fragments, &self.asset);
        let kept_fragment = copy_nodes(&fragments[kept]);
        assert(parts[kept as int] == fragments[kept as int]@);
        let actor = build_actor(id, &kept_fragment, &self.asset);
        self.assign(&kept_fragment, id);
        self.put_actor(actor);
        let ghost g = reduced_to(f, id, parts[kept as int]);
        let ghost others = parts.remove(kept as int);
        assert(self@ == g);
        let first = self.next_actor_id;
        let mut created_children: Vec<FxActorId> = Vec::new();
        let mut i: usize = 0;
        let ghost mut done: int = 0;
        while i < fragments.len()
            invariant
                i <= fragments.len(),
                kept < fragments.len(),
                node_lists(fragments@) == parts,
                others == parts.remove(kept as int),
                parts.len() > 1,
                separate(others),
                g.next_actor_id + parts.len() <= u32::MAX + 1,
                nodes_ascending(g.asset.support_nodes),
                ascending(g.actors),
                ascending(g.node_owner),
                first == g.next_actor_id,
                done == (if i <= kept {
                    i as int
                } else {
                    i - 1
                }),
                created_children@ == new_ids(first, done),
                self@ == with_children(g, others, done),
                ascending(self@.actors),
                ascending(self@.node_owner),
            decreases fragments.len() - i,
        {
            if i != kept {
                proof {
                    lemma_with_children(g, others, done);
                    assert(others[done] == parts[i as int]);
                    assert(parts[i as int] == fragments[i as int]@);
                }
                let child = self.adopt(&fragments[i]);
                created_children.push(child);
                proof {
                    assert(created_children@ =~= new_ids(first, done + 1));
                    done = done + 1;
                }
            }
            i = i + 1;
        }
        proof {
            lemma_with_children(g, others, others.len() as int);
            assert(done == others.len());
        }
        let event_id = EventId(self.next_event_id);
        self.next_event_id = self.next_event_id + 1;
        self.dirty_actors.remove(k);
        let event = SplitEvent {
            event_id,
            family: self.id,
            parent_actor: id,
            kept_actor: id,
            created_children,
            fragments,
            kept_fragment,
        };
        Some(event)
    }
}

/// A node of each actor, with the fragments of one of them in its place.
pub open spec fn representatives(f: FamilyModel, k: u32) -> Seq<SupportNodeId> {
    let parts = f.parts(lookup(f.actors, k)->0);
    Seq::new(
        (f.actors.len() + parts.len() - 1) as nat,
        |i: int|
            if i >= f.actors.len() {
                parts[i - f.actors.len() + 1][0]
            } else if f.actors[i].0 == k {
                parts[0][0]
            } else {
                f.actors[i].1.owned_nodes[0]
            },
    )
}

/// There are no more actors and fragments than nodes.
pub proof fn lemma_room(f: FamilyModel, k: u32)
    requires
        f.wf(),
        lookup(f.actors, k) is Some,
    ensures
        f.actors.len() + f.parts(lookup(f.actors, k)->0).len() - 1 <= f.asset.support_nodes.len(),
        f.parts(lookup(f.actors, k)->0).len() >= 1,
{
    let a = lookup(f.actors, k)->0;
    assert(has_key(f.actors, k));
    assert(actor_fits(f.actors, f.node_owner, k));
    let parts = f.parts(a);
    lemma_node_parts(f.links(), a.owned_nodes);
    assert(a.owned_nodes.contains(a.owned_nodes[0]));
    assert(in_parts(parts, a.owned_nodes[0]));
    let reps = representatives(f, k);
    let n = f.actors.len() as int;
    assert forall|i: int| 0 <= i < reps.len() implies {
        let who = if i >= n {
            k
        } else {
            f.actors[i].0
        };
        lookup(f.node_owner, (#[trigger] reps[i]).0) == Some(FxActorId(who))
    } by {
        if i >= n || f.actors[i].0 == k {
            let j = if i >= n {
                i - n + 1
            } else {
                0
            };
            assert(parts[j].len() > 0);
            assert(parts[j].contains(parts[j][0]));
            assert(in_parts(parts, reps[i]));
            assert(a.owned_nodes.contains(reps[i]));
        } else {
            let j = f.actors[i].0;
            lemma_lookup_at(f.actors, i);
            assert(has_key(f.actors, j));
            assert(actor_fits(f.actors, f.node_owner, j));
            let b = f.actors[i].1;
            assert(b.owned_nodes.contains(b.owned_nodes[0]));
        }
    }
    let places = Seq::new(
        reps.len(),
        |i: int| node_index(f.asset.support_nodes, reps[i]),
    );
    assert forall|i: int| 0 <= i < places.len() implies 0 <= #[trigger] places[i]
        < f.asset.support_nodes.len() && f.asset.support_nodes[places[i]].id == reps[i] by {
        assert(lookup(f.node_owner, reps[i].0) is Some);
        assert(has_key(f.node_owner, reps[i].0));
        assert(SupportNodeId(reps[i].0) == reps[i]);
        assert(has_node(f.asset.support_nodes, reps[i]));
    }
    assert(places.no_duplicates()) by {
        assert forall|i: int, j: int|
            0 <= i < places.len() && 0 <= j < places.len() && i != j implies places[i]
            != places[j] by {
            if places[i] == places[j] {
                assert(reps[i] == reps[j]);
                let pi = if i >= n {
                    i - n + 1
                } else {
                    0
                };
                let pj = if j >= n {
                    j - n + 1
                } else {
                    0
                };
                if i < n && j < n {
                    if i < j {
                        assert(f.actors[i].0 < f.actors[j].0);
                    } else {
                        assert(f.actors[j].0 < f.actors[i].0);
                    }
                } else {
                    assert(parts[pi].contains(parts[pi][0]));
                    assert(parts[pj].contains(parts[pj][0]));
                    assert(parts[pi].contains(reps[i]));
                    assert(parts[pj].contains(reps[i]));
                }
            }
        }
    }
    lemma_distinct_within(places, f.asset.support_nodes.len());
}

/// Every child is one more actor.
pub proof fn lemma_children_count(f: FamilyModel, parts: Seq<Seq<SupportNodeId>>, n: int)
    requires
        ascending(f.actors),
        ascending(f.node_owner),
        0 <= n <= parts.len(),
        f.next_actor_id + n <= u32::MAX,
        separate(parts),
        forall|k: u32| #[trigger] has_key(f.actors, k) ==> k < f.next_actor_id,
    ensures
        with_children(f, parts, n).actors.len() == f.actors.len() + n,
    decreases n,
{
    if n > 0 {
        lemma_children_count(f, parts, n - 1);
        lemma_with_children(f, parts, n - 1);
        let h = with_children(f, parts, n - 1);
        let k = h.next_actor_id;
        assert(lookup(h.actors, k) == lookup(f.actors, k));
        assert(!has_key(h.actors, k)) by {
            if has_key(h.actors, k) {
                assert(has_key(f.actors, k));
            }
        }
        lemma_rank_exists(h.actors, k);
    }
}

/// The ids suffice for as many further actors, and for as many further events besides `extra`
/// ones, as the body can come apart into.
pub open spec fn has_room(f: FamilyModel, extra: int) -> bool {
    &&& f.next_actor_id + f.asset.support_nodes.len() <= u32::MAX + f.actors.len()
    &&& f.next_event_id + extra + f.asset.support_nodes.len() <= u32::MAX + f.actors.len()
}

/// The ids suffice for what a look at one actor makes of it.
pub open spec fn one_fits(f: FamilyModel, k: u32) -> bool {
    match lookup(f.actors, k) {
        Some(a) => f.parts(a).len() > 1 ==> f.next_actor_id + f.parts(a).len() <= u32::MAX + 1
            && f.next_event_id < u32::MAX,
        None => true,
    }
}

/// The number of actors that the first `n` of some splits make.
pub open spec fn children_total(events: Seq<SplitModel>, n: int) -> nat
    decreases n,
{
    if n <= 0 {
        0
    } else {
        children_total(events, n - 1) + events[n - 1].created_children.len()
    }
}

/// The ids suffice for the actors and the events of some splits.
pub open spec fn ids_suffice(f: FamilyModel, events: Seq<SplitModel>) -> bool {
    &&& f.next_actor_id + children_total(events, events.len() as int) <= u32::MAX
    &&& f.next_event_id + events.len() <= u32::MAX
}

/// The ids suffice for looks at all marked actors: for as much as the body can come apart into,
/// or for as much as it does.
pub open spec fn split_fits(f: FamilyModel) -> bool {
    has_room(f, 0) || ids_suffice(f, split_all(f).1)
}

/// A look at one actor keeps a body well-formed, and every new id is that of a new actor.
pub proof fn lemma_split_one_wf(f: FamilyModel, k: u32)
    requires
        f.wf(),
        one_fits(f, k),
    ensures
        split_one(f, k).0.wf(),
        split_one(f, k).0.asset == f.asset,
        split_one(f, k).0.next_actor_id - f.next_actor_id == split_one(f, k).0.actors.len()
            - f.actors.len(),
        split_one(f, k).0.next_actor_id == f.next_actor_id + match split_one(f, k).1 {
            Some(event) => event.created_children.len() as int,
            None => 0,
        },
        split_one(f, k).0.next_event_id == f.next_event_id + if split_one(f, k).1 is Some {
            1int
        } else {
            0
        },
{
    lemma_without_id(f.dirty_actors, k);
    if lookup(f.actors, k) is Some {
        lemma_room(f, k);
        let parts = f.parts(lookup(f.actors, k)->0);
        if parts.len() > 1 {
            lemma_split_step(f, k);
            let kept = kept_place(f.asset, parts);
            let g = reduced_to(f, FxActorId(k), parts[kept]);
            let actor = actor_of(FxActorId(k), parts[kept], f.asset);
            assert(has_key(f.actors, k));
            lemma_put(f.actors, k, actor);
            assert forall|j: u32| #[trigger] has_key(g.actors, j) implies j < g.next_actor_id by {
                assert(has_key(f.actors, j));
            }
            lemma_lookup_found(f.actors, k);
            assert(g.actors.len() == f.actors.len());
            let others = parts.remove(kept);
            assert(others.len() == parts.len() - 1);
            lemma_children_count(g, others, others.len() as int);
            lemma_with_children(g, others, others.len() as int);
        }
    }
}

/// Where there is room for all that a body can come apart into, there is room for one split.
pub proof fn lemma_room_for_one(f: FamilyModel, k: u32, extra: int)
    requires
        f.wf(),
        has_room(f, extra),
        extra >= 0,
    ensures
        one_fits(f, k),
        has_room(split_one(f, k).0, extra),
{
    if lookup(f.actors, k) is Some {
        lemma_room(f, k);
    }
    lemma_split_one_wf(f, k);
    if split_one(f, k).1 is Some {
        let parts = f.parts(lookup(f.actors, k)->0);
        lemma_largest_exists(f.asset, parts);
    }
}

proof fn lemma_children_prefix(events: Seq<SplitModel>, e: SplitModel, n: int)
    requires
        0 <= n <= events.len(),
    ensures
        children_total(events.push(e), n) == children_total(events, n),
    decreases n,
{
    if n > 0 {
        lemma_children_prefix(events, e, n - 1);
    }
}

proof fn lemma_suffices_before(f: FamilyModel, keys: Seq<u32>, i: int, n: int)
    requires
        0 <= i <= n,
        ids_suffice(f, split_upto(f, keys, n).1),
    ensures
        ids_suffice(f, split_upto(f, keys, i).1),
    decreases n - i,
{
    if i < n {
        let before = split_upto(f, keys, n - 1);
        if let Some(e) = split_one(before.0, keys[n - 1]).1 {
            lemma_children_prefix(before.1, e, before.1.len() as int);
        }
        lemma_suffices_before(f, keys, i, n - 1);
    }
}

/// Looks at several actors for which the ids suffice keep a body well-formed.
pub proof fn lemma_split_upto_wf(f: FamilyModel, keys: Seq<u32>, n: int)
    requires
        f.wf(),
        0 <= n <= keys.len(),
        ids_suffice(f, split_upto(f, keys, n).1),
    ensures
        split_upto(f, keys, n).0.wf(),
        split_upto(f, keys, n).0.asset == f.asset,
        split_upto(f, keys, n).0.next_actor_id == f.next_actor_id + children_total(
            split_upto(f, keys, n).1,
            split_upto(f, keys, n).1.len() as int,
        ),
        split_upto(f, keys, n).0.next_event_id == f.next_event_id + split_upto(
            f,
            keys,
            n,
        ).1.len(),
        n > 0 ==> one_fits(split_upto(f, keys, n - 1).0, keys[n - 1]),
    decreases n,
{
    if n > 0 {
        lemma_suffices_before(f, keys, n - 1, n);
        lemma_split_upto_wf(f, keys, n - 1);
        let (g, events) = split_upto(f, keys, n - 1);
        let k = keys[n - 1];
        if let Some(e) = split_one(g, k).1 {
            lemma_children_prefix(events, e, events.len() as int);
            assert(events.push(e)[events.len() as int] == e);
            let parts = g.parts(lookup(g.actors, k)->0);
            lemma_room(g, k);
            assert(has_key(g.actors, k));
            assert(actor_fits(g.actors, g.node_owner, k));
            lemma_node_parts(g.links(), (lookup(g.actors, k)->0).owned_nodes);
            lemma_largest_exists(g.asset, parts);
            assert(e.created_children.len() == parts.len() - 1);
        }
        lemma_split_one_wf(g, k);
    }
}

/// Where there is room for all that a body can come apart into, the ids suffice.
pub proof fn lemma_room_suffices(f: FamilyModel, keys: Seq<u32>, n: int, extra: int)
    requires
        f.wf(),
        0 <= n <= keys.len(),
        has_room(f, extra),
        extra >= 0,
    ensures
        ids_suffice(f, split_upto(f, keys, n).1),
        has_room(split_upto(f, keys, n).0, extra),
    decreases n,
{
    if n > 0 {
        lemma_room_suffices(f, keys, n - 1, extra);
        lemma_split_upto_wf(f, keys, n - 1);
        let (g, events) = split_upto(f, keys, n - 1);
        lemma_room_for_one(g, keys[n - 1], extra);
        lemma_split_one_wf(g, keys[n - 1]);
        if let Some(e) = split_one(g, keys[n - 1]).1 {
            lemma_children_prefix(events, e, events.len() as int);
            assert(events.push(e)[events.len() as int] == e);
        }
    } else {
        assert(f.next_actor_id <= u32::MAX);
    }
}

/// Looks at all marked actors and splits those that have come apart.
pub fn split_dirty_actors(family: &mut FxFamily) -> (r: Vec<SplitEvent>)
    requires
        old(family)@.wf(),
        split_fits(old(family)@),
    ensures
        (final(family)@, split_models(r@)) == split_all(old(family)@),
        final(family)@.wf(),
{
    let ghost f = family@;
    let dirty = family.dirty_actors.clone();
    let ghost keys = dirty@;
    let mut events: Vec<SplitEvent> = Vec::new();
    let mut i: usize = 0;
    proof {
        assert(split_models(events@) =~= Seq::<SplitModel>::empty());
        if has_room(f, 0) {
            lemma_room_suffices(f, keys, keys.len() as int, 0);
        }
    }
    while i < dirty.ids.len()
        invariant
            i <= dirty.ids.len(),
            keys == dirty@,
            f.wf(),
            ids_suffice(f, split_upto(f, keys, keys.len() as int).1),
            family@.wf(),
            (family@, split_models(events@)) == split_upto(f, keys, i as int),
        decreases dirty.ids.len() - i,
    {
        let ghost before = events@;
        proof {
            lemma_suffices_before(f, keys, i + 1, keys.len() as int);
            lemma_split_upto_wf(f, keys, i + 1);
        }
        let event = family.split_actor(dirty.ids[i]);
        if let Some(event) = event {
            events.push(event);
            assert(split_models(events@) =~= split_models(before).push(event@));
        }
        i = i + 1;
    }
    events
}

/// What holds nodes together does so in both directions.
pub proof fn lemma_held_symmetric(m: LinkModel, nodes: Seq<SupportNodeId>)
    ensures
        symmetric(held_among(m, nodes)),
{
    let rel = held_among(m, nodes);
    assert forall|a: SupportNodeId, b: SupportNodeId| #[trigger] rel(a, b) implies rel(b, a) by {
        if exists|i: int| bond_joins(m, i, a, b) {
            let i = choose|i: int| bond_joins(m, i, a, b);
            assert(bond_joins(m, i, b, a));
        } else if exists|i: int| connection_joins(m, i, a, b) {
            let i = choose|i: int| connection_joins(m, i, a, b);
            assert(connection_joins(m, i, b, a));
        } else {
            let (i, j) = choose|i: int, j: int| anchors_join(m, i, j, a, b);
            assert(anchors_join(m, j, i, b, a));
        }
    }
}

/// Two nodes of an actor are in the same fragment just when whole bonds lead from one to the
/// other.
pub proof fn lemma_fragment_members(
    m: LinkModel,
    nodes: Seq<SupportNodeId>,
    i: int,
    x: SupportNodeId,
    y: SupportNodeId,
)
    requires
        nodes.no_duplicates(),
        0 <= i < node_parts(m, nodes).len(),
        node_parts(m, nodes)[i].contains(x),
        nodes.contains(y),
    ensures
        node_parts(m, nodes)[i].contains(y) <==> reaches(held_among(m, nodes), x, y),
{
    let s = sorted_nodes(nodes);
    lemma_sorted_nodes(nodes);
    assert(s.no_duplicates()) by {
        assert(node_list_ascending(s));
    }
    lemma_held_symmetric(m, nodes);
    lemma_parts_connected(held_among(m, nodes), s, i, x, y);
}

/// A fragment hangs together: looked at again, it is a single fragment.
pub proof fn lemma_fragment_whole(m: LinkModel, nodes: Seq<SupportNodeId>, i: int)
    requires
        nodes.no_duplicates(),
        0 <= i < node_parts(m, nodes).len(),
    ensures
        node_parts(m, node_parts(m, nodes)[i]).len() == 1,
{
    let part = node_parts(m, nodes)[i];
    let all = held_among(m, nodes);
    let own = held_among(m, part);
    let s = sorted_nodes(part);
    lemma_node_parts(m, nodes);
    lemma_sorted_nodes(part);
    assert(part.len() > 0);
    let x = s[0];
    assert(s.contains(x));
    assert(part.contains(x));
    assert forall|y: SupportNodeId| part.contains(y) implies #[trigger] reaches(own, x, y) by {
        assert(in_parts(node_parts(m, nodes), y));
        lemma_fragment_members(m, nodes, i, x, y);
        let inside = |z: SupportNodeId| part.contains(z) && reaches(own, x, z);
        lemma_reaches_self(own, x);
        assert forall|z: SupportNodeId, w: SupportNodeId| inside(z) && #[trigger] all(
            z,
            w,
        ) implies inside(w) by {
            lemma_reaches_self(all, z);
            lemma_reaches_step(all, z, z, w);
            lemma_fragment_members(m, nodes, i, z, w);
            assert(own(z, w));
            lemma_reaches_step(own, x, z, w);
        }
        lemma_reaches_within(all, x, y, inside);
    }
    let miss = |y: SupportNodeId| !reaches(own, x, y);
    assert forall|k: int| 0 <= k < s.len() implies !miss(#[trigger] s[k]) by {
        assert(s.contains(s[k]));
        assert(reaches(own, x, s[k]));
    }
    lemma_filter_none(s, miss);
    let hit = |y: SupportNodeId| reaches(own, x, y);
    assert(parts_of(own, s) == seq![s.filter(hit)] + parts_of(own, s.filter(miss)));
    assert(parts_of(own, Seq::<SupportNodeId>::empty()).len() == 0);
}

/// Once the marked actors have been looked at, none is marked.
pub proof fn lemma_split_unmarks(f: FamilyModel, n: int)
    requires
        f.wf(),
        0 <= n <= f.dirty_actors.len(),
        ids_suffice(f, split_upto(f, f.dirty_actors, n).1),
    ensures
        split_upto(f, f.dirty_actors, n).0.dirty_actors == f.dirty_actors.skip(n),
    decreases n,
{
    let keys = f.dirty_actors;
    if n > 0 {
        lemma_split_upto_wf(f, keys, n);
        lemma_suffices_before(f, keys, n - 1, n);
        lemma_split_unmarks(f, n - 1);
        lemma_split_upto_wf(f, keys, n - 1);
        let g = split_upto(f, keys, n - 1).0;
        lemma_split_one_wf(g, keys[n - 1]);
        let k = keys[n - 1];
        let left = keys.skip(n - 1);
        assert(g.dirty_actors == left);
        assert(split_one(g, k).0.dirty_actors == without_id(left, k)) by {
            if lookup(g.actors, k) is Some {
                lemma_room(g, k);
                let parts = g.parts(lookup(g.actors, k)->0);
                if parts.len() > 1 {
                    lemma_split_step(g, k);
                    let kept = kept_place(g.asset, parts);
                    let others = parts.remove(kept);
                    lemma_with_children(
                        reduced_to(g, FxActorId(k), parts[kept]),
                        others,
                        others.len() as int,
                    );
                }
            }
        }
        assert(left[0] == k);
        assert(left.contains(k));
        assert(is_id_rank(left, k, 0));
        lemma_id_rank_is(left, k, 0);
        assert(without_id(left, k) =~= keys.skip(n));
    } else {
        assert(keys.skip(0) =~= keys);
    }
}

} // verus!
