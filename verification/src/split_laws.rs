//! What becomes of an actor that comes apart.

use crate::actor::{actor_of, bounds_of, gathered, voxels_of};
use crate::asset::{has_node, node_index, nodes_ascending, AssetModel};
use crate::components::{in_parts, lemma_parts_in_order};
use crate::damage_laws::is_whole;
use crate::family::{
    actor_fits, lemma_assigned, lemma_node_parts, lemma_with_children, with_children, FamilyModel,
};
use crate::geometry::{GridAabb, GridCoord};
use crate::hierarchy::node_order;
use crate::idmap::{has_key, lemma_put, lookup};
use crate::ids::{FxActorId, SupportNodeId};
use crate::mean_laws::lemma_mass_counts;
use crate::number_laws::plain;
use crate::order::{in_order, key_le, lemma_sorted_in_order};
use crate::reach::reaches;
use crate::split::{
    fragment_size, kept_place, lemma_fragment_members, lemma_largest_exists, lemma_others,
    one_fits, reduced_to, split_one, voxel_total,
};
use crate::structure::{
    anchors_join, bond_joins, connection_joins, held_among, lemma_sorted_nodes,
    node_list_ascending, sorted_nodes, DynamicConnectionPolicy,
};
use vstd::arithmetic::power2::pow2;
use vstd::prelude::*;

verus! {

/// Every node lists just the cells that belong to it, each of them once.
pub open spec fn well_mapped(m: AssetModel) -> bool {
    forall|i: int|
        0 <= i < m.support_nodes.len() ==> {
            let node = #[trigger] m.support_nodes[i];
            &&& node.voxels.no_duplicates()
            &&& forall|c: GridCoord| #[trigger]
                node.voxels.contains(c) <==> m.owner_of_cell(c) == Some(node.id)
        }
}

/// The cells that belong to some nodes.
pub open spec fn cells_in(m: AssetModel, nodes: Seq<SupportNodeId>) -> Set<GridCoord> {
    Set::new(
        |c: GridCoord| m.owner_of_cell(c) is Some && nodes.contains(m.owner_of_cell(c)->0),
    )
}

proof fn lemma_voxels(m: AssetModel, id: SupportNodeId, c: GridCoord)
    requires
        well_mapped(m),
        nodes_ascending(m.support_nodes),
        has_node(m.support_nodes, id),
    ensures
        voxels_of(m, id).no_duplicates(),
        voxels_of(m, id).contains(c) <==> m.owner_of_cell(c) == Some(id),
{
    let i = node_index(m.support_nodes, id);
    assert(0 <= i < m.support_nodes.len() && m.support_nodes[i].id == id);
}

proof fn lemma_gathered(m: AssetModel, nodes: Seq<SupportNodeId>, n: int)
    requires
        well_mapped(m),
        nodes_ascending(m.support_nodes),
        nodes.no_duplicates(),
        0 <= n <= nodes.len(),
        forall|i: int| 0 <= i < nodes.len() ==> has_node(m.support_nodes, #[trigger] nodes[i]),
    ensures
        gathered(m, nodes, n).no_duplicates(),
        gathered(m, nodes, n).len() == voxel_total(m, nodes, n),
        forall|c: GridCoord| #[trigger]
            gathered(m, nodes, n).contains(c) <==> m.owner_of_cell(c) is Some && nodes.take(
                n,
            ).contains(m.owner_of_cell(c)->0),
    decreases n,
{
    if n > 0 {
        lemma_gathered(m, nodes, n - 1);
        let before = gathered(m, nodes, n - 1);
        let id = nodes[n - 1];
        let here = voxels_of(m, id);
        let all = gathered(m, nodes, n);
        let shorter = nodes.take(n - 1);
        let longer = nodes.take(n);
        assert(has_node(m.support_nodes, nodes[n - 1]));
        lemma_voxels(m, id, GridCoord { x: 0, y: 0 });
        assert(nodes.take(n) =~= nodes.take(n - 1).push(id));
        assert forall|c: GridCoord| before.contains(c) && here.contains(c) implies false by {
            lemma_voxels(m, id, c);
            let w = choose|w: int| 0 <= w < n - 1 && shorter[w] == id;
            assert(nodes[w] == nodes[n - 1]);
        }
        assert forall|i: int, j: int|
            0 <= i < all.len() && 0 <= j < all.len() && i != j implies all[i] != all[j] by {
            let k = before.len() as int;
            if i < k && j >= k {
                assert(before.contains(before[i]) && here.contains(here[j - k]));
            } else if j < k && i >= k {
                assert(before.contains(before[j]) && here.contains(here[i - k]));
            }
        }
        assert forall|c: GridCoord| #[trigger] all.contains(c) <==> m.owner_of_cell(c) is Some
            && nodes.take(n).contains(m.owner_of_cell(c)->0) by {
            lemma_voxels(m, id, c);
            let k = before.len() as int;
            if all.contains(c) {
                let i = choose|i: int| 0 <= i < all.len() && all[i] == c;
                if i < k {
                    assert(before.contains(before[i]));
                    let w = choose|w: int|
                        0 <= w < n - 1 && shorter[w] == m.owner_of_cell(c)->0;
                    assert(longer[w] == m.owner_of_cell(c)->0);
                } else {
                    assert(here.contains(here[i - k]));
                    assert(longer[n - 1] == id);
                }
            }
            if m.owner_of_cell(c) is Some && nodes.take(n).contains(m.owner_of_cell(c)->0) {
                let w = choose|w: int| 0 <= w < n && longer[w] == m.owner_of_cell(c)->0;
                if w < n - 1 {
                    assert(shorter[w] == m.owner_of_cell(c)->0);
                    assert(before.contains(c));
                    let i = choose|i: int| 0 <= i < before.len() && before[i] == c;
                    assert(all[i] == c);
                } else {
                    assert(here.contains(c));
                    let i = choose|i: int| 0 <= i < here.len() && here[i] == c;
                    assert(all[k + i] == c);
                }
            }
        }
    }
}

/// The size of a fragment is the number of cells that belong to its nodes.
pub proof fn lemma_size_counts_cells(m: AssetModel, nodes: Seq<SupportNodeId>)
    requires
        well_mapped(m),
        nodes_ascending(m.support_nodes),
        nodes.no_duplicates(),
        forall|i: int| 0 <= i < nodes.len() ==> has_node(m.support_nodes, #[trigger] nodes[i]),
    ensures
        fragment_size(m, nodes) == cells_in(m, nodes).len(),
        cells_in(m, nodes).finite(),
        gathered(m, nodes, nodes.len() as int).no_duplicates(),
        gathered(m, nodes, nodes.len() as int).to_set() == cells_in(m, nodes),
{
    let n = nodes.len() as int;
    let all = gathered(m, nodes, n);
    lemma_gathered(m, nodes, n);
    assert(nodes.take(n) =~= nodes);
    all.unique_seq_to_set();
    assert(all.to_set() =~= cells_in(m, nodes));
}

/// The nodes of an actor are nodes of the asset, and its fragments list them, each once.
proof fn lemma_fragment_nodes(f: FamilyModel, k: u32, i: int)
    requires
        f.wf(),
        has_key(f.actors, k),
        0 <= i < f.parts(lookup(f.actors, k)->0).len(),
    ensures
        ({
            let part = f.parts(lookup(f.actors, k)->0)[i];
            &&& part.no_duplicates()
            &&& part.len() > 0
            &&& forall|j: int|
                0 <= j < part.len() ==> has_node(f.asset.support_nodes, #[trigger] part[j])
                    && lookup(f.node_owner, part[j].0) == Some(FxActorId(k))
        }),
{
    let a = lookup(f.actors, k)->0;
    lemma_node_parts(f.links(), a.owned_nodes);
    let part = f.parts(a)[i];
    assert(part.no_duplicates());
    assert forall|j: int| 0 <= j < part.len() implies has_node(
        f.asset.support_nodes,
        #[trigger] part[j],
    ) && lookup(f.node_owner, part[j].0) == Some(FxActorId(k)) by {
        assert(part.contains(part[j]));
        assert(in_parts(f.parts(a), part[j]));
        assert(a.owned_nodes.contains(part[j]));
        assert(has_key(f.node_owner, part[j].0));
        assert(SupportNodeId(part[j].0) == part[j]);
    }
}

/// An actor that comes apart keeps a fragment with as many cells as any other; of several with
/// as many cells it keeps the one with the least node.
pub proof fn lemma_kept_is_largest(f: FamilyModel, k: u32, i: int)
    requires
        f.wf(),
        well_mapped(f.asset),
        split_one(f, k).1 is Some,
        0 <= i < (split_one(f, k).1->0).fragments.len(),
    ensures
        ({
            let event = split_one(f, k).1->0;
            let part = event.fragments[i];
            &&& event.fragments.contains(event.kept_fragment)
            &&& cells_in(f.asset, part).finite()
            &&& cells_in(f.asset, part).len() <= cells_in(f.asset, event.kept_fragment).len()
            &&& cells_in(f.asset, part).len() == cells_in(f.asset, event.kept_fragment).len()
                ==> starts_no_later(event.kept_fragment, part)
        }),
{
    let a = lookup(f.actors, k)->0;
    let parts = f.parts(a);
    let kept = kept_place(f.asset, parts);
    assert(has_key(f.actors, k));
    lemma_largest_exists(f.asset, parts);
    lemma_fragment_nodes(f, k, i);
    lemma_fragment_nodes(f, k, kept);
    lemma_size_counts_cells(f.asset, parts[i]);
    lemma_size_counts_cells(f.asset, parts[kept]);
    if kept <= i {
        lemma_fragments_ordered(f, k, kept, i);
    }
}

/// Some node of the first list is not above any node of the second.
pub open spec fn starts_no_later(a: Seq<SupportNodeId>, b: Seq<SupportNodeId>) -> bool {
    exists|x: SupportNodeId|
        a.contains(x) && forall|y: SupportNodeId| #[trigger] b.contains(y) ==> x.0 <= y.0
}

proof fn lemma_fragments_ordered(f: FamilyModel, k: u32, i: int, j: int)
    requires
        f.wf(),
        has_key(f.actors, k),
        0 <= i <= j < f.parts(lookup(f.actors, k)->0).len(),
    ensures
        ({
            let parts = f.parts(lookup(f.actors, k)->0);
            starts_no_later(parts[i], parts[j])
        }),
{
    let a = lookup(f.actors, k)->0;
    let s = sorted_nodes(a.owned_nodes);
    let rel = held_among(f.links(), a.owned_nodes);
    let order = node_order();
    lemma_sorted_in_order(a.owned_nodes, order);
    lemma_parts_in_order(rel, s, order);
    let parts = f.parts(a);
    let part = parts[j];
    let x = parts[i][0];
    assert(key_le(order(parts[i][0]), order(parts[j][0])));
    assert(parts[i].contains(x));
    assert forall|y: SupportNodeId| #[trigger] part.contains(y) implies x.0 <= y.0 by {
        let w = choose|w: int| 0 <= w < part.len() && part[w] == y;
        assert(in_order(part, order));
        assert(key_le(order(part[0]), order(part[w])));
    }
}

/// Something whole ties two nodes together: an internal bond between them, a connection between
/// them that counts for the graph, or anchors of both to the same target.
pub open spec fn tied(f: FamilyModel, a: SupportNodeId, b: SupportNodeId) -> bool {
    ||| exists|i: int|
        0 <= i < f.asset.internal_bonds.len() && is_whole(f.bond_states[i]) && between(
            (#[trigger] f.asset.internal_bonds[i]).node_a,
            f.asset.internal_bonds[i].node_b,
            a,
            b,
        )
    ||| exists|i: int|
        0 <= i < f.dynamic_structural_bonds.len() && (
        #[trigger] f.dynamic_structural_bonds[i]).1.policy == DynamicConnectionPolicy::GraphOnly
            && is_whole(f.dynamic_structural_bonds[i].1.runtime) && between(
            f.dynamic_structural_bonds[i].1.node_a,
            f.dynamic_structural_bonds[i].1.node_b,
            a,
            b,
        )
    ||| exists|i: int, j: int|
        0 <= i < f.external_bonds.len() && 0 <= j < f.external_bonds.len() && (
        #[trigger] f.external_bonds[i]).1.node == a && (#[trigger] f.external_bonds[j]).1.node == b
            && is_whole(f.external_bonds[i].1.runtime) && is_whole(f.external_bonds[j].1.runtime)
            && f.external_bonds[i].1.target == f.external_bonds[j].1.target
}

/// The two ends are the two nodes, in either order.
pub open spec fn between(
    p: SupportNodeId,
    q: SupportNodeId,
    a: SupportNodeId,
    b: SupportNodeId,
) -> bool {
    (p == a && q == b) || (p == b && q == a)
}

/// Which of the nodes that an actor owns are tied together.
pub open spec fn tied_within(f: FamilyModel, k: u32) -> spec_fn(SupportNodeId, SupportNodeId) -> bool {
    |a: SupportNodeId, b: SupportNodeId|
        lookup(f.node_owner, a.0) == Some(FxActorId(k)) && lookup(f.node_owner, b.0) == Some(
            FxActorId(k),
        ) && tied(f, a, b)
}

proof fn lemma_tied(f: FamilyModel, k: u32)
    requires
        f.wf(),
        has_key(f.actors, k),
    ensures
        tied_within(f, k) == held_among(f.links(), (lookup(f.actors, k)->0).owned_nodes),
{
    let nodes = (lookup(f.actors, k)->0).owned_nodes;
    let rel = held_among(f.links(), nodes);
    let m = f.links();
    assert(actor_fits(f.actors, f.node_owner, k));
    assert forall|a: SupportNodeId, b: SupportNodeId| #[trigger] tied_within(f, k)(a, b) == rel(
        a,
        b,
    ) by {
        if nodes.contains(a) && nodes.contains(b) {
            if exists|i: int| bond_joins(m, i, a, b) {
                let i = choose|i: int| bond_joins(m, i, a, b);
                assert(is_whole(f.bond_states[i]) && between(
                    f.asset.internal_bonds[i].node_a,
                    f.asset.internal_bonds[i].node_b,
                    a,
                    b,
                ));
            } else if exists|i: int| connection_joins(m, i, a, b) {
                let i = choose|i: int| connection_joins(m, i, a, b);
                assert(is_whole(f.dynamic_structural_bonds[i].1.runtime));
            } else if exists|i: int, j: int| anchors_join(m, i, j, a, b) {
                let (i, j) = choose|i: int, j: int| anchors_join(m, i, j, a, b);
                assert(f.external_bonds[i].1.node == a && f.external_bonds[j].1.node == b);
            }
            if tied(f, a, b) {
                if exists|i: int|
                    0 <= i < f.asset.internal_bonds.len() && is_whole(f.bond_states[i]) && between(
                        (#[trigger] f.asset.internal_bonds[i]).node_a,
                        f.asset.internal_bonds[i].node_b,
                        a,
                        b,
                    ) {
                    let i = choose|i: int|
                        0 <= i < f.asset.internal_bonds.len() && is_whole(f.bond_states[i])
                            && between(
                            (#[trigger] f.asset.internal_bonds[i]).node_a,
                            f.asset.internal_bonds[i].node_b,
                            a,
                            b,
                        );
                    assert(bond_joins(m, i, a, b));
                } else if exists|i: int|
                    0 <= i < f.dynamic_structural_bonds.len() && (
                    #[trigger] f.dynamic_structural_bonds[i]).1.policy
                        == DynamicConnectionPolicy::GraphOnly && is_whole(
                        f.dynamic_structural_bonds[i].1.runtime,
                    ) && between(
                        f.dynamic_structural_bonds[i].1.node_a,
                        f.dynamic_structural_bonds[i].1.node_b,
                        a,
                        b,
                    ) {
                    let i = choose|i: int|
                        0 <= i < f.dynamic_structural_bonds.len() && (
                        #[trigger] f.dynamic_structural_bonds[i]).1.policy
                            == DynamicConnectionPolicy::GraphOnly && is_whole(
                            f.dynamic_structural_bonds[i].1.runtime,
                        ) && between(
                            f.dynamic_structural_bonds[i].1.node_a,
                            f.dynamic_structural_bonds[i].1.node_b,
                            a,
                            b,
                        );
                    assert(connection_joins(m, i, a, b));
                } else {
                    let (i, j) = choose|i: int, j: int|
                        0 <= i < f.external_bonds.len() && 0 <= j < f.external_bonds.len() && (
                        #[trigger] f.external_bonds[i]).1.node == a && (
                        #[trigger] f.external_bonds[j]).1.node == b && is_whole(
                            f.external_bonds[i].1.runtime,
                        ) && is_whole(f.external_bonds[j].1.runtime)
                            && f.external_bonds[i].1.target == f.external_bonds[j].1.target;
                    assert(anchors_join(m, i, j, a, b));
                }
            }
        }
    }
    assert(tied_within(f, k) =~= rel);
}

/// The fragments of an actor are what hangs together: every node of the actor is in just one of
/// them, and two nodes are in the same one just when ties lead from one to the other.
pub proof fn lemma_fragments_hang_together(
    f: FamilyModel,
    k: u32,
    i: int,
    x: SupportNodeId,
    y: SupportNodeId,
)
    requires
        f.wf(),
        split_one(f, k).1 is Some,
        0 <= i < (split_one(f, k).1->0).fragments.len(),
        (split_one(f, k).1->0).fragments[i].contains(x),
        lookup(f.node_owner, y.0) == Some(FxActorId(k)),
    ensures
        (split_one(f, k).1->0).fragments[i].contains(y) <==> reaches(tied_within(f, k), x, y),
        lookup(f.node_owner, x.0) == Some(FxActorId(k)),
        (split_one(f, k).1->0).fragments.len() > 1,
        exists|j: int|
            0 <= j < (split_one(f, k).1->0).fragments.len() && #[trigger] (split_one(
                f,
                k,
            ).1->0).fragments[j].contains(y),
{
    let a = lookup(f.actors, k)->0;
    assert(has_key(f.actors, k));
    assert(actor_fits(f.actors, f.node_owner, k));
    assert(a.owned_nodes.contains(y));
    lemma_tied(f, k);
    lemma_fragment_members(f.links(), a.owned_nodes, i, x, y);
    lemma_node_parts(f.links(), a.owned_nodes);
    assert(in_parts(f.parts(a), x));
    assert(in_parts(f.parts(a), y));
}

/// An actor all of whose nodes hang together by ties is not split, and one with two nodes that do
/// not is.
pub proof fn lemma_split_just_when_apart(f: FamilyModel, k: u32)
    requires
        f.wf(),
        has_key(f.actors, k),
    ensures
        split_one(f, k).1 is None <==> forall|x: SupportNodeId, y: SupportNodeId|
            lookup(f.node_owner, x.0) == Some(FxActorId(k)) && lookup(f.node_owner, y.0) == Some(
                FxActorId(k),
            ) ==> #[trigger] reaches(tied_within(f, k), x, y),
{
    let a = lookup(f.actors, k)->0;
    let parts = f.parts(a);
    assert(actor_fits(f.actors, f.node_owner, k));
    lemma_tied(f, k);
    lemma_node_parts(f.links(), a.owned_nodes);
    let first = a.owned_nodes[0];
    assert(a.owned_nodes.contains(first));
    assert(in_parts(parts, first));
    if parts.len() <= 1 {
        assert forall|x: SupportNodeId, y: SupportNodeId|
            lookup(f.node_owner, x.0) == Some(FxActorId(k)) && lookup(f.node_owner, y.0) == Some(
                FxActorId(k),
            ) implies #[trigger] reaches(tied_within(f, k), x, y) by {
            assert(a.owned_nodes.contains(x) && a.owned_nodes.contains(y));
            assert(in_parts(parts, x) && in_parts(parts, y));
            assert(parts[0].contains(x) && parts[0].contains(y));
            lemma_fragment_members(f.links(), a.owned_nodes, 0, x, y);
        }
    } else {
        let x = parts[0][0];
        let y = parts[1][0];
        assert(parts[0].contains(x) && parts[1].contains(y));
        assert(in_parts(parts, x) && in_parts(parts, y));
        assert(a.owned_nodes.contains(x) && a.owned_nodes.contains(y));
        lemma_fragment_members(f.links(), a.owned_nodes, 0, x, y);
        assert(!reaches(tied_within(f, k), x, y));
    }
}

/// After a split each fragment belongs to one actor: the kept one to the actor that came apart, the
/// others to new actors. Nothing else changes hands, and neither the asset nor any state changes.
pub proof fn lemma_split_owners(f: FamilyModel, k: u32, x: SupportNodeId)
    requires
        f.wf(),
        one_fits(f, k),
        split_one(f, k).1 is Some,
    ensures
        ({
            let event = split_one(f, k).1->0;
            let g = split_one(f, k).0;
            let was = lookup(f.node_owner, x.0);
            let now = lookup(g.node_owner, x.0);
            &&& event.kept_fragment.contains(x) ==> now == Some(FxActorId(k))
            &&& was != Some(FxActorId(k)) ==> now == was
            &&& was == Some(FxActorId(k)) && !event.kept_fragment.contains(x) ==> now is Some
                && event.created_children.contains(now->0) && (now->0).0 >= f.next_actor_id
            &&& forall|i: int, y: SupportNodeId|
                0 <= i < event.fragments.len() && #[trigger] event.fragments[i].contains(x)
                    && #[trigger] event.fragments[i].contains(y) ==> lookup(g.node_owner, y.0)
                    == now
            &&& forall|i: int, j: int, y: SupportNodeId|
                0 <= i < event.fragments.len() && 0 <= j < event.fragments.len() && i != j
                    && #[trigger] event.fragments[i].contains(x)
                    && #[trigger] event.fragments[j].contains(y) ==> lookup(g.node_owner, y.0)
                    != now
            &&& g.asset == f.asset
            &&& g.node_states == f.node_states
            &&& g.chunk_states == f.chunk_states
            &&& g.bond_states == f.bond_states
            &&& g.external_bonds == f.external_bonds
            &&& g.dynamic_structural_bonds == f.dynamic_structural_bonds
        }),
{
    let a = lookup(f.actors, k)->0;
    assert(has_key(f.actors, k));
    assert(actor_fits(f.actors, f.node_owner, k));
    let parts = f.parts(a);
    let kept = kept_place(f.asset, parts);
    let mine = parts[kept];
    let others = parts.remove(kept);
    let id = FxActorId(k);
    lemma_node_parts(f.links(), a.owned_nodes);
    lemma_largest_exists(f.asset, parts);
    lemma_others(parts, kept);
    let g = reduced_to(f, id, mine);
    lemma_put(f.actors, k, actor_of(id, mine, f.asset));
    lemma_assigned(f.node_owner, mine, id, mine.len() as int);
    assert(mine.take(mine.len() as int) =~= mine);
    let n = others.len() as int;
    lemma_with_children(g, others, n);
    assert(others.take(n) =~= others);
    let h = with_children(g, others, n);
    assert(split_one(f, k).0.node_owner == h.node_owner);
    assert(SupportNodeId(x.0) == x);
    let event = split_one(f, k).1->0;
    // the owner of a node of a fragment
    assert forall|i: int, y: SupportNodeId|
        0 <= i < parts.len() && #[trigger] parts[i].contains(y) implies lookup(h.node_owner, y.0)
            == Some(
            if i == kept {
                id
            } else {
                FxActorId(
                    (f.next_actor_id + if i < kept {
                        i
                    } else {
                        i - 1
                    }) as u32,
                )
            },
        ) by {
        assert(SupportNodeId(y.0) == y);
        if i == kept {
            assert(!in_parts(others, y));
            assert(lookup(g.node_owner, y.0) == Some(id));
        } else {
            let j = if i < kept {
                i
            } else {
                i - 1
            };
            assert(others[j] == parts[i]);
            assert(others[j].contains(y));
        }
    }
    assert(f.next_actor_id > k) by {
        assert(has_key(f.actors, k));
    }
    if lookup(f.node_owner, x.0) == Some(id) {
        assert(a.owned_nodes.contains(x));
        assert(in_parts(parts, x));
        let i = choose|i: int| 0 <= i < parts.len() && (#[trigger] parts[i]).contains(x);
        if i != kept {
            let j = if i < kept {
                i
            } else {
                i - 1
            };
            assert(event.created_children[j] == FxActorId((f.next_actor_id + j) as u32));
            assert(event.created_children.contains(event.created_children[j]));
        }
    } else {
        assert(!a.owned_nodes.contains(x));
        assert(!in_parts(parts, x));
        assert(!in_parts(others, x));
        assert(!mine.contains(x)) by {
            if mine.contains(x) {
                assert(in_parts(parts, x));
            }
        }
    }
}

/// An actor weighs one for each of its cells, its nodes are those it was made of, in order, and
/// its rectangle is the least one around its cells.
pub proof fn lemma_actor_of_nodes(id: FxActorId, nodes: Seq<SupportNodeId>, m: AssetModel, c: GridCoord)
    requires
        well_mapped(m),
        nodes_ascending(m.support_nodes),
        nodes.no_duplicates(),
        forall|i: int| 0 <= i < nodes.len() ==> has_node(m.support_nodes, #[trigger] nodes[i]),
    ensures
        ({
            let a = actor_of(id, nodes, m);
            let cells = cells_in(m, nodes);
            &&& a.id == id
            &&& node_list_ascending(a.owned_nodes)
            &&& forall|x: SupportNodeId| #[trigger] a.owned_nodes.contains(x) <==> nodes.contains(x)
            &&& cells.len() <= 0x100_0000 ==> plain(a.mass) && a.mass.value() == cells.len()
                * pow2(149)
            &&& a.bounds is None <==> cells.len() == 0
            &&& cells.contains(c) ==> {
                let b = a.bounds->0;
                b.min.x <= c.x <= b.max.x && b.min.y <= c.y <= b.max.y
            }
            &&& cells.len() > 0 ==> {
                let b = a.bounds->0;
                &&& exists|d: GridCoord| cells.contains(d) && d.x == b.min.x
                &&& exists|d: GridCoord| cells.contains(d) && d.x == b.max.x
                &&& exists|d: GridCoord| cells.contains(d) && d.y == b.min.y
                &&& exists|d: GridCoord| cells.contains(d) && d.y == b.max.y
            }
        }),
{
    let owned = sorted_nodes(nodes);
    lemma_sorted_nodes(nodes);
    assert(owned.no_duplicates()) by {
        assert(node_list_ascending(owned));
    }
    assert forall|i: int| 0 <= i < owned.len() implies has_node(
        m.support_nodes,
        #[trigger] owned[i],
    ) by {
        assert(owned.contains(owned[i]));
        let j = choose|j: int| 0 <= j < nodes.len() && nodes[j] == owned[i];
        assert(has_node(m.support_nodes, nodes[j]));
    }
    lemma_size_counts_cells(m, owned);
    lemma_gathered(m, owned, owned.len() as int);
    let voxels = gathered(m, owned, owned.len() as int);
    let cells = cells_in(m, nodes);
    assert(cells_in(m, owned) =~= cells);
    let n = voxels.len() as int;
    assert(n == cells.len());
    if n <= 0x100_0000 {
        lemma_mass_counts(n);
    }
    assert(cells.contains(c) <==> voxels.contains(c));
    if n > 0 {
        lemma_bounds(voxels, n);
        let b = bounds_of(voxels, n)->0;
        if voxels.contains(c) {
            let i = choose|i: int| 0 <= i < n && voxels[i] == c;
            assert(within_bounds(voxels[i], b));
        }
        let (p, q, r, s) = choose|p: int, q: int, r: int, s: int|
            corners_at(voxels, n, b, p, q, r, s);
        assert(voxels.contains(voxels[p]) && voxels.contains(voxels[q]) && voxels.contains(
            voxels[r],
        ) && voxels.contains(voxels[s]));
        assert(cells.contains(voxels[p]) && cells.contains(voxels[q]) && cells.contains(voxels[r])
            && cells.contains(voxels[s]));
    }
}

spec fn within_bounds(c: GridCoord, b: GridAabb) -> bool {
    b.min.x <= c.x <= b.max.x && b.min.y <= c.y <= b.max.y
}

spec fn corners_at(
    voxels: Seq<GridCoord>,
    n: int,
    b: GridAabb,
    p: int,
    q: int,
    r: int,
    s: int,
) -> bool {
    &&& 0 <= p < n && voxels[p].x == b.min.x
    &&& 0 <= q < n && voxels[q].x == b.max.x
    &&& 0 <= r < n && voxels[r].y == b.min.y
    &&& 0 <= s < n && voxels[s].y == b.max.y
}

proof fn lemma_bounds(voxels: Seq<GridCoord>, n: int)
    requires
        0 < n <= voxels.len(),
    ensures
        bounds_of(voxels, n) is Some,
        forall|i: int| 0 <= i < n ==> within_bounds(#[trigger] voxels[i], bounds_of(voxels, n)->0),
        exists|p: int, q: int, r: int, s: int|
            corners_at(voxels, n, bounds_of(voxels, n)->0, p, q, r, s),
    decreases n,
{
    let v = voxels[n - 1];
    let b = bounds_of(voxels, n)->0;
    if n == 1 {
        assert(bounds_of(voxels, 0) is None);
        assert(corners_at(voxels, n, b, 0, 0, 0, 0));
    } else {
        lemma_bounds(voxels, n - 1);
        let before = bounds_of(voxels, n - 1)->0;
        let e = n - 1;
        let (p, q, r, s) = choose|p: int, q: int, r: int, s: int|
            corners_at(voxels, e, before, p, q, r, s);
        assert(corners_at(
            voxels,
            n,
            b,
            if v.x < before.min.x { e } else { p },
            if v.x > before.max.x { e } else { q },
            if v.y < before.min.y { e } else { r },
            if v.y > before.max.y { e } else { s },
        ));
        assert forall|i: int| 0 <= i < n implies within_bounds(#[trigger] voxels[i], b) by {
            if i < n - 1 {
                assert(within_bounds(voxels[i], before));
            }
        }
    }
}

} // verus!
