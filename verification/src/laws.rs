//! What holds across the parts of the library.

use crate::asset::AssetModel;
use crate::commands::{actual_loss, harmless, owns_target, FractureCommand, FractureTarget};
use crate::components::{lemma_filter_none, parts_of};
use crate::connection::{lemma_merged_nodes, merge_error, merge_keeps, merged, merged_nodes};
use crate::family::{lemma_assigned, ChunkRuntimeState, FamilyModel, NodeRuntimeState};
use crate::fracture::{fractured, reduced, struck, worn, FractureEvent};
use crate::geometry::{dot_product, vec_finite, GridCoord};
use crate::idmap::{
    ascending, has_key, lemma_entries_equal, lemma_put, lemma_with_id, lemma_without_id, lookup,
    without_id,
};
use crate::ids::{FxActorId, SupportNodeId};
use crate::occupancy::lemma_place;
use crate::order::{key_of, lemma_sorted_len, lemma_sorted_order_independent, sorted_by};
use crate::reach::{lemma_reaches_self, lemma_reaches_step, reaches};
use crate::rounding::{
    lemma_nearest_is, lemma_units_in_binade, lemma_units_increasing, nearest, rounds_to, units,
    Exact, INFINITE,
};
use crate::scalar::{at_most, below, equals, negated, product, sum, Scalar};
use crate::split::{
    fragment_size, has_room, kept_place, lemma_largest_exists, lemma_room_suffices, lemma_split_one_wf,
    lemma_split_unmarks, one_fits, split_all, split_fits, split_one, SplitModel,
};
use crate::stress::{
    all_sums, edge_load, field_of, input_sums, overload, raw_commands, strength_share,
    stress_commands, stress_profile, weighed, StressSettings, SumsModel,
};
use crate::stress_graph::{
    context_nodes, edge_axes, usable_nodes, ContextModel, StressGraphEdge, StressInput,
    StressNodeContext2D,
};
use crate::stress_solve::StressEdgeLoad;
use crate::structure::{
    anchors_join, broken, held_among, lemma_sorted_nodes, node_parts, sorted_nodes,
    BondRuntimeState, ExternalTarget2D,
};
use crate::validation::{
    asset_error, coverage_error, covered_before, four_connected, nodes_error, voxels_error,
};
use vstd::prelude::*;

verus! {

/// Comparing finite numbers compares their values.
pub proof fn lemma_order_by_value(a: Scalar, b: Scalar)
    requires
        a.finite(),
        b.finite(),
    ensures
        below(a, b) <==> a.value() < b.value(),
        at_most(a, b) <==> a.value() <= b.value(),
        equals(a, b) <==> a.value() == b.value(),
{
    let x = a.magnitude();
    let y = b.magnitude();
    lemma_units_in_binade(0, 0);
    if x < y {
        lemma_units_increasing(x, y);
    } else if y < x {
        lemma_units_increasing(y, x);
    }
    if x > 0 {
        lemma_units_increasing(0, x);
    }
    if y > 0 {
        lemma_units_increasing(0, y);
    }
}

/// The magnitude at or just below a quantity.
proof fn lemma_magnitude_below(num: int, m: int) -> (q: int)
    requires
        0 <= num < units(m),
        0 < m,
    ensures
        0 <= q < m,
        units(q) <= num < units(q + 1),
    decreases m,
{
    if units(m - 1) <= num {
        m - 1
    } else {
        lemma_units_in_binade(0, 0);
        lemma_magnitude_below(num, m - 1)
    }
}

/// A quantity that is not above a magnitude is not rounded above it.
pub proof fn lemma_rounding_keeps_below(num: int, m: int)
    requires
        0 <= num <= units(m),
        0 <= m < INFINITE,
    ensures
        nearest(Exact::Ratio { num, den: 1 }) <= m,
        rounds_to(
            Exact::Ratio { num, den: 1 },
            nearest(Exact::Ratio { num, den: 1 }) as int,
        ),
{
    let x = Exact::Ratio { num, den: 1 };
    lemma_units_in_binade(0, 0);
    if num == units(m) {
        lemma_units_increasing(m, m + 1);
        if m > 0 {
            lemma_units_increasing(m - 1, m);
        }
        assert(rounds_to(x, m));
        lemma_nearest_is(x, m as u32);
    } else {
        let q = lemma_magnitude_below(num, m);
        lemma_units_increasing(q, q + 1);
        lemma_units_increasing(q + 1, q + 2);
        if q > 0 {
            lemma_units_increasing(q - 1, q);
        }
        let middle = units(q) + units(q + 1);
        if 2 * num < middle || (2 * num == middle && q % 2 == 0) {
            assert(rounds_to(x, q));
            lemma_nearest_is(x, q as u32);
        } else {
            assert(rounds_to(x, q + 1));
            lemma_nearest_is(x, (q + 1) as u32);
        }
    }
}

/// A loss never makes more of what is not below zero.
pub proof fn lemma_loss_never_adds(x: Scalar, loss: Scalar)
    requires
        at_most(Scalar { bits: 0 }, x),
    ensures
        at_most(reduced(x, actual_loss(loss)), x),
        at_most(Scalar { bits: 0 }, reduced(x, actual_loss(loss))),
{
    let l = actual_loss(loss);
    assert(!l.negative() && !l.nan());
    let n = negated(l);
    assert(n.magnitude() == l.magnitude());
    lemma_units_in_binade(0, 0);
    if x.finite() && l.finite() {
        let total = x.value() + n.value();
        if x.magnitude() > 0 {
            lemma_units_increasing(0, x.magnitude());
        }
        if l.magnitude() > 0 {
            lemma_units_increasing(0, l.magnitude());
        }
        if total < 0 {
            lemma_rounding_keeps_below(-total, l.magnitude());
        } else if total > 0 {
            lemma_rounding_keeps_below(total, x.magnitude());
        }
    }
}

/// The state of a bond is not below zero.
pub open spec fn bond_state_valid(s: BondRuntimeState) -> bool {
    at_most(Scalar { bits: 0 }, s.health) && at_most(Scalar { bits: 0 }, s.effective_length)
}

/// Damage never heals a bond, and never makes it longer.
pub proof fn lemma_wear_never_heals(s: BondRuntimeState, c: FractureCommand)
    requires
        bond_state_valid(s),
    ensures
        at_most(worn(s, c).health, s.health),
        at_most(worn(s, c).effective_length, s.effective_length),
        bond_state_valid(worn(s, c)),
{
    lemma_loss_never_adds(s.health, c.health_loss);
    lemma_loss_never_adds(s.effective_length, c.effective_length_loss);
}

/// No command heals an internal bond.
pub proof fn lemma_damage_never_heals_bonds(f: FamilyModel, c: FractureCommand, i: int)
    requires
        f.wf(),
        0 <= i < f.bond_states.len(),
        bond_state_valid(f.bond_states[i]),
    ensures
        at_most(struck(f, c).0.bond_states[i].health, f.bond_states[i].health),
        at_most(struck(f, c).0.bond_states[i].effective_length, f.bond_states[i].effective_length),
{
    lemma_wear_never_heals(f.bond_states[i], c);
}

/// No command heals a node.
pub proof fn lemma_damage_never_heals_nodes(f: FamilyModel, c: FractureCommand, k: u32)
    requires
        f.wf(),
        has_key(f.node_states, k),
        at_most(Scalar { bits: 0 }, (lookup(f.node_states, k)->0).health),
    ensures
        at_most(
            (lookup(struck(f, c).0.node_states, k)->0).health,
            (lookup(f.node_states, k)->0).health,
        ),
{
    if let FractureTarget::Node(id) = c.target {
        let was = lookup(f.node_states, id.0)->0;
        let now = NodeRuntimeState {
            health: reduced(was.health, actual_loss(c.health_loss)),
            accumulated_damage: sum(was.accumulated_damage, actual_loss(c.health_loss)),
        };
        lemma_put(f.node_states, id.0, now);
        lemma_loss_never_adds((lookup(f.node_states, k)->0).health, c.health_loss);
    }
}

/// No command heals a chunk.
pub proof fn lemma_damage_never_heals_chunks(f: FamilyModel, c: FractureCommand, k: u32)
    requires
        f.wf(),
        has_key(f.chunk_states, k),
        at_most(Scalar { bits: 0 }, (lookup(f.chunk_states, k)->0).health),
    ensures
        at_most(
            (lookup(struck(f, c).0.chunk_states, k)->0).health,
            (lookup(f.chunk_states, k)->0).health,
        ),
{
    if let FractureTarget::Chunk(id) = c.target {
        let was = lookup(f.chunk_states, id.0)->0;
        let now = ChunkRuntimeState {
            health: reduced(was.health, actual_loss(c.health_loss)),
            accumulated_damage: sum(was.accumulated_damage, actual_loss(c.health_loss)),
        };
        lemma_put(f.chunk_states, id.0, now);
        lemma_loss_never_adds((lookup(f.chunk_states, k)->0).health, c.health_loss);
    }
}

/// A command for a target that its actor does not hold changes nothing, and no event records it.
pub proof fn lemma_wrong_actor_is_refused(f: FamilyModel, c: FractureCommand)
    requires
        !owns_target(f, c.actor, c.target),
    ensures
        struck(f, c) == (f, None::<FractureEvent>),
{
}

/// A command without a loss above zero changes nothing, and no event records it.
pub proof fn lemma_harmless_is_refused(f: FamilyModel, c: FractureCommand)
    requires
        harmless(c.health_loss, c.effective_length_loss),
    ensures
        struck(f, c) == (f, None::<FractureEvent>),
{
}

/// A node has no length to lose: a command that only takes length from it changes nothing.
pub proof fn lemma_length_loss_spares_nodes(f: FamilyModel, c: FractureCommand)
    requires
        c.target is Node,
        equals(actual_loss(c.health_loss), Scalar { bits: 0 }),
    ensures
        struck(f, c) == (f, None::<FractureEvent>),
{
}

/// A broken anchor or connection takes no more damage.
pub proof fn lemma_broken_is_spared(f: FamilyModel, c: FractureCommand)
    requires
        match c.target {
            FractureTarget::ExternalBond(id) => match lookup(f.external_bonds, id.0) {
                Some(b) => broken(b.runtime),
                None => true,
            },
            FractureTarget::Connection(id) => match lookup(f.dynamic_structural_bonds, id.0) {
                Some(b) => broken(b.runtime),
                None => true,
            },
            _ => false,
        },
    ensures
        struck(f, c) == (f, None::<FractureEvent>),
{
}

/// What commands do does not depend on the order in which they are given, as long as commands
/// with the same place in the order are the same.
pub proof fn lemma_fracture_order_independent(
    f: FamilyModel,
    commands: Seq<FractureCommand>,
    other: Seq<FractureCommand>,
)
    requires
        commands.to_multiset() == other.to_multiset(),
        forall|x: FractureCommand, y: FractureCommand|
            #![trigger commands.contains(x), commands.contains(y)]
            commands.contains(x) && commands.contains(y) && key_of::<FractureCommand>()(x)
                == key_of::<FractureCommand>()(y) ==> x == y,
    ensures
        fractured(f, commands) == fractured(f, other),
{
    lemma_sorted_order_independent(commands, other, key_of::<FractureCommand>());
    commands.to_multiset_ensures();
    other.to_multiset_ensures();
    lemma_sorted_len(commands, key_of::<FractureCommand>());
    lemma_sorted_len(other, key_of::<FractureCommand>());
}

/// An actor that hangs together is not split: it is only no longer marked.
pub proof fn lemma_whole_actor_is_not_split(f: FamilyModel, k: u32)
    requires
        match lookup(f.actors, k) {
            Some(a) => f.parts(a).len() <= 1,
            None => true,
        },
    ensures
        split_one(f, k) == (
            FamilyModel { dirty_actors: without_id(f.dirty_actors, k), ..f },
            None::<SplitModel>,
        ),
{
}

/// An actor that comes apart keeps its id and the largest of its fragments, of several equally
/// large ones the first.
pub proof fn lemma_largest_fragment_stays(f: FamilyModel, k: u32, i: int)
    requires
        lookup(f.actors, k) is Some,
        f.parts(lookup(f.actors, k)->0).len() > 1,
        0 <= i < f.parts(lookup(f.actors, k)->0).len(),
    ensures
        ({
            let parts = f.parts(lookup(f.actors, k)->0);
            let event = split_one(f, k).1->0;
            let kept = kept_place(f.asset, parts);
            &&& split_one(f, k).1 is Some
            &&& event.parent_actor == FxActorId(k)
            &&& event.kept_actor == FxActorId(k)
            &&& event.fragments == parts
            &&& event.kept_fragment == parts[kept]
            &&& fragment_size(f.asset, parts[i]) <= fragment_size(f.asset, event.kept_fragment)
            &&& fragment_size(f.asset, parts[i]) == fragment_size(f.asset, event.kept_fragment)
                ==> kept <= i
        }),
{
    lemma_largest_exists(f.asset, f.parts(lookup(f.actors, k)->0));
}

/// The actors that a split makes are numbered from the next free id on, and none of them was
/// there before.
pub proof fn lemma_children_are_new(f: FamilyModel, k: u32, i: int)
    requires
        f.wf(),
        one_fits(f, k),
        split_one(f, k).1 is Some,
        0 <= i < (split_one(f, k).1->0).created_children.len(),
    ensures
        (split_one(f, k).1->0).created_children[i].0 == f.next_actor_id + i,
        !has_key(f.actors, (split_one(f, k).1->0).created_children[i].0),
        (split_one(f, k).1->0).created_children.len() == (split_one(
            f,
            k,
        ).1->0).fragments.len() - 1,
{
    lemma_split_one_wf(f, k);
    let parts = f.parts(lookup(f.actors, k)->0);
    lemma_largest_exists(f.asset, parts);
    if has_key(f.actors, (split_one(f, k).1->0).created_children[i].0) {
        assert((split_one(f, k).1->0).created_children[i].0 < f.next_actor_id);
    }
}

/// A second look finds nothing to split and changes nothing.
pub proof fn lemma_second_split_is_idle(f: FamilyModel)
    requires
        f.wf(),
        split_fits(f),
    ensures
        split_all(split_all(f).0) == (split_all(f).0, Seq::<SplitModel>::empty()),
{
    let n = f.dirty_actors.len() as int;
    if has_room(f, 0) {
        lemma_room_suffices(f, f.dirty_actors, n, 0);
    }
    lemma_split_unmarks(f, n);
    assert(split_all(f).0.dirty_actors.len() == 0);
}

/// In a valid asset every occupied cell belongs to just one node, and no other cell to any.
pub proof fn lemma_nodes_cover_exactly(m: AssetModel, coord: GridCoord)
    requires
        m.occupancy.wf(),
        asset_error(m) is None,
    ensures
        m.occupancy.occupied(coord) <==> exists|i: int|
            0 <= i < m.support_nodes.len() && (#[trigger] m.support_nodes[i]).voxels.contains(
                coord,
            ),
        forall|i: int, j: int|
            0 <= i < m.support_nodes.len() && 0 <= j < m.support_nodes.len()
                && (#[trigger] m.support_nodes[i]).voxels.contains(coord) && (
            #[trigger] m.support_nodes[j]).voxels.contains(coord) ==> i == j,
{
    let nodes = m.support_nodes;
    assert forall|i: int| 0 <= i < nodes.len() && (#[trigger] nodes[i]).voxels.contains(
        coord,
    ) implies m.occupancy.occupied(coord) && !covered_before(nodes, i, coord) by {
        lemma_nodes_clear(m, 0, i);
        let j = choose|j: int| 0 <= j < nodes[i].voxels.len() && nodes[i].voxels[j] == coord;
        lemma_voxels_clear(m, i, 0, j);
    }
    assert forall|i: int, j: int|
        0 <= i < nodes.len() && 0 <= j < nodes.len() && (#[trigger] nodes[i]).voxels.contains(coord)
            && (#[trigger] nodes[j]).voxels.contains(coord) implies i == j by {
        if i < j {
            assert(covered_before(nodes, j, coord));
        } else if j < i {
            assert(covered_before(nodes, i, coord));
        }
    }
    if m.occupancy.occupied(coord) {
        lemma_place(m.occupancy, coord);
        lemma_coverage_clear(m, 0, m.occupancy.place(coord));
    }
}

/// In a valid asset the voxels of a node hang together through shared sides.
pub proof fn lemma_nodes_hang_together(m: AssetModel, i: int)
    requires
        asset_error(m) is None,
        0 <= i < m.support_nodes.len(),
    ensures
        m.support_nodes[i].voxels.len() > 0,
        four_connected(m.support_nodes[i].voxels),
{
    lemma_nodes_clear(m, 0, i);
}

proof fn lemma_nodes_clear(m: AssetModel, i: int, k: int)
    requires
        0 <= i <= k < m.support_nodes.len(),
        nodes_error(m, i) is None,
    ensures
        m.support_nodes[k].voxels.len() > 0,
        four_connected(m.support_nodes[k].voxels),
        voxels_error(m, k, 0) is None,
    decreases k - i,
{
    if i < k {
        lemma_nodes_clear(m, i + 1, k);
    }
}

proof fn lemma_voxels_clear(m: AssetModel, i: int, j: int, k: int)
    requires
        0 <= j <= k < m.support_nodes[i].voxels.len(),
        voxels_error(m, i, j) is None,
    ensures
        m.occupancy.occupied(m.support_nodes[i].voxels[k]),
        !covered_before(m.support_nodes, i, m.support_nodes[i].voxels[k]),
    decreases k - j,
{
    if j < k {
        lemma_voxels_clear(m, i, j + 1, k);
    }
}

proof fn lemma_coverage_clear(m: AssetModel, p: int, k: int)
    requires
        0 <= p <= k < m.occupancy.cells.len(),
        coverage_error(m, p) is None,
        m.occupancy.cells[k],
    ensures
        covered_before(m.support_nodes, m.support_nodes.len() as int, m.occupancy.coord_at(k)),
    decreases k - p,
{
    if p < k {
        lemma_coverage_clear(m, p + 1, k);
    }
}

/// The node of an entry can be used.
spec fn usable(f: FamilyModel, node: StressNodeContext2D) -> bool {
    f.owner_of(node.node) is Some && vec_finite(node.position)
}

/// Where no node is listed twice, what is found under a node is its own entry.
proof fn lemma_usable_nodes(f: FamilyModel, nodes: Seq<StressNodeContext2D>, n: int)
    requires
        0 <= n <= nodes.len(),
        forall|i: int, j: int|
            0 <= i < nodes.len() && 0 <= j < nodes.len() && (#[trigger] nodes[i]).node == (
            #[trigger] nodes[j]).node ==> i == j,
    ensures
        ascending(usable_nodes(f, nodes, n)),
        forall|i: int|
            0 <= i < n && usable(f, #[trigger] nodes[i]) ==> lookup(
                usable_nodes(f, nodes, n),
                nodes[i].node.0,
            ) == Some(nodes[i]),
        forall|k: u32|
            (#[trigger] lookup(usable_nodes(f, nodes, n), k)) is Some ==> exists|i: int|
                0 <= i < n && (#[trigger] nodes[i]).node.0 == k && usable(f, nodes[i]),
    decreases n,
{
    if n > 0 {
        lemma_usable_nodes(f, nodes, n - 1);
        let last = nodes[n - 1];
        let before = usable_nodes(f, nodes, n - 1);
        lemma_put(before, last.node.0, last);
        let now = usable_nodes(f, nodes, n);
        assert forall|i: int| 0 <= i < n && usable(f, #[trigger] nodes[i]) implies lookup(
            now,
            nodes[i].node.0,
        ) == Some(nodes[i]) by {
            if i < n - 1 {
                assert(nodes[i].node != nodes[n - 1].node);
            }
        }
        assert forall|k: u32| (#[trigger] lookup(now, k)) is Some implies exists|i: int|
            0 <= i < n && (#[trigger] nodes[i]).node.0 == k && usable(f, nodes[i]) by {
            if usable(f, last) && k == last.node.0 {
                assert(nodes[n - 1].node.0 == k);
            } else {
                assert(lookup(before, k) is Some);
                let i = choose|i: int|
                    0 <= i < n - 1 && (#[trigger] nodes[i]).node.0 == k && usable(f, nodes[i]);
                assert(nodes[i].node.0 == k);
            }
        }
    }
}

proof fn lemma_context_order(
    f: FamilyModel,
    nodes: Seq<StressNodeContext2D>,
    other: Seq<StressNodeContext2D>,
)
    requires
        nodes.to_multiset() == other.to_multiset(),
        forall|i: int, j: int|
            0 <= i < nodes.len() && 0 <= j < nodes.len() && (#[trigger] nodes[i]).node == (
            #[trigger] nodes[j]).node ==> i == j,
        forall|i: int, j: int|
            0 <= i < other.len() && 0 <= j < other.len() && (#[trigger] other[i]).node == (
            #[trigger] other[j]).node ==> i == j,
    ensures
        usable_nodes(f, nodes, nodes.len() as int) == usable_nodes(f, other, other.len() as int),
{
    nodes.to_multiset_ensures();
    other.to_multiset_ensures();
    let a = usable_nodes(f, nodes, nodes.len() as int);
    let b = usable_nodes(f, other, other.len() as int);
    lemma_usable_nodes(f, nodes, nodes.len() as int);
    lemma_usable_nodes(f, other, other.len() as int);
    assert forall|k: u32| #[trigger] lookup(a, k) == lookup(b, k) by {
        if lookup(a, k) is Some {
            let i = choose|i: int|
                0 <= i < nodes.len() && (#[trigger] nodes[i]).node.0 == k && usable(f, nodes[i]);
            assert(nodes.contains(nodes[i]));
            assert(other.to_multiset().count(nodes[i]) > 0);
            assert(other.contains(nodes[i]));
            let j = choose|j: int| 0 <= j < other.len() && other[j] == nodes[i];
            assert(usable(f, other[j]));
        } else if lookup(b, k) is Some {
            let j = choose|j: int|
                0 <= j < other.len() && (#[trigger] other[j]).node.0 == k && usable(f, other[j]);
            assert(other.contains(other[j]));
            assert(nodes.to_multiset().count(other[j]) > 0);
            assert(nodes.contains(other[j]));
            let i = choose|i: int| 0 <= i < nodes.len() && nodes[i] == other[j];
            assert(usable(f, nodes[i]));
        }
    }
    lemma_entries_equal(a, b);
}

proof fn lemma_weights_order(
    f: FamilyModel,
    c: ContextModel,
    d: ContextModel,
    ctx: Seq<(u32, StressNodeContext2D)>,
    s: SumsModel,
    n: int,
)
    requires
        c.gravity == d.gravity,
        c.fallback_order_keys == d.fallback_order_keys,
    ensures
        weighed(f, c, ctx, s, n) == weighed(f, d, ctx, s, n),
    decreases n,
{
    if n > 0 {
        lemma_weights_order(f, c, d, ctx, s, n - 1);
    }
}

/// The damage that forces do depends neither on the order of the forces nor on the order in which
/// the context lists its nodes, as long as forces with the same place in the order are the same
/// and no node is listed twice.
pub proof fn lemma_stress_order_independent(
    settings: StressSettings,
    f: FamilyModel,
    c: ContextModel,
    d: ContextModel,
    inputs: Seq<StressInput>,
    other: Seq<StressInput>,
)
    requires
        inputs.to_multiset() == other.to_multiset(),
        forall|x: StressInput, y: StressInput|
            #![trigger inputs.contains(x), inputs.contains(y)]
            inputs.contains(x) && inputs.contains(y) && key_of::<StressInput>()(x) == key_of::<
                StressInput,
            >()(y) ==> x == y,
        c.gravity == d.gravity,
        c.fallback_order_keys == d.fallback_order_keys,
        c.nodes.to_multiset() == d.nodes.to_multiset(),
        forall|i: int, j: int|
            0 <= i < c.nodes.len() && 0 <= j < c.nodes.len() && (#[trigger] c.nodes[i]).node == (
            #[trigger] c.nodes[j]).node ==> i == j,
        forall|i: int, j: int|
            0 <= i < d.nodes.len() && 0 <= j < d.nodes.len() && (#[trigger] d.nodes[i]).node == (
            #[trigger] d.nodes[j]).node ==> i == j,
    ensures
        stress_commands(settings, f, c, inputs) == stress_commands(settings, f, d, other),
        stress_profile(settings, f, c, inputs) == stress_profile(settings, f, d, other),
{
    let key = key_of::<StressInput>();
    lemma_sorted_order_independent(inputs, other, key);
    inputs.to_multiset_ensures();
    other.to_multiset_ensures();
    lemma_context_order(f, c.nodes, d.nodes);
    let ctx = context_nodes(f, c);
    assert(ctx == context_nodes(f, d));
    let sorted = sorted_by(inputs, key);
    let given = input_sums(sorted, sorted.len() as int);
    lemma_weights_order(f, c, d, ctx, given, ctx.len() as int);
    assert(all_sums(settings, f, c, inputs) == all_sums(settings, f, d, other));
    assert(field_of(settings, f, c, inputs) == field_of(settings, f, d, other));
    assert(raw_commands(settings, f, c, inputs) == raw_commands(settings, f, d, other));
}

/// What presses the ends of an edge together never breaks it: an edge that is neither pulled apart
/// nor sheared beyond its strength takes no damage.
pub proof fn lemma_pressure_breaks_nothing(
    settings: StressSettings,
    f: FamilyModel,
    ctx: Seq<(u32, StressNodeContext2D)>,
    s: SumsModel,
    e: StressGraphEdge,
    load: StressEdgeLoad,
)
    requires
        ({
            let zero = Scalar { bits: 0 };
            let normal = edge_axes(e, ctx).0;
            let share = strength_share(e);
            let tension_limit = product(
                product(e.tension_limit, settings.tension_limit_scale),
                share,
            );
            let shear_limit = product(product(e.shear_limit, settings.shear_limit_scale), share);
            &&& at_most(dot_product(load.node_a_force, normal), zero)
            &&& e.target is ExternalBond || at_most(
                zero,
                dot_product(load.node_b_force, normal),
            )
            &&& at_most(zero, tension_limit)
            &&& at_most(edge_load(e, ctx, load).shear, shear_limit)
        }),
    ensures
        overload(settings, f, ctx, s, e, Some(load)) is None,
{
    let zero = Scalar { bits: 0 };
    let b = dot_product(load.node_b_force, edge_axes(e, ctx).0);
    assert(zero.place() == 0 && !zero.nan() && !zero.negative());
    if !(e.target is ExternalBond) {
        assert(negated(b).place() == -b.place());
        assert(negated(b).nan() == b.nan());
    }
}

/// A whole anchor ties the node to the target.
pub open spec fn anchored_to(f: FamilyModel, node: SupportNodeId, target: ExternalTarget2D) -> bool {
    exists|i: int|
        0 <= i < f.external_bonds.len() && !broken((#[trigger] f.external_bonds[i]).1.runtime)
            && f.external_bonds[i].1.node == node && f.external_bonds[i].1.target == target
}

/// An actor whose nodes are all anchored to one target is not split, whatever else is broken.
pub proof fn lemma_anchored_actor_is_not_split(f: FamilyModel, k: u32, target: ExternalTarget2D)
    requires
        lookup(f.actors, k) is Some,
        forall|node: SupportNodeId| #[trigger]
            lookup(f.actors, k)->0.owned_nodes.contains(node) ==> anchored_to(f, node, target),
    ensures
        split_one(f, k) == (
            FamilyModel { dirty_actors: without_id(f.dirty_actors, k), ..f },
            None::<SplitModel>,
        ),
{
    let m = f.links();
    let nodes = lookup(f.actors, k)->0.owned_nodes;
    let rel = held_among(m, nodes);
    let s = sorted_nodes(nodes);
    lemma_sorted_nodes(nodes);
    if s.len() > 0 {
        let apart = |x: SupportNodeId| !reaches(rel, s[0], x);
        assert(s.contains(s[0]));
        let i = choose|i: int|
            0 <= i < f.external_bonds.len() && !broken((#[trigger] f.external_bonds[i]).1.runtime)
                && f.external_bonds[i].1.node == s[0] && f.external_bonds[i].1.target == target;
        assert forall|q: int| 0 <= q < s.len() implies !apart(#[trigger] s[q]) by {
            assert(s.contains(s[q]));
            let j = choose|j: int|
                0 <= j < f.external_bonds.len() && !broken(
                    (#[trigger] f.external_bonds[j]).1.runtime,
                ) && f.external_bonds[j].1.node == s[q] && f.external_bonds[j].1.target == target;
            assert(anchors_join(m, i, j, s[0], s[q]));
            assert(rel(s[0], s[q]));
            lemma_reaches_self(rel, s[0]);
            lemma_reaches_step(rel, s[0], s[0], s[q]);
        }
        lemma_filter_none(s, apart);
        assert(parts_of(rel, s.filter(apart)) == Seq::<Seq<SupportNodeId>>::empty());
        assert(f.parts(lookup(f.actors, k)->0).len() == 1);
    }
}

/// Joining two actors changes no bond, anchor or connection, no health and no node that is not
/// theirs; and where the joined nodes do not hang together, the joined actor is marked to be
/// split.
pub proof fn lemma_merging_keeps_state(f: FamilyModel, a: FxActorId, b: FxActorId)
    requires
        f.wf(),
        merge_error(f, a, b) is None,
    ensures
        ({
            let g = merged(f, a, b);
            &&& g.asset == f.asset
            &&& g.bond_states == f.bond_states
            &&& g.external_bonds == f.external_bonds
            &&& g.dynamic_structural_bonds == f.dynamic_structural_bonds
            &&& g.node_states == f.node_states
            &&& g.chunk_states == f.chunk_states
            &&& forall|node: SupportNodeId|
                !merged_nodes(f, a, b).contains(node) ==> #[trigger] g.owner_of(node) == f.owner_of(
                    node,
                )
            &&& forall|node: SupportNodeId|
                merged_nodes(f, a, b).contains(node) ==> #[trigger] g.owner_of(node) == Some(
                    merge_keeps(a, b),
                )
            &&& node_parts(f.links(), merged_nodes(f, a, b)).len() > 1 ==> g.dirty_actors.contains(
                merge_keeps(a, b).0,
            )
        }),
{
    let kept = merge_keeps(a, b);
    let nodes = merged_nodes(f, a, b);
    lemma_merged_nodes(f, a, b);
    lemma_assigned(f.node_owner, nodes, kept, nodes.len() as int);
    assert(nodes.take(nodes.len() as int) =~= nodes);
    let once = without_id(f.dirty_actors, a.0);
    let unmarked = without_id(once, b.0);
    lemma_without_id(f.dirty_actors, a.0);
    lemma_without_id(once, b.0);
    lemma_with_id(unmarked, kept.0);
}

} // verus!
