//! How forces act on a body.

use crate::actor::ActorModel;
use crate::commands::{
    ordered_commands, DamageSource, DeterministicOrderKey, FractureCommand, FractureTarget,
};
use crate::damage_laws::{is_owner, is_whole, not_after};
use crate::family::FamilyModel;
use crate::geometry::{origin, vec_scaled, vec_sum, Vec2};
use crate::idmap::{
    ascending, has_key, lemma_entries_equal, lemma_lookup_at, lemma_lookup_found, lemma_put, lookup,
    rank,
};
use crate::ids::{FxActorId, SupportNodeId};
use crate::number_laws::lemma_value_sign;
use crate::order::{key_le, key_of, lemma_sorted_idle, lemma_sorted_permutation, sorted_by};
use crate::rounding::{lemma_nearest_is, lemma_units_increasing, lemma_units_in_binade, rounds_to, Exact};
use crate::scalar::{equals, sum, Scalar, QUIET_NAN};
use crate::stress::{
    all_sums, capped, capped_upto, commands_on, field_of, gravity_acts, input_sums, overload,
    overloads, raw_commands, stress_commands, weighed, with_force, StressSettings, SumsModel,
};
use crate::stress_graph::{
    anchor_edges, bond_edges, connection_edges, context_nodes, order_rank, stress_edges, supported,
    usable_nodes,
    ContextModel, StressEdgeTarget, StressGraphEdge, StressInput, StressNodeContext2D,
};
use crate::stress_solve::{edge_loads, StressEdgeLoad};
use crate::structure::DynamicConnectionPolicy;
use vstd::prelude::*;

verus! {

/// The inputs stand in the order of their keys.
pub open spec fn in_key_order(inputs: Seq<StressInput>) -> bool {
    forall|i: int, j: int|
        0 <= i <= j < inputs.len() ==> not_after(
            (#[trigger] inputs[i]).order_key,
            (#[trigger] inputs[j]).order_key,
        )
}

/// The forces of some inputs, added up one after the other.
pub open spec fn total_force(inputs: Seq<StressInput>) -> Vec2 {
    inputs.fold_left(origin(), |v: Vec2, i: StressInput| vec_sum(v, i.force))
}

/// The inputs on a node.
pub open spec fn inputs_on(inputs: Seq<StressInput>, node: SupportNodeId) -> Seq<StressInput> {
    inputs.filter(|i: StressInput| i.node == node)
}

proof fn lemma_rank_order(a: DeterministicOrderKey, b: DeterministicOrderKey)
    ensures
        key_le(order_rank(a), order_rank(b)) <==> not_after(a, b),
{
}

proof fn lemma_sorted_inputs(inputs: Seq<StressInput>)
    requires
        in_key_order(inputs),
    ensures
        sorted_by(inputs, key_of::<StressInput>()) == inputs,
{
    let key = key_of::<StressInput>();
    assert forall|i: int, j: int| 0 <= i <= j < inputs.len() implies key_le(
        key(#[trigger] inputs[i]),
        key(#[trigger] inputs[j]),
    ) by {
        lemma_rank_order(inputs[i].order_key, inputs[j].order_key);
    }
    lemma_sorted_idle(inputs, key);
}

proof fn lemma_sums_wf(inputs: Seq<StressInput>, n: int)
    requires
        0 <= n <= inputs.len(),
    ensures
        input_sums(inputs, n).wf(),
    decreases n,
{
    if n > 0 {
        lemma_sums_wf(inputs, n - 1);
        let i = inputs[n - 1];
        lemma_force_wf(
            input_sums(inputs, n - 1),
            i.node,
            i.actor,
            i.force,
            Some(i.order_key),
            i.source,
        );
    }
}

/// What one more force changes: the force on its node, and for its actor the first key and the
/// first source.
proof fn lemma_force_wf(
    s: SumsModel,
    node: SupportNodeId,
    actor: FxActorId,
    force: Vec2,
    key: Option<DeterministicOrderKey>,
    source: DamageSource,
)
    requires
        s.wf(),
    ensures
        with_force(s, node, actor, force, key, source).wf(),
        forall|k: u32|
            k != node.0 ==> #[trigger] lookup(
                with_force(s, node, actor, force, key, source).forces,
                k,
            ) == lookup(s.forces, k),
        lookup(with_force(s, node, actor, force, key, source).forces, node.0) == Some(
            vec_sum(
                match lookup(s.forces, node.0) {
                    Some(v) => v,
                    None => origin(),
                },
                force,
            ),
        ),
        forall|k: u32|
            k != actor.0 ==> #[trigger] lookup(
                with_force(s, node, actor, force, key, source).first_keys,
                k,
            ) == lookup(s.first_keys, k),
        forall|k: u32|
            k != actor.0 ==> #[trigger] lookup(
                with_force(s, node, actor, force, key, source).sources,
                k,
            ) == lookup(s.sources, k),
{
    let was = match lookup(s.forces, node.0) {
        Some(v) => v,
        None => origin(),
    };
    lemma_put(s.forces, node.0, vec_sum(was, force));
    lemma_put(s.sources, actor.0, source);
    if let Some(k) = key {
        let first = match lookup(s.first_keys, actor.0) {
            Some(old_key) => crate::stress::earlier(old_key, k),
            None => k,
        };
        lemma_put(s.first_keys, actor.0, first);
    }
}

/// The force that inputs put on a node is the sum of all their forces on it.
pub proof fn lemma_force_is_sum(inputs: Seq<StressInput>, node: SupportNodeId)
    ensures
        lookup(input_sums(inputs, inputs.len() as int).forces, node.0) == if inputs_on(
            inputs,
            node,
        ).len() == 0 {
            None
        } else {
            Some(total_force(inputs_on(inputs, node)))
        },
{
    lemma_force_is_sum_upto(inputs, node, inputs.len() as int);
    assert(inputs.take(inputs.len() as int) =~= inputs);
}

proof fn lemma_force_is_sum_upto(inputs: Seq<StressInput>, node: SupportNodeId, n: int)
    requires
        0 <= n <= inputs.len(),
    ensures
        lookup(input_sums(inputs, n).forces, node.0) == if inputs_on(inputs.take(n), node).len()
            == 0 {
            None
        } else {
            Some(total_force(inputs_on(inputs.take(n), node)))
        },
    decreases n,
{
    reveal(Seq::filter);
    if n > 0 {
        lemma_force_is_sum_upto(inputs, node, n - 1);
        lemma_sums_wf(inputs, n - 1);
        let i = inputs[n - 1];
        let s = input_sums(inputs, n - 1);
        lemma_force_wf(s, i.node, i.actor, i.force, Some(i.order_key), i.source);
        assert(inputs.take(n).drop_last() =~= inputs.take(n - 1));
        assert(inputs.take(n).last() == i);
        let before = inputs_on(inputs.take(n - 1), node);
        if i.node == node {
            let after = inputs_on(inputs.take(n), node);
            assert(after == before.push(i));
            assert(before.push(i).drop_last() =~= before);
            reveal_with_fuel(Seq::fold_left, 2);
            if before.len() == 0 {
                assert(total_force(before) == origin());
            }
        } else {
            assert(SupportNodeId(node.0) == node);
            assert(i.node.0 != node.0);
        }
    } else {
        assert(inputs.take(0) =~= Seq::<StressInput>::empty());
    }
}

/// Nothing added to a number is the number, but for the sign of zero.
proof fn lemma_add_zero(x: Scalar)
    ensures
        sum(Scalar { bits: 0 }, x) == if x.nan() {
            Scalar { bits: QUIET_NAN }
        } else if x.zero() {
            Scalar { bits: 0 }
        } else {
            x
        },
{
    let zero = Scalar { bits: 0 };
    lemma_units_in_binade(0, 0);
    assert(zero.value() == 0);
    if x.finite() {
        lemma_value_sign(x);
        if !x.zero() {
            let m = x.magnitude();
            let e = Exact::Ratio { num: crate::rounding::units(m), den: 1 };
            lemma_units_increasing(m, m + 1);
            lemma_units_increasing(m - 1, m);
            lemma_units_increasing(0, m);
            assert(rounds_to(e, m));
            lemma_nearest_is(e, m as u32);
        }
    }
}

/// Two numbers added to nothing one after the other, or their sum.
proof fn lemma_add_twice(u: Scalar, v: Scalar)
    ensures
        sum(sum(Scalar { bits: 0 }, u), v) == sum(Scalar { bits: 0 }, sum(u, v)),
{
    lemma_add_zero(u);
    lemma_add_zero(sum(u, v));
    lemma_add_zero(v);
    let zero = Scalar { bits: 0 };
    lemma_units_in_binade(0, 0);
    if u.zero() && !v.nan() {
        lemma_value_sign(u);
        assert(u.finite());
        if v.finite() {
            lemma_value_sign(v);
            assert(u.value() == 0 && zero.value() == 0);
            assert(sum(u, v) == sum(zero, v) || v.zero());
        }
    }
    if u.finite() && v.finite() && !u.zero() {
        lemma_value_sign(u);
        lemma_value_sign(v);
        let total = u.value() + v.value();
        if total == 0 {
            assert(u.negative() != v.negative());
        } else {
            crate::number_laws::lemma_sum_sign(u, v);
        }
    }
}

/// Two forces of one actor on a node act as their sum does.
proof fn lemma_two_as_one(s: SumsModel, p: StressInput, q: StressInput)
    requires
        s.wf(),
        p.node == q.node,
        p.actor == q.actor,
        not_after(p.order_key, q.order_key),
        lookup(s.forces, p.node.0) is None,
    ensures
        with_force(
            with_force(s, p.node, p.actor, p.force, Some(p.order_key), p.source),
            q.node,
            q.actor,
            q.force,
            Some(q.order_key),
            q.source,
        ) == with_force(
            s,
            p.node,
            p.actor,
            vec_sum(p.force, q.force),
            Some(p.order_key),
            p.source,
        ),
{
    let one = with_force(s, p.node, p.actor, p.force, Some(p.order_key), p.source);
    let two = with_force(one, q.node, q.actor, q.force, Some(q.order_key), q.source);
    let both = with_force(
        s,
        p.node,
        p.actor,
        vec_sum(p.force, q.force),
        Some(p.order_key),
        p.source,
    );
    lemma_force_wf(s, p.node, p.actor, p.force, Some(p.order_key), p.source);
    lemma_force_wf(one, q.node, q.actor, q.force, Some(q.order_key), q.source);
    lemma_force_wf(
        s,
        p.node,
        p.actor,
        vec_sum(p.force, q.force),
        Some(p.order_key),
        p.source,
    );
    lemma_add_twice(p.force.x, q.force.x);
    lemma_add_twice(p.force.y, q.force.y);
    let first = match lookup(s.first_keys, p.actor.0) {
        Some(old_key) => crate::stress::earlier(old_key, p.order_key),
        None => p.order_key,
    };
    lemma_put(s.first_keys, p.actor.0, first);
    lemma_put(one.first_keys, p.actor.0, first);
    lemma_put(s.sources, p.actor.0, p.source);
    lemma_rank_order(p.order_key, q.order_key);
    assert(crate::stress::earlier(first, q.order_key) == first);
    assert forall|k: u32| #[trigger] lookup(two.forces, k) == lookup(both.forces, k) by {}
    lemma_entries_equal(two.forces, both.forces);
    assert forall|k: u32| #[trigger] lookup(two.first_keys, k) == lookup(both.first_keys, k) by {}
    lemma_entries_equal(two.first_keys, both.first_keys);
    assert(two.sources == both.sources) by {
        if has_key(s.sources, p.actor.0) {
        } else {
            assert(has_key(one.sources, p.actor.0));
        }
    }
}

/// Sums of the first inputs do not depend on the later ones.
proof fn lemma_sums_prefix(a: Seq<StressInput>, b: Seq<StressInput>, n: int)
    requires
        0 <= n <= a.len(),
        n <= b.len(),
        forall|i: int| 0 <= i < n ==> #[trigger] a[i] == b[i],
    ensures
        input_sums(a, n) == input_sums(b, n),
    decreases n,
{
    if n > 0 {
        lemma_sums_prefix(a, b, n - 1);
        assert(a[n - 1] == b[n - 1]);
    }
}

/// Sums that agree at some place agree after the same further inputs.
proof fn lemma_sums_suffix(
    a: Seq<StressInput>,
    i: int,
    b: Seq<StressInput>,
    j: int,
    n: int,
)
    requires
        0 <= i,
        0 <= j,
        0 <= n,
        i + n <= a.len(),
        j + n <= b.len(),
        input_sums(a, i) == input_sums(b, j),
        forall|k: int| 0 <= k < n ==> #[trigger] a[i + k] == b[j + k],
    ensures
        input_sums(a, i + n) == input_sums(b, j + n),
    decreases n,
{
    if n > 0 {
        lemma_sums_suffix(a, i, b, j, n - 1);
        assert(a[i + (n - 1)] == b[j + (n - 1)]);
    }
}

/// Two inputs of an actor on one node, one right after the other in the order of their keys, load
/// the body as one input with the sum of their forces does.
pub proof fn lemma_forces_add(
    settings: StressSettings,
    f: FamilyModel,
    c: ContextModel,
    before: Seq<StressInput>,
    p: StressInput,
    q: StressInput,
    after: Seq<StressInput>,
)
    requires
        in_key_order(before + seq![p, q] + after),
        p.node == q.node,
        p.actor == q.actor,
        forall|i: int| 0 <= i < before.len() ==> (#[trigger] before[i]).node != p.node,
    ensures
        ({
            let both = StressInput { force: vec_sum(p.force, q.force), ..p };
            let two = before + seq![p, q] + after;
            let one = before + seq![both] + after;
            &&& stress_commands(settings, f, c, two) == stress_commands(settings, f, c, one)
            &&& field_of(settings, f, c, two) == field_of(settings, f, c, one)
        }),
{
    let both = StressInput { force: vec_sum(p.force, q.force), ..p };
    let two = before + seq![p, q] + after;
    let one = before + seq![both] + after;
    let n = before.len() as int;
    let l = after.len() as int;
    assert forall|i: int, j: int| 0 <= i <= j < one.len() implies not_after(
        (#[trigger] one[i]).order_key,
        (#[trigger] one[j]).order_key,
    ) by {
        let a = if i <= n {
            i
        } else {
            i + 1
        };
        let b = if j <= n {
            j
        } else {
            j + 1
        };
        assert(one[i].order_key == two[a].order_key && one[j].order_key == two[b].order_key);
    }
    lemma_sorted_inputs(two);
    lemma_sorted_inputs(one);
    lemma_sums_prefix(two, one, n);
    lemma_sums_wf(two, n);
    let s = input_sums(two, n);
    lemma_force_is_sum_upto(two, p.node, n);
    assert(two.take(n) =~= before);
    let pred = |i: StressInput| i.node == p.node;
    crate::components::lemma_filter_none(before, pred);
    assert(two[n] == p && two[n + 1] == q && one[n] == both);
    assert(not_after(two[n].order_key, two[n + 1].order_key));
    lemma_two_as_one(s, p, q);
    assert(input_sums(two, n + 1) == with_force(
        s,
        p.node,
        p.actor,
        p.force,
        Some(p.order_key),
        p.source,
    ));
    assert(input_sums(two, n + 2) == input_sums(one, n + 1));
    assert forall|k: int| 0 <= k < l implies #[trigger] two[n + 2 + k] == one[n + 1 + k] by {}
    lemma_sums_suffix(two, n + 2, one, n + 1, l);
    assert(all_sums(settings, f, c, two) == all_sums(settings, f, c, one));
}

/// Gravity does nothing: it is switched off, zero, or not a number.
pub open spec fn weightless(settings: StressSettings, gravity: Vec2) -> bool {
    let zero = Scalar { bits: 0 };
    ||| !settings.enable_gravity
    ||| !gravity.x.finite()
    ||| !gravity.y.finite()
    ||| equals(gravity.x, zero) && equals(gravity.y, zero)
}

/// Without weight the forces on a body are those of the inputs alone.
pub proof fn lemma_weightless(
    settings: StressSettings,
    f: FamilyModel,
    c: ContextModel,
    inputs: Seq<StressInput>,
    node: SupportNodeId,
)
    requires
        weightless(settings, c.gravity),
        in_key_order(inputs),
    ensures
        field_of(settings, f, c, inputs).force_on(node) == total_force(inputs_on(inputs, node)),
{
    lemma_sorted_inputs(inputs);
    lemma_force_is_sum(inputs, node);
    assert(!gravity_acts(settings, c.gravity));
    let on = inputs_on(inputs, node);
    if on.len() == 0 {
        reveal_with_fuel(Seq::fold_left, 2);
        assert(total_force(on) == origin());
    }
}

/// The weight of a node acts where the node is supported and has a mass: it is added to the other
/// forces on the node.
pub proof fn lemma_weight_acts(
    settings: StressSettings,
    f: FamilyModel,
    c: ContextModel,
    inputs: Seq<StressInput>,
    node: SupportNodeId,
)
    requires
        f.wf(),
        !weightless(settings, c.gravity),
        in_key_order(inputs),
    ensures
        ({
            let fd = field_of(settings, f, c, inputs);
            let given = total_force(inputs_on(inputs, node));
            let known = lookup(context_nodes(f, c), node.0);
            if known is Some && fd.holds(node) && (known->0).mass.finite() && (
            known->0).mass.place() > 0 {
                fd.force_on(node) == vec_sum(given, vec_scaled(c.gravity, (known->0).mass))
            } else {
                fd.force_on(node) == given
            }
        }),
{
    lemma_sorted_inputs(inputs);
    lemma_force_is_sum(inputs, node);
    let n = inputs.len() as int;
    let s = input_sums(inputs, n);
    lemma_sums_wf(inputs, n);
    assert(gravity_acts(settings, c.gravity));
    let ctx = context_nodes(f, c);
    lemma_context_wf(f, c.nodes, c.nodes.len() as int);
    let fd = field_of(settings, f, c, inputs);
    let on = inputs_on(inputs, node);
    if on.len() == 0 {
        reveal_with_fuel(Seq::fold_left, 2);
        assert(total_force(on) == origin());
    }
    lemma_weighed(f, c, ctx, s, ctx.len() as int, node);
    if has_key(ctx, node.0) {
        lemma_lookup_found(ctx, node.0);
        let p = rank(ctx, node.0);
        assert(SupportNodeId(ctx[p].0) == node);
        assert(fd.sup[p] == supported(f, ctx, SupportNodeId(ctx[p].0)));
        assert(lookup(f.node_owner, node.0) is Some);
    }
}

proof fn lemma_context_wf(f: FamilyModel, nodes: Seq<StressNodeContext2D>, n: int)
    requires
        0 <= n <= nodes.len(),
    ensures
        ascending(usable_nodes(f, nodes, n)),
        forall|k: u32| #[trigger]
            has_key(usable_nodes(f, nodes, n), k) ==> lookup(f.node_owner, k) is Some,
    decreases n,
{
    if n > 0 {
        lemma_context_wf(f, nodes, n - 1);
        let node = nodes[n - 1];
        lemma_put(usable_nodes(f, nodes, n - 1), node.node.0, node);
    }
}

/// Some entry among the first `n` has the key.
spec fn among<V>(s: Seq<(u32, V)>, n: int, k: u32) -> bool {
    exists|i: int| 0 <= i < n && i < s.len() && (#[trigger] s[i]).0 == k
}

proof fn lemma_weighed(
    f: FamilyModel,
    c: ContextModel,
    ctx: Seq<(u32, StressNodeContext2D)>,
    s: SumsModel,
    n: int,
    node: SupportNodeId,
)
    requires
        s.wf(),
        ascending(ctx),
        0 <= n <= ctx.len(),
        forall|k: u32| #[trigger] has_key(ctx, k) ==> lookup(f.node_owner, k) is Some,
    ensures
        weighed(f, c, ctx, s, n).wf(),
        ({
            let known = lookup(ctx, node.0);
            let was = match lookup(s.forces, node.0) {
                Some(v) => v,
                None => origin(),
            };
            let now = lookup(weighed(f, c, ctx, s, n).forces, node.0);
            if among(ctx, n, node.0) && supported(f, ctx, node) && (known->0).mass.finite() && (
            known->0).mass.place() > 0 {
                now == Some(vec_sum(was, vec_scaled(c.gravity, (known->0).mass)))
            } else {
                now == lookup(s.forces, node.0)
            }
        }),
    decreases n,
{
    if n > 0 {
        lemma_weighed(f, c, ctx, s, n - 1, node);
        let before = weighed(f, c, ctx, s, n - 1);
        let here = SupportNodeId(ctx[n - 1].0);
        let mass = ctx[n - 1].1.mass;
        let fallback = crate::stress::fallback_keys(
            c.fallback_order_keys,
            c.fallback_order_keys.len() as int,
        );
        assert(has_key(ctx, here.0));
        let actor = lookup(f.node_owner, here.0)->0;
        lemma_force_wf(
            before,
            here,
            actor,
            vec_scaled(c.gravity, mass),
            lookup(fallback, actor.0),
            DamageSource::Stress,
        );
        lemma_lookup_at(ctx, n - 1);
        if here == node {
            assert(!among(ctx, n - 1, node.0)) by {
                if among(ctx, n - 1, node.0) {
                    let i = choose|i: int| 0 <= i < n - 1 && i < ctx.len() && (
                    #[trigger] ctx[i]).0 == node.0;
                    assert(ctx[i].0 < ctx[n - 1].0);
                }
            }
            assert(among(ctx, n, node.0)) by {
                assert(ctx[n - 1].0 == node.0);
            }
        } else {
            assert(SupportNodeId(node.0) == node);
            assert(here.0 != node.0);
            if among(ctx, n, node.0) {
                let i = choose|i: int| 0 <= i < n && i < ctx.len() && (#[trigger] ctx[i]).0
                    == node.0;
                assert(0 <= i < n - 1 && ctx[i].0 == node.0);
            }
            if among(ctx, n - 1, node.0) {
                let i = choose|i: int| 0 <= i < n - 1 && i < ctx.len() && (#[trigger] ctx[i]).0
                    == node.0;
                assert(0 <= i < n && ctx[i].0 == node.0);
            }
        }
    }
}

/// The target stands for something whole of the body, and the actor owns one of its ends.
pub open spec fn stressed(f: FamilyModel, actor: FxActorId, t: FractureTarget) -> bool {
    match t {
        FractureTarget::Bond(id) => exists|i: int|
            0 <= i < f.asset.internal_bonds.len() && (#[trigger] f.asset.internal_bonds[i]).id == id
                && is_whole(f.bond_states[i]) && is_owner(
                f,
                actor,
                f.asset.internal_bonds[i].node_a,
            ),
        FractureTarget::ExternalBond(id) => exists|i: int|
            0 <= i < f.external_bonds.len() && (#[trigger] f.external_bonds[i]).1.id == id
                && is_whole(f.external_bonds[i].1.runtime) && is_owner(
                f,
                actor,
                f.external_bonds[i].1.node,
            ),
        FractureTarget::Connection(id) => exists|i: int|
            0 <= i < f.dynamic_structural_bonds.len() && (
            #[trigger] f.dynamic_structural_bonds[i]).1.id == id
                && f.dynamic_structural_bonds[i].1.policy == DynamicConnectionPolicy::GraphOnly
                && is_whole(f.dynamic_structural_bonds[i].1.runtime) && (is_owner(
                f,
                actor,
                f.dynamic_structural_bonds[i].1.node_a,
            ) || is_owner(f, actor, f.dynamic_structural_bonds[i].1.node_b)),
        _ => false,
    }
}

/// The edge stands for something whole of the body, with the same ends.
spec fn edge_stands(f: FamilyModel, e: StressGraphEdge) -> bool {
    match e.target {
        StressEdgeTarget::Bond(id) => exists|i: int|
            0 <= i < f.asset.internal_bonds.len() && (#[trigger] f.asset.internal_bonds[i]).id == id
                && is_whole(f.bond_states[i]) && e.node_a == f.asset.internal_bonds[i].node_a,
        StressEdgeTarget::ExternalBond(id) => exists|i: int|
            0 <= i < f.external_bonds.len() && (#[trigger] f.external_bonds[i]).1.id == id
                && is_whole(f.external_bonds[i].1.runtime) && e.node_a
                == f.external_bonds[i].1.node,
        StressEdgeTarget::Connection(id) => exists|i: int|
            0 <= i < f.dynamic_structural_bonds.len() && (
            #[trigger] f.dynamic_structural_bonds[i]).1.id == id
                && f.dynamic_structural_bonds[i].1.policy == DynamicConnectionPolicy::GraphOnly
                && is_whole(f.dynamic_structural_bonds[i].1.runtime) && e.node_a
                == f.dynamic_structural_bonds[i].1.node_a && e.node_b == Some(
                f.dynamic_structural_bonds[i].1.node_b,
            ),
    }
}

proof fn lemma_bond_edges_stand(f: FamilyModel, n: int)
    requires
        0 <= n <= f.asset.internal_bonds.len(),
    ensures
        forall|k: int|
            0 <= k < bond_edges(f, n).len() ==> edge_stands(f, #[trigger] bond_edges(f, n)[k]),
    decreases n,
{
    if n > 0 {
        lemma_bond_edges_stand(f, n - 1);
        let before = bond_edges(f, n - 1);
        let now = bond_edges(f, n);
        assert forall|k: int| 0 <= k < now.len() implies edge_stands(f, #[trigger] now[k]) by {
            if k < before.len() {
                assert(now[k] == before[k]);
            } else {
                assert(f.asset.internal_bonds[n - 1].id == f.asset.internal_bonds[n - 1].id);
            }
        }
    }
}

proof fn lemma_anchor_edges_stand(f: FamilyModel, n: int)
    requires
        0 <= n <= f.external_bonds.len(),
    ensures
        forall|k: int|
            0 <= k < anchor_edges(f, n).len() ==> edge_stands(f, #[trigger] anchor_edges(f, n)[k]),
    decreases n,
{
    if n > 0 {
        lemma_anchor_edges_stand(f, n - 1);
        let before = anchor_edges(f, n - 1);
        let now = anchor_edges(f, n);
        assert forall|k: int| 0 <= k < now.len() implies edge_stands(f, #[trigger] now[k]) by {
            if k < before.len() {
                assert(now[k] == before[k]);
            } else {
                assert(f.external_bonds[n - 1].1.id == f.external_bonds[n - 1].1.id);
            }
        }
    }
}

proof fn lemma_connection_edges_stand(f: FamilyModel, n: int)
    requires
        0 <= n <= f.dynamic_structural_bonds.len(),
    ensures
        forall|k: int|
            0 <= k < connection_edges(f, n).len() ==> edge_stands(
                f,
                #[trigger] connection_edges(f, n)[k],
            ),
    decreases n,
{
    if n > 0 {
        lemma_connection_edges_stand(f, n - 1);
        let before = connection_edges(f, n - 1);
        let now = connection_edges(f, n);
        assert forall|k: int| 0 <= k < now.len() implies edge_stands(f, #[trigger] now[k]) by {
            if k < before.len() {
                assert(now[k] == before[k]);
            } else {
                assert(f.dynamic_structural_bonds[n - 1].1.id
                    == f.dynamic_structural_bonds[n - 1].1.id);
            }
        }
    }
}

proof fn lemma_edges_stand(f: FamilyModel)
    ensures
        forall|k: int|
            0 <= k < stress_edges(f).len() ==> edge_stands(f, #[trigger] stress_edges(f)[k]),
{
    let a = bond_edges(f, f.asset.internal_bonds.len() as int);
    let b = anchor_edges(f, f.external_bonds.len() as int);
    let c = connection_edges(f, f.dynamic_structural_bonds.len() as int);
    lemma_bond_edges_stand(f, f.asset.internal_bonds.len() as int);
    lemma_anchor_edges_stand(f, f.external_bonds.len() as int);
    lemma_connection_edges_stand(f, f.dynamic_structural_bonds.len() as int);
    let all = stress_edges(f);
    assert forall|k: int| 0 <= k < all.len() implies edge_stands(f, #[trigger] all[k]) by {
        if k < a.len() {
            assert(all[k] == a[k]);
        } else if k < a.len() + b.len() {
            assert(all[k] == b[k - a.len()]);
        } else {
            assert(all[k] == c[k - a.len() - b.len()]);
        }
    }
}

/// What holds of a command that the solver gives.
spec fn grounded(
    settings: StressSettings,
    f: FamilyModel,
    s: SumsModel,
    c: FractureCommand,
) -> bool {
    &&& stressed(f, c.actor, c.target)
    &&& lookup(s.first_keys, c.actor.0) == Some(c.order_key)
    &&& c.health_loss == settings.damage_per_overload
    &&& c.source == match lookup(s.sources, c.actor.0) {
        Some(source) => source,
        None => DamageSource::Stress,
    }
}

proof fn lemma_overloads_grounded(
    settings: StressSettings,
    f: FamilyModel,
    ctx: Seq<(u32, StressNodeContext2D)>,
    s: SumsModel,
    edges: Seq<StressGraphEdge>,
    loads: Seq<Option<StressEdgeLoad>>,
    n: int,
)
    requires
        0 <= n <= edges.len(),
        forall|k: int| 0 <= k < edges.len() ==> edge_stands(f, #[trigger] edges[k]),
    ensures
        forall|i: int|
            0 <= i < overloads(settings, f, ctx, s, edges, loads, n).len() ==> grounded(
                settings,
                f,
                s,
                #[trigger] overloads(settings, f, ctx, s, edges, loads, n)[i],
            ),
    decreases n,
{
    if n > 0 {
        lemma_overloads_grounded(settings, f, ctx, s, edges, loads, n - 1);
        let before = overloads(settings, f, ctx, s, edges, loads, n - 1);
        let now = overloads(settings, f, ctx, s, edges, loads, n);
        let e = edges[n - 1];
        assert(edge_stands(f, e));
        if let Some(c) = overload(settings, f, ctx, s, e, loads[n - 1]) {
            assert(now == before.push(c));
            assert(grounded(settings, f, s, c)) by {
                match e.target {
                    StressEdgeTarget::Bond(id) => {
                        let i = choose|i: int|
                            0 <= i < f.asset.internal_bonds.len() && (
                            #[trigger] f.asset.internal_bonds[i]).id == id && is_whole(
                                f.bond_states[i],
                            ) && e.node_a == f.asset.internal_bonds[i].node_a;
                        assert(is_owner(f, c.actor, f.asset.internal_bonds[i].node_a));
                    },
                    StressEdgeTarget::ExternalBond(id) => {
                        let i = choose|i: int|
                            0 <= i < f.external_bonds.len() && (
                            #[trigger] f.external_bonds[i]).1.id == id && is_whole(
                                f.external_bonds[i].1.runtime,
                            ) && e.node_a == f.external_bonds[i].1.node;
                        assert(is_owner(f, c.actor, f.external_bonds[i].1.node));
                    },
                    StressEdgeTarget::Connection(id) => {
                        let i = choose|i: int|
                            0 <= i < f.dynamic_structural_bonds.len() && (
                            #[trigger] f.dynamic_structural_bonds[i]).1.id == id
                                && f.dynamic_structural_bonds[i].1.policy
                                == DynamicConnectionPolicy::GraphOnly && is_whole(
                                f.dynamic_structural_bonds[i].1.runtime,
                            ) && e.node_a == f.dynamic_structural_bonds[i].1.node_a && e.node_b
                                == Some(f.dynamic_structural_bonds[i].1.node_b);
                        assert(is_owner(f, c.actor, f.dynamic_structural_bonds[i].1.node_a)
                            || is_owner(f, c.actor, f.dynamic_structural_bonds[i].1.node_b));
                    },
                }
            }
        } else {
            assert(now == before);
        }
        assert forall|i: int| 0 <= i < now.len() implies grounded(
            settings,
            f,
            s,
            #[trigger] now[i],
        ) by {
            if i < before.len() {
                assert(now[i] == before[i]);
            }
        }
    }
}

/// What comes through the cap was there before it.
proof fn lemma_capped_members(
    raw: Seq<FractureCommand>,
    actors: Seq<(u32, ActorModel)>,
    cap: int,
    n: int,
    x: FractureCommand,
)
    requires
        0 <= cap,
        0 <= n <= actors.len(),
        capped_upto(raw, actors, cap, n).contains(x),
    ensures
        raw.contains(x),
    decreases n,
{
    let all = capped_upto(raw, actors, cap, n);
    let i = choose|i: int| 0 <= i < all.len() && all[i] == x;
    if n > 0 {
        let before = capped_upto(raw, actors, cap, n - 1);
        let actor = FxActorId(actors[n - 1].0);
        let here = capped(raw, actor, cap);
        if i < before.len() {
            assert(before[i] == x);
            lemma_capped_members(raw, actors, cap, n - 1, x);
        } else {
            let on = commands_on(raw, actor, raw.len() as int);
            let own = ordered_commands(on);
            lemma_sorted_permutation(on, key_of::<FractureCommand>());
            on.to_multiset_ensures();
            own.to_multiset_ensures();
            let j = i - before.len();
            assert(here[j] == x && own[j] == x);
            assert(own.contains(x));
            assert(own.to_multiset().count(x) > 0);
            assert(on.contains(x));
            lemma_on_members(raw, actor, raw.len() as int, x);
        }
    }
}

proof fn lemma_on_members(raw: Seq<FractureCommand>, actor: FxActorId, n: int, x: FractureCommand)
    requires
        0 <= n <= raw.len(),
        commands_on(raw, actor, n).contains(x),
    ensures
        raw.contains(x),
    decreases n,
{
    let all = commands_on(raw, actor, n);
    let i = choose|i: int| 0 <= i < all.len() && all[i] == x;
    if n > 0 {
        let before = commands_on(raw, actor, n - 1);
        if i < before.len() {
            assert(before[i] == x);
            lemma_on_members(raw, actor, n - 1, x);
        } else {
            assert(raw[n - 1] == x);
        }
    }
}

proof fn lemma_commands_grounded(
    settings: StressSettings,
    f: FamilyModel,
    c: ContextModel,
    inputs: Seq<StressInput>,
    i: int,
)
    requires
        0 <= i < stress_commands(settings, f, c, inputs).len(),
    ensures
        grounded(
            settings,
            f,
            all_sums(settings, f, c, inputs),
            stress_commands(settings, f, c, inputs)[i],
        ),
{
    let raw = raw_commands(settings, f, c, inputs);
    let cap = settings.max_fractures_per_frame as int;
    let n = f.actors.len() as int;
    let kept = capped_upto(raw, f.actors, cap, n);
    let all = stress_commands(settings, f, c, inputs);
    lemma_sorted_permutation(kept, key_of::<FractureCommand>());
    kept.to_multiset_ensures();
    all.to_multiset_ensures();
    assert(all.contains(all[i]));
    assert(all.to_multiset().count(all[i]) > 0);
    assert(kept.contains(all[i]));
    lemma_capped_members(raw, f.actors, cap, n, all[i]);
    let fd = field_of(settings, f, c, inputs);
    lemma_edges_stand(f);
    lemma_overloads_grounded(
        settings,
        f,
        fd.ctx,
        all_sums(settings, f, c, inputs),
        fd.edges,
        edge_loads(fd, settings.max_iterations as nat, settings.convergence_epsilon),
        fd.edges.len() as int,
    );
    let k = choose|k: int| 0 <= k < raw.len() && raw[k] == all[i];
    assert(grounded(settings, f, all_sums(settings, f, c, inputs), raw[k]));
}

/// The first key of an actor is the earliest of its inputs, and its source that of its first input.
proof fn lemma_first_key(inputs: Seq<StressInput>, n: int, actor: FxActorId)
    requires
        0 <= n <= inputs.len(),
    ensures
        ({
            let s = input_sums(inputs, n);
            &&& lookup(s.first_keys, actor.0) is Some ==> exists|j: int|
                0 <= j < n && (#[trigger] inputs[j]).actor == actor && inputs[j].order_key
                    == lookup(s.first_keys, actor.0)->0
            &&& forall|j: int|
                0 <= j < n && (#[trigger] inputs[j]).actor == actor ==> lookup(
                    s.first_keys,
                    actor.0,
                ) is Some && not_after(lookup(s.first_keys, actor.0)->0, inputs[j].order_key)
            &&& lookup(s.sources, actor.0) is Some ==> exists|j: int|
                0 <= j < n && (#[trigger] inputs[j]).actor == actor && inputs[j].source == lookup(
                    s.sources,
                    actor.0,
                )->0 && forall|k: int| 0 <= k < j ==> (#[trigger] inputs[k]).actor != actor
            &&& forall|j: int|
                0 <= j < n && (#[trigger] inputs[j]).actor == actor ==> lookup(
                    s.sources,
                    actor.0,
                ) is Some
        }),
    decreases n,
{
    if n > 0 {
        lemma_first_key(inputs, n - 1, actor);
        lemma_sums_wf(inputs, n - 1);
        let s = input_sums(inputs, n - 1);
        let t = input_sums(inputs, n);
        let i = inputs[n - 1];
        lemma_force_wf(s, i.node, i.actor, i.force, Some(i.order_key), i.source);
        let was = lookup(s.first_keys, i.actor.0);
        let first = match was {
            Some(old_key) => crate::stress::earlier(old_key, i.order_key),
            None => i.order_key,
        };
        lemma_put(s.first_keys, i.actor.0, first);
        lemma_put(s.sources, i.actor.0, i.source);
        if i.actor == actor {
            assert(inputs[n - 1].actor == actor);
            if was is Some {
                lemma_rank_order(was->0, i.order_key);
                let j = choose|j: int|
                    0 <= j < n - 1 && (#[trigger] inputs[j]).actor == actor && inputs[j].order_key
                        == was->0;
                assert(inputs[j].actor == actor);
            }
            assert forall|j: int| 0 <= j < n && (#[trigger] inputs[j]).actor == actor implies
                not_after(lookup(t.first_keys, actor.0)->0, inputs[j].order_key) by {
                if j < n - 1 {
                    assert(not_after(was->0, inputs[j].order_key));
                    lemma_rank_order(was->0, inputs[j].order_key);
                    lemma_rank_order(first, was->0);
                    lemma_rank_order(first, inputs[j].order_key);
                    lemma_rank_order(i.order_key, was->0);
                } else {
                    lemma_rank_order(first, i.order_key);
                }
            }
            if has_key(s.sources, actor.0) {
                assert(lookup(s.sources, actor.0) is Some);
                let j = choose|j: int|
                    0 <= j < n - 1 && (#[trigger] inputs[j]).actor == actor && inputs[j].source
                        == lookup(s.sources, actor.0)->0 && forall|k: int|
                        0 <= k < j ==> (#[trigger] inputs[k]).actor != actor;
                assert(inputs[j].actor == actor);
            } else {
                assert(lookup(s.sources, actor.0) is None);
                assert(inputs[n - 1].source == lookup(t.sources, actor.0)->0);
            }
        } else {
            assert(FxActorId(actor.0) == actor);
            assert(i.actor.0 != actor.0);
            if lookup(t.first_keys, actor.0) is Some {
                let j = choose|j: int|
                    0 <= j < n - 1 && (#[trigger] inputs[j]).actor == actor && inputs[j].order_key
                        == lookup(s.first_keys, actor.0)->0;
                assert(inputs[j].actor == actor);
            }
            if lookup(t.sources, actor.0) is Some {
                let j = choose|j: int|
                    0 <= j < n - 1 && (#[trigger] inputs[j]).actor == actor && inputs[j].source
                        == lookup(s.sources, actor.0)->0 && forall|k: int|
                        0 <= k < j ==> (#[trigger] inputs[k]).actor != actor;
                assert(inputs[j].actor == actor);
            }
        }
    }
}

/// The first input of an actor.
pub open spec fn leads(inputs: Seq<StressInput>, actor: FxActorId, j: int) -> bool {
    &&& 0 <= j < inputs.len()
    &&& inputs[j].actor == actor
    &&& forall|k: int| 0 <= k < j ==> (#[trigger] inputs[k]).actor != actor
}

/// Every command that forces give has its ground: it strikes something whole of the body, for an
/// actor that owns one of its ends, as hard as the settings say. Without weight it has the
/// earliest key of the inputs of that actor, and the source of the first of them.
pub proof fn lemma_damage_has_its_ground(
    settings: StressSettings,
    f: FamilyModel,
    c: ContextModel,
    inputs: Seq<StressInput>,
    i: int,
)
    requires
        0 <= i < stress_commands(settings, f, c, inputs).len(),
    ensures
        ({
            let command = stress_commands(settings, f, c, inputs)[i];
            &&& stressed(f, command.actor, command.target)
            &&& command.health_loss == settings.damage_per_overload
            &&& weightless(settings, c.gravity) && in_key_order(inputs) ==> {
                exists|j: int| #[trigger]
                    leads(inputs, command.actor, j) && inputs[j].order_key == command.order_key
                        && inputs[j].source == command.source
            }
        }),
{
    let command = stress_commands(settings, f, c, inputs)[i];
    lemma_commands_grounded(settings, f, c, inputs, i);
    if weightless(settings, c.gravity) && in_key_order(inputs) {
        lemma_sorted_inputs(inputs);
        assert(!gravity_acts(settings, c.gravity));
        let s = input_sums(inputs, inputs.len() as int);
        assert(all_sums(settings, f, c, inputs) == s);
        let (a, j) = lemma_first_input(inputs, command.actor);
        assert(not_after(inputs[j].order_key, inputs[a].order_key));
        lemma_same_place(inputs[j].order_key, inputs[a].order_key);
        assert(leads(inputs, command.actor, j));
    }
}

/// The input with the earliest key of an actor, and its first input.
proof fn lemma_first_input(inputs: Seq<StressInput>, actor: FxActorId) -> (r: (int, int))
    requires
        lookup(input_sums(inputs, inputs.len() as int).first_keys, actor.0) is Some,
    ensures
        0 <= r.0 < inputs.len(),
        leads(inputs, actor, r.1),
        r.1 <= r.0,
        lookup(input_sums(inputs, inputs.len() as int).first_keys, actor.0) == Some(
            inputs[r.0].order_key,
        ),
        lookup(input_sums(inputs, inputs.len() as int).sources, actor.0) == Some(
            inputs[r.1].source,
        ),
        not_after(inputs[r.0].order_key, inputs[r.1].order_key),
{
    let n = inputs.len() as int;
    lemma_first_key(inputs, n, actor);
    let first = lookup(input_sums(inputs, n).first_keys, actor.0);
    let source = lookup(input_sums(inputs, n).sources, actor.0);
    let a = choose|j: int|
        0 <= j < n && (#[trigger] inputs[j]).actor == actor && inputs[j].order_key == first->0;
    assert(inputs[a].actor == actor);
    let b = choose|j: int|
        0 <= j < n && (#[trigger] inputs[j]).actor == actor && inputs[j].source == source->0
            && forall|k: int| 0 <= k < j ==> (#[trigger] inputs[k]).actor != actor;
    assert(leads(inputs, actor, b));
    (a, b)
}

proof fn lemma_same_place(a: DeterministicOrderKey, b: DeterministicOrderKey)
    requires
        not_after(a, b),
        not_after(b, a),
    ensures
        a == b,
{
}

/// Without forces and without weight nothing is damaged.
pub proof fn lemma_rest_is_harmless(
    settings: StressSettings,
    f: FamilyModel,
    c: ContextModel,
)
    requires
        weightless(settings, c.gravity),
    ensures
        stress_commands(settings, f, c, Seq::empty()).len() == 0,
{
    let none = Seq::<StressInput>::empty();
    let all = stress_commands(settings, f, c, none);
    if all.len() > 0 {
        lemma_damage_has_its_ground(settings, f, c, none, 0);
        assert(in_key_order(none));
    }
}

} // verus!
