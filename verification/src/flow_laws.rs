//! How forces go through a body.

use crate::asset::BondModel;
use crate::damage_laws::is_whole;
use crate::family::FamilyModel;
use crate::geometry::{dot_product, norm, origin, vec_scaled, vec_sum, Vec2};
use crate::ids::SupportNodeId;
use crate::inertia_laws::scale;
use crate::load_laws::lemma_shared_out;
use crate::mean_laws::{about, lemma_one};
use crate::number_laws::{
    lemma_negated, lemma_plain_value, lemma_rounded, lemma_small_integer, lemma_value_sign, size_of,
};
use crate::rounding::units;
use crate::scalar::{
    absolute, below, difference, maximum, negated, of_integer, product, quotient, sum, Scalar,
    ONE_BITS,
};
use crate::stress::{first_side, second_side, worse_load};
use crate::stress_graph::{
    anchor_edges, bond_edges, connection_edges, stress_edges, StressEdgeTarget, StressGraphEdge,
};
use crate::stress_solve::{
    around, goes_along, held_load, outgoing, passed, relaxed, spread, starting, FieldModel,
    FrontierModel, StressEdgeLoad, WaveModel,
};
use crate::structure::{
    BondRuntimeState, DynamicConnectionPolicy, DynamicStructuralBond2D, ExternalBond2D,
};
use vstd::prelude::*;

verus! {

/// The reverse of a vector.
pub open spec fn opposite(v: Vec2) -> Vec2 {
    Vec2 { x: negated(v.x), y: negated(v.y) }
}

/// The numbers are equal, but that a zero may have either sign.
spec fn same_number(a: Scalar, b: Scalar) -> bool {
    a == b || (a.zero() && b.zero())
}

proof fn lemma_product_flips(a: Scalar, b: Scalar)
    requires
        a.finite(),
        b.finite(),
    ensures
        product(a, negated(b)) == negated(product(a, b)),
        !product(a, b).nan(),
{
    lemma_negated(b);
    lemma_one();
    let p = scale();
    let x = units(a.magnitude());
    let y = units(b.magnitude());
    lemma_plain_value(absolute(a));
    lemma_plain_value(absolute(b));
    assert(0 <= x * y) by (nonlinear_arith)
        requires
            0 <= x,
            0 <= y,
    ;
    lemma_rounded(x * y, p);
}

proof fn lemma_sum_flips(a: Scalar, b: Scalar)
    requires
        a.finite(),
        b.finite(),
    ensures
        same_number(sum(negated(a), negated(b)), negated(sum(a, b))),
        !sum(a, b).nan(),
{
    lemma_negated(a);
    lemma_negated(b);
    let total = a.value() + b.value();
    lemma_rounded(size_of(total), 1);
}

proof fn lemma_dot_flips(f: Vec2, n: Vec2)
    requires
        f.x.finite(),
        f.y.finite(),
        n.x.finite(),
        n.y.finite(),
        product(f.x, n.x).finite(),
        product(f.y, n.y).finite(),
    ensures
        same_number(dot_product(f, opposite(n)), negated(dot_product(f, n))),
        !dot_product(f, n).nan(),
{
    lemma_product_flips(f.x, n.x);
    lemma_product_flips(f.y, n.y);
    lemma_sum_flips(product(f.x, n.x), product(f.y, n.y));
}

/// The force and the axis give finite products.
pub open spec fn measurable(f: Vec2, n: Vec2) -> bool {
    &&& f.x.finite()
    &&& f.y.finite()
    &&& n.x.finite()
    &&& n.y.finite()
    &&& product(f.x, n.x).finite()
    &&& product(f.y, n.y).finite()
}

/// An edge bears the same load whichever of its ends is named first: with the ends exchanged and
/// the axes turned round nothing changes.
pub proof fn lemma_ends_are_alike(at_a: Vec2, at_b: Vec2, normal: Vec2, tangent: Vec2)
    requires
        measurable(at_a, normal),
        measurable(at_a, tangent),
        measurable(at_b, normal),
        measurable(at_b, tangent),
    ensures
        ({
            let here = worse_load(
                first_side(at_a, normal, tangent),
                second_side(at_b, normal, tangent),
            );
            let there = worse_load(
                first_side(at_b, opposite(normal), opposite(tangent)),
                second_side(at_a, opposite(normal), opposite(tangent)),
            );
            here == there
        }),
{
    lemma_dot_flips(at_a, normal);
    lemma_dot_flips(at_b, normal);
    lemma_dot_flips(at_a, tangent);
    lemma_dot_flips(at_b, tangent);
}

/// A force the other way pulls where it pushed, pushes where it pulled, and shears as much.
pub proof fn lemma_reversed_force(force: Vec2, normal: Vec2, tangent: Vec2)
    requires
        measurable(force, normal),
        measurable(force, tangent),
    ensures
        ({
            let load = first_side(force, normal, tangent);
            let back = first_side(opposite(force), normal, tangent);
            &&& back.tension == load.compression
            &&& back.compression == load.tension
            &&& back.shear == load.shear
        }),
{
    lemma_product_swaps(force.x, normal.x);
    lemma_product_swaps(force.y, normal.y);
    lemma_product_swaps(force.x, tangent.x);
    lemma_product_swaps(force.y, tangent.y);
    lemma_dot_flips(force, normal);
    lemma_dot_flips(force, tangent);
    assert(dot_product(opposite(force), normal) == dot_product(force, opposite(normal)));
    assert(dot_product(opposite(force), tangent) == dot_product(force, opposite(tangent)));
}

proof fn lemma_product_swaps(a: Scalar, b: Scalar)
    requires
        a.finite(),
        b.finite(),
    ensures
        product(negated(a), b) == product(a, negated(b)),
{
    lemma_negated(a);
    lemma_negated(b);
}

/// The two ends of an edge between nodes that are held bear opposite forces.
pub proof fn lemma_action_and_reaction(fd: FieldModel, pots: Seq<Vec2>, i: int)
    requires
        0 <= i < fd.edges.len(),
        fd.edges[i].node_b is Some,
        held_load(fd, pots, i) is Some,
        fd.potential(pots, fd.edges[i].node_a).x.finite(),
        fd.potential(pots, fd.edges[i].node_a).y.finite(),
        fd.potential(pots, fd.edges[i].node_b->0).x.finite(),
        fd.potential(pots, fd.edges[i].node_b->0).y.finite(),
    ensures
        ({
            let load = held_load(fd, pots, i)->0;
            &&& load.node_b_force.x.value() == -load.node_a_force.x.value()
            &&& load.node_b_force.y.value() == -load.node_a_force.y.value()
        }),
{
    let a = fd.potential(pots, fd.edges[i].node_a);
    let b = fd.potential(pots, fd.edges[i].node_b->0);
    lemma_difference_flips(a.x, b.x);
    lemma_difference_flips(a.y, b.y);
}

proof fn lemma_difference_flips(a: Scalar, b: Scalar)
    requires
        a.finite(),
        b.finite(),
    ensures
        difference(b, a).value() == -difference(a, b).value(),
{
    lemma_negated(a);
    lemma_negated(b);
    let d = difference(a, b);
    lemma_negated(d);
    lemma_rounded(size_of(a.value() - b.value()), 1);
    lemma_plain_value(Scalar { bits: 0 });
    lemma_value_sign(Scalar { bits: 0 });
}

/// The number of edges that a force goes on along.
proof fn lemma_outgoing(fd: FieldModel, l: FrontierModel, n: int)
    requires
        0 <= n <= fd.edges.len(),
    ensures
        outgoing(fd, l, n).no_duplicates(),
        forall|i: int| #[trigger]
            outgoing(fd, l, n).contains(i) <==> 0 <= i < n && goes_along(fd.edges[i], l),
    decreases n,
{
    if n > 0 {
        lemma_outgoing(fd, l, n - 1);
        let before = outgoing(fd, l, n - 1);
        assert(!before.contains(n - 1));
        assert forall|i: int| #[trigger] outgoing(fd, l, n).contains(i) <==> 0 <= i < n
            && goes_along(fd.edges[i], l) by {
            assert(before.contains(i) <==> 0 <= i < n - 1 && goes_along(fd.edges[i], l));
            if goes_along(fd.edges[n - 1], l) {
                assert(outgoing(fd, l, n) == before.push(n - 1));
                if before.contains(i) {
                    let k = choose|k: int| 0 <= k < before.len() && before[k] == i;
                    assert(before.push(n - 1)[k] == i);
                }
                assert(before.push(n - 1)[before.len() as int] == n - 1);
            }
        }
    }
}

/// What an edge bears at the near end of a force.
pub open spec fn near_force(e: StressGraphEdge, node: SupportNodeId, load: Option<StressEdgeLoad>) -> Vec2 {
    match load {
        Some(load) => if node == e.node_a {
            load.node_a_force
        } else {
            load.node_b_force
        },
        None => origin(),
    }
}

/// What an edge bears at the far end of a force.
pub open spec fn far_force(e: StressGraphEdge, node: SupportNodeId, load: Option<StressEdgeLoad>) -> Vec2 {
    match load {
        Some(load) => if node == e.node_a {
            load.node_b_force
        } else {
            load.node_a_force
        },
        None => origin(),
    }
}

proof fn lemma_spread(
    fd: FieldModel,
    epsilon: Scalar,
    w: WaveModel,
    l: FrontierModel,
    share: Vec2,
    out: Seq<int>,
    n: int,
)
    requires
        w.loads.len() == fd.edges.len(),
        0 <= n <= out.len(),
        out.no_duplicates(),
        forall|k: int| 0 <= k < out.len() ==> 0 <= #[trigger] out[k] < fd.edges.len(),
    ensures
        ({
            let v = spread(fd, epsilon, w, l, share, out, n);
            &&& v.loads.len() == fd.edges.len()
            &&& v.done == w.done
            &&& forall|i: int|
                0 <= i < fd.edges.len() ==> {
                    let e = fd.edges[i];
                    if out.take(n).contains(i) {
                        &&& (#[trigger] v.loads[i]) is Some
                        &&& near_force(e, l.node, v.loads[i]) == vec_sum(
                            near_force(e, l.node, w.loads[i]),
                            share,
                        )
                        &&& far_force(e, l.node, v.loads[i]) == far_force(e, l.node, w.loads[i])
                    } else {
                        v.loads[i] == w.loads[i]
                    }
                }
        }),
    decreases n,
{
    if n > 0 {
        lemma_spread(fd, epsilon, w, l, share, out, n - 1);
        let k = out[n - 1];
        let now = out.take(n);
        let before = out.take(n - 1);
        assert(now =~= before.push(k));
        assert(!before.contains(k)) by {
            if before.contains(k) {
                let j = choose|j: int| 0 <= j < before.len() && before[j] == k;
                assert(out[j] == out[n - 1]);
            }
        }
        assert forall|i: int| now.contains(i) <==> before.contains(i) || i == k by {
            if before.contains(i) {
                let j = choose|j: int| 0 <= j < before.len() && before[j] == i;
                assert(now[j] == i);
            }
            assert(now[n - 1] == k);
        }
    } else {
        assert(out.take(0) =~= Seq::<int>::empty());
    }
}

/// A force that goes on is shared out among all edges that lead on, in equal parts that come to the
/// whole but for rounding. Each of them bears its part at the near end, and no other edge is
/// touched.
#[verifier::rlimit(40)]
pub proof fn lemma_force_is_shared_out(fd: FieldModel, epsilon: Scalar, w: WaveModel, l: FrontierModel)
    requires
        w.loads.len() == fd.edges.len(),
        !w.done.contains((l.node, l.came_from)),
        l.force.x.finite(),
        l.force.y.finite(),
    ensures
        ({
            let v = passed(fd, epsilon, w, l);
            let n = fd.edges.filter(|e: StressGraphEdge| goes_along(e, l)).len() as int;
            &&& v.done == w.done.push((l.node, l.came_from))
            &&& exists|part: Vec2|
                {
                    &&& 1 <= n <= 0x10_0000 ==> {
                        &&& about(size_of(part.x.value()) * n, size_of(l.force.x.value()), 4, n)
                        &&& about(size_of(part.y.value()) * n, size_of(l.force.y.value()), 4, n)
                        &&& l.force.x.value() >= 0 ==> part.x.value() >= 0
                        &&& l.force.x.value() <= 0 ==> part.x.value() <= 0
                        &&& l.force.y.value() >= 0 ==> part.y.value() >= 0
                        &&& l.force.y.value() <= 0 ==> part.y.value() <= 0
                    }
                    &&& #[trigger] bears(fd, w, v, l, part)
                }
        }),
{
    let n = fd.edges.len() as int;
    let out = outgoing(fd, l, n);
    let count = out.len() as int;
    let part = vec_scaled(l.force, quotient(Scalar { bits: ONE_BITS }, of_integer(count)));
    let v = passed(fd, epsilon, w, l);
    lemma_outgoing(fd, l, n);
    lemma_outgoing_count(fd, l, n);
    assert(fd.edges.take(n) =~= fd.edges);
    assert forall|k: int| 0 <= k < out.len() implies 0 <= #[trigger] out[k] < fd.edges.len() by {
        assert(out.contains(out[k]));
    }
    let start = WaveModel { done: w.done.push((l.node, l.came_from)), ..w };
    lemma_spread(fd, epsilon, start, l, part, out, count);
    assert(out.take(count) =~= out);
    if 1 <= count <= 0x10_0000 {
        lemma_shared_out(l.force.x, count);
        lemma_shared_out(l.force.y, count);
    }
    assert(bears(fd, w, v, l, part)) by {
        assert forall|i: int| 0 <= i < fd.edges.len() implies #[trigger] bears_at(
            fd,
            w,
            v,
            l,
            part,
            i,
        ) by {
            assert(out.contains(i) <==> goes_along(fd.edges[i], l));
        }
    }
}

proof fn lemma_outgoing_count(fd: FieldModel, l: FrontierModel, n: int)
    requires
        0 <= n <= fd.edges.len(),
    ensures
        outgoing(fd, l, n).len() == fd.edges.take(n).filter(
            |e: StressGraphEdge| goes_along(e, l),
        ).len(),
    decreases n,
{
    reveal(Seq::filter);
    if n > 0 {
        lemma_outgoing_count(fd, l, n - 1);
        assert(fd.edges.take(n).drop_last() =~= fd.edges.take(n - 1));
        assert(fd.edges.take(n).last() == fd.edges[n - 1]);
    }
}

/// The edge at a place bears a part of the force more where the force goes along it, and what it
/// bore before elsewhere.
pub open spec fn bears_at(
    fd: FieldModel,
    w: WaveModel,
    v: WaveModel,
    l: FrontierModel,
    part: Vec2,
    i: int,
) -> bool {
    let e = fd.edges[i];
    if goes_along(e, l) {
        &&& v.loads[i] is Some
        &&& near_force(e, l.node, v.loads[i]) == vec_sum(
            near_force(e, l.node, w.loads[i]),
            part,
        )
        &&& far_force(e, l.node, v.loads[i]) == far_force(e, l.node, w.loads[i])
    } else {
        v.loads[i] == w.loads[i]
    }
}

/// Every edge bears what it should after a force has gone on.
pub open spec fn bears(
    fd: FieldModel,
    w: WaveModel,
    v: WaveModel,
    l: FrontierModel,
    part: Vec2,
) -> bool {
    &&& v.loads.len() == w.loads.len()
    &&& forall|i: int| 0 <= i < fd.edges.len() ==> #[trigger] bears_at(fd, w, v, l, part, i)
}

/// The edge holds the node: it is an anchor of it, or leads from it to a node that is held.
pub open spec fn steadies(fd: FieldModel, e: StressGraphEdge, node: SupportNodeId) -> bool {
    if e.node_b is None {
        e.node_a == node
    } else {
        (e.node_a == node && fd.holds(e.node_b->0)) || (e.node_a != node && e.node_b == Some(node)
            && fd.holds(e.node_a))
    }
}

/// The edges among the first `n` that hold a node are counted one by one.
proof fn lemma_degree_counts(fd: FieldModel, pots: Seq<Vec2>, node: SupportNodeId, n: int)
    requires
        0 <= n <= fd.edges.len(),
    ensures
        around(fd, pots, node, n).0 == of_integer(
            fd.edges.take(n).filter(|e: StressGraphEdge| steadies(fd, e, node)).len() as int,
        ) || fd.edges.len() > 0x100_0000,
        fd.edges.take(n).filter(|e: StressGraphEdge| steadies(fd, e, node)).len() <= n,
    decreases n,
{
    reveal(Seq::filter);
    let holds = |e: StressGraphEdge| steadies(fd, e, node);
    lemma_one();
    if n == 0 {
        lemma_small_integer(0);
        lemma_plain_value(of_integer(0));
        assert(0 * scale() == 0);
        assert(of_integer(0) == (Scalar { bits: 0 }));
        assert(fd.edges.take(0).filter(holds).len() == 0);
    } else {
        lemma_degree_counts(fd, pots, node, n - 1);
        let s = fd.edges.take(n);
        let k = fd.edges.take(n - 1).filter(holds).len() as int;
        assert(s.drop_last() =~= fd.edges.take(n - 1));
        assert(s.last() == fd.edges[n - 1]);
        if fd.edges.len() <= 0x100_0000 {
            lemma_small_integer(k);
            lemma_plain_value(of_integer(k));
            let p = scale();
            assert(k * p + p == (k + 1) * p) by (nonlinear_arith);
            assert(0 < (k + 1) * p) by (nonlinear_arith)
                requires
                    0 <= k,
                    0 < p,
            ;
            assert(sum(of_integer(k), Scalar { bits: ONE_BITS }) == of_integer(k + 1));
            assert(s.filter(holds).len() == k + if steadies(fd, fd.edges[n - 1], node) {
                1int
            } else {
                0
            });
        }
    }
}

/// A node that is relaxed takes up the force on it together with what its neighbours pass to it, in
/// as many equal parts as there are edges that hold it. Other nodes stay as they are.
#[verifier::rlimit(40)]
pub proof fn lemma_node_settles(fd: FieldModel, pots: Seq<Vec2>, residual: Scalar, p: int)
    requires
        0 <= p < fd.ctx.len(),
        pots.len() == fd.ctx.len(),
        fd.sup.len() == fd.ctx.len(),
        fd.edges.len() <= 0x10_0000,
    ensures
        ({
            let node = SupportNodeId(fd.ctx[p].0);
            let n = fd.edges.filter(|e: StressGraphEdge| steadies(fd, e, node)).len() as int;
            let passed_on = around(fd, pots, node, fd.edges.len() as int).1;
            let x = sum(fd.force_on(node).x, passed_on.x);
            let y = sum(fd.force_on(node).y, passed_on.y);
            let next = relaxed(fd, pots, residual, p).0;
            &&& next.len() == pots.len()
            &&& forall|q: int| 0 <= q < pots.len() && q != p ==> #[trigger] next[q] == pots[q]
            &&& !fd.sup[p] || n == 0 ==> next == pots
            &&& fd.sup[p] && n > 0 && x.finite() ==> {
                &&& about(size_of(next[p].x.value()) * n, size_of(x.value()), 4, n)
                &&& x.value() >= 0 ==> next[p].x.value() >= 0
                &&& x.value() <= 0 ==> next[p].x.value() <= 0
            }
            &&& fd.sup[p] && n > 0 && y.finite() ==> {
                &&& about(size_of(next[p].y.value()) * n, size_of(y.value()), 4, n)
                &&& y.value() >= 0 ==> next[p].y.value() >= 0
                &&& y.value() <= 0 ==> next[p].y.value() <= 0
            }
        }),
{
    let node = SupportNodeId(fd.ctx[p].0);
    let len = fd.edges.len() as int;
    lemma_degree_counts(fd, pots, node, len);
    assert(fd.edges.take(len) =~= fd.edges);
    let n = fd.edges.filter(|e: StressGraphEdge| steadies(fd, e, node)).len() as int;
    let passed_on = around(fd, pots, node, len).1;
    let x = sum(fd.force_on(node).x, passed_on.x);
    let y = sum(fd.force_on(node).y, passed_on.y);
    lemma_small_integer(n);
    lemma_plain_value(of_integer(n));
    lemma_one();
    if n > 0 {
        assert(n * scale() > 0) by (nonlinear_arith)
            requires
                n > 0,
                scale() > 0,
        ;
        if x.finite() {
            lemma_shared_out(x, n);
        }
        if y.finite() {
            lemma_shared_out(y, n);
        }
    } else {
        assert(0 * scale() == 0);
    }
}

/// The edge is what stands for an internal bond: between its nodes, along its axes, as strong as it
/// is and as healthy as its state.
pub open spec fn is_bond_edge(e: StressGraphEdge, b: BondModel, s: BondRuntimeState) -> bool {
    &&& e.target == StressEdgeTarget::Bond(b.id)
    &&& e.node_a == b.node_a
    &&& e.node_b == Some(b.node_b)
    &&& e.normal == b.normal
    &&& e.tangent == b.tangent
    &&& e.base_health == b.base_health
    &&& e.tension_limit == b.tension_limit
    &&& e.shear_limit == b.shear_limit
    &&& e.effective_length == b.length
    &&& e.health == s.health
}

/// The edge is what stands for an anchor.
pub open spec fn is_anchor_edge(e: StressGraphEdge, b: ExternalBond2D) -> bool {
    &&& e.target == StressEdgeTarget::ExternalBond(b.id)
    &&& e.node_a == b.node
    &&& e.node_b is None
    &&& e.normal == b.normal
    &&& e.tangent == b.tangent
    &&& e.base_health == b.base_health
    &&& e.tension_limit == b.tension_limit
    &&& e.shear_limit == b.shear_limit
    &&& e.effective_length == b.runtime.effective_length
    &&& e.health == b.runtime.health
}

/// The edge is what stands for a connection.
pub open spec fn is_connection_edge(e: StressGraphEdge, b: DynamicStructuralBond2D) -> bool {
    &&& e.target == StressEdgeTarget::Connection(b.id)
    &&& e.node_a == b.node_a
    &&& e.node_b == Some(b.node_b)
    &&& e.normal == b.normal
    &&& e.tangent == b.tangent
    &&& e.base_health == b.base_health
    &&& e.tension_limit == b.tension_limit
    &&& e.shear_limit == b.shear_limit
    &&& e.effective_length == b.runtime.effective_length
    &&& e.health == b.runtime.health
}

proof fn lemma_bond_edge(f: FamilyModel, n: int, i: int) -> (k: int)
    requires
        0 <= i < n <= f.asset.internal_bonds.len(),
        is_whole(f.bond_states[i]),
    ensures
        0 <= k < bond_edges(f, n).len(),
        is_bond_edge(bond_edges(f, n)[k], f.asset.internal_bonds[i], f.bond_states[i]),
    decreases n,
{
    if i == n - 1 {
        bond_edges(f, n).len() - 1
    } else {
        lemma_bond_edge(f, n - 1, i)
    }
}

proof fn lemma_anchor_edge(f: FamilyModel, n: int, i: int) -> (k: int)
    requires
        0 <= i < n <= f.external_bonds.len(),
        is_whole(f.external_bonds[i].1.runtime),
    ensures
        0 <= k < anchor_edges(f, n).len(),
        is_anchor_edge(anchor_edges(f, n)[k], f.external_bonds[i].1),
    decreases n,
{
    if i == n - 1 {
        anchor_edges(f, n).len() - 1
    } else {
        lemma_anchor_edge(f, n - 1, i)
    }
}

proof fn lemma_connection_edge(f: FamilyModel, n: int, i: int) -> (k: int)
    requires
        0 <= i < n <= f.dynamic_structural_bonds.len(),
        is_whole(f.dynamic_structural_bonds[i].1.runtime),
        f.dynamic_structural_bonds[i].1.policy == DynamicConnectionPolicy::GraphOnly,
    ensures
        0 <= k < connection_edges(f, n).len(),
        is_connection_edge(connection_edges(f, n)[k], f.dynamic_structural_bonds[i].1),
    decreases n,
{
    if i == n - 1 {
        connection_edges(f, n).len() - 1
    } else {
        lemma_connection_edge(f, n - 1, i)
    }
}

/// Every whole bond, anchor and connection bears loads.
#[verifier::rlimit(40)]
pub proof fn lemma_whole_links_bear(f: FamilyModel)
    ensures
        forall|i: int|
            0 <= i < f.asset.internal_bonds.len() && is_whole(#[trigger] f.bond_states[i])
                ==> exists|k: int|
                0 <= k < stress_edges(f).len() && #[trigger] is_bond_edge(
                    stress_edges(f)[k],
                    f.asset.internal_bonds[i],
                    f.bond_states[i],
                ),
        forall|i: int|
            0 <= i < f.external_bonds.len() && is_whole((#[trigger] f.external_bonds[i]).1.runtime)
                ==> exists|k: int|
                0 <= k < stress_edges(f).len() && #[trigger] is_anchor_edge(
                    stress_edges(f)[k],
                    f.external_bonds[i].1,
                ),
        forall|i: int|
            0 <= i < f.dynamic_structural_bonds.len() && is_whole(
                (#[trigger] f.dynamic_structural_bonds[i]).1.runtime,
            ) && f.dynamic_structural_bonds[i].1.policy == DynamicConnectionPolicy::GraphOnly
                ==> exists|k: int|
                0 <= k < stress_edges(f).len() && #[trigger] is_connection_edge(
                    stress_edges(f)[k],
                    f.dynamic_structural_bonds[i].1,
                ),
{
    let all = stress_edges(f);
    let bonds = bond_edges(f, f.asset.internal_bonds.len() as int);
    let anchors = anchor_edges(f, f.external_bonds.len() as int);
    assert forall|i: int|
        0 <= i < f.asset.internal_bonds.len() && is_whole(#[trigger] f.bond_states[i]) implies exists|
        k: int,
    |
        0 <= k < all.len() && #[trigger] is_bond_edge(
            all[k],
            f.asset.internal_bonds[i],
            f.bond_states[i],
        ) by {
        let k = lemma_bond_edge(f, f.asset.internal_bonds.len() as int, i);
        assert(all[k] == bonds[k]);
    }
    assert forall|i: int|
        0 <= i < f.external_bonds.len() && is_whole(
            (#[trigger] f.external_bonds[i]).1.runtime,
        ) implies exists|k: int|
        0 <= k < all.len() && #[trigger] is_anchor_edge(all[k], f.external_bonds[i].1) by {
        let k = lemma_anchor_edge(f, f.external_bonds.len() as int, i);
        assert(all[bonds.len() + k] == anchors[k]);
    }
    assert forall|i: int|
        0 <= i < f.dynamic_structural_bonds.len() && is_whole(
            (#[trigger] f.dynamic_structural_bonds[i]).1.runtime,
        ) && f.dynamic_structural_bonds[i].1.policy
            == DynamicConnectionPolicy::GraphOnly implies exists|k: int|
        0 <= k < all.len() && #[trigger] is_connection_edge(
            all[k],
            f.dynamic_structural_bonds[i].1,
        ) by {
        let k = lemma_connection_edge(f, f.dynamic_structural_bonds.len() as int, i);
        assert(all[bonds.len() + anchors.len() + k] == connection_edges(
            f,
            f.dynamic_structural_bonds.len() as int,
        )[k]);
    }
}

/// A force that starts out from a node, by no edge and having been nowhere else.
pub open spec fn starts_from(e: (u32, Vec2)) -> FrontierModel {
    FrontierModel {
        node: SupportNodeId(e.0),
        force: e.1,
        came_from: None,
        visited: seq![e.0],
    }
}

proof fn lemma_starting_upto(fd: FieldModel, epsilon: Scalar, n: int)
    requires
        0 <= n <= fd.forces.len(),
    ensures
        starting(fd, epsilon, n) == fd.forces.take(n).filter(
            |e: (u32, Vec2)|
                !fd.holds(SupportNodeId(e.0)) && below(
                    maximum(epsilon, Scalar { bits: 0 }),
                    norm(e.1),
                ),
        ).map_values(|e: (u32, Vec2)| starts_from(e)),
    decreases n,
{
    reveal(Seq::filter);
    let p = |e: (u32, Vec2)|
        !fd.holds(SupportNodeId(e.0)) && below(maximum(epsilon, Scalar { bits: 0 }), norm(e.1));
    let m = |e: (u32, Vec2)| starts_from(e);
    if n > 0 {
        lemma_starting_upto(fd, epsilon, n - 1);
        let s = fd.forces.take(n);
        let t = fd.forces.take(n - 1);
        assert(s.drop_last() =~= t);
        assert(s.last() == fd.forces[n - 1]);
        if p(fd.forces[n - 1]) {
            assert(t.filter(p).push(s.last()).map_values(m) =~= t.filter(p).map_values(m).push(
                starts_from(s.last()),
            ));
        }
    } else {
        assert(fd.forces.take(0).filter(p).map_values(m) =~= Seq::<FrontierModel>::empty());
    }
}

/// Just the forces on nodes that nothing holds start out, each once, as far as they are above the
/// tolerance.
pub proof fn lemma_free_forces_start(fd: FieldModel, epsilon: Scalar)
    ensures
        starting(fd, epsilon, fd.forces.len() as int) == fd.forces.filter(
            |e: (u32, Vec2)|
                !fd.holds(SupportNodeId(e.0)) && below(
                    maximum(epsilon, Scalar { bits: 0 }),
                    norm(e.1),
                ),
        ).map_values(|e: (u32, Vec2)| starts_from(e)),
{
    lemma_starting_upto(fd, epsilon, fd.forces.len() as int);
    assert(fd.forces.take(fd.forces.len() as int) =~= fd.forces);
}

} // verus!
