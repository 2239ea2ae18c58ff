//! That the bonds of an asset are what its nodes touch along.

use crate::asset::{lemma_node_index, nodes_ascending, AssetModel, BondModel};
use crate::bonding::{
    asset_bonds, asset_stretches, lemma_asset_stretches, normal_sum, same_pair, samples_at,
    samples_upto, BondStrength, EdgeSample,
};
use crate::change_laws::lemma_times_minus_one;
use crate::components::in_parts;
use crate::geometry::{direction, norm, GridCoord, InterfaceEdge, LatticePoint, Vec2};
use crate::ids::SupportNodeId;
use crate::inertia_laws::scale;
use crate::mean_laws::{int_total, lemma_one};
use crate::number_laws::{
    lemma_negated, lemma_plain_value, lemma_rounded, lemma_small_integer, lemma_value_sign,
    lemma_whole_product_error, plain, size_of, within,
};
use crate::occupancy::{lemma_coord_at, lemma_place};
use crate::scalar::{absolute, below, negated, of_integer, quotient, sum, Scalar, ONE_BITS};
use vstd::arithmetic::power2::pow2;
use vstd::prelude::*;

verus! {

/// The edge is the one between two cells of the grid, the second right of the first or below it.
pub open spec fn borders(m: AssetModel, e: InterfaceEdge, c: GridCoord, d: GridCoord) -> bool {
    &&& m.occupancy.has(c)
    &&& m.occupancy.has(d)
    &&& {
        ||| {
            &&& d.x == c.x + 1
            &&& d.y == c.y
            &&& e.start == (LatticePoint { x: d.x, y: c.y })
            &&& e.end.x == d.x
            &&& e.end.y == c.y + 1
        }
        ||| {
            &&& d.x == c.x
            &&& d.y == c.y + 1
            &&& e.start == (LatticePoint { x: c.x, y: d.y })
            &&& e.end.x == c.x + 1
            &&& e.end.y == d.y
        }
    }
}

/// The two cells belong to the two nodes, in either order.
pub open spec fn held_by(
    m: AssetModel,
    c: GridCoord,
    d: GridCoord,
    a: SupportNodeId,
    b: SupportNodeId,
) -> bool {
    ||| m.owner_of_cell(c) == Some(a) && m.owner_of_cell(d) == Some(b)
    ||| m.owner_of_cell(c) == Some(b) && m.owner_of_cell(d) == Some(a)
}

/// The edge lies between a cell of the one node and a cell of the other.
pub open spec fn separates(
    m: AssetModel,
    e: InterfaceEdge,
    a: SupportNodeId,
    b: SupportNodeId,
) -> bool {
    exists|c: GridCoord, d: GridCoord| #[trigger] borders(m, e, c, d) && held_by(m, c, d, a, b)
}

proof fn lemma_sampled_at(m: AssetModel, c: GridCoord, x: EdgeSample)
    requires
        m.occupancy.has(c),
        samples_at(m, c).contains(x),
    ensures
        x.node_a.0 < x.node_b.0,
        separates(m, x.edge, x.node_a, x.node_b),
{
    let all = samples_at(m, c);
    let k = choose|k: int| 0 <= k < all.len() && all[k] == x;
    let right = GridCoord { x: (c.x + 1) as u32, y: c.y };
    let under = GridCoord { x: c.x, y: (c.y + 1) as u32 };
    let beside = c.x + 1 < m.occupancy.width && m.owner_of_cell(c) is Some && m.owner_of_cell(right)
        is Some && m.owner_of_cell(c) != m.owner_of_cell(right);
    if beside && k == 0 {
        assert(borders(m, x.edge, c, right));
        assert(held_by(m, c, right, x.node_a, x.node_b));
    } else {
        assert(borders(m, x.edge, c, under));
        assert(held_by(m, c, under, x.node_a, x.node_b));
    }
}

proof fn lemma_sampled(m: AssetModel, n: int, x: EdgeSample)
    requires
        m.occupancy.wf(),
        0 <= n <= m.occupancy.cells.len(),
    ensures
        samples_upto(m, n).contains(x) ==> x.node_a.0 < x.node_b.0 && separates(
            m,
            x.edge,
            x.node_a,
            x.node_b,
        ),
    decreases n,
{
    if n > 0 {
        lemma_sampled(m, n - 1, x);
        let before = samples_upto(m, n - 1);
        let c = m.occupancy.coord_at(n - 1);
        lemma_coord_at(m.occupancy, n - 1);
        let last = samples_at(m, c);
        if samples_upto(m, n).contains(x) {
            let k = choose|k: int|
                0 <= k < samples_upto(m, n).len() && samples_upto(m, n)[k] == x;
            if k < before.len() {
                assert(before[k] == x);
            } else {
                assert(last[k - before.len()] == x);
                lemma_sampled_at(m, c, x);
            }
        }
    }
}

proof fn lemma_found(m: AssetModel, n: int, e: InterfaceEdge, c: GridCoord, d: GridCoord) -> (x:
    EdgeSample)
    requires
        m.occupancy.wf(),
        0 <= n <= m.occupancy.cells.len(),
        borders(m, e, c, d),
        m.owner_of_cell(c) is Some,
        m.owner_of_cell(d) is Some,
        m.owner_of_cell(c) != m.owner_of_cell(d),
        m.occupancy.place(c) < n,
    ensures
        samples_upto(m, n).contains(x),
        x.edge == e,
        held_by(m, c, d, x.node_a, x.node_b),
        x.node_a.0 < x.node_b.0,
    decreases n,
{
    lemma_place(m.occupancy, c);
    let before = samples_upto(m, n - 1);
    let last = samples_at(m, m.occupancy.coord_at(n - 1));
    let all = samples_upto(m, n);
    assert(all == before + last);
    if m.occupancy.place(c) < n - 1 {
        let x = lemma_found(m, n - 1, e, c, d);
        let k = choose|k: int| 0 <= k < before.len() && before[k] == x;
        assert(all[k] == x);
        x
    } else {
        assert(m.occupancy.coord_at(n - 1) == c);
        let k = if d.y == c.y {
            0int
        } else {
            last.len() - 1
        };
        let x = last[k];
        assert((m.owner_of_cell(c)->0).0 != (m.owner_of_cell(d)->0).0) by {
            if (m.owner_of_cell(c)->0).0 == (m.owner_of_cell(d)->0).0 {
                assert(m.owner_of_cell(c)->0 == m.owner_of_cell(d)->0);
            }
        }
        if d.y == c.y {
            assert(d == (GridCoord { x: (c.x + 1) as u32, y: c.y }));
        } else {
            assert(d == (GridCoord { x: c.x, y: (c.y + 1) as u32 }));
        }
        assert(all[before.len() + k] == x);
        x
    }
}

/// The bond runs along the edge, between the two nodes.
pub open spec fn runs_along(b: BondModel, e: InterfaceEdge, a: SupportNodeId, c: SupportNodeId) -> bool {
    b.interface_edges.contains(e) && ((b.node_a == a && b.node_b == c) || (b.node_a == c
        && b.node_b == a))
}

/// Each edge of the bond lies between cells of its two nodes.
pub open spec fn lies_between(m: AssetModel, b: BondModel) -> bool {
    forall|j: int|
        0 <= j < b.interface_edges.len() ==> separates(
            m,
            #[trigger] b.interface_edges[j],
            b.node_a,
            b.node_b,
        )
}

/// Each edge of a bond lies between cells of its two nodes, and each edge between cells of two
/// nodes belongs to a bond of theirs.
#[verifier::rlimit(40)]
pub proof fn lemma_bonds_are_interfaces(m: AssetModel, strength: BondStrength)
    requires
        m.occupancy.wf(),
    ensures
        forall|k: int|
            0 <= k < asset_bonds(m, strength).len() ==> lies_between(
                m,
                #[trigger] asset_bonds(m, strength)[k],
            ),
        forall|e: InterfaceEdge, c: GridCoord, d: GridCoord| #[trigger]
            borders(m, e, c, d) && m.owner_of_cell(c) is Some && m.owner_of_cell(d) is Some
                && m.owner_of_cell(c) != m.owner_of_cell(d) ==> exists|k: int|
                0 <= k < asset_bonds(m, strength).len() && #[trigger] runs_along(
                    asset_bonds(m, strength)[k],
                    e,
                    m.owner_of_cell(c)->0,
                    m.owner_of_cell(d)->0,
                ),
{
    let bonds = asset_bonds(m, strength);
    let found = asset_stretches(m);
    let n = m.occupancy.cells.len() as int;
    let raw = samples_upto(m, n);
    lemma_asset_stretches(m);
    assert forall|k: int| 0 <= k < bonds.len() implies lies_between(m, #[trigger] bonds[k]) by {
        let part = found[k];
        let b = bonds[k];
        assert forall|j: int| 0 <= j < b.interface_edges.len() implies separates(
            m,
            #[trigger] b.interface_edges[j],
            b.node_a,
            b.node_b,
        ) by {
            assert(raw.contains(part[j]) && same_pair(part[0], part[j]));
            lemma_sampled(m, n, part[j]);
        }
    }
    assert forall|e: InterfaceEdge, c: GridCoord, d: GridCoord| #[trigger]
        borders(m, e, c, d) && m.owner_of_cell(c) is Some && m.owner_of_cell(d) is Some
            && m.owner_of_cell(c) != m.owner_of_cell(d) implies exists|k: int|
        0 <= k < bonds.len() && #[trigger] runs_along(
            bonds[k],
            e,
            m.owner_of_cell(c)->0,
            m.owner_of_cell(d)->0,
        ) by {
        lemma_place(m.occupancy, c);
        let x = lemma_found(m, n, e, c, d);
        let i = choose|i: int| 0 <= i < raw.len() && raw[i] == x;
        assert(in_parts(found, raw[i]));
        let k = choose|k: int| 0 <= k < found.len() && (#[trigger] found[k]).contains(x);
        let part = found[k];
        let j = choose|j: int| 0 <= j < part.len() && part[j] == x;
        assert(same_pair(part[0], part[j]));
        assert(bonds[k].interface_edges[j] == e);
        assert(runs_along(bonds[k], e, m.owner_of_cell(c)->0, m.owner_of_cell(d)->0));
    }
}

/// Bonds are numbered in turn, each between a node and one with a greater id. A bond is as long as
/// its edges together, but for rounding, and as strong as it was asked to be.
pub proof fn lemma_bond_is_as_asked(m: AssetModel, strength: BondStrength, k: int)
    requires
        m.occupancy.wf(),
        nodes_ascending(m.support_nodes),
        0 <= k < asset_bonds(m, strength).len(),
        k <= u32::MAX,
    ensures
        ({
            let b = asset_bonds(m, strength)[k];
            let n = b.interface_edges.len() as int;
            &&& b.id.0 == k
            &&& n > 0
            &&& b.node_a.0 < b.node_b.0
            &&& b.base_health == strength.base_health
            &&& b.tension_limit == strength.tension_limit
            &&& b.compression_limit == strength.compression_limit
            &&& b.shear_limit == strength.shear_limit
            &&& plain(m.voxel_size) && n <= 0x100_0000 && b.length.finite() ==> within(
                b.length.value(),
                n * m.voxel_size.value(),
                1,
            )
            &&& forall|i: int|
                0 <= i < m.support_nodes.len() && (#[trigger] m.support_nodes[i]).id == b.node_a
                    ==> b.material_pair.0 == m.support_nodes[i].material_id
            &&& forall|i: int|
                0 <= i < m.support_nodes.len() && (#[trigger] m.support_nodes[i]).id == b.node_b
                    ==> b.material_pair.1 == m.support_nodes[i].material_id
        }),
{
    let b = asset_bonds(m, strength)[k];
    let part = asset_stretches(m)[k];
    let n = part.len() as int;
    lemma_asset_stretches(m);
    lemma_sampled(m, m.occupancy.cells.len() as int, part[0]);
    assert forall|i: int| 0 <= i < m.support_nodes.len() implies m.node(
        (#[trigger] m.support_nodes[i]).id,
    ) == Some(m.support_nodes[i]) by {
        lemma_node_index(m.support_nodes, i);
    }
    if plain(m.voxel_size) && n <= 0x100_0000 && b.length.finite() {
        lemma_small_integer(n);
        let p = pow2(149) as int;
        let s = m.voxel_size.value();
        assert((n * p) * s == (n * s) * p) by (nonlinear_arith);
        lemma_whole_product_error(of_integer(n), m.voxel_size, n * m.voxel_size.value());
    }
}

/// One where an upright edge has the node on its left, minus one where it has it on its right.
pub open spec fn faces_right(m: AssetModel, node: SupportNodeId, e: InterfaceEdge) -> int {
    if e.start.x != e.end.x {
        0
    } else if m.owner_of_cell(GridCoord { x: (e.start.x - 1) as u32, y: e.start.y }) == Some(node) {
        1
    } else {
        -1
    }
}

/// One where a level edge has the node above it, minus one where it has it below.
pub open spec fn faces_down(m: AssetModel, node: SupportNodeId, e: InterfaceEdge) -> int {
    if e.start.y != e.end.y {
        0
    } else if m.owner_of_cell(GridCoord { x: e.start.x, y: (e.start.y - 1) as u32 }) == Some(node) {
        1
    } else {
        -1
    }
}

spec fn points(m: AssetModel, x: EdgeSample) -> bool {
    &&& x.normal.x.finite()
    &&& x.normal.y.finite()
    &&& x.normal.x.value() == faces_right(m, x.node_a, x.edge) * scale()
    &&& x.normal.y.value() == faces_down(m, x.node_a, x.edge) * scale()
}

proof fn lemma_points_at(m: AssetModel, c: GridCoord, x: EdgeSample)
    requires
        m.occupancy.has(c),
        samples_at(m, c).contains(x),
    ensures
        points(m, x),
{
    let all = samples_at(m, c);
    let k = choose|k: int| 0 <= k < all.len() && all[k] == x;
    let one = Scalar { bits: ONE_BITS };
    let zero = Scalar { bits: 0 };
    lemma_one();
    lemma_plain_value(zero);
    lemma_times_minus_one(one);
    lemma_times_minus_one(zero);
    lemma_negated(one);
    lemma_negated(zero);
    let right = GridCoord { x: (c.x + 1) as u32, y: c.y };
    let under = GridCoord { x: c.x, y: (c.y + 1) as u32 };
    let beside = c.x + 1 < m.occupancy.width && m.owner_of_cell(c) is Some && m.owner_of_cell(right)
        is Some && m.owner_of_cell(c) != m.owner_of_cell(right);
    if beside && k == 0 {
        assert(GridCoord { x: (x.edge.start.x - 1) as u32, y: x.edge.start.y } == c);
    } else {
        assert(GridCoord { x: x.edge.start.x, y: (x.edge.start.y - 1) as u32 } == c);
    }
}

proof fn lemma_points(m: AssetModel, n: int, x: EdgeSample)
    requires
        m.occupancy.wf(),
        0 <= n <= m.occupancy.cells.len(),
        samples_upto(m, n).contains(x),
    ensures
        points(m, x),
    decreases n,
{
    let all = samples_upto(m, n);
    let k = choose|k: int| 0 <= k < all.len() && all[k] == x;
    if n > 0 {
        let before = samples_upto(m, n - 1);
        let c = m.occupancy.coord_at(n - 1);
        lemma_coord_at(m.occupancy, n - 1);
        if k < before.len() {
            assert(before[k] == x);
            lemma_points(m, n - 1, x);
        } else {
            assert(samples_at(m, c)[k - before.len()] == x);
            lemma_points_at(m, c, x);
        }
    }
}

/// Whole numbers that are not too large are added without error.
proof fn lemma_whole_sum(a: Scalar, b: Scalar, i: int, j: int)
    requires
        a.finite(),
        b.finite(),
        a.value() == i * scale(),
        b.value() == j * scale(),
        -0x100_0000 <= i + j <= 0x100_0000,
    ensures
        sum(a, b).finite(),
        sum(a, b).value() == (i + j) * scale(),
{
    let p = scale();
    lemma_one();
    let n = size_of(i + j);
    lemma_small_integer(n);
    lemma_plain_value(of_integer(n));
    lemma_plain_value(Scalar { bits: 0 });
    lemma_negated(Scalar { bits: 0 });
    assert(i * p + j * p == (i + j) * p) by (nonlinear_arith);
    if i + j > 0 {
        assert((i + j) * p > 0) by (nonlinear_arith)
            requires
                i + j > 0,
                p > 0,
        ;
        assert(sum(a, b) == of_integer(n));
    } else if i + j < 0 {
        assert((i + j) * p < 0) by (nonlinear_arith)
            requires
                i + j < 0,
                p > 0,
        ;
        assert(-((i + j) * p) == n * p) by (nonlinear_arith)
            requires
                n == -(i + j),
        ;
        lemma_negated(of_integer(n));
        assert(sum(a, b) == negated(of_integer(n)));
    } else {
        assert(0 * p == 0);
    }
}

proof fn lemma_normal_sum(m: AssetModel, part: Seq<EdgeSample>, n: int)
    requires
        0 <= n <= part.len() <= 0x10_0000,
        forall|i: int|
            0 <= i < part.len() ==> points(m, #[trigger] part[i]) && same_pair(part[0], part[i]),
    ensures
        ({
            let s = normal_sum(part, n);
            let a = part[0].node_a;
            let right = int_total(|i: int| faces_right(m, a, part[i].edge), n);
            let down = int_total(|i: int| faces_down(m, a, part[i].edge), n);
            &&& s.x.finite()
            &&& s.y.finite()
            &&& s.x.value() == right * scale()
            &&& s.y.value() == down * scale()
            &&& -n <= right <= n
            &&& -n <= down <= n
        }),
    decreases n,
{
    let a = part[0].node_a;
    let right = |i: int| faces_right(m, a, part[i].edge);
    let down = |i: int| faces_down(m, a, part[i].edge);
    lemma_plain_value(Scalar { bits: 0 });
    if n > 0 {
        lemma_normal_sum(m, part, n - 1);
        let before = normal_sum(part, n - 1);
        let x = part[n - 1];
        assert(points(m, x) && same_pair(part[0], x));
        lemma_whole_sum(before.x, x.normal.x, int_total(right, n - 1), right(n - 1));
        lemma_whole_sum(before.y, x.normal.y, int_total(down, n - 1), down(n - 1));
    } else {
        assert(0 * scale() == 0);
    }
}

proof fn lemma_direction_sign(v: Vec2)
    requires
        v.x.finite(),
        v.y.finite(),
    ensures
        v.x.value() > 0 ==> direction(v).x.place() >= 0,
        v.x.value() < 0 ==> direction(v).x.place() <= 0,
        v.y.value() > 0 ==> direction(v).y.place() >= 0,
        v.y.value() < 0 ==> direction(v).y.place() <= 0,
{
    lemma_value_sign(v.x);
    lemma_value_sign(v.y);
    let l = norm(v);
    if below(Scalar { bits: 0 }, l) {
        lemma_quotient_sign(v.x, l);
        lemma_quotient_sign(v.y, l);
    }
}

proof fn lemma_quotient_sign(a: Scalar, l: Scalar)
    requires
        a.finite(),
        below(Scalar { bits: 0 }, l),
    ensures
        !a.negative() ==> quotient(a, l).place() >= 0,
        a.negative() ==> quotient(a, l).place() <= 0,
{
    if l.finite() {
        lemma_plain_value(l);
        lemma_plain_value(absolute(a));
        lemma_one();
        let num = absolute(a).value() * scale();
        assert(0 <= num) by (nonlinear_arith)
            requires
                num == absolute(a).value() * scale(),
                0 <= absolute(a).value(),
                0 < scale(),
        ;
        lemma_rounded(num, l.value());
    }
}

/// The normal of a bond points from its first node to its second: never to the left where more of
/// its edges have the first node on the left than on the right, and so for every side. Its tangent
/// is its normal turned left.
pub proof fn lemma_bond_faces(m: AssetModel, strength: BondStrength, k: int)
    requires
        m.occupancy.wf(),
        0 <= k < asset_bonds(m, strength).len(),
        asset_bonds(m, strength)[k].interface_edges.len() <= 0x10_0000,
    ensures
        ({
            let b = asset_bonds(m, strength)[k];
            let n = b.interface_edges.len() as int;
            let right = int_total(|i: int| faces_right(m, b.node_a, b.interface_edges[i]), n);
            let down = int_total(|i: int| faces_down(m, b.node_a, b.interface_edges[i]), n);
            &&& right > 0 ==> b.normal.x.place() >= 0
            &&& right < 0 ==> b.normal.x.place() <= 0
            &&& down > 0 ==> b.normal.y.place() >= 0
            &&& down < 0 ==> b.normal.y.place() <= 0
            &&& b.tangent.x == negated(b.normal.y)
            &&& b.tangent.y == b.normal.x
        }),
{
    let b = asset_bonds(m, strength)[k];
    let part = asset_stretches(m)[k];
    let n = part.len() as int;
    lemma_asset_stretches(m);
    lemma_one();
    assert forall|i: int| 0 <= i < part.len() implies points(m, #[trigger] part[i]) && same_pair(
        part[0],
        part[i],
    ) by {
        lemma_points(m, m.occupancy.cells.len() as int, part[i]);
    }
    lemma_normal_sum(m, part, n);
    let by_edge = |i: int| faces_right(m, b.node_a, b.interface_edges[i]);
    let by_part = |i: int| faces_right(m, part[0].node_a, part[i].edge);
    let down_edge = |i: int| faces_down(m, b.node_a, b.interface_edges[i]);
    let down_part = |i: int| faces_down(m, part[0].node_a, part[i].edge);
    lemma_totals_agree(by_edge, by_part, n);
    lemma_totals_agree(down_edge, down_part, n);
    let s = normal_sum(part, n);
    lemma_direction_sign(s);
    let right = int_total(by_part, n);
    let down = int_total(down_part, n);
    lemma_scaled_sign(right);
    lemma_scaled_sign(down);
}

proof fn lemma_scaled_sign(n: int)
    ensures
        n > 0 ==> n * scale() > 0,
        n < 0 ==> n * scale() < 0,
{
    lemma_one();
    let p = scale();
    if n > 0 {
        assert(n * p > 0) by (nonlinear_arith)
            requires
                n > 0,
                p > 0,
        ;
    } else if n < 0 {
        assert(n * p < 0) by (nonlinear_arith)
            requires
                n < 0,
                p > 0,
        ;
    }
}

proof fn lemma_totals_agree(f: spec_fn(int) -> int, g: spec_fn(int) -> int, n: int)
    requires
        forall|i: int| 0 <= i < n ==> #[trigger] f(i) == g(i),
    ensures
        int_total(f, n) == int_total(g, n),
    decreases n,
{
    if n > 0 {
        lemma_totals_agree(f, g, n - 1);
        assert(f(n - 1) == g(n - 1));
    }
}

} // verus!
