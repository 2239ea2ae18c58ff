//! When an asset is valid.

use crate::asset::{
    has_node, lemma_has_node_at, node_index, AssetModel, BondModel, FxAsset, NodeModel,
};
use crate::errors::ValidationError;
use crate::geometry::{norm, turned, vec_finite, GridCoord, Vec2};
use crate::hierarchy::{
    chunks_distinct, covers, exact_cover, hierarchy_error, listed, validate_chunk_hierarchy,
};
use crate::idmap::{ascending_ids, lemma_with_id, lookup, with_id, IdSet};
use crate::ids::{BondId, ChunkId, SupportNodeId};
use crate::occupancy::{lemma_coord_at, lemma_place};
use crate::reach::{flood, flooded, lemma_numbered, linked, reaches};
use crate::scalar::{absolute, at_most, below, difference, Scalar, ONE_BITS};
use vstd::prelude::*;

verus! {

/// The bit pattern of the tolerance for unit vectors, `0.0001`.
pub const UNIT_TOLERANCE_BITS: u32 = 0x38d1_b717;

/// The cells share a side.
pub open spec fn side_by_side(a: GridCoord, b: GridCoord) -> bool {
    (a.x == b.x && (a.y + 1 == b.y || b.y + 1 == a.y)) || (a.y == b.y && (a.x + 1 == b.x || b.x + 1
        == a.x))
}

/// Both cells are in the list and share a side.
pub open spec fn neighbors_in(cells: Seq<GridCoord>) -> spec_fn(GridCoord, GridCoord) -> bool {
    |a: GridCoord, b: GridCoord| cells.contains(a) && cells.contains(b) && side_by_side(a, b)
}

/// No cell occurs twice, and every cell can be reached from the first one through cells of the
/// list that share sides.
pub open spec fn four_connected(cells: Seq<GridCoord>) -> bool {
    &&& cells.no_duplicates()
    &&& forall|i: int|
        0 <= i < cells.len() ==> reaches(neighbors_in(cells), cells[0], #[trigger] cells[i])
}

fn adjacent(a: GridCoord, b: GridCoord) -> (r: bool)
    ensures
        r == side_by_side(a, b),
{
    if a.x == b.x {
        (a.y < b.y && b.y - a.y == 1) || (b.y < a.y && a.y - b.y == 1)
    } else if a.y == b.y {
        (a.x < b.x && b.x - a.x == 1) || (b.x < a.x && a.x - b.x == 1)
    } else {
        false
    }
}

/// Whether some cell occurs twice.
fn has_repetition(cells: &Vec<GridCoord>) -> (r: bool)
    ensures
        r == !cells@.no_duplicates(),
{
    let mut i: usize = 0;
    while i < cells.len()
        invariant
            i <= cells.len(),
            forall|a: int, b: int| 0 <= a < b < i ==> cells@[a] != cells@[b],
        decreases cells.len() - i,
    {
        let mut j: usize = 0;
        while j < i
            invariant
                j <= i < cells.len(),
                forall|a: int| 0 <= a < j ==> cells@[a] != cells@[i as int],
                forall|a: int, b: int| 0 <= a < b < i ==> cells@[a] != cells@[b],
            decreases i - j,
        {
            if cells[j] == cells[i] {
                return true;
            }
            j = j + 1;
        }
        i = i + 1;
    }
    assert(cells@.no_duplicates()) by {
        assert forall|a: int, b: int|
            0 <= a < cells@.len() && 0 <= b < cells@.len() && a != b implies cells@[a]
            != cells@[b] by {
            if a < b {
                assert(cells@[a] != cells@[b]);
            } else {
                assert(cells@[b] != cells@[a]);
            }
        }
    }
    false
}

/// The pairs of places whose cells share a side.
fn neighbor_links(cells: &Vec<GridCoord>) -> (links: Vec<(usize, usize)>)
    ensures
        forall|k: int|
            0 <= k < links.len() ==> (#[trigger] links[k]).0 < cells.len() && links[k].1
                < cells.len(),
        forall|p: int, q: int|
            0 <= p < cells.len() && 0 <= q < cells.len() ==> (#[trigger] linked(links@)(p, q)
                <==> side_by_side(cells@[p], cells@[q])),
{
    let mut links: Vec<(usize, usize)> = Vec::new();
    let mut i: usize = 0;
    while i < cells.len()
        invariant
            i <= cells.len(),
            forall|k: int|
                0 <= k < links.len() ==> (#[trigger] links[k]).1 < links[k].0 && links[k].0 < i
                    && side_by_side(cells@[links[k].0 as int], cells@[links[k].1 as int]),
            forall|p: int, q: int|
                0 <= q < p < i && #[trigger] side_by_side(cells@[p], cells@[q]) ==> exists|k: int|
                    0 <= k < links.len() && #[trigger] links[k] == (p as usize, q as usize),
        decreases cells.len() - i,
    {
        let mut j: usize = 0;
        while j < i
            invariant
                j <= i < cells.len(),
                forall|k: int|
                    0 <= k < links.len() ==> (#[trigger] links[k]).1 < links[k].0 && links[k].0 <= i
                        && side_by_side(cells@[links[k].0 as int], cells@[links[k].1 as int]),
                forall|p: int, q: int|
                    0 <= q < p && (p < i || (p == i && q < j)) && #[trigger] side_by_side(
                        cells@[p],
                        cells@[q],
                    ) ==> exists|k: int|
                        0 <= k < links.len() && #[trigger] links[k] == (p as usize, q as usize),
            decreases i - j,
        {
            if adjacent(cells[i], cells[j]) {
                let ghost before = links@;
                links.push((i, j));
                assert(links@[before.len() as int] == (i, j));
                assert forall|p: int, q: int|
                    0 <= q < p && (p < i || (p == i && q < j + 1)) && #[trigger] side_by_side(
                        cells@[p],
                        cells@[q],
                    ) implies exists|k: int|
                    0 <= k < links.len() && #[trigger] links[k] == (p as usize, q as usize) by {
                    if p == i && q == j {
                        assert(links[before.len() as int] == (p as usize, q as usize));
                    } else {
                        let k = choose|k: int|
                            0 <= k < before.len() && #[trigger] before[k] == (
                                p as usize,
                                q as usize,
                            );
                        assert(links[k] == (p as usize, q as usize));
                    }
                }
            }
            j = j + 1;
        }
        i = i + 1;
    }
    assert forall|p: int, q: int|
        0 <= p < cells.len() && 0 <= q < cells.len() implies (#[trigger] linked(links@)(p, q)
        <==> side_by_side(cells@[p], cells@[q])) by {
        if side_by_side(cells@[p], cells@[q]) {
            assert(side_by_side(cells@[q], cells@[p]));
            if q < p {
                let k = choose|k: int|
                    0 <= k < links.len() && #[trigger] links[k] == (p as usize, q as usize);
                assert(links@[k].0 == p && links@[k].1 == q);
            } else if p < q {
                let k = choose|k: int|
                    0 <= k < links.len() && #[trigger] links[k] == (q as usize, p as usize);
                assert(links@[k].1 == p && links@[k].0 == q);
            }
        }
        if linked(links@)(p, q) {
            let k = choose|k: int|
                0 <= k < links@.len() && (((#[trigger] links@[k]).0 == p && links@[k].1 == q) || (
                links@[k].1 == p && links@[k].0 == q));
            assert(side_by_side(cells@[links[k].0 as int], cells@[links[k].1 as int]));
        }
    }
    links
}

/// Whether the cells hang together through shared sides.
pub fn is_four_connected(cells: &Vec<GridCoord>) -> (r: bool)
    ensures
        r == four_connected(cells@),
{
    if cells.len() == 0 {
        return true;
    }
    if has_repetition(cells) {
        return false;
    }
    let links = neighbor_links(cells);
    let n = cells.len();
    let mut start: Vec<bool> = Vec::new();
    let mut i: usize = 0;
    while i < n
        invariant
            i <= n,
            start.len() == i,
            forall|a: int| 0 <= a < i ==> #[trigger] start[a] == (a == 0),
        decreases n - i,
    {
        start.push(i == 0);
        i = i + 1;
    }
    let seen = flood(n, &links, &start);
    let ghost rel = neighbors_in(cells@);
    assert forall|i: int| 0 <= i < n implies (#[trigger] seen[i] <==> reaches(
        rel,
        cells@[0],
        cells@[i],
    )) by {
        assert forall|p: int, q: int|
            #![trigger linked(links@)(p, q)]
            #![trigger rel(cells@[p], cells@[q])]
            0 <= p < cells@.len() && 0 <= q < cells@.len() implies (linked(links@)(p, q) <==> rel(
            cells@[p],
            cells@[q],
        )) by {
            assert(cells@.contains(cells@[p]) && cells@.contains(cells@[q]));
            assert(linked(links@)(p, q) <==> side_by_side(cells@[p], cells@[q]));
        }
        lemma_numbered(cells@, links@, rel, 0, i);
        if flooded(links@, start@, i) {
            let s = choose|s: int|
                0 <= s < start@.len() && #[trigger] start@[s] && reaches(linked(links@), s, i);
            assert(start[s] == (s == 0));
        }
        if reaches(linked(links@), 0, i) {
            assert(start@[0]);
        }
    }
    let mut i: usize = 0;
    while i < n
        invariant
            i <= n,
            n == cells.len(),
            seen.len() == n,
            rel == neighbors_in(cells@),
            cells@.no_duplicates(),
            forall|i: int|
                0 <= i < n ==> (#[trigger] seen[i] <==> reaches(rel, cells@[0], cells@[i])),
            forall|a: int| 0 <= a < i ==> seen[a],
        decreases n - i,
    {
        if !seen[i] {
            assert(!reaches(rel, cells@[0], cells@[i as int]));
            return false;
        }
        i = i + 1;
    }
    assert forall|i: int| 0 <= i < cells@.len() implies reaches(
        neighbors_in(cells@),
        cells@[0],
        #[trigger] cells@[i],
    ) by {
        assert(seen[i]);
    }
    true
}

/// Checks that the voxels of a support node hang together through shared sides.
pub fn validate_four_neighbor_connected(voxels: &Vec<GridCoord>) -> (r: Result<
    (),
    ValidationError,
>)
    ensures
        r is Ok <==> four_connected(voxels@),
        r is Err ==> r == Err::<(), ValidationError>(
            ValidationError::SupportNodeNotFourConnected(SupportNodeId(u32::MAX)),
        ),
{
    if is_four_connected(voxels) {
        Ok(())
    } else {
        Err(ValidationError::SupportNodeNotFourConnected(SupportNodeId(u32::MAX)))
    }
}

/// Finite and not below zero.
pub open spec fn runtime_scalar(v: Scalar) -> bool {
    v.finite() && at_most(Scalar { bits: 0 }, v)
}

pub fn valid_runtime_scalar(v: Scalar) -> (r: bool)
    ensures
        r == runtime_scalar(v),
{
    v.is_finite() && (Scalar { bits: 0 }).is_at_most(v)
}

/// The numbers differ by more than the tolerance for unit vectors.
pub open spec fn off_by_tolerance(a: Scalar, b: Scalar) -> bool {
    below(Scalar { bits: UNIT_TOLERANCE_BITS }, absolute(difference(a, b)))
}

/// The vectors have length one, and the second is the first turned left.
pub open spec fn unit_pair(normal: Vec2, tangent: Vec2) -> bool {
    &&& !off_by_tolerance(norm(normal), Scalar { bits: ONE_BITS })
    &&& !off_by_tolerance(norm(tangent), Scalar { bits: ONE_BITS })
    &&& !off_by_tolerance(tangent.x, turned(normal).x)
    &&& !off_by_tolerance(tangent.y, turned(normal).y)
}

fn exceeds_tolerance(a: Scalar, b: Scalar) -> (r: bool)
    ensures
        r == off_by_tolerance(a, b),
{
    (Scalar { bits: UNIT_TOLERANCE_BITS }).is_below(a.minus(b).abs())
}

pub fn is_unit_pair(normal: Vec2, tangent: Vec2) -> (r: bool)
    ensures
        r == unit_pair(normal, tangent),
{
    let one = Scalar { bits: ONE_BITS };
    let expected = normal.perp();
    !exceeds_tolerance(normal.length(), one) && !exceeds_tolerance(tangent.length(), one)
        && !exceeds_tolerance(tangent.x, expected.x) && !exceeds_tolerance(tangent.y, expected.y)
}

/// The ids of the first `n` nodes in ascending order.
pub open spec fn id_set(nodes: Seq<NodeModel>, n: int) -> Seq<u32>
    decreases n,
{
    if n <= 0 {
        Seq::empty()
    } else {
        with_id(id_set(nodes, n - 1), nodes[n - 1].id.0)
    }
}

/// The ids of the nodes in ascending order.
pub open spec fn node_ids(nodes: Seq<NodeModel>) -> Seq<u32> {
    id_set(nodes, nodes.len() as int)
}

pub proof fn lemma_id_set(nodes: Seq<NodeModel>, n: int)
    requires
        0 <= n <= nodes.len(),
    ensures
        ascending_ids(id_set(nodes, n)),
        forall|id: u32| #[trigger]
            id_set(nodes, n).contains(id) <==> exists|i: int|
                0 <= i < n && (#[trigger] nodes[i]).id.0 == id,
    decreases n,
{
    if n > 0 {
        lemma_id_set(nodes, n - 1);
        let before = id_set(nodes, n - 1);
        lemma_with_id(before, nodes[n - 1].id.0);
        assert forall|id: u32| #[trigger] id_set(nodes, n).contains(id) <==> exists|i: int|
            0 <= i < n && (#[trigger] nodes[i]).id.0 == id by {
            assert(id_set(nodes, n).contains(id) <==> id == nodes[n - 1].id.0 || before.contains(
                id,
            ));
            if before.contains(id) {
                let i = choose|i: int| 0 <= i < n - 1 && (#[trigger] nodes[i]).id.0 == id;
                assert(nodes[i].id.0 == id);
            }
            if id == nodes[n - 1].id.0 {
                assert(nodes[n - 1].id.0 == id);
            }
        }
    }
}

/// A node before `i` has the voxel.
pub open spec fn covered_before(nodes: Seq<NodeModel>, i: int, coord: GridCoord) -> bool {
    exists|a: int| 0 <= a < i && (#[trigger] nodes[a]).voxels.contains(coord)
}

/// The place of a node before `i` that has the voxel.
pub open spec fn cover_before(nodes: Seq<NodeModel>, i: int, coord: GridCoord) -> int {
    choose|a: int| 0 <= a < i && (#[trigger] nodes[a]).voxels.contains(coord)
}

/// What is wrong with the voxels, from `j` on, of the node at `i`.
pub open spec fn voxels_error(m: AssetModel, i: int, j: int) -> Option<ValidationError>
    decreases m.support_nodes[i].voxels.len() - j,
{
    let node = m.support_nodes[i];
    if j < 0 || j >= node.voxels.len() {
        None
    } else if !m.occupancy.occupied(node.voxels[j]) {
        Some(ValidationError::EmptyVoxelCovered { coord: node.voxels[j], node: node.id })
    } else if covered_before(m.support_nodes, i, node.voxels[j]) {
        Some(
            ValidationError::OverlappingSupportCoverage {
                coord: node.voxels[j],
                first: m.support_nodes[cover_before(m.support_nodes, i, node.voxels[j])].id,
                second: node.id,
            },
        )
    } else {
        voxels_error(m, i, j + 1)
    }
}

/// What is wrong with the support nodes from `i` on.
pub open spec fn nodes_error(m: AssetModel, i: int) -> Option<ValidationError>
    decreases m.support_nodes.len() - i,
{
    if i < 0 || i >= m.support_nodes.len() {
        None
    } else {
        let node = m.support_nodes[i];
        if has_node(m.support_nodes.take(i), node.id) {
            Some(ValidationError::DuplicateSupportNodeId(node.id))
        } else if node.voxels.len() == 0 {
            Some(ValidationError::EmptySupportNode(node.id))
        } else if !four_connected(node.voxels) {
            Some(ValidationError::SupportNodeNotFourConnected(SupportNodeId(u32::MAX)))
        } else {
            match voxels_error(m, i, 0) {
                Some(e) => Some(e),
                None => nodes_error(m, i + 1),
            }
        }
    }
}

/// The first occupied cell, in the row-by-row order from `p` on, that no node covers.
pub open spec fn coverage_error(m: AssetModel, p: int) -> Option<ValidationError>
    decreases m.occupancy.cells.len() - p,
{
    if p < 0 || p >= m.occupancy.cells.len() {
        None
    } else if m.occupancy.cells[p] && !covered_before(
        m.support_nodes,
        m.support_nodes.len() as int,
        m.occupancy.coord_at(p),
    ) {
        Some(ValidationError::MissingSupportCoverage(m.occupancy.coord_at(p)))
    } else {
        coverage_error(m, p + 1)
    }
}

/// The node is listed by the chunk that it names.
pub open spec fn chunk_matches(m: AssetModel, node: NodeModel) -> bool {
    exists|c: int| #[trigger] listed(m.chunks, c, node.id) && m.chunks[c].id == node.chunk_id
}

/// The scalar quantities of a bond are finite and, but for its position, not below zero.
pub open spec fn bond_scalars_ok(b: BondModel) -> bool {
    vec_finite(b.centroid) && runtime_scalar(b.base_health) && runtime_scalar(b.tension_limit)
        && runtime_scalar(b.compression_limit) && runtime_scalar(b.shear_limit)
}

/// What is wrong with the bond at `i`.
pub open spec fn bond_error(m: AssetModel, i: int) -> Option<ValidationError> {
    let b = m.internal_bonds[i];
    if exists|a: int| 0 <= a < i && (#[trigger] m.internal_bonds[a]).id == b.id {
        Some(ValidationError::DuplicateInternalBondId(b.id))
    } else if b.id != BondId(i as u32) {
        Some(
            ValidationError::NonContiguousInternalBondId {
                expected: BondId(i as u32),
                actual: b.id,
            },
        )
    } else if b.node_a == b.node_b {
        Some(ValidationError::SelfBond(b.node_a))
    } else if b.node_a.0 > b.node_b.0 {
        Some(ValidationError::NonCanonicalBondEndpoints(b.id))
    } else if !has_node(m.support_nodes, b.node_a) {
        Some(ValidationError::BondEndpointMissing(b.node_a))
    } else if !has_node(m.support_nodes, b.node_b) {
        Some(ValidationError::BondEndpointMissing(b.node_b))
    } else if !bond_scalars_ok(b) {
        Some(ValidationError::InvalidBondScalar(b.id))
    } else if !b.length.finite() || at_most(b.length, Scalar { bits: 0 }) {
        Some(ValidationError::NonPositiveBondLength(b.id))
    } else if !vec_finite(b.normal) || !vec_finite(b.tangent) || !unit_pair(b.normal, b.tangent) {
        Some(ValidationError::InvalidBondDirection(b.id))
    } else if b.interface_edges.len() == 0 {
        Some(ValidationError::EmptyBondInterface(b.id))
    } else {
        None
    }
}

/// What is wrong with the bonds from `i` on.
pub open spec fn bonds_error(m: AssetModel, i: int) -> Option<ValidationError>
    decreases m.internal_bonds.len() - i,
{
    if i < 0 || i >= m.internal_bonds.len() {
        None
    } else {
        match bond_error(m, i) {
            Some(e) => Some(e),
            None => bonds_error(m, i + 1),
        }
    }
}

/// What is wrong with an asset: the first failing check.
pub open spec fn asset_error(m: AssetModel) -> Option<ValidationError> {
    match nodes_error(m, 0) {
        Some(e) => Some(e),
        None => match coverage_error(m, 0) {
            Some(e) => Some(e),
            None => match hierarchy_error(m.chunks, node_ids(m.support_nodes)) {
                Some(e) => Some(e),
                None => if exists|i: int|
                    0 <= i < m.support_nodes.len() && !chunk_matches(m, #[trigger] m.support_nodes[i]) {
                    Some(ValidationError::ChunkHierarchyNotExact)
                } else {
                    bonds_error(m, 0)
                },
            },
        },
    }
}

/// A voxel of a node before `i`, or one before `j` of the node at `i`.
pub open spec fn passed(m: AssetModel, i: int, j: int, a: int, b: int) -> bool {
    &&& 0 <= a < m.support_nodes.len()
    &&& 0 <= b < m.support_nodes[a].voxels.len()
    &&& a < i || (a == i && b < j)
}

/// The table holds, for each cell, the node whose passed voxels have it.
pub open spec fn cover_table(
    m: AssetModel,
    covered: Seq<Option<SupportNodeId>>,
    i: int,
    j: int,
) -> bool {
    &&& covered.len() == m.occupancy.cells.len()
    &&& forall|a: int, b: int| #[trigger]
        passed(m, i, j, a, b) ==> m.occupancy.occupied(m.support_nodes[a].voxels[b])
            && covered[m.occupancy.place(m.support_nodes[a].voxels[b])] == Some(
            m.support_nodes[a].id,
        )
    &&& forall|p: int|
        0 <= p < covered.len() && (#[trigger] covered[p]) is Some ==> exists|a: int, b: int|
            #[trigger] passed(m, i, j, a, b) && m.support_nodes[a].voxels[b]
                == m.occupancy.coord_at(p) && covered[p] == Some(m.support_nodes[a].id)
}

/// The first `n` nodes have different ids.
pub open spec fn ids_distinct(nodes: Seq<NodeModel>, n: int) -> bool {
    forall|a: int, b: int|
        0 <= a < b < n ==> (#[trigger] nodes[a]).id != (#[trigger] nodes[b]).id
}

/// What the table says about a cell before the node at `i` is looked at.
proof fn lemma_cover_table(
    m: AssetModel,
    covered: Seq<Option<SupportNodeId>>,
    i: int,
    j: int,
    coord: GridCoord,
)
    requires
        m.occupancy.wf(),
        cover_table(m, covered, i, j),
        0 <= i <= m.support_nodes.len(),
        ids_distinct(m.support_nodes, i),
        m.occupancy.has(coord),
        i < m.support_nodes.len() ==> {
            let v = m.support_nodes[i].voxels;
            v.no_duplicates() && 0 <= j < v.len() && v[j] == coord
        },
        i == m.support_nodes.len() ==> j == 0,
    ensures
        covered[m.occupancy.place(coord)] is Some <==> covered_before(m.support_nodes, i, coord),
        covered[m.occupancy.place(coord)] is Some ==> covered[m.occupancy.place(coord)] == Some(
            m.support_nodes[cover_before(m.support_nodes, i, coord)].id,
        ),
{
    let p = m.occupancy.place(coord);
    lemma_place(m.occupancy, coord);
    let nodes = m.support_nodes;
    if covered[p] is Some {
        let (a, b) = choose|a: int, b: int| #[trigger]
            passed(m, i, j, a, b) && nodes[a].voxels[b] == m.occupancy.coord_at(p) && covered[p]
                == Some(nodes[a].id);
        if a == i {
            assert(nodes[i].voxels[b] == nodes[i].voxels[j]);
        }
        assert(a < i);
        assert(nodes[a].voxels.contains(coord));
    }
    if covered_before(nodes, i, coord) {
        let a = cover_before(nodes, i, coord);
        assert(0 <= a < i && nodes[a].voxels.contains(coord));
        let b = choose|b: int| 0 <= b < nodes[a].voxels.len() && nodes[a].voxels[b] == coord;
        assert(passed(m, i, j, a, b));
    }
}

/// Marks one more voxel in the table.
proof fn lemma_cover_mark(m: AssetModel, covered: Seq<Option<SupportNodeId>>, i: int, j: int)
    requires
        m.occupancy.wf(),
        0 <= i < m.support_nodes.len(),
        0 <= j < m.support_nodes[i].voxels.len(),
        cover_table(m, covered, i, j),
        m.occupancy.occupied(m.support_nodes[i].voxels[j]),
        covered[m.occupancy.place(m.support_nodes[i].voxels[j])] is None,
    ensures
        cover_table(
            m,
            covered.update(
                m.occupancy.place(m.support_nodes[i].voxels[j]),
                Some(m.support_nodes[i].id),
            ),
            i,
            j + 1,
        ),
{
    let nodes = m.support_nodes;
    let coord = nodes[i].voxels[j];
    let p = m.occupancy.place(coord);
    lemma_place(m.occupancy, coord);
    let after = covered.update(p, Some(nodes[i].id));
    assert forall|a: int, b: int| #[trigger] passed(m, i, j + 1, a, b) implies m.occupancy.occupied(
        nodes[a].voxels[b],
    ) && after[m.occupancy.place(nodes[a].voxels[b])] == Some(nodes[a].id) by {
        if passed(m, i, j, a, b) {
            lemma_place(m.occupancy, nodes[a].voxels[b]);
        } else {
            assert(a == i && b == j);
        }
    }
    assert forall|q: int| 0 <= q < after.len() && (#[trigger] after[q]) is Some implies exists|
        a: int,
        b: int,
    | #[trigger]
        passed(m, i, j + 1, a, b) && nodes[a].voxels[b] == m.occupancy.coord_at(q) && after[q]
            == Some(nodes[a].id) by {
        if q == p {
            assert(passed(m, i, j + 1, i, j));
        } else {
            assert(covered[q] is Some);
            let (a, b) = choose|a: int, b: int| #[trigger]
                passed(m, i, j, a, b) && nodes[a].voxels[b] == m.occupancy.coord_at(q)
                    && covered[q] == Some(nodes[a].id);
            assert(passed(m, i, j + 1, a, b));
        }
    }
}

proof fn lemma_cover_next(m: AssetModel, covered: Seq<Option<SupportNodeId>>, i: int)
    requires
        0 <= i < m.support_nodes.len(),
        cover_table(m, covered, i, m.support_nodes[i].voxels.len() as int),
    ensures
        cover_table(m, covered, i + 1, 0),
{
    let j = m.support_nodes[i].voxels.len() as int;
    assert forall|a: int, b: int| #[trigger] passed(m, i + 1, 0, a, b) implies passed(
        m,
        i,
        j,
        a,
        b,
    ) by {}
    assert forall|p: int| 0 <= p < covered.len() && (#[trigger] covered[p]) is Some implies exists|
        a: int,
        b: int,
    | #[trigger]
        passed(m, i + 1, 0, a, b) && m.support_nodes[a].voxels[b] == m.occupancy.coord_at(p)
            && covered[p] == Some(m.support_nodes[a].id) by {
        let (a, b) = choose|a: int, b: int| #[trigger]
            passed(m, i, j, a, b) && m.support_nodes[a].voxels[b] == m.occupancy.coord_at(p)
                && covered[p] == Some(m.support_nodes[a].id);
        assert(passed(m, i + 1, 0, a, b));
    }
}

impl FxAsset {
    /// Checks the voxels of one node and marks them in the table.
    fn check_voxels(&self, i: usize, covered: &mut Vec<Option<SupportNodeId>>) -> (r: Option<
        ValidationError,
    >)
        requires
            self@.occupancy.wf(),
            i < self.support_nodes.len(),
            cover_table(self@, old(covered)@, i as int, 0),
            ids_distinct(self@.support_nodes, i as int),
            self@.support_nodes[i as int].voxels.no_duplicates(),
        ensures
            r == voxels_error(self@, i as int, 0),
            r is None ==> cover_table(self@, final(covered)@, i + 1, 0),
    {
        let ghost m = self@;
        let ghost v = m.support_nodes[i as int].voxels;
        let id = self.support_nodes[i].id;
        let mut j: usize = 0;
        while j < self.support_nodes[i].voxels.len()
            invariant
                j <= v.len(),
                i < self.support_nodes.len(),
                m == self@,
                m.occupancy.wf(),
                v == m.support_nodes[i as int].voxels,
                v == self.support_nodes[i as int].voxels@,
                id == m.support_nodes[i as int].id,
                v.no_duplicates(),
                ids_distinct(m.support_nodes, i as int),
                cover_table(m, covered@, i as int, j as int),
                voxels_error(m, i as int, 0) == voxels_error(m, i as int, j as int),
            decreases v.len() - j,
        {
            let coord = self.support_nodes[i].voxels[j];
            assert(v[j as int] == coord);
            if !self.occupancy.is_occupied(coord) {
                return Some(ValidationError::EmptyVoxelCovered { coord, node: id });
            }
            let p = self.occupancy.index(coord);
            proof {
                lemma_cover_table(m, covered@, i as int, j as int, coord);
            }
            match covered[p] {
                Some(first) => {
                    return Some(
                        ValidationError::OverlappingSupportCoverage { coord, first, second: id },
                    );
                },
                None => {},
            }
            proof {
                lemma_cover_mark(m, covered@, i as int, j as int);
            }
            covered.set(p, Some(id));
            j = j + 1;
        }
        proof {
            lemma_cover_next(m, covered@, i as int);
        }
        None
    }

    /// Checks the support nodes; gives their ids and the node of each cell.
    fn check_nodes(&self) -> (r: Result<(IdSet, Vec<Option<SupportNodeId>>), ValidationError>)
        requires
            self@.occupancy.wf(),
        ensures
            match r {
                Ok(found) => {
                    &&& nodes_error(self@, 0) is None
                    &&& found.0@ == node_ids(self@.support_nodes)
                    &&& ascending_ids(found.0@)
                    &&& ids_distinct(self@.support_nodes, self@.support_nodes.len() as int)
                    &&& cover_table(self@, found.1@, self@.support_nodes.len() as int, 0)
                },
                Err(e) => nodes_error(self@, 0) == Some(e),
            },
    {
        let ghost m = self@;
        let ghost nodes = m.support_nodes;
        let mut ids = IdSet::new();
        let mut covered: Vec<Option<SupportNodeId>> = Vec::new();
        let mut p: usize = 0;
        while p < self.occupancy.cells.len()
            invariant
                p <= self.occupancy.cells.len(),
                covered.len() == p,
                forall|q: int| 0 <= q < p ==> (#[trigger] covered[q]) is None,
            decreases self.occupancy.cells.len() - p,
        {
            covered.push(None);
            p = p + 1;
        }
        let mut i: usize = 0;
        assert(cover_table(m, covered@, 0, 0));
        while i < self.support_nodes.len()
            invariant
                i <= self.support_nodes.len(),
                m == self@,
                nodes == m.support_nodes,
                m.occupancy.wf(),
                ids@ == id_set(nodes, i as int),
                ascending_ids(ids@),
                ids_distinct(nodes, i as int),
                cover_table(m, covered@, i as int, 0),
                nodes_error(m, 0) == nodes_error(m, i as int),
            decreases self.support_nodes.len() - i,
        {
            let id = self.support_nodes[i].id;
            assert(nodes[i as int].id == id);
            assert(nodes[i as int].voxels == self.support_nodes[i as int].voxels@);
            proof {
                lemma_id_set(nodes, i as int);
                assert(ids@.contains(id.0) <==> has_node(nodes.take(i as int), id))
                    by {
                    if ids@.contains(id.0) {
                        let a = choose|a: int| 0 <= a < i && (#[trigger] nodes[a]).id.0 == id.0;
                        assert(nodes.take(i as int)[a].id == id);
                    }
                    if has_node(nodes.take(i as int), id) {
                        let a = choose|a: int|
                            0 <= a < nodes.take(i as int).len() && (#[trigger] nodes.take(
                                i as int,
                            )[a]).id == id;
                        assert(nodes[a].id.0 == id.0);
                    }
                }
            }
            if !ids.insert(id.0) {
                return Err(ValidationError::DuplicateSupportNodeId(id));
            }
            assert(ids_distinct(nodes, i + 1)) by {
                assert forall|a: int, b: int| 0 <= a < b < i + 1 implies (#[trigger] nodes[a]).id
                    != (#[trigger] nodes[b]).id by {
                    if b == i && nodes[a].id == id {
                        assert(nodes.take(i as int)[a].id == id);
                    }
                }
            }
            if self.support_nodes[i].voxels.len() == 0 {
                return Err(ValidationError::EmptySupportNode(id));
            }
            if !is_four_connected(&self.support_nodes[i].voxels) {
                return Err(ValidationError::SupportNodeNotFourConnected(SupportNodeId(u32::MAX)));
            }
            match self.check_voxels(i, &mut covered) {
                Some(e) => {
                    return Err(e);
                },
                None => {},
            }
            i = i + 1;
        }
        Ok((ids, covered))
    }

    /// Checks that every occupied cell is covered.
    fn check_coverage(&self, covered: &Vec<Option<SupportNodeId>>) -> (r: Option<ValidationError>)
        requires
            self@.occupancy.wf(),
            ids_distinct(self@.support_nodes, self@.support_nodes.len() as int),
            cover_table(self@, covered@, self@.support_nodes.len() as int, 0),
        ensures
            r == coverage_error(self@, 0),
    {
        let ghost m = self@;
        let mut p: usize = 0;
        while p < self.occupancy.cells.len()
            invariant
                p <= self.occupancy.cells.len(),
                m == self@,
                m.occupancy.wf(),
                ids_distinct(m.support_nodes, m.support_nodes.len() as int),
                cover_table(m, covered@, m.support_nodes.len() as int, 0),
                coverage_error(m, 0) == coverage_error(m, p as int),
            decreases self.occupancy.cells.len() - p,
        {
            proof {
                lemma_coord_at(m.occupancy, p as int);
                lemma_cover_table(
                    m,
                    covered@,
                    m.support_nodes.len() as int,
                    0,
                    m.occupancy.coord_at(p as int),
                );
            }
            if self.occupancy.cells[p] && covered[p].is_none() {
                let w = self.occupancy.width as usize;
                return Some(
                    ValidationError::MissingSupportCoverage(
                        GridCoord::new((p % w) as u32, (p / w) as u32),
                    ),
                );
            }
            p = p + 1;
        }
        None
    }

    /// Checks one bond.
    fn check_bond(&self, i: usize, ids: &IdSet) -> (r: Option<ValidationError>)
        requires
            i < self.internal_bonds.len(),
            ids@ == node_ids(self@.support_nodes),
        ensures
            r == bond_error(self@, i as int),
    {
        let ghost m = self@;
        let bond = &self.internal_bonds[i];
        assert(m.internal_bonds[i as int] == bond@);
        let mut a: usize = 0;
        while a < i
            invariant
                a <= i < self.internal_bonds.len(),
                m == self@,
                bond@ == m.internal_bonds[i as int],
                forall|b: int| 0 <= b < a ==> (#[trigger] m.internal_bonds[b]).id != bond.id,
            decreases i - a,
        {
            assert(m.internal_bonds[a as int].id == self.internal_bonds[a as int].id);
            if self.internal_bonds[a].id == bond.id {
                return Some(ValidationError::DuplicateInternalBondId(bond.id));
            }
            a = a + 1;
        }
        let expected = BondId(i as u32);
        if bond.id != expected {
            return Some(
                ValidationError::NonContiguousInternalBondId { expected, actual: bond.id },
            );
        }
        if bond.node_a == bond.node_b {
            return Some(ValidationError::SelfBond(bond.node_a));
        }
        if bond.node_a.0 > bond.node_b.0 {
            return Some(ValidationError::NonCanonicalBondEndpoints(bond.id));
        }
        proof {
            lemma_id_set(m.support_nodes, m.support_nodes.len() as int);
            lemma_node_known(m.support_nodes, bond.node_a);
            lemma_node_known(m.support_nodes, bond.node_b);
        }
        if !ids.contains(bond.node_a.0) {
            return Some(ValidationError::BondEndpointMissing(bond.node_a));
        }
        if !ids.contains(bond.node_b.0) {
            return Some(ValidationError::BondEndpointMissing(bond.node_b));
        }
        if !bond.centroid.is_finite() || !valid_runtime_scalar(bond.base_health)
            || !valid_runtime_scalar(bond.tension_limit) || !valid_runtime_scalar(
            bond.compression_limit,
        ) || !valid_runtime_scalar(bond.shear_limit) {
            return Some(ValidationError::InvalidBondScalar(bond.id));
        }
        if !bond.length.is_finite() || bond.length.is_at_most(Scalar { bits: 0 }) {
            return Some(ValidationError::NonPositiveBondLength(bond.id));
        }
        if !bond.normal.is_finite() || !bond.tangent.is_finite() || !is_unit_pair(
            bond.normal,
            bond.tangent,
        ) {
            return Some(ValidationError::InvalidBondDirection(bond.id));
        }
        if bond.interface_edges.len() == 0 {
            return Some(ValidationError::EmptyBondInterface(bond.id));
        }
        None
    }

    /// Checks the whole asset.
    pub fn validate(&self) -> (r: Result<(), ValidationError>)
        requires
            self@.occupancy.wf(),
        ensures
            match r {
                Ok(_) => asset_error(self@) is None,
                Err(e) => asset_error(self@) == Some(e),
            },
    {
        let ghost m = self@;
        let found = match self.check_nodes() {
            Ok(found) => found,
            Err(e) => {
                return Err(e);
            },
        };
        match self.check_coverage(&found.1) {
            Some(e) => {
                return Err(e);
            },
            None => {},
        }
        let ids = found.0;
        let owner = match validate_chunk_hierarchy(&self.chunks, &ids) {
            Ok(owner) => owner,
            Err(e) => {
                return Err(e);
            },
        };
        let mut i: usize = 0;
        while i < self.support_nodes.len()
            invariant
                i <= self.support_nodes.len(),
                m == self@,
                nodes_error(m, 0) is None,
                coverage_error(m, 0) is None,
                hierarchy_error(m.chunks, node_ids(m.support_nodes)) is None,
                ids@ == node_ids(m.support_nodes),
                covers(m.chunks, ids@, owner@),
                chunks_distinct(m.chunks),
                forall|a: int| 0 <= a < i ==> chunk_matches(m, #[trigger] m.support_nodes[a]),
            decreases self.support_nodes.len() - i,
        {
            let node = &self.support_nodes[i];
            assert(m.support_nodes[i as int] == node@);
            let found = owner.get(node.id.0);
            let matches = match found {
                Some(c) => *c == node.chunk_id,
                None => false,
            };
            proof {
                lemma_chunk_of_node(m, owner@, i as int);
            }
            if !matches {
                assert(!chunk_matches(m, m.support_nodes[i as int]));
                return Err(ValidationError::ChunkHierarchyNotExact);
            }
            i = i + 1;
        }
        let mut i: usize = 0;
        while i < self.internal_bonds.len()
            invariant
                i <= self.internal_bonds.len(),
                m == self@,
                ids@ == node_ids(m.support_nodes),
                asset_error(m) == bonds_error(m, i as int),
            decreases self.internal_bonds.len() - i,
        {
            match self.check_bond(i, &ids) {
                Some(e) => {
                    return Err(e);
                },
                None => {},
            }
            i = i + 1;
        }
        Ok(())
    }
}

/// A node is known just when its id is among the ids of the nodes.
pub proof fn lemma_node_known(nodes: Seq<NodeModel>, id: SupportNodeId)
    ensures
        ascending_ids(node_ids(nodes)),
        node_ids(nodes).contains(id.0) <==> has_node(nodes, id),
{
    lemma_id_set(nodes, nodes.len() as int);
    if node_ids(nodes).contains(id.0) {
        let a = choose|a: int| 0 <= a < nodes.len() && (#[trigger] nodes[a]).id.0 == id.0;
        assert(nodes[a].id == id);
    }
    if has_node(nodes, id) {
        let a = node_index(nodes, id);
        assert(nodes[a].id.0 == id.0);
    }
}

/// The chunk found for a node is the one that lists it.
proof fn lemma_chunk_of_node(m: AssetModel, owner: Seq<(u32, ChunkId)>, i: int)
    requires
        0 <= i < m.support_nodes.len(),
        hierarchy_error(m.chunks, node_ids(m.support_nodes)) is None,
        covers(m.chunks, node_ids(m.support_nodes), owner),
    ensures
        chunk_matches(m, m.support_nodes[i]) <==> lookup(owner, m.support_nodes[i].id.0) == Some(
            m.support_nodes[i].chunk_id,
        ),
{
    let node = m.support_nodes[i];
    let ids = node_ids(m.support_nodes);
    lemma_has_node_at(m.support_nodes, i);
    lemma_node_known(m.support_nodes, node.id);
    assert(ids.contains(node.id.0));
    assert(exact_cover(m.chunks, ids));
    let c = choose|c: int| listed(m.chunks, c, SupportNodeId(node.id.0));
    assert(SupportNodeId(node.id.0) == node.id);
    assert(listed(m.chunks, c, node.id));
    assert(lookup(owner, node.id.0) == Some(m.chunks[c].id));
    if chunk_matches(m, node) {
        let d = choose|d: int| #[trigger]
            listed(m.chunks, d, node.id) && m.chunks[d].id == node.chunk_id;
        assert(lookup(owner, node.id.0) == Some(m.chunks[d].id));
    }
}

} // verus!
