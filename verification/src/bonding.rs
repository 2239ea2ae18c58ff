//! The bonds between neighbouring support nodes, found from the cells on both sides of them.

use crate::asset::{bond_models, has_node, nodes_ascending, AssetModel, Bond2D, BondModel, FxAsset};
use crate::components::{
    as_indices, components, in_parts, indices, lemma_parts_connected, lemma_parts_in_order,
    lemma_parts_map, lemma_parts_partition, parts_of, separate,
};
use crate::errors::ValidationError;
use crate::geometry::{
    direction, edge_between, edge_midpoint, edges_touch, origin, turned, vec_scaled, vec_sum,
    GridCoord, InterfaceEdge, LatticePoint, Vec2,
};
use crate::ids::{BondId, SupportNodeId};
use crate::occupancy::{lemma_coord_at, lemma_place};
use crate::order::{
    in_order, key_le, key_of, lemma_sorted_in_order, lemma_sorted_keys, lemma_sorted_len,
    lemma_sorted_map, lemma_sorted_permutation, sort_stable, sorted_by, Keyed, SortKey,
};
use crate::reach::{lemma_numbered, linked, reaches, symmetric};
use crate::scalar::{of_integer, product, quotient, Scalar, MINUS_ONE_BITS, ONE_BITS};
use vstd::prelude::*;

verus! {

/// An edge between a cell of one node and a cell of another, with the direction from the node
/// with the lesser id to the other.
#[derive(Clone, Copy, Debug, PartialEq, Eq, Structural)]
pub struct EdgeSample {
    pub node_a: SupportNodeId,
    pub node_b: SupportNodeId,
    pub edge: InterfaceEdge,
    pub normal: Vec2,
}

impl Keyed for EdgeSample {
    open spec fn sort_key(&self) -> SortKey {
        SortKey {
            a: self.node_a.0 as u64,
            b: self.node_b.0 as u64,
            c: self.edge.start.x as u64,
            d: self.edge.start.y as u64,
            e: self.edge.end.x as u64,
            f: self.edge.end.y as u64,
        }
    }

    fn key(&self) -> (k: SortKey) {
        SortKey {
            a: self.node_a.0 as u64,
            b: self.node_b.0 as u64,
            c: self.edge.start.x as u64,
            d: self.edge.start.y as u64,
            e: self.edge.end.x as u64,
            f: self.edge.end.y as u64,
        }
    }
}

/// The sample of the edge between two cells, where they belong to different nodes.
pub open spec fn sample_between(
    here: Option<SupportNodeId>,
    there: Option<SupportNodeId>,
    edge: InterfaceEdge,
    normal: Vec2,
) -> Seq<EdgeSample> {
    match (here, there) {
        (Some(a), Some(b)) => if a == b {
            Seq::empty()
        } else if a.0 < b.0 {
            seq![EdgeSample { node_a: a, node_b: b, edge, normal }]
        } else {
            seq![
                EdgeSample {
                    node_a: b,
                    node_b: a,
                    edge,
                    normal: vec_scaled(normal, Scalar { bits: MINUS_ONE_BITS }),
                },
            ]
        },
        _ => Seq::empty(),
    }
}

/// The samples of the edges to the right of a cell and below it.
pub open spec fn samples_at(m: AssetModel, c: GridCoord) -> Seq<EdgeSample> {
    let x1 = (c.x + 1) as u32;
    let y1 = (c.y + 1) as u32;
    let one = Scalar { bits: ONE_BITS };
    let zero = Scalar { bits: 0 };
    sample_between(
        m.owner_of_cell(c),
        if c.x + 1 < m.occupancy.width {
            m.owner_of_cell(GridCoord { x: x1, y: c.y })
        } else {
            None
        },
        edge_between(LatticePoint { x: x1, y: c.y }, LatticePoint { x: x1, y: y1 }),
        Vec2 { x: one, y: zero },
    ) + sample_between(
        m.owner_of_cell(c),
        if c.y + 1 < m.occupancy.height {
            m.owner_of_cell(GridCoord { x: c.x, y: y1 })
        } else {
            None
        },
        edge_between(LatticePoint { x: c.x, y: y1 }, LatticePoint { x: x1, y: y1 }),
        Vec2 { x: zero, y: one },
    )
}

/// The samples of the first `n` cells.
pub open spec fn samples_upto(m: AssetModel, n: int) -> Seq<EdgeSample>
    decreases n,
{
    if n <= 0 {
        Seq::empty()
    } else {
        samples_upto(m, n - 1) + samples_at(m, m.occupancy.coord_at(n - 1))
    }
}

/// All samples, ordered by the two nodes and then by the edge.
pub open spec fn edge_samples(m: AssetModel) -> Seq<EdgeSample> {
    sorted_by(samples_upto(m, m.occupancy.cells.len() as int), key_of::<EdgeSample>())
}

/// The key by which edges are ordered.
pub open spec fn edge_key(e: InterfaceEdge) -> SortKey {
    SortKey {
        a: e.start.x as u64,
        b: e.start.y as u64,
        c: e.end.x as u64,
        d: e.end.y as u64,
        e: 0,
        f: 0,
    }
}

/// The places of two samples whose edges share a corner.
pub open spec fn touching_places(s: Seq<EdgeSample>) -> spec_fn(int, int) -> bool {
    |i: int, j: int|
        0 <= i < s.len() && 0 <= j < s.len() && edges_touch(s[i].edge, s[j].edge)
}

/// The order of places by the edges of their samples.
pub open spec fn place_order(s: Seq<EdgeSample>) -> spec_fn(int) -> SortKey {
    |i: int| edge_key(s[i].edge)
}

/// The places of all samples, ordered by edge.
pub open spec fn ordered_places(s: Seq<EdgeSample>) -> Seq<int> {
    sorted_by(indices(s.len()), place_order(s))
}

/// The places of the samples grouped into connected stretches of edges. Each stretch is ordered by
/// edge, and the stretches are ordered by their first edges.
pub open spec fn edge_islands(s: Seq<EdgeSample>) -> Seq<Seq<int>> {
    parts_of(touching_places(s), ordered_places(s))
}

/// The samples at some places.
pub open spec fn samples_of(s: Seq<EdgeSample>, part: Seq<int>) -> Seq<EdgeSample> {
    part.map_values(|i: int| s[i])
}

/// The connected stretches of edges.
pub open spec fn stretches(s: Seq<EdgeSample>) -> Seq<Seq<EdgeSample>> {
    edge_islands(s).map_values(|part: Seq<int>| samples_of(s, part))
}

/// The samples lie between the same two nodes.
pub open spec fn same_pair(a: EdgeSample, b: EdgeSample) -> bool {
    a.node_a == b.node_a && a.node_b == b.node_b
}

/// The first place from `end` on whose sample lies between other nodes than the one at `from`.
pub open spec fn run_end(s: Seq<EdgeSample>, from: int, end: int) -> int
    decreases s.len() - end,
{
    if end < s.len() && same_pair(s[from], s[end]) {
        run_end(s, from, end + 1)
    } else {
        end
    }
}

proof fn lemma_run_end(s: Seq<EdgeSample>, from: int, end: int)
    requires
        end <= s.len(),
    ensures
        end <= run_end(s, from, end) <= s.len(),
    decreases s.len() - end,
{
    if end < s.len() && same_pair(s[from], s[end]) {
        lemma_run_end(s, from, end + 1);
    }
}

/// The connected stretches of edges, from `from` on, between each two nodes in turn.
pub open spec fn pair_stretches(s: Seq<EdgeSample>, from: int) -> Seq<Seq<EdgeSample>>
    decreases s.len() - from,
    when 0 <= from
    via pair_stretches_decreases
{
    if from >= s.len() {
        Seq::empty()
    } else {
        let end = run_end(s, from, from + 1);
        stretches(s.subrange(from, end)) + pair_stretches(s, end)
    }
}

#[via_fn]
proof fn pair_stretches_decreases(s: Seq<EdgeSample>, from: int) {
    if from < s.len() {
        lemma_run_end(s, from, from + 1);
    }
}

/// The strength given to every bond of a new asset.
#[derive(Clone, Copy, Debug, PartialEq, Eq, Structural)]
pub struct BondStrength {
    pub base_health: Scalar,
    pub tension_limit: Scalar,
    pub compression_limit: Scalar,
    pub shear_limit: Scalar,
}

pub open spec fn midpoint_sum(stretch: Seq<EdgeSample>, size: Scalar, n: int) -> Vec2
    decreases n,
{
    if n <= 0 {
        origin()
    } else {
        vec_sum(midpoint_sum(stretch, size, n - 1), edge_midpoint(stretch[n - 1].edge, size))
    }
}

pub open spec fn normal_sum(stretch: Seq<EdgeSample>, n: int) -> Vec2
    decreases n,
{
    if n <= 0 {
        origin()
    } else {
        vec_sum(normal_sum(stretch, n - 1), stretch[n - 1].normal)
    }
}

pub open spec fn material_of(m: AssetModel, id: SupportNodeId) -> u16 {
    match m.node(id) {
        Some(node) => node.material_id,
        None => 0,
    }
}

/// The bond along one stretch of edges.
pub open spec fn stretch_bond(
    m: AssetModel,
    stretch: Seq<EdgeSample>,
    id: int,
    strength: BondStrength,
) -> BondModel {
    let n = stretch.len() as int;
    let a = stretch[0].node_a;
    let b = stretch[0].node_b;
    let normal = direction(normal_sum(stretch, n));
    BondModel {
        id: BondId(id as u32),
        node_a: a,
        node_b: b,
        centroid: vec_scaled(
            midpoint_sum(stretch, m.voxel_size, n),
            quotient(Scalar { bits: ONE_BITS }, of_integer(n)),
        ),
        normal,
        tangent: turned(normal),
        length: product(of_integer(n), m.voxel_size),
        base_health: strength.base_health,
        tension_limit: strength.tension_limit,
        compression_limit: strength.compression_limit,
        shear_limit: strength.shear_limit,
        material_pair: (material_of(m, a), material_of(m, b)),
        interface_edges: stretch.map_values(|e: EdgeSample| e.edge),
    }
}

/// The stretches of edges between the nodes of an asset.
pub open spec fn asset_stretches(m: AssetModel) -> Seq<Seq<EdgeSample>> {
    pair_stretches(edge_samples(m), 0)
}

/// The bonds of an asset: one for each connected stretch of edges between two nodes.
pub open spec fn asset_bonds(m: AssetModel, strength: BondStrength) -> Seq<BondModel> {
    let found = asset_stretches(m);
    Seq::new(found.len(), |i: int| stretch_bond(m, found[i], i, strength))
}

/// The end of a sample that is no node of the asset.
pub open spec fn missing_end(m: AssetModel, e: EdgeSample) -> Option<SupportNodeId> {
    if !has_node(m.support_nodes, e.node_a) {
        Some(e.node_a)
    } else if !has_node(m.support_nodes, e.node_b) {
        Some(e.node_b)
    } else {
        None
    }
}

/// The first end, among the stretches from `i` on, that is no node of the asset.
pub open spec fn first_missing_end(m: AssetModel, found: Seq<Seq<EdgeSample>>, i: int) -> Option<
    SupportNodeId,
>
    decreases found.len() - i,
{
    if i < 0 || i >= found.len() {
        None
    } else {
        match missing_end(m, found[i][0]) {
            Some(node) => Some(node),
            None => first_missing_end(m, found, i + 1),
        }
    }
}

/// The nodes that cells belong to are nodes of the asset.
pub open spec fn owners_known(m: AssetModel) -> bool {
    forall|p: int|
        0 <= p < m.voxel_to_node.len() && (#[trigger] m.voxel_to_node[p]) is Some ==> has_node(
            m.support_nodes,
            m.voxel_to_node[p]->0,
        )
}

/// Both nodes of a sample are nodes of the asset.
pub open spec fn sample_known(m: AssetModel, e: EdgeSample) -> bool {
    has_node(m.support_nodes, e.node_a) && has_node(m.support_nodes, e.node_b)
}

fn record_interface_edge(
    samples: &mut Vec<EdgeSample>,
    here: Option<SupportNodeId>,
    there: Option<SupportNodeId>,
    edge: InterfaceEdge,
    normal: Vec2,
)
    ensures
        final(samples)@ == old(samples)@ + sample_between(here, there, edge, normal),
{
    let ghost before = samples@;
    if let (Some(a), Some(b)) = (here, there) {
        if a.0 < b.0 {
            samples.push(EdgeSample { node_a: a, node_b: b, edge, normal });
        } else if b.0 < a.0 {
            samples.push(
                EdgeSample {
                    node_a: b,
                    node_b: a,
                    edge,
                    normal: normal.scaled(Scalar { bits: MINUS_ONE_BITS }),
                },
            );
        }
    }
    assert(samples@ =~= before + sample_between(here, there, edge, normal));
}

proof fn lemma_owner_known(m: AssetModel, c: GridCoord)
    requires
        m.occupancy.wf(),
        m.voxel_to_node.len() == m.occupancy.cells.len(),
        owners_known(m),
    ensures
        m.owner_of_cell(c) is Some ==> has_node(m.support_nodes, m.owner_of_cell(c)->0),
{
    if m.occupancy.has(c) {
        lemma_place(m.occupancy, c);
        assert(m.voxel_to_node[m.occupancy.place(c)] == m.owner_of_cell(c));
    }
}

proof fn lemma_samples_known(m: AssetModel, n: int)
    requires
        m.occupancy.wf(),
        m.voxel_to_node.len() == m.occupancy.cells.len(),
        owners_known(m),
    ensures
        forall|i: int|
            0 <= i < samples_upto(m, n).len() ==> sample_known(
                m,
                #[trigger] samples_upto(m, n)[i],
            ),
    decreases n,
{
    if n > 0 {
        lemma_samples_known(m, n - 1);
        let c = m.occupancy.coord_at(n - 1);
        lemma_owner_known(m, c);
        lemma_owner_known(m, GridCoord { x: (c.x + 1) as u32, y: c.y });
        lemma_owner_known(m, GridCoord { x: c.x, y: (c.y + 1) as u32 });
        let before = samples_upto(m, n - 1);
        let here = samples_at(m, c);
        assert forall|i: int| 0 <= i < here.len() implies sample_known(m, #[trigger] here[i]) by {}
        assert forall|i: int| 0 <= i < samples_upto(m, n).len() implies sample_known(
            m,
            #[trigger] samples_upto(m, n)[i],
        ) by {
            if i < before.len() {
                assert(samples_upto(m, n)[i] == before[i]);
            } else {
                assert(samples_upto(m, n)[i] == here[i - before.len()]);
            }
        }
    }
}

proof fn lemma_stretch_members(s: Seq<EdgeSample>, k: int)
    requires
        0 <= k < stretches(s).len(),
    ensures
        stretches(s)[k].len() > 0,
        forall|j: int| 0 <= j < stretches(s)[k].len() ==> s.contains(#[trigger] stretches(s)[k][j]),
        s.contains(stretches(s)[k][0]),
{
    lemma_ordered_places(s);
    let places = ordered_places(s);
    let parts = edge_islands(s);
    lemma_parts_partition(touching_places(s), places);
    assert forall|j: int| 0 <= j < stretches(s)[k].len() implies s.contains(
        #[trigger] stretches(s)[k][j],
    ) by {
        let i = parts[k][j];
        assert(parts[k].contains(i));
        assert(in_parts(parts, i));
        assert(0 <= i < s.len());
        assert(stretches(s)[k][j] == s[i]);
    }
}

/// Every sample is in some stretch.
proof fn lemma_stretches_cover(s: Seq<EdgeSample>, i: int)
    requires
        0 <= i < s.len(),
    ensures
        in_parts(stretches(s), s[i]),
{
    lemma_ordered_places(s);
    let places = ordered_places(s);
    let parts = edge_islands(s);
    lemma_parts_partition(touching_places(s), places);
    assert(in_parts(parts, i));
    let k = choose|k: int| 0 <= k < parts.len() && (#[trigger] parts[k]).contains(i);
    let j = choose|j: int| 0 <= j < parts[k].len() && parts[k][j] == i;
    assert(stretches(s)[k][j] == s[i]);
    assert(stretches(s)[k].contains(s[i]));
}

/// The samples of a run lie between the same nodes.
proof fn lemma_run_pairs(s: Seq<EdgeSample>, from: int, end: int, i: int)
    requires
        0 <= from < end <= s.len(),
        end <= i < run_end(s, from, end),
    ensures
        i < s.len(),
        same_pair(s[from], s[i]),
    decreases s.len() - end,
{
    if end < s.len() && same_pair(s[from], s[end]) && end < i {
        lemma_run_pairs(s, from, end + 1, i);
    }
}

/// The stretches from a place on hold the samples from there on, and each stretch those between
/// two nodes only.
pub proof fn lemma_pair_stretches(s: Seq<EdgeSample>, from: int)
    requires
        0 <= from <= s.len(),
    ensures
        forall|k: int|
            0 <= k < pair_stretches(s, from).len() ==> {
                let part = #[trigger] pair_stretches(s, from)[k];
                &&& part.len() > 0
                &&& forall|j: int|
                    0 <= j < part.len() ==> s.contains(#[trigger] part[j]) && same_pair(
                        part[0],
                        part[j],
                    )
            },
        forall|i: int|
            from <= i < s.len() ==> in_parts(pair_stretches(s, from), #[trigger] s[i]),
    decreases s.len() - from,
{
    if from < s.len() {
        let end = run_end(s, from, from + 1);
        lemma_run_end(s, from, from + 1);
        lemma_pair_stretches(s, end);
        let run = s.subrange(from, end);
        let first = stretches(run);
        let rest = pair_stretches(s, end);
        let all = pair_stretches(s, from);
        assert(all == first + rest);
        assert forall|i: int| 0 <= i < run.len() implies #[trigger] run[i] == s[from + i]
            && same_pair(s[from], run[i]) by {
            if i > 0 {
                lemma_run_pairs(s, from, from + 1, from + i);
            }
        }
        assert forall|k: int| 0 <= k < all.len() implies {
            let part = #[trigger] all[k];
            &&& part.len() > 0
            &&& forall|j: int|
                0 <= j < part.len() ==> s.contains(#[trigger] part[j]) && same_pair(
                    part[0],
                    part[j],
                )
        } by {
            if k < first.len() {
                lemma_stretch_members(run, k);
                let part = first[k];
                assert forall|j: int| 0 <= j < part.len() implies s.contains(#[trigger] part[j])
                    && same_pair(s[from], part[j]) by {
                    assert(run.contains(part[j]));
                    let i = choose|i: int| 0 <= i < run.len() && run[i] == part[j];
                    assert(run[i] == s[from + i]);
                }
                assert(same_pair(s[from], part[0]));
            } else {
                assert(all[k] == rest[k - first.len()]);
            }
        }
        assert forall|i: int| from <= i < s.len() implies in_parts(all, #[trigger] s[i]) by {
            if i < end {
                lemma_stretches_cover(run, i - from);
                assert(run[i - from] == s[i]);
                let k = choose|k: int| 0 <= k < first.len() && (#[trigger] first[k]).contains(s[i]);
                assert(all[k].contains(s[i]));
            } else {
                let k = choose|k: int| 0 <= k < rest.len() && (#[trigger] rest[k]).contains(s[i]);
                assert(all[first.len() + k].contains(s[i]));
            }
        }
    }
}

/// The stretches of an asset hold just its samples, each stretch those between two nodes.
pub proof fn lemma_asset_stretches(m: AssetModel)
    ensures
        ({
            let raw = samples_upto(m, m.occupancy.cells.len() as int);
            let found = asset_stretches(m);
            &&& forall|k: int|
                0 <= k < found.len() ==> {
                    let part = #[trigger] found[k];
                    &&& part.len() > 0
                    &&& forall|j: int|
                        0 <= j < part.len() ==> raw.contains(#[trigger] part[j]) && same_pair(
                            part[0],
                            part[j],
                        )
                }
            &&& forall|i: int| 0 <= i < raw.len() ==> in_parts(found, #[trigger] raw[i])
        }),
{
    let raw = samples_upto(m, m.occupancy.cells.len() as int);
    let s = edge_samples(m);
    let found = asset_stretches(m);
    lemma_sorted_permutation(raw, key_of::<EdgeSample>());
    raw.to_multiset_ensures();
    s.to_multiset_ensures();
    lemma_pair_stretches(s, 0);
    assert forall|x: EdgeSample| raw.contains(x) <==> s.contains(x) by {
        assert(raw.contains(x) <==> raw.to_multiset().count(x) > 0);
        assert(s.contains(x) <==> s.to_multiset().count(x) > 0);
    }
    assert forall|k: int| 0 <= k < found.len() implies {
        let part = #[trigger] found[k];
        &&& part.len() > 0
        &&& forall|j: int|
            0 <= j < part.len() ==> raw.contains(#[trigger] part[j]) && same_pair(part[0], part[j])
    } by {
        let part = found[k];
        assert forall|j: int| 0 <= j < part.len() implies raw.contains(#[trigger] part[j]) by {
            assert(s.contains(part[j]));
        }
    }
    assert forall|i: int| 0 <= i < raw.len() implies in_parts(found, #[trigger] raw[i]) by {
        assert(raw.contains(raw[i]));
        assert(s.contains(raw[i]));
        let j = choose|j: int| 0 <= j < s.len() && s[j] == raw[i];
        assert(in_parts(found, s[j]));
    }
}

proof fn lemma_stretches_known(m: AssetModel, s: Seq<EdgeSample>, from: int)
    requires
        0 <= from,
        forall|i: int| 0 <= i < s.len() ==> sample_known(m, #[trigger] s[i]),
    ensures
        forall|k: int|
            0 <= k < pair_stretches(s, from).len() ==> missing_end(
                m,
                (#[trigger] pair_stretches(s, from)[k])[0],
            ) is None,
    decreases s.len() - from,
{
    if from < s.len() {
        let end = run_end(s, from, from + 1);
        lemma_run_end(s, from, from + 1);
        lemma_stretches_known(m, s, end);
        let run = s.subrange(from, end);
        let first = stretches(run);
        let all = pair_stretches(s, from);
        assert(all == first + pair_stretches(s, end));
        assert forall|k: int| 0 <= k < all.len() implies missing_end(
            m,
            (#[trigger] all[k])[0],
        ) is None by {
            if k < first.len() {
                lemma_stretch_members(run, k);
                let i = choose|i: int| 0 <= i < run.len() && run[i] == first[k][0];
                assert(run[i] == s[from + i]);
            } else {
                assert(all[k] == pair_stretches(s, end)[k - first.len()]);
            }
        }
    }
}

proof fn lemma_none_missing(m: AssetModel, found: Seq<Seq<EdgeSample>>, i: int, t: int)
    requires
        0 <= i <= t <= found.len(),
        forall|k: int| i <= k < t ==> missing_end(m, (#[trigger] found[k])[0]) is None,
    ensures
        first_missing_end(m, found, i) == first_missing_end(m, found, t),
    decreases t - i,
{
    if i < t {
        assert(missing_end(m, found[i][0]) is None);
        lemma_none_missing(m, found, i + 1, t);
    }
}

/// Where every cell's node is a node of the asset, no bond lacks an end.
pub proof fn lemma_ends_known(m: AssetModel)
    requires
        m.occupancy.wf(),
        m.voxel_to_node.len() == m.occupancy.cells.len(),
        owners_known(m),
    ensures
        first_missing_end(m, asset_stretches(m), 0) is None,
{
    let raw = samples_upto(m, m.occupancy.cells.len() as int);
    let s = edge_samples(m);
    lemma_samples_known(m, m.occupancy.cells.len() as int);
    lemma_sorted_permutation(raw, key_of::<EdgeSample>());
    raw.to_multiset_ensures();
    s.to_multiset_ensures();
    assert forall|i: int| 0 <= i < s.len() implies sample_known(m, #[trigger] s[i]) by {
        assert(s.contains(s[i]));
        assert(s.to_multiset().count(s[i]) > 0);
        assert(raw.contains(s[i]));
        let k = choose|k: int| 0 <= k < raw.len() && raw[k] == s[i];
        assert(sample_known(m, raw[k]));
    }
    lemma_stretches_known(m, s, 0);
    let found = asset_stretches(m);
    lemma_none_missing(m, found, 0, found.len() as int);
}

/// Collects and orders the samples of an asset.
fn collect_samples(asset: &FxAsset) -> (samples: Vec<EdgeSample>)
    requires
        asset@.occupancy.wf(),
        asset@.voxel_to_node.len() == asset@.occupancy.cells.len(),
    ensures
        samples@ == edge_samples(asset@),
{
    let ghost m = asset@;
    let mut samples: Vec<EdgeSample> = Vec::new();
    let mut p: usize = 0;
    let one = Scalar { bits: ONE_BITS };
    let zero = Scalar { bits: 0 };
    while p < asset.occupancy.cells.len()
        invariant
            p <= asset.occupancy.cells.len(),
            m == asset@,
            m.occupancy.wf(),
            m.voxel_to_node.len() == m.occupancy.cells.len(),
            one == (Scalar { bits: ONE_BITS }),
            zero == (Scalar { bits: 0 }),
            samples@ == samples_upto(m, p as int),
        decreases asset.occupancy.cells.len() - p,
    {
        proof {
            lemma_coord_at(m.occupancy, p as int);
        }
        let w = asset.occupancy.width as usize;
        let here = GridCoord::new((p % w) as u32, (p / w) as u32);
        assert(here == m.occupancy.coord_at(p as int));
        let x1: u32 = here.x + 1;
        let y1: u32 = here.y + 1;
        let owner = asset.node_at(here);
        let right = if x1 < asset.occupancy.width {
            asset.node_at(GridCoord::new(x1, here.y))
        } else {
            None
        };
        let below = if y1 < asset.occupancy.height {
            asset.node_at(GridCoord::new(here.x, y1))
        } else {
            None
        };
        let ghost before = samples@;
        record_interface_edge(
            &mut samples,
            owner,
            right,
            InterfaceEdge::new(LatticePoint::new(x1, here.y), LatticePoint::new(x1, y1)),
            Vec2::new(one, zero),
        );
        record_interface_edge(
            &mut samples,
            owner,
            below,
            InterfaceEdge::new(LatticePoint::new(here.x, y1), LatticePoint::new(x1, y1)),
            Vec2::new(zero, one),
        );
        assert(samples@ =~= before + samples_at(m, here));
        p = p + 1;
    }
    sort_stable(&mut samples);
    samples
}

/// A place with the edge of its sample.
#[derive(Clone, Copy, Debug, PartialEq, Eq, Structural)]
struct PlacedEdge {
    place: usize,
    edge: InterfaceEdge,
}

impl Keyed for PlacedEdge {
    closed spec fn sort_key(&self) -> SortKey {
        edge_key(self.edge)
    }

    fn key(&self) -> (k: SortKey) {
        SortKey {
            a: self.edge.start.x as u64,
            b: self.edge.start.y as u64,
            c: self.edge.end.x as u64,
            d: self.edge.end.y as u64,
            e: 0,
            f: 0,
        }
    }
}

/// The ordered places are all places, each once.
proof fn lemma_ordered_places(s: Seq<EdgeSample>)
    ensures
        ordered_places(s).len() == s.len(),
        ordered_places(s).no_duplicates(),
        in_order(ordered_places(s), place_order(s)),
        forall|i: int| #[trigger] ordered_places(s).contains(i) <==> 0 <= i < s.len(),
{
    let all = indices(s.len());
    let places = ordered_places(s);
    lemma_sorted_permutation(all, place_order(s));
    lemma_sorted_len(all, place_order(s));
    lemma_sorted_in_order(all, place_order(s));
    all.to_multiset_ensures();
    places.to_multiset_ensures();
    assert(all.no_duplicates());
    all.lemma_multiset_has_no_duplicates();
    places.lemma_multiset_has_no_duplicates_conv();
    assert forall|i: int| #[trigger] places.contains(i) <==> 0 <= i < s.len() by {
        assert(places.contains(i) <==> places.to_multiset().count(i) > 0);
        assert(all.contains(i) <==> all.to_multiset().count(i) > 0);
        if 0 <= i < s.len() {
            assert(all[i] == i);
        }
    }
}

/// Orders the places of samples by edge.
fn order_places(samples: &Vec<EdgeSample>) -> (r: Vec<PlacedEdge>)
    ensures
        r@.map_values(|p: PlacedEdge| p.place as int) == ordered_places(samples@),
        r.len() == samples.len(),
        forall|k: int|
            0 <= k < r.len() ==> (#[trigger] r[k]).place < samples.len() && r[k].edge
                == samples[r[k].place as int].edge,
{
    let ghost s = samples@;
    let mut r: Vec<PlacedEdge> = Vec::new();
    let mut i: usize = 0;
    while i < samples.len()
        invariant
            i <= samples.len(),
            s == samples@,
            r.len() == i,
            forall|k: int| 0 <= k < i ==> (#[trigger] r[k]).place == k && r[k].edge == s[k].edge,
        decreases samples.len() - i,
    {
        r.push(PlacedEdge { place: i, edge: samples[i].edge });
        i = i + 1;
    }
    let ghost raw = r@;
    sort_stable(&mut r);
    proof {
        let f = |p: PlacedEdge| p.place as int;
        let own = |p: PlacedEdge| place_order(s)(f(p));
        let fits = |p: PlacedEdge| p.place < s.len() && p.edge == s[p.place as int].edge;
        lemma_sorted_permutation(raw, key_of::<PlacedEdge>());
        raw.to_multiset_ensures();
        r@.to_multiset_ensures();
        assert forall|k: int| 0 <= k < r.len() implies fits(#[trigger] r@[k]) by {
            assert(r@.contains(r@[k]));
            assert(r@.to_multiset().count(r@[k]) > 0);
            assert(raw.contains(r@[k]));
            let w = choose|w: int| 0 <= w < raw.len() && raw[w] == r@[k];
            assert(raw[w].place == w);
        }
        assert forall|w: int| 0 <= w < raw.len() implies key_of::<PlacedEdge>()(
            #[trigger] raw[w],
        ) == own(raw[w]) by {
            assert(raw[w].place == w);
        }
        lemma_sorted_keys(raw, key_of::<PlacedEdge>(), own);
        lemma_sorted_map(raw, own, f, place_order(s));
        assert(raw.map_values(f) =~= indices(s.len()));
    }
    r
}

/// Groups samples into connected stretches of edges.
pub fn split_edge_islands(samples: &Vec<EdgeSample>) -> (islands: Vec<Vec<usize>>)
    ensures
        as_indices(islands@) == edge_islands(samples@),
        forall|p: int, i: int|
            0 <= p < islands.len() && 0 <= i < islands[p].len() ==> #[trigger] islands[p][i]
                < samples.len(),
{
    let ghost s = samples@;
    let order = order_places(samples);
    let ghost places = ordered_places(s);
    let n = order.len();
    assert forall|k: int| 0 <= k < n implies #[trigger] places[k] == order[k].place by {
        assert(order@.map_values(|p: PlacedEdge| p.place as int)[k] == order[k].place);
    }
    let mut links: Vec<(usize, usize)> = Vec::new();
    let mut i: usize = 0;
    while i < n
        invariant
            i <= n,
            n == order.len(),
            forall|k: int|
                0 <= k < links.len() ==> (#[trigger] links[k]).0 < n && links[k].1 <= links[k].0
                    && edges_touch(order[links[k].0 as int].edge, order[links[k].1 as int].edge),
            forall|a: int, b: int|
                0 <= b <= a < i && edges_touch(
                    (#[trigger] order[a]).edge,
                    (#[trigger] order[b]).edge,
                ) ==> links@.contains((a as usize, b as usize)),
        decreases n - i,
    {
        let mut j: usize = 0;
        while j <= i
            invariant
                j <= i + 1,
                i < n,
                n == order.len(),
                forall|k: int|
                    0 <= k < links.len() ==> (#[trigger] links[k]).0 < n && links[k].1 <= links[k].0
                        && edges_touch(
                        order[links[k].0 as int].edge,
                        order[links[k].1 as int].edge,
                    ),
                forall|a: int, b: int|
                    0 <= b <= a < i && edges_touch(
                        (#[trigger] order[a]).edge,
                        (#[trigger] order[b]).edge,
                    ) ==> links@.contains((a as usize, b as usize)),
                forall|b: int|
                    0 <= b < j && edges_touch(order[i as int].edge, (#[trigger] order[b]).edge)
                        ==> links@.contains((i, b as usize)),
            decreases i + 1 - j,
        {
            let ghost before = links@;
            if order[i].edge.touches(order[j].edge) {
                links.push((i, j));
                proof {
                    assert(links@[before.len() as int] == (i, j));
                    assert forall|t: (usize, usize)| before.contains(t) implies #[trigger] links@.contains(t) by {
                        let k = choose|k: int| 0 <= k < before.len() && before[k] == t;
                        assert(links@[k] == t);
                    }
                }
            }
            j = j + 1;
        }
        i = i + 1;
    }
    let parts = components(n, &links);
    proof {
        let rel = touching_places(s);
        let num = linked(links@);
        lemma_ordered_places(s);
        assert forall|p: int, q: int|
            #![trigger num(p, q)]
            #![trigger rel(places[p], places[q])]
            0 <= p < n && 0 <= q < n implies (num(p, q) <==> rel(places[p], places[q])) by {
            if num(p, q) {
                let k = choose|k: int|
                    0 <= k < links@.len() && (((#[trigger] links@[k]).0 == p && links@[k].1 == q)
                        || (links@[k].1 == p && links@[k].0 == q));
                assert(edges_touch(order[links[k].0 as int].edge, order[links[k].1 as int].edge));
            }
            if rel(places[p], places[q]) {
                let (a, b) = if q <= p {
                    (p, q)
                } else {
                    (q, p)
                };
                assert(edges_touch(order[a].edge, order[b].edge));
                let k = choose|k: int|
                    0 <= k < links@.len() && links@[k] == (a as usize, b as usize);
                assert(links@[k].0 == a);
            }
        }
        assert forall|x: int, y: int| #[trigger] rel(x, y) implies places.contains(y) by {}
        assert forall|p: int, q: int| 0 <= p < n && 0 <= q < n implies (#[trigger] reaches(
            num,
            p,
            q,
        ) <==> reaches(rel, places[p], places[q])) by {
            lemma_numbered(places, links@, rel, p, q);
        }
        lemma_parts_map(places, num, rel, indices(n as nat));
        assert(indices(n as nat).map_values(|i: int| places[i]) =~= places);
    }
    let mut islands: Vec<Vec<usize>> = Vec::new();
    let mut i: usize = 0;
    while i < parts.len()
        invariant
            i <= parts.len(),
            n == order.len(),
            n == places.len(),
            forall|k: int| 0 <= k < n ==> #[trigger] places[k] == order[k].place,
            forall|k: int| 0 <= k < n ==> (#[trigger] order[k]).place < samples.len(),
            forall|p: int, i: int|
                0 <= p < parts.len() && 0 <= i < parts[p].len() ==> #[trigger] parts[p][i] < n,
            islands.len() == i,
            forall|p: int|
                0 <= p < i ==> (#[trigger] islands[p])@.map_values(|i: usize| i as int)
                    == as_indices(parts@)[p].map_values(|i: int| places[i]),
            forall|p: int, i: int|
                0 <= p < islands.len() && 0 <= i < islands[p].len() ==> #[trigger] islands[p][i]
                    < samples.len(),
        decreases parts.len() - i,
    {
        let mut island: Vec<usize> = Vec::new();
        let mut j: usize = 0;
        while j < parts[i].len()
            invariant
                i < parts.len(),
                j <= parts[i as int].len(),
                n == order.len(),
                forall|k: int| 0 <= k < n ==> (#[trigger] order[k]).place < samples.len(),
                forall|p: int, i: int|
                    0 <= p < parts.len() && 0 <= i < parts[p].len() ==> #[trigger] parts[p][i] < n,
                island.len() == j,
                forall|k: int|
                    0 <= k < j ==> #[trigger] island[k] == order[parts[i as int][k] as int].place
                        && island[k] < samples.len(),
            decreases parts[i as int].len() - j,
        {
            assert(parts[i as int][j as int] < n);
            island.push(order[parts[i][j]].place);
            j = j + 1;
        }
        assert(island@.map_values(|i: usize| i as int) =~= as_indices(
            parts@,
        )[i as int].map_values(|i: int| places[i])) by {
            assert forall|k: int| 0 <= k < island.len() implies island[k] == places[#[trigger] as_indices(
                parts@,
            )[i as int][k]] by {
                assert(parts[i as int][k] < n);
                assert(island[k] == order[parts[i as int][k] as int].place);
            }
        }
        islands.push(island);
        i = i + 1;
    }
    proof {
        assert(as_indices(islands@) =~= as_indices(parts@).map_values(
            |p: Seq<int>| p.map_values(|i: int| places[i]),
        ));
    }
    islands
}

/// Builds the bond along one stretch of edges.
fn build_bond(
    asset: &FxAsset,
    samples: &Vec<EdgeSample>,
    part: &Vec<usize>,
    id: usize,
    strength: BondStrength,
) -> (r: Result<Bond2D, ValidationError>)
    requires
        nodes_ascending(asset@.support_nodes),
        part.len() > 0,
        forall|i: int| 0 <= i < part.len() ==> #[trigger] part[i] < samples.len(),
    ensures
        ({
            let stretch = samples_of(samples@, part@.map_values(|i: usize| i as int));
            match r {
                Ok(bond) => missing_end(asset@, stretch[0]) is None && bond@ == stretch_bond(
                    asset@,
                    stretch,
                    id as int,
                    strength,
                ),
                Err(e) => missing_end(asset@, stretch[0]) is Some && e
                    == ValidationError::BondEndpointMissing(missing_end(asset@, stretch[0])->0),
            }
        }),
{
    let ghost stretch = samples_of(samples@, part@.map_values(|i: usize| i as int));
    assert(stretch.len() == part.len());
    assert forall|k: int| 0 <= k < part.len() implies #[trigger] stretch[k]
        == samples[part[k] as int] by {}
    let mut centroid = Vec2::zero();
    let mut normal = Vec2::zero();
    let mut edges: Vec<InterfaceEdge> = Vec::new();
    let mut i: usize = 0;
    while i < part.len()
        invariant
            i <= part.len(),
            stretch.len() == part.len(),
            forall|k: int|
                0 <= k < part.len() ==> #[trigger] stretch[k] == samples[part[k] as int],
            forall|i: int| 0 <= i < part.len() ==> #[trigger] part[i] < samples.len(),
            centroid == midpoint_sum(stretch, asset@.voxel_size, i as int),
            normal == normal_sum(stretch, i as int),
            edges.len() == i,
            forall|k: int| 0 <= k < i ==> #[trigger] edges[k] == stretch[k].edge,
        decreases part.len() - i,
    {
        let sample = samples[part[i]];
        assert(stretch[i as int] == sample);
        centroid = centroid.plus(sample.edge.midpoint(asset.voxel_size));
        normal = normal.plus(sample.normal);
        edges.push(sample.edge);
        i = i + 1;
    }
    let count = Scalar::from_u64(part.len() as u64);
    let first = samples[part[0]];
    assert(stretch[0] == first);
    let normal = normal.normalized_or_zero();
    let material_a = match asset.node(first.node_a) {
        Some(node) => node.material_id,
        None => {
            return Err(ValidationError::BondEndpointMissing(first.node_a));
        },
    };
    let material_b = match asset.node(first.node_b) {
        Some(node) => node.material_id,
        None => {
            return Err(ValidationError::BondEndpointMissing(first.node_b));
        },
    };
    assert(edges@ =~= stretch.map_values(|e: EdgeSample| e.edge));
    Ok(
        Bond2D {
            id: BondId(id as u32),
            node_a: first.node_a,
            node_b: first.node_b,
            centroid: centroid.scaled(Scalar { bits: ONE_BITS }.over(count)),
            normal,
            tangent: normal.perp(),
            length: count.times(asset.voxel_size),
            base_health: strength.base_health,
            tension_limit: strength.tension_limit,
            compression_limit: strength.compression_limit,
            shear_limit: strength.shear_limit,
            material_pair: (material_a, material_b),
            interface_edges: edges,
        },
    )
}

/// Copies the samples, from `from` on, that lie between the same two nodes.
fn take_run(samples: &Vec<EdgeSample>, from: usize) -> (run: Vec<EdgeSample>)
    requires
        from < samples.len(),
    ensures
        from < run_end(samples@, from as int, from + 1) <= samples.len(),
        run@ == samples@.subrange(from as int, run_end(samples@, from as int, from + 1)),
{
    let ghost s = samples@;
    proof {
        lemma_run_end(s, from as int, from + 1);
    }
    let mut run: Vec<EdgeSample> = Vec::new();
    run.push(samples[from]);
    let mut end: usize = from + 1;
    assert(run@ =~= s.subrange(from as int, end as int));
    while end < samples.len() && samples[end].node_a == samples[from].node_a && samples[end].node_b
        == samples[from].node_b
        invariant
            from < end <= samples.len(),
            s == samples@,
            run@ == s.subrange(from as int, end as int),
            run_end(s, from as int, end as int) == run_end(s, from as int, from + 1),
        decreases samples.len() - end,
    {
        run.push(samples[end]);
        end = end + 1;
        assert(run@ =~= s.subrange(from as int, end as int));
    }
    run
}

impl FxAsset {
    /// Finds the bonds between neighbouring nodes. A cell of a node that the asset does not have
    /// is an error where a bond would end there.
    pub fn generate_internal_bonds(&self, strength: BondStrength) -> (r: Result<
        Vec<Bond2D>,
        ValidationError,
    >)
        requires
            self@.occupancy.wf(),
            self@.voxel_to_node.len() == self@.occupancy.cells.len(),
            nodes_ascending(self@.support_nodes),
        ensures
            match r {
                Ok(bonds) => first_missing_end(self@, asset_stretches(self@), 0) is None
                    && bond_models(bonds@) == asset_bonds(self@, strength),
                Err(e) => first_missing_end(self@, asset_stretches(self@), 0) is Some && e
                    == ValidationError::BondEndpointMissing(
                    first_missing_end(self@, asset_stretches(self@), 0)->0,
                ),
            },
    {
        let samples = collect_samples(self);
        let ghost s = samples@;
        let ghost found = asset_stretches(self@);
        let mut bonds: Vec<Bond2D> = Vec::new();
        let mut from: usize = 0;
        assert(found.skip(0) =~= found);
        while from < samples.len()
            invariant
                from <= samples.len(),
                s == samples@,
                found == asset_stretches(self@),
                bonds.len() <= found.len(),
                found.skip(bonds.len() as int) == pair_stretches(s, from as int),
                nodes_ascending(self@.support_nodes),
                forall|k: int|
                    0 <= k < bonds.len() ==> (#[trigger] bonds[k])@ == stretch_bond(
                        self@,
                        found[k],
                        k,
                        strength,
                    ),
                forall|k: int|
                    0 <= k < bonds.len() ==> missing_end(self@, (#[trigger] found[k])[0]) is None,
            decreases samples.len() - from,
        {
            let run = take_run(&samples, from);
            let islands = split_edge_islands(&run);
            let ghost end = run_end(s, from as int, from + 1);
            let ghost start = bonds.len() as int;
            let ghost here = stretches(run@);
            let ghost left = pair_stretches(s, end);
            proof {
                let rest = found.skip(start);
                assert(rest == here + left);
                assert(rest.len() == here.len() + left.len());
                assert(rest.len() == found.len() - start);
                assert(here.len() == islands.len()) by {
                    assert(as_indices(islands@).len() == islands.len());
                }
                assert forall|k: int| 0 <= k < here.len() implies #[trigger] here[k]
                    == found[start + k] by {
                    assert(rest[k] == (here + left)[k]);
                }
            }
            let mut i: usize = 0;
            while i < islands.len()
                invariant
                    i <= islands.len(),
                    found == asset_stretches(self@),
                    as_indices(islands@) == edge_islands(run@),
                    here == stretches(run@),
                    here.len() == islands.len(),
                    start + here.len() <= found.len(),
                    bonds.len() == start + i,
                    nodes_ascending(self@.support_nodes),
                    forall|k: int| 0 <= k < here.len() ==> #[trigger] here[k] == found[start + k],
                    forall|p: int, i: int|
                        0 <= p < islands.len() && 0 <= i < islands[p].len()
                            ==> #[trigger] islands[p][i] < run.len(),
                    forall|k: int|
                        0 <= k < bonds.len() ==> (#[trigger] bonds[k])@ == stretch_bond(
                            self@,
                            found[k],
                            k,
                            strength,
                        ),
                    forall|k: int|
                        0 <= k < bonds.len() ==> missing_end(
                            self@,
                            (#[trigger] found[k])[0],
                        ) is None,
                decreases islands.len() - i,
            {
                proof {
                    lemma_stretch_members(run@, i as int);
                    assert(edge_islands(run@)[i as int] == islands[i as int]@.map_values(
                        |i: usize| i as int,
                    ));
                    assert(here[i as int] == samples_of(
                        run@,
                        islands[i as int]@.map_values(|i: usize| i as int),
                    ));
                    assert(here[i as int].len() == islands[i as int].len());
                    lemma_none_missing(self@, found, 0, start + i);
                }
                match build_bond(self, &run, &islands[i], bonds.len(), strength) {
                    Ok(bond) => {
                        bonds.push(bond);
                    },
                    Err(e) => {
                        return Err(e);
                    },
                }
                i = i + 1;
            }
            from = from + run.len();
            assert(found.skip(bonds.len() as int) =~= left) by {
                assert(found.skip(start).skip(here.len() as int) =~= left);
                assert(found.skip(start).skip(here.len() as int) =~= found.skip(
                    start + here.len(),
                ));
            }
        }
        proof {
            assert(found.skip(bonds.len() as int).len() == 0);
            lemma_none_missing(self@, found, 0, found.len() as int);
            assert(bond_models(bonds@) =~= asset_bonds(self@, strength));
        }
        Ok(bonds)
    }
}

/// The stretches divide the samples: every place is in just one of them. A stretch is ordered by
/// edge, and two samples are in the same one just when a chain of touching edges leads from one to
/// the other. The stretches are ordered by their first edges.
pub proof fn lemma_islands(s: Seq<EdgeSample>)
    ensures
        separate(edge_islands(s)),
        forall|i: int| #[trigger] in_parts(edge_islands(s), i) <==> 0 <= i < s.len(),
        forall|p: int| 0 <= p < edge_islands(s).len() ==> in_order(#[trigger] edge_islands(s)[p], place_order(s)),
        forall|p: int, i: int, j: int|
            0 <= p < edge_islands(s).len() && #[trigger] edge_islands(s)[p].contains(i) && 0 <= j
                < s.len() ==> (#[trigger] edge_islands(s)[p].contains(j) <==> reaches(
                touching_places(s),
                i,
                j,
            )),
        forall|p: int, q: int|
            0 <= p <= q < edge_islands(s).len() ==> key_le(
                edge_key(s[(#[trigger] edge_islands(s)[p])[0]].edge),
                edge_key(s[(#[trigger] edge_islands(s)[q])[0]].edge),
            ),
{
    let rel = touching_places(s);
    let places = ordered_places(s);
    let parts = edge_islands(s);
    lemma_ordered_places(s);
    lemma_parts_partition(rel, places);
    lemma_parts_in_order(rel, places, place_order(s));
    assert(symmetric(rel));
    assert forall|p: int, i: int, j: int|
        0 <= p < parts.len() && #[trigger] parts[p].contains(i) && 0 <= j < s.len() implies (
    #[trigger] parts[p].contains(j) <==> reaches(rel, i, j)) by {
        lemma_parts_connected(rel, places, p, i, j);
    }
}

} // verus!
