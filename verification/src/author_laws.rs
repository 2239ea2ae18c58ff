//! What the nodes of a described asset are.

use crate::accept_laws::{
    is_fit_asset, is_fit_hierarchy, lemma_assets_accepted, lemma_hierarchies_accepted,
};
use crate::authoring::{
    angles_of, axis_from, built_asset, cells_of, coord_words, desc_chunks, desc_error, desc_ids,
    dominant, is_dominant, node_axis, node_map_error, node_material, node_orientation, node_seed,
    node_voxels, occurrences, seed_words, shape_error, table_at, CellOrientation, DescModel,
};
use crate::geometry::{GridCoord, Vec2};
use crate::hash::FNV_OFFSET;
use crate::hash_laws::{differ_at, differ_once, lemma_words_differ};
use crate::host::pixels::lemma_push_contains;
use crate::ids::SupportNodeId;
use crate::occupancy::{lemma_coord_at, lemma_place, OccupancyModel};
use crate::order::{key_of, lemma_sorted_permutation};
use crate::scalar::{at_most, Scalar};
use crate::split_laws::well_mapped;
use crate::validation::four_connected;
use vstd::prelude::*;

verus! {

/// How many of the cells have a value in a table.
pub open spec fn share_of(table: Seq<u16>, m: OccupancyModel, voxels: Seq<GridCoord>, v: u16) -> nat {
    voxels.filter(|c: GridCoord| table[m.place(c)] == v).len()
}

proof fn lemma_share(table: Seq<u16>, m: OccupancyModel, voxels: Seq<GridCoord>, v: u16)
    ensures
        occurrences(table_at(table, m, voxels), v) == share_of(table, m, voxels, v),
    decreases voxels.len(),
{
    reveal(Seq::filter);
    let values = table_at(table, m, voxels);
    if voxels.len() > 0 {
        let rest = voxels.drop_last();
        lemma_share(table, m, rest, v);
        assert(values.drop_last() =~= table_at(table, m, rest));
        assert(values.last() == table[m.place(voxels.last())]);
    }
}

/// Among values there is always one that is dominant.
proof fn lemma_dominant_upto(values: Seq<u16>, n: int) -> (i: int)
    requires
        0 < n <= values.len(),
    ensures
        0 <= i < n,
        forall|j: int|
            0 <= j < n ==> occurrences(values, #[trigger] values[j]) < occurrences(
                values,
                values[i],
            ) || (occurrences(values, values[j]) == occurrences(values, values[i]) && values[i]
                <= values[j]),
    decreases n,
{
    if n == 1 {
        0
    } else {
        let i = lemma_dominant_upto(values, n - 1);
        let a = values[i];
        let b = values[n - 1];
        if occurrences(values, b) > occurrences(values, a) || (occurrences(values, b)
            == occurrences(values, a) && b < a) {
            n - 1
        } else {
            i
        }
    }
}

proof fn lemma_dominant(values: Seq<u16>)
    requires
        values.len() > 0,
    ensures
        dominant(values) is Some,
        is_dominant(values, dominant(values)->0),
{
    let i = lemma_dominant_upto(values, values.len() as int);
    assert forall|w: u16| #[trigger] values.contains(w) implies occurrences(values, w)
        < occurrences(values, values[i]) || (occurrences(values, w) == occurrences(
        values,
        values[i],
    ) && values[i] <= w) by {
        let j = choose|j: int| 0 <= j < values.len() && values[j] == w;
        assert(values[j] == w);
    }
    assert(is_dominant(values, values[i]));
}

proof fn lemma_absent(values: Seq<u16>, v: u16)
    ensures
        values.contains(v) <==> occurrences(values, v) > 0,
    decreases values.len(),
{
    if values.len() > 0 {
        let rest = values.drop_last();
        lemma_absent(rest, v);
        if values.contains(v) && values.last() != v {
            let i = choose|i: int| 0 <= i < values.len() && values[i] == v;
            assert(rest[i] == v);
        }
        if rest.contains(v) {
            let i = choose|i: int| 0 <= i < rest.len() && rest[i] == v;
            assert(values[i] == v);
        }
        if values.last() == v {
            assert(values[values.len() - 1] == v);
        }
    }
}

/// A node is of the material that most of its cells are of; where several are as frequent, of the
/// one with the least number.
pub proof fn lemma_material_of_most_cells(d: DescModel, voxels: Seq<GridCoord>, other: u16)
    requires
        d.material_map is Some,
        voxels.len() > 0,
    ensures
        ({
            let table = d.material_map->0;
            let own = node_material(d, voxels);
            &&& share_of(table, d.occupancy, voxels, own) > 0
            &&& share_of(table, d.occupancy, voxels, other) <= share_of(
                table,
                d.occupancy,
                voxels,
                own,
            )
            &&& share_of(table, d.occupancy, voxels, other) == share_of(
                table,
                d.occupancy,
                voxels,
                own,
            ) ==> own <= other
        }),
{
    let table = d.material_map->0;
    let values = table_at(table, d.occupancy, voxels);
    let own = node_material(d, voxels);
    lemma_dominant(values);
    lemma_share(table, d.occupancy, voxels, own);
    lemma_share(table, d.occupancy, voxels, other);
    lemma_absent(values, own);
    lemma_absent(values, other);
}

/// The direction of a node is that of most of its cells; its axis is the one that goes with it at
/// the first cell that has it. A node without directions has the first coordinate axis.
pub proof fn lemma_axis_of_most_cells(d: DescModel, voxels: Seq<GridCoord>, other: u16)
    requires
        voxels.len() > 0,
    ensures
        d.orientation_map is None ==> node_orientation(d, voxels) is None && node_axis(d, voxels)
            == (Vec2 { x: Scalar { bits: 0x3f80_0000 }, y: Scalar { bits: 0 } }),
        d.orientation_map is Some ==> {
            let table = d.orientation_map->0;
            let angles = Seq::new(table.len(), |i: int| table[i].angle);
            let own = node_orientation(d, voxels)->0;
            &&& node_orientation(d, voxels) is Some
            &&& share_of(angles, d.occupancy, voxels, other) <= share_of(
                angles,
                d.occupancy,
                voxels,
                own,
            )
            &&& share_of(angles, d.occupancy, voxels, other) == share_of(
                angles,
                d.occupancy,
                voxels,
                own,
            ) ==> own <= other
            &&& (forall|i: int|
                0 <= i < voxels.len() ==> 0 <= d.occupancy.place(#[trigger] voxels[i])
                    < table.len()) ==> exists|i: int| #[trigger]
                has_first(d, table, voxels, own, i) && node_axis(d, voxels)
                    == table[d.occupancy.place(voxels[i])].axis
        },
{
    if d.orientation_map is Some {
        let table = d.orientation_map->0;
        let angles = Seq::new(table.len(), |i: int| table[i].angle);
        assert(angles_of(table) =~= angles);
        let values = table_at(angles, d.occupancy, voxels);
        let own = node_orientation(d, voxels)->0;
        lemma_dominant(values);
        lemma_share(angles, d.occupancy, voxels, own);
        lemma_share(angles, d.occupancy, voxels, other);
        lemma_absent(values, own);
        lemma_absent(values, other);
        if forall|i: int|
            0 <= i < voxels.len() ==> 0 <= d.occupancy.place(#[trigger] voxels[i]) < table.len() {
            let k = choose|k: int| 0 <= k < values.len() && values[k] == own;
            assert(0 <= d.occupancy.place(voxels[k]) < table.len());
            assert(table[d.occupancy.place(voxels[k])].angle == own);
            let i = lemma_axis_from(d, table, voxels, own, 0, k);
            assert(has_first(d, table, voxels, own, i));
        }
    }
}

/// The cell is the first one that has the direction.
pub open spec fn has_first(
    d: DescModel,
    table: Seq<CellOrientation>,
    voxels: Seq<GridCoord>,
    angle: u16,
    i: int,
) -> bool {
    &&& 0 <= i < voxels.len()
    &&& table[d.occupancy.place(voxels[i])].angle == angle
    &&& forall|j: int|
        0 <= j < i ==> table[d.occupancy.place(#[trigger] voxels[j])].angle != angle
}

proof fn lemma_axis_from(
    d: DescModel,
    table: Seq<CellOrientation>,
    voxels: Seq<GridCoord>,
    angle: u16,
    from: int,
    k: int,
) -> (i: int)
    requires
        0 <= from <= k < voxels.len(),
        table[d.occupancy.place(voxels[k])].angle == angle,
        forall|j: int|
            0 <= j < from ==> table[d.occupancy.place(#[trigger] voxels[j])].angle != angle,
    ensures
        has_first(d, table, voxels, angle, i),
        axis_from(d, table, voxels, angle, from) == table[d.occupancy.place(voxels[i])].axis,
    decreases k - from,
{
    if table[d.occupancy.place(voxels[from])].angle == angle {
        from
    } else {
        lemma_axis_from(d, table, voxels, angle, from + 1, k)
    }
}

/// A node consists of just the cells that are mapped to it.
pub proof fn lemma_cells_of_node(d: DescModel, id: u32, c: GridCoord)
    requires
        d.occupancy.wf(),
        d.occupancy.has(c),
        d.support_node_map.len() == d.occupancy.cells.len(),
    ensures
        node_voxels(d, id).contains(c) <==> d.support_node_map[d.occupancy.place(c)] == Some(
            SupportNodeId(id),
        ),
{
    let n = d.occupancy.cells.len() as int;
    let raw = cells_of(d, id, n);
    let sorted = node_voxels(d, id);
    lemma_place(d.occupancy, c);
    lemma_cells_upto(d, id, n, c);
    lemma_sorted_permutation(raw, key_of::<GridCoord>());
    raw.to_multiset_ensures();
    sorted.to_multiset_ensures();
    assert(raw.contains(c) <==> raw.to_multiset().count(c) > 0);
    assert(sorted.contains(c) <==> sorted.to_multiset().count(c) > 0);
}

proof fn lemma_cells_upto(d: DescModel, id: u32, n: int, c: GridCoord)
    requires
        d.occupancy.wf(),
        d.occupancy.has(c),
        0 <= n <= d.occupancy.cells.len(),
    ensures
        cells_of(d, id, n).contains(c) <==> d.occupancy.place(c) < n
            && d.support_node_map[d.occupancy.place(c)] == Some(SupportNodeId(id)),
    decreases n,
{
    lemma_place(d.occupancy, c);
    if n > 0 {
        lemma_cells_upto(d, id, n - 1, c);
        lemma_coord_at(d.occupancy, n - 1);
        let before = cells_of(d, id, n - 1);
        let x = d.occupancy.coord_at(n - 1);
        if d.support_node_map[n - 1] == Some(SupportNodeId(id)) {
            lemma_push_contains(before, x, c);
        }
    }
}

/// The id of a node, its material and its direction are each part of its seed.
pub proof fn lemma_seed_tells(
    voxels: Seq<GridCoord>,
    id: SupportNodeId,
    material: u16,
    angle: Option<u16>,
    id2: SupportNodeId,
    material2: u16,
    angle2: Option<u16>,
)
    requires
        ({
            ||| id != id2 && material == material2 && angle == angle2
            ||| id == id2 && material != material2 && angle == angle2
            ||| id == id2 && material == material2 && angle != angle2
        }),
    ensures
        node_seed(id, voxels, material, angle) != node_seed(id2, voxels, material2, angle2),
{
    let a = seed_words(id, voxels, material, angle);
    let b = seed_words(id2, voxels, material2, angle2);
    let k = if id != id2 {
        0int
    } else if material != material2 {
        1
    } else {
        2
    };
    assert(id != id2 ==> id.0 != id2.0);
    assert forall|j: int| 3 <= j < a.len() implies #[trigger] a[j] == b[j] by {
        assert(a[j] == coord_words(voxels)[j - 3] && b[j] == coord_words(voxels)[j - 3]);
    }
    assert(differ_at(a, b, k));
    assert(differ_once(a, b));
    lemma_words_differ(FNV_OFFSET, a, b);
}

proof fn lemma_cells_distinct(d: DescModel, id: u32, n: int)
    requires
        d.occupancy.wf(),
        0 <= n <= d.occupancy.cells.len(),
    ensures
        cells_of(d, id, n).no_duplicates(),
        forall|c: GridCoord| #[trigger]
            cells_of(d, id, n).contains(c) ==> d.occupancy.has(c) && d.occupancy.place(c) < n,
    decreases n,
{
    if n > 0 {
        lemma_cells_distinct(d, id, n - 1);
        lemma_coord_at(d.occupancy, n - 1);
        let before = cells_of(d, id, n - 1);
        let x = d.occupancy.coord_at(n - 1);
        assert(!before.contains(x));
        assert forall|c: GridCoord| #[trigger] before.push(x).contains(c) <==> before.contains(c)
            || c == x by {
            lemma_push_contains(before, x, c);
        }
        let after = before.push(x);
        assert forall|i: int, j: int|
            0 <= i < after.len() && 0 <= j < after.len() && i != j implies after[i] != after[j] by {
            if i == before.len() {
                assert(before.contains(before[j]));
            } else if j == before.len() {
                assert(before.contains(before[i]));
            }
        }
    }
}

/// In an asset that is built from a description every node lists just the cells that belong to it,
/// each of them once.
pub proof fn lemma_built_is_well_mapped(d: DescModel)
    requires
        d.occupancy.wf(),
        d.support_node_map.len() == d.occupancy.cells.len(),
    ensures
        well_mapped(built_asset(d)),
{
    let m = built_asset(d);
    let n = d.occupancy.cells.len() as int;
    assert forall|i: int| 0 <= i < m.support_nodes.len() implies {
        let node = #[trigger] m.support_nodes[i];
        &&& node.voxels.no_duplicates()
        &&& forall|c: GridCoord| #[trigger]
            node.voxels.contains(c) <==> m.owner_of_cell(c) == Some(node.id)
    } by {
        let node = m.support_nodes[i];
        let id = desc_ids(d)[i];
        assert(node.voxels == node_voxels(d, id));
        assert(node.id == SupportNodeId(id));
        let raw = cells_of(d, id, n);
        let sorted = node_voxels(d, id);
        lemma_cells_distinct(d, id, n);
        lemma_sorted_permutation(raw, key_of::<GridCoord>());
        raw.to_multiset_ensures();
        sorted.to_multiset_ensures();
        raw.lemma_multiset_has_no_duplicates();
        sorted.lemma_multiset_has_no_duplicates_conv();
        assert forall|c: GridCoord| #[trigger] node.voxels.contains(c) <==> m.owner_of_cell(c)
            == Some(node.id) by {
            assert(raw.contains(c) <==> raw.to_multiset().count(c) > 0);
            assert(sorted.contains(c) <==> sorted.to_multiset().count(c) > 0);
            if d.occupancy.has(c) {
                lemma_cells_of_node(d, id, c);
            }
        }
    }
}

proof fn lemma_map_fits(d: DescModel, p: int)
    requires
        0 <= p <= d.occupancy.cells.len(),
    ensures
        node_map_error(d, p) is None <==> forall|q: int|
            p <= q < d.occupancy.cells.len() ==> (#[trigger] d.occupancy.cells[q]
                <==> d.support_node_map[q] is Some),
    decreases d.occupancy.cells.len() - p,
{
    if p < d.occupancy.cells.len() {
        lemma_map_fits(d, p + 1);
        if forall|q: int|
            p <= q < d.occupancy.cells.len() ==> (#[trigger] d.occupancy.cells[q]
                <==> d.support_node_map[q] is Some) {
            assert(d.occupancy.cells[p] <==> d.support_node_map[p] is Some);
        }
    }
}

proof fn lemma_shapes_fit(d: DescModel, i: int)
    requires
        0 <= i <= desc_ids(d).len(),
    ensures
        shape_error(d, i) is None <==> forall|k: int|
            i <= k < desc_ids(d).len() ==> four_connected(
                node_voxels(d, #[trigger] desc_ids(d)[k]),
            ),
    decreases desc_ids(d).len() - i,
{
    if i < desc_ids(d).len() {
        lemma_shapes_fit(d, i + 1);
        if forall|k: int|
            i <= k < desc_ids(d).len() ==> four_connected(
                node_voxels(d, #[trigger] desc_ids(d)[k]),
            ) {
            assert(four_connected(node_voxels(d, desc_ids(d)[i])));
        }
    }
}

/// A description is fit when its voxels have a size, its tables have an entry for every cell, just
/// the occupied cells belong to nodes, the cells of every node hang together, and what is built
/// from it is fit.
pub open spec fn is_fit_description(d: DescModel) -> bool {
    let cells = d.occupancy.cells.len();
    &&& !at_most(d.voxel_size, Scalar { bits: 0 })
    &&& d.support_node_map.len() == cells
    &&& d.material_map is Some ==> d.material_map->0.len() == cells
    &&& d.orientation_map is Some ==> d.orientation_map->0.len() == cells
    &&& forall|q: int|
        0 <= q < cells ==> (#[trigger] d.occupancy.cells[q] <==> d.support_node_map[q] is Some)
    &&& forall|k: int|
        0 <= k < desc_ids(d).len() ==> four_connected(node_voxels(d, #[trigger] desc_ids(d)[k]))
    &&& is_fit_hierarchy(desc_chunks(d), desc_ids(d))
    &&& is_fit_asset(built_asset(d))
}

/// A description is accepted just when it is fit.
pub proof fn lemma_descriptions_accepted(d: DescModel)
    requires
        built_asset(d).internal_bonds.len() <= u32::MAX,
    ensures
        desc_error(d) is None <==> is_fit_description(d),
{
    lemma_map_fits(d, 0);
    lemma_shapes_fit(d, 0);
    lemma_hierarchies_accepted(desc_chunks(d), desc_ids(d));
    lemma_assets_accepted(built_asset(d));
}

} // verus!
