//! How an asset is built from a description of its cells.

use crate::asset::{
    bond_models, chunk_models, has_node, node_models, nodes_ascending, AssetModel, BondModel,
    Chunk2D, ChunkModel, FxAsset, NodeModel, SupportNode2D,
};
use crate::bonding::{asset_bonds, lemma_ends_known, owners_known, BondStrength};
use crate::errors::ValidationError;
use crate::geometry::{origin, GridCoord, Vec2};
use crate::hash::{fnv_words, Fnva64, FNV_OFFSET};
use crate::hierarchy::{
    covers, exact_cover, hierarchy_error, listed, normalize_chunks, normalized,
    validate_chunk_hierarchy,
};
use crate::idmap::{ascending_ids, lemma_with_id, lookup, with_id, IdMap, IdSet};
use crate::ids::{ChunkId, FxAssetId, SupportNodeId};
use crate::occupancy::{lemma_coord_at, DenseOccupancy, OccupancyModel};
use crate::order::{key_of, lemma_sorted_permutation, sort_stable, sorted_by, Keyed, SortKey};
use crate::scalar::{at_most, Scalar, ONE_BITS};
use crate::soundness::{lemma_built_sound, sound};
use crate::validation::{asset_error, four_connected, validate_four_neighbor_connected};
use vstd::prelude::*;

verus! {

/// The bit pattern of `10.0`.
pub const TEN_BITS: u32 = 0x4120_0000;

/// How often a value occurs.
pub open spec fn occurrences(values: Seq<u16>, v: u16) -> nat
    decreases values.len(),
{
    if values.len() == 0 {
        0
    } else {
        occurrences(values.drop_last(), v) + if values.last() == v {
            1nat
        } else {
            0nat
        }
    }
}

/// No value occurs more often, and none that occurs as often is less.
pub open spec fn is_dominant(values: Seq<u16>, v: u16) -> bool {
    &&& values.contains(v)
    &&& forall|w: u16| #[trigger]
        values.contains(w) ==> occurrences(values, w) < occurrences(values, v) || (occurrences(
            values,
            w,
        ) == occurrences(values, v) && v <= w)
}

/// The most frequent value, the least of those that are equally frequent.
pub open spec fn dominant(values: Seq<u16>) -> Option<u16> {
    if values.len() == 0 {
        None
    } else {
        Some(choose|v: u16| is_dominant(values, v))
    }
}

fn count_value(values: &Vec<u16>, v: u16) -> (r: usize)
    ensures
        r == occurrences(values@, v),
{
    let mut n: usize = 0;
    let mut i: usize = 0;
    while i < values.len()
        invariant
            i <= values.len(),
            n <= i,
            n == occurrences(values@.take(i as int), v),
        decreases values.len() - i,
    {
        assert(values@.take(i + 1).drop_last() =~= values@.take(i as int));
        if values[i] == v {
            n = n + 1;
        }
        i = i + 1;
    }
    assert(values@.take(values.len() as int) =~= values@);
    n
}

/// The most frequent value.
pub fn dominant_value(values: &Vec<u16>) -> (r: Option<u16>)
    ensures
        r == dominant(values@),
{
    if values.len() == 0 {
        return None;
    }
    let mut best: u16 = values[0];
    let mut best_count: usize = count_value(values, best);
    let mut i: usize = 1;
    assert(values@.contains(values@[0]));
    while i < values.len()
        invariant
            1 <= i <= values.len(),
            values@.contains(best),
            best_count == occurrences(values@, best),
            forall|p: int|
                0 <= p < i ==> occurrences(values@, #[trigger] values@[p]) < best_count || (
                occurrences(values@, values@[p]) == best_count && best <= values@[p]),
        decreases values.len() - i,
    {
        let v = values[i];
        let count = count_value(values, v);
        assert(values@.contains(values@[i as int]));
        if count > best_count || (count == best_count && v < best) {
            best = v;
            best_count = count;
        }
        i = i + 1;
    }
    proof {
        assert forall|w: u16| #[trigger] values@.contains(w) implies occurrences(values@, w)
            < occurrences(values@, best) || (occurrences(values@, w) == occurrences(values@, best)
            && best <= w) by {
            let p = choose|p: int| 0 <= p < values@.len() && values@[p] == w;
            assert(occurrences(values@, values@[p]) <= best_count);
        }
        assert(is_dominant(values@, best));
        let other = choose|v: u16| is_dominant(values@, v);
        assert(is_dominant(values@, other));
        assert(values@.contains(other));
    }
    Some(best)
}

/// The direction of the material in a cell: its angle in fractions of a turn, and the unit
/// vector of that angle.
#[derive(Clone, Copy, Debug, PartialEq, Eq, Structural)]
pub struct CellOrientation {
    pub angle: u16,
    pub axis: Vec2,
}

/// The numbers that identify a node, in the order in which they are hashed.
pub open spec fn seed_words(
    id: SupportNodeId,
    voxels: Seq<GridCoord>,
    material_id: u16,
    orientation_summary: Option<u16>,
) -> Seq<u32> {
    seq![
        id.0,
        material_id as u32,
        match orientation_summary {
            Some(a) => a as u32,
            None => u32::MAX,
        },
    ] + coord_words(voxels)
}

/// The coordinates of cells as a list of numbers.
pub open spec fn coord_words(voxels: Seq<GridCoord>) -> Seq<u32>
    decreases voxels.len(),
{
    if voxels.len() == 0 {
        Seq::empty()
    } else {
        coord_words(voxels.drop_last()).push(voxels.last().x).push(voxels.last().y)
    }
}

/// The seed of a node: the hash of what identifies it.
pub open spec fn node_seed(
    id: SupportNodeId,
    voxels: Seq<GridCoord>,
    material_id: u16,
    orientation_summary: Option<u16>,
) -> u64 {
    fnv_words(FNV_OFFSET, seed_words(id, voxels, material_id, orientation_summary))
}

pub fn stable_node_seed(
    node_id: SupportNodeId,
    voxels: &Vec<GridCoord>,
    material_id: u16,
    orientation_summary: Option<u16>,
) -> (r: u64)
    ensures
        r == node_seed(node_id, voxels@, material_id, orientation_summary),
{
    let mut hasher = Fnva64 { state: FNV_OFFSET };
    let ghost e = Seq::<u32>::empty();
    let orientation: u32 = match orientation_summary {
        Some(a) => a as u32,
        None => u32::MAX,
    };
    assert(hasher.state == fnv_words(FNV_OFFSET, e));
    hasher.write_u32(node_id.0);
    hasher.write_u32(material_id as u32);
    hasher.write_u32(orientation);
    let ghost head = e.push(node_id.0).push(material_id as u32).push(orientation);
    let mut i: usize = 0;
    assert(head + coord_words(voxels@.take(0)) =~= head);
    while i < voxels.len()
        invariant
            i <= voxels.len(),
            hasher.state == fnv_words(FNV_OFFSET, head + coord_words(voxels@.take(i as int))),
        decreases voxels.len() - i,
    {
        let ghost before = head + coord_words(voxels@.take(i as int));
        hasher.write_u32(voxels[i].x);
        hasher.write_u32(voxels[i].y);
        proof {
            assert(voxels@.take(i + 1).drop_last() =~= voxels@.take(i as int));
            assert(before.push(voxels@[i as int].x).push(voxels@[i as int].y) =~= head
                + coord_words(voxels@.take(i + 1)));
        }
        i = i + 1;
    }
    proof {
        assert(voxels@.take(voxels.len() as int) =~= voxels@);
        assert(head + coord_words(voxels@) =~= seed_words(
            node_id,
            voxels@,
            material_id,
            orientation_summary,
        ));
    }
    hasher.finish()
}

/// What an asset is built from.
#[derive(Debug)]
pub struct FxAssetDesc {
    pub id: FxAssetId,
    pub voxel_size: Scalar,
    pub occupancy: DenseOccupancy,
    pub support_node_map: Vec<Option<SupportNodeId>>,
    pub authored_chunks: Option<Vec<Chunk2D>>,
    pub material_map: Option<Vec<u16>>,
    /// The angle of each cell together with its unit vector, which takes trigonometric
    /// functions to compute and is the caller's to give.
    pub orientation_map: Option<Vec<CellOrientation>>,
    pub default_bond_health: Scalar,
    pub default_tension_limit: Scalar,
    pub default_compression_limit: Scalar,
    pub default_shear_limit: Scalar,
}

pub ghost struct DescModel {
    pub id: FxAssetId,
    pub voxel_size: Scalar,
    pub occupancy: OccupancyModel,
    pub support_node_map: Seq<Option<SupportNodeId>>,
    pub authored_chunks: Option<Seq<ChunkModel>>,
    pub material_map: Option<Seq<u16>>,
    pub orientation_map: Option<Seq<CellOrientation>>,
    pub default_bond_health: Scalar,
    pub default_tension_limit: Scalar,
    pub default_compression_limit: Scalar,
    pub default_shear_limit: Scalar,
}

impl View for FxAssetDesc {
    type V = DescModel;

    open spec fn view(&self) -> DescModel {
        DescModel {
            id: self.id,
            voxel_size: self.voxel_size,
            occupancy: self.occupancy@,
            support_node_map: self.support_node_map@,
            authored_chunks: match self.authored_chunks {
                Some(c) => Some(chunk_models(c@)),
                None => None,
            },
            material_map: match self.material_map {
                Some(m) => Some(m@),
                None => None,
            },
            orientation_map: match self.orientation_map {
                Some(m) => Some(m@),
                None => None,
            },
            default_bond_health: self.default_bond_health,
            default_tension_limit: self.default_tension_limit,
            default_compression_limit: self.default_compression_limit,
            default_shear_limit: self.default_shear_limit,
        }
    }
}

impl FxAssetDesc {
    pub fn new(
        id: FxAssetId,
        voxel_size: Scalar,
        occupancy: DenseOccupancy,
        support_node_map: Vec<Option<SupportNodeId>>,
    ) -> (r: Self)
        ensures
            r@ == (DescModel {
                id,
                voxel_size,
                occupancy: occupancy@,
                support_node_map: support_node_map@,
                authored_chunks: None,
                material_map: None,
                orientation_map: None,
                default_bond_health: Scalar { bits: ONE_BITS },
                default_tension_limit: Scalar { bits: TEN_BITS },
                default_compression_limit: Scalar { bits: TEN_BITS },
                default_shear_limit: Scalar { bits: TEN_BITS },
            }),
    {
        FxAssetDesc {
            id,
            voxel_size,
            occupancy,
            support_node_map,
            authored_chunks: None,
            material_map: None,
            orientation_map: None,
            default_bond_health: Scalar { bits: ONE_BITS },
            default_tension_limit: Scalar { bits: TEN_BITS },
            default_compression_limit: Scalar { bits: TEN_BITS },
            default_shear_limit: Scalar { bits: TEN_BITS },
        }
    }
}

/// What is wrong with the sizes of the tables of a description.
pub open spec fn sizes_error(d: DescModel) -> Option<ValidationError> {
    let cells = d.occupancy.cells.len();
    if d.support_node_map.len() != cells {
        Some(
            ValidationError::GridSizeMismatch {
                expected: cells as usize,
                actual: d.support_node_map.len() as usize,
            },
        )
    } else if d.material_map is Some && d.material_map->0.len() != cells {
        Some(
            ValidationError::GridSizeMismatch {
                expected: cells as usize,
                actual: d.material_map->0.len() as usize,
            },
        )
    } else if d.orientation_map is Some && d.orientation_map->0.len() != cells {
        Some(
            ValidationError::GridSizeMismatch {
                expected: cells as usize,
                actual: d.orientation_map->0.len() as usize,
            },
        )
    } else {
        None
    }
}

/// The first cell, from place `p` on, that is occupied without a node or has a node without
/// being occupied.
pub open spec fn node_map_error(d: DescModel, p: int) -> Option<ValidationError>
    decreases d.occupancy.cells.len() - p,
{
    if p < 0 || p >= d.occupancy.cells.len() {
        None
    } else if d.occupancy.cells[p] && d.support_node_map[p] is None {
        Some(ValidationError::MissingSupportCoverage(d.occupancy.coord_at(p)))
    } else if !d.occupancy.cells[p] && d.support_node_map[p] is Some {
        Some(
            ValidationError::EmptyVoxelCovered {
                coord: d.occupancy.coord_at(p),
                node: d.support_node_map[p]->0,
            },
        )
    } else {
        node_map_error(d, p + 1)
    }
}

/// The nodes that the first `n` cells belong to, in ascending order.
pub open spec fn mapped_ids(map: Seq<Option<SupportNodeId>>, n: int) -> Seq<u32>
    decreases n,
{
    if n <= 0 {
        Seq::empty()
    } else {
        match map[n - 1] {
            Some(id) => with_id(mapped_ids(map, n - 1), id.0),
            None => mapped_ids(map, n - 1),
        }
    }
}

/// Those of the first `n` cells that belong to a node.
pub open spec fn cells_of(d: DescModel, id: u32, n: int) -> Seq<GridCoord>
    decreases n,
{
    if n <= 0 {
        Seq::empty()
    } else if d.support_node_map[n - 1] == Some(SupportNodeId(id)) {
        cells_of(d, id, n - 1).push(d.occupancy.coord_at(n - 1))
    } else {
        cells_of(d, id, n - 1)
    }
}

impl Keyed for GridCoord {
    open spec fn sort_key(&self) -> SortKey {
        SortKey { a: self.x as u64, b: self.y as u64, c: 0, d: 0, e: 0, f: 0 }
    }

    fn key(&self) -> (k: SortKey) {
        SortKey { a: self.x as u64, b: self.y as u64, c: 0, d: 0, e: 0, f: 0 }
    }
}

/// The voxels of a node, ordered by their coordinates.
pub open spec fn node_voxels(d: DescModel, id: u32) -> Seq<GridCoord> {
    sorted_by(cells_of(d, id, d.occupancy.cells.len() as int), key_of::<GridCoord>())
}

/// The values of a per-cell table at some cells.
pub open spec fn table_at(table: Seq<u16>, m: OccupancyModel, voxels: Seq<GridCoord>) -> Seq<u16> {
    Seq::new(voxels.len(), |i: int| table[m.place(voxels[i])])
}

pub open spec fn node_material(d: DescModel, voxels: Seq<GridCoord>) -> u16 {
    match d.material_map {
        Some(table) => match dominant(table_at(table, d.occupancy, voxels)) {
            Some(v) => v,
            None => 0,
        },
        None => 0,
    }
}

/// The angles of a table of orientations.
pub open spec fn angles_of(table: Seq<CellOrientation>) -> Seq<u16> {
    table.map_values(|o: CellOrientation| o.angle)
}

pub open spec fn node_orientation(d: DescModel, voxels: Seq<GridCoord>) -> Option<u16> {
    match d.orientation_map {
        Some(table) => dominant(table_at(angles_of(table), d.occupancy, voxels)),
        None => None,
    }
}

/// The unit vector given with the first of the voxels, from `i` on, that has the angle.
pub open spec fn axis_from(
    d: DescModel,
    table: Seq<CellOrientation>,
    voxels: Seq<GridCoord>,
    angle: u16,
    i: int,
) -> Vec2
    decreases voxels.len() - i,
{
    if i < 0 || i >= voxels.len() {
        origin()
    } else if table[d.occupancy.place(voxels[i])].angle == angle {
        table[d.occupancy.place(voxels[i])].axis
    } else {
        axis_from(d, table, voxels, angle, i + 1)
    }
}

/// The axis of a node: that of its dominant angle, or the first coordinate axis.
pub open spec fn node_axis(d: DescModel, voxels: Seq<GridCoord>) -> Vec2 {
    match node_orientation(d, voxels) {
        Some(angle) => axis_from(d, d.orientation_map->0, voxels, angle, 0),
        None => Vec2 { x: Scalar { bits: ONE_BITS }, y: Scalar { bits: 0 } },
    }
}

/// The node with an id, in the chunk with an id.
pub open spec fn built_node(d: DescModel, id: u32, chunk_id: ChunkId) -> NodeModel {
    let voxels = node_voxels(d, id);
    NodeModel {
        id: SupportNodeId(id),
        chunk_id,
        voxels,
        material_id: node_material(d, voxels),
        orientation_summary: node_orientation(d, voxels),
        anisotropy_axis: node_axis(d, voxels),
        stable_seed: node_seed(
            SupportNodeId(id),
            voxels,
            node_material(d, voxels),
            node_orientation(d, voxels),
        ),
    }
}

pub proof fn lemma_mapped_ids(map: Seq<Option<SupportNodeId>>, n: int)
    requires
        0 <= n <= map.len(),
    ensures
        ascending_ids(mapped_ids(map, n)),
        forall|id: u32| #[trigger]
            mapped_ids(map, n).contains(id) <==> exists|p: int|
                0 <= p < n && #[trigger] map[p] == Some(SupportNodeId(id)),
    decreases n,
{
    if n > 0 {
        lemma_mapped_ids(map, n - 1);
        let before = mapped_ids(map, n - 1);
        if map[n - 1] is Some {
            lemma_with_id(before, (map[n - 1]->0).0);
        }
        assert forall|id: u32| #[trigger] mapped_ids(map, n).contains(id) <==> exists|p: int|
            0 <= p < n && #[trigger] map[p] == Some(SupportNodeId(id)) by {
            assert(before.contains(id) <==> exists|p: int|
                0 <= p < n - 1 && #[trigger] map[p] == Some(SupportNodeId(id)));
            if before.contains(id) {
                let p = choose|p: int|
                    0 <= p < n - 1 && #[trigger] map[p] == Some(SupportNodeId(id));
                assert(map[p] == Some(SupportNodeId(id)));
            }
            if map[n - 1] is Some && (map[n - 1]->0).0 == id {
                assert(map[n - 1] == Some(SupportNodeId(id)));
            }
        }
    }
}

pub proof fn lemma_cells_of(d: DescModel, id: u32, n: int)
    requires
        d.occupancy.wf(),
        0 <= n <= d.occupancy.cells.len(),
    ensures
        forall|i: int|
            0 <= i < cells_of(d, id, n).len() ==> d.occupancy.has(
                #[trigger] cells_of(d, id, n)[i],
            ),
    decreases n,
{
    if n > 0 {
        lemma_cells_of(d, id, n - 1);
        lemma_coord_at(d.occupancy, n - 1);
        let before = cells_of(d, id, n - 1);
        assert forall|i: int| 0 <= i < cells_of(d, id, n).len() implies d.occupancy.has(
            #[trigger] cells_of(d, id, n)[i],
        ) by {
            if i < before.len() {
                assert(d.occupancy.has(before[i]));
            }
        }
    }
}

proof fn lemma_node_voxels(d: DescModel, id: u32)
    requires
        d.occupancy.wf(),
    ensures
        forall|i: int|
            0 <= i < node_voxels(d, id).len() ==> d.occupancy.has(#[trigger] node_voxels(d, id)[i]),
{
    let n = d.occupancy.cells.len() as int;
    let raw = cells_of(d, id, n);
    let v = node_voxels(d, id);
    lemma_cells_of(d, id, n);
    lemma_sorted_permutation(raw, key_of::<GridCoord>());
    raw.to_multiset_ensures();
    v.to_multiset_ensures();
    assert forall|i: int| 0 <= i < v.len() implies d.occupancy.has(#[trigger] v[i]) by {
        assert(v.contains(v[i]));
        assert(v.to_multiset().count(v[i]) > 0);
        assert(raw.contains(v[i]));
        let w = choose|w: int| 0 <= w < raw.len() && raw[w] == v[i];
        assert(d.occupancy.has(raw[w]));
    }
}

/// Collects the cells of a node.
fn collect_voxels(desc: &FxAssetDesc, id: u32) -> (r: Vec<GridCoord>)
    requires
        desc@.occupancy.wf(),
        desc@.support_node_map.len() == desc@.occupancy.cells.len(),
    ensures
        r@ == node_voxels(desc@, id),
{
    let mut voxels: Vec<GridCoord> = Vec::new();
    let mut p: usize = 0;
    while p < desc.support_node_map.len()
        invariant
            p <= desc.support_node_map.len(),
            desc@.occupancy.wf(),
            desc@.support_node_map.len() == desc@.occupancy.cells.len(),
            voxels@ == cells_of(desc@, id, p as int),
        decreases desc.support_node_map.len() - p,
    {
        let here = match desc.support_node_map[p] {
            Some(node) => node.0 == id,
            None => false,
        };
        if here {
            proof {
                lemma_coord_at(desc@.occupancy, p as int);
            }
            let w = desc.occupancy.width as usize;
            voxels.push(GridCoord::new((p % w) as u32, (p / w) as u32));
        }
        p = p + 1;
    }
    sort_stable(&mut voxels);
    voxels
}

/// The values of a table of materials at some cells.
fn materials_at(
    table: &Vec<u16>,
    occupancy: &DenseOccupancy,
    voxels: &Vec<GridCoord>,
) -> (r: Vec<u16>)
    requires
        occupancy@.wf(),
        table.len() == occupancy@.cells.len(),
        forall|i: int| 0 <= i < voxels.len() ==> occupancy@.has(#[trigger] voxels@[i]),
    ensures
        r@ == table_at(table@, occupancy@, voxels@),
{
    let mut values: Vec<u16> = Vec::new();
    let mut i: usize = 0;
    while i < voxels.len()
        invariant
            i <= voxels.len(),
            occupancy@.wf(),
            table.len() == occupancy@.cells.len(),
            forall|i: int| 0 <= i < voxels.len() ==> occupancy@.has(#[trigger] voxels@[i]),
            values@ == table_at(table@, occupancy@, voxels@.take(i as int)),
        decreases voxels.len() - i,
    {
        assert(occupancy@.has(voxels@[i as int]));
        values.push(table[occupancy.index(voxels[i])]);
        assert(values@ =~= table_at(table@, occupancy@, voxels@.take(i + 1)));
        i = i + 1;
    }
    assert(voxels@.take(voxels.len() as int) =~= voxels@);
    values
}

/// The most frequent material of some cells.
pub fn dominant_material(
    voxels: &Vec<GridCoord>,
    occupancy: &DenseOccupancy,
    material_map: &Option<Vec<u16>>,
) -> (r: u16)
    requires
        occupancy@.wf(),
        forall|i: int| 0 <= i < voxels.len() ==> occupancy@.has(#[trigger] voxels@[i]),
        material_map is Some ==> material_map->0.len() == occupancy@.cells.len(),
    ensures
        match *material_map {
            Some(table) => match dominant(table_at(table@, occupancy@, voxels@)) {
                Some(v) => r == v,
                None => r == 0,
            },
            None => r == 0,
        },
{
    match material_map {
        Some(table) => {
            let values = materials_at(table, occupancy, voxels);
            match dominant_value(&values) {
                Some(v) => v,
                None => 0,
            }
        },
        None => 0,
    }
}

/// The most frequent angle of some cells.
pub fn dominant_orientation(
    voxels: &Vec<GridCoord>,
    occupancy: &DenseOccupancy,
    orientation_map: &Option<Vec<CellOrientation>>,
) -> (r: Option<u16>)
    requires
        occupancy@.wf(),
        forall|i: int| 0 <= i < voxels.len() ==> occupancy@.has(#[trigger] voxels@[i]),
        orientation_map is Some ==> orientation_map->0.len() == occupancy@.cells.len(),
    ensures
        match *orientation_map {
            Some(table) => r == dominant(table_at(angles_of(table@), occupancy@, voxels@)),
            None => r is None,
        },
{
    match orientation_map {
        Some(table) => {
            let mut values: Vec<u16> = Vec::new();
            let mut i: usize = 0;
            while i < voxels.len()
                invariant
                    i <= voxels.len(),
                    occupancy@.wf(),
                    table.len() == occupancy@.cells.len(),
                    forall|i: int| 0 <= i < voxels.len() ==> occupancy@.has(#[trigger] voxels@[i]),
                    values@ == table_at(angles_of(table@), occupancy@, voxels@.take(i as int)),
                decreases voxels.len() - i,
            {
                assert(occupancy@.has(voxels@[i as int]));
                let p = occupancy.index(voxels[i]);
                assert(angles_of(table@)[p as int] == table@[p as int].angle);
                values.push(table[p].angle);
                assert(values@ =~= table_at(angles_of(table@), occupancy@, voxels@.take(i + 1)));
                i = i + 1;
            }
            assert(voxels@.take(voxels.len() as int) =~= voxels@);
            dominant_value(&values)
        },
        None => None,
    }
}

/// The axis of the dominant angle of some cells.
fn dominant_axis(desc: &FxAssetDesc, voxels: &Vec<GridCoord>, summary: Option<u16>) -> (r: Vec2)
    requires
        desc@.occupancy.wf(),
        forall|i: int| 0 <= i < voxels.len() ==> desc@.occupancy.has(#[trigger] voxels@[i]),
        desc@.orientation_map is Some ==> desc@.orientation_map->0.len()
            == desc@.occupancy.cells.len(),
        summary == node_orientation(desc@, voxels@),
    ensures
        r == node_axis(desc@, voxels@),
{
    match (&desc.orientation_map, summary) {
        (Some(table), Some(angle)) => {
            let mut i: usize = 0;
            while i < voxels.len()
                invariant
                    i <= voxels.len(),
                    desc@.occupancy.wf(),
                    table.len() == desc@.occupancy.cells.len(),
                    desc@.orientation_map == Some(table@),
                    node_orientation(desc@, voxels@) == Some(angle),
                    forall|i: int|
                        0 <= i < voxels.len() ==> desc@.occupancy.has(#[trigger] voxels@[i]),
                    axis_from(desc@, table@, voxels@, angle, 0) == axis_from(
                        desc@,
                        table@,
                        voxels@,
                        angle,
                        i as int,
                    ),
                decreases voxels.len() - i,
            {
                assert(desc@.occupancy.has(voxels@[i as int]));
                let here = table[desc.occupancy.index(voxels[i])];
                if here.angle == angle {
                    return here.axis;
                }
                i = i + 1;
            }
            Vec2::zero()
        },
        _ => Vec2 { x: Scalar { bits: ONE_BITS }, y: Scalar { bits: 0 } },
    }
}

/// Builds the node with an id from its voxels.
fn build_node(desc: &FxAssetDesc, id: u32, voxels: Vec<GridCoord>) -> (r: SupportNode2D)
    requires
        desc@.occupancy.wf(),
        sizes_error(desc@) is None,
        voxels@ == node_voxels(desc@, id),
    ensures
        r@ == built_node(desc@, id, ChunkId(id)),
{
    proof {
        lemma_node_voxels(desc@, id);
    }
    let material_id = dominant_material(&voxels, &desc.occupancy, &desc.material_map);
    let orientation_summary = dominant_orientation(
        &voxels,
        &desc.occupancy,
        &desc.orientation_map,
    );
    let anisotropy_axis = dominant_axis(desc, &voxels, orientation_summary);
    let stable_seed = stable_node_seed(
        SupportNodeId(id),
        &voxels,
        material_id,
        orientation_summary,
    );
    SupportNode2D {
        id: SupportNodeId(id),
        chunk_id: ChunkId(id),
        voxels,
        material_id,
        orientation_summary,
        anisotropy_axis,
        stable_seed,
    }
}

/// One chunk for each node.
pub open spec fn default_chunks(ids: Seq<u32>) -> Seq<ChunkModel> {
    Seq::new(
        ids.len(),
        |i: int|
            ChunkModel {
                id: ChunkId(ids[i]),
                support_nodes: seq![SupportNodeId(ids[i])],
                parent: None,
            },
    )
}

/// The nodes that a description speaks of, in ascending order.
pub open spec fn desc_ids(d: DescModel) -> Seq<u32> {
    mapped_ids(d.support_node_map, d.support_node_map.len() as int)
}

/// The authored chunks, or one chunk for each node.
pub open spec fn desc_chunks(d: DescModel) -> Seq<ChunkModel> {
    normalized(
        match d.authored_chunks {
            Some(chunks) => chunks,
            None => default_chunks(desc_ids(d)),
        },
    )
}

/// The chunk that lists the node.
pub open spec fn listing_chunk(chunks: Seq<ChunkModel>, node: u32) -> ChunkId {
    chunks[choose|c: int| listed(chunks, c, SupportNodeId(node))].id
}

/// The described asset before its bonds are found.
pub open spec fn unbonded_asset(d: DescModel) -> AssetModel {
    let ids = desc_ids(d);
    let chunks = desc_chunks(d);
    AssetModel {
        id: d.id,
        voxel_size: d.voxel_size,
        occupancy: d.occupancy,
        support_nodes: Seq::new(
            ids.len(),
            |i: int| built_node(d, ids[i], listing_chunk(chunks, ids[i])),
        ),
        chunks,
        internal_bonds: Seq::empty(),
        voxel_to_node: d.support_node_map,
    }
}

pub open spec fn desc_strength(d: DescModel) -> BondStrength {
    BondStrength {
        base_health: d.default_bond_health,
        tension_limit: d.default_tension_limit,
        compression_limit: d.default_compression_limit,
        shear_limit: d.default_shear_limit,
    }
}

/// The described asset.
pub open spec fn built_asset(d: DescModel) -> AssetModel {
    AssetModel {
        internal_bonds: asset_bonds(unbonded_asset(d), desc_strength(d)),
        ..unbonded_asset(d)
    }
}

/// Some node's voxels, among the nodes from `i` on, do not hang together.
pub open spec fn shape_error(d: DescModel, i: int) -> Option<ValidationError>
    decreases desc_ids(d).len() - i,
{
    if i < 0 || i >= desc_ids(d).len() {
        None
    } else if !four_connected(node_voxels(d, desc_ids(d)[i])) {
        Some(ValidationError::SupportNodeNotFourConnected(SupportNodeId(u32::MAX)))
    } else {
        shape_error(d, i + 1)
    }
}

/// What is wrong with a description: the first failing check.
pub open spec fn desc_error(d: DescModel) -> Option<ValidationError> {
    if at_most(d.voxel_size, Scalar { bits: 0 }) {
        Some(ValidationError::InvalidVoxelSize)
    } else {
        match sizes_error(d) {
            Some(e) => Some(e),
            None => match node_map_error(d, 0) {
                Some(e) => Some(e),
                None => match shape_error(d, 0) {
                    Some(e) => Some(e),
                    None => match hierarchy_error(desc_chunks(d), desc_ids(d)) {
                        Some(e) => Some(e),
                        None => asset_error(built_asset(d)),
                    },
                },
            },
        }
    }
}

/// Compares the sizes of the tables.
fn check_sizes(desc: &FxAssetDesc) -> (r: Option<ValidationError>)
    ensures
        r == sizes_error(desc@),
{
    let expected: usize = desc.occupancy.cells.len();
    if desc.support_node_map.len() != expected {
        return Some(
            ValidationError::GridSizeMismatch { expected, actual: desc.support_node_map.len() },
        );
    }
    if let Some(material_map) = &desc.material_map {
        if material_map.len() != expected {
            return Some(
                ValidationError::GridSizeMismatch { expected, actual: material_map.len() },
            );
        }
    }
    if let Some(orientation_map) = &desc.orientation_map {
        if orientation_map.len() != expected {
            return Some(
                ValidationError::GridSizeMismatch { expected, actual: orientation_map.len() },
            );
        }
    }
    None
}

/// Compares the node map with the occupied cells and gives the nodes of the map.
fn group_cells(desc: &FxAssetDesc) -> (r: Result<IdSet, ValidationError>)
    requires
        desc@.occupancy.wf(),
        sizes_error(desc@) is None,
    ensures
        match r {
            Ok(ids) => node_map_error(desc@, 0) is None && ids@ == desc_ids(desc@),
            Err(e) => node_map_error(desc@, 0) == Some(e),
        },
{
    let mut ids = IdSet::new();
    let mut p: usize = 0;
    assert(ids@ =~= mapped_ids(desc@.support_node_map, 0));
    while p < desc.occupancy.cells.len()
        invariant
            p <= desc.occupancy.cells.len(),
            desc@.occupancy.wf(),
            desc@.support_node_map.len() == desc@.occupancy.cells.len(),
            ids@ == mapped_ids(desc@.support_node_map, p as int),
            node_map_error(desc@, 0) == node_map_error(desc@, p as int),
        decreases desc.occupancy.cells.len() - p,
    {
        proof {
            lemma_coord_at(desc@.occupancy, p as int);
            lemma_mapped_ids(desc@.support_node_map, p as int);
        }
        let w = desc.occupancy.width as usize;
        let coord = GridCoord::new((p % w) as u32, (p / w) as u32);
        match (desc.occupancy.cells[p], desc.support_node_map[p]) {
            (true, Some(node)) => {
                let _ = ids.insert(node.0);
            },
            (true, None) => {
                return Err(ValidationError::MissingSupportCoverage(coord));
            },
            (false, Some(node)) => {
                return Err(ValidationError::EmptyVoxelCovered { coord, node });
            },
            (false, None) => {},
        }
        p = p + 1;
    }
    Ok(ids)
}

/// Builds the nodes, each in a chunk of its own.
fn build_nodes(desc: &FxAssetDesc, ids: &IdSet) -> (r: Result<Vec<SupportNode2D>, ValidationError>)
    requires
        desc@.occupancy.wf(),
        sizes_error(desc@) is None,
        ids@ == desc_ids(desc@),
    ensures
        match r {
            Ok(nodes) => {
                &&& shape_error(desc@, 0) is None
                &&& nodes.len() == ids@.len()
                &&& forall|i: int|
                    0 <= i < nodes.len() ==> (#[trigger] nodes[i])@ == built_node(
                        desc@,
                        ids@[i],
                        ChunkId(ids@[i]),
                    )
            },
            Err(e) => shape_error(desc@, 0) == Some(e),
        },
{
    let mut nodes: Vec<SupportNode2D> = Vec::new();
    let mut i: usize = 0;
    while i < ids.ids.len()
        invariant
            i <= ids.ids.len(),
            desc@.occupancy.wf(),
            sizes_error(desc@) is None,
            ids@ == desc_ids(desc@),
            shape_error(desc@, 0) == shape_error(desc@, i as int),
            nodes.len() == i,
            forall|k: int|
                0 <= k < i ==> (#[trigger] nodes[k])@ == built_node(
                    desc@,
                    ids@[k],
                    ChunkId(ids@[k]),
                ),
        decreases ids.ids.len() - i,
    {
        let voxels = collect_voxels(desc, ids.ids[i]);
        if let Err(e) = validate_four_neighbor_connected(&voxels) {
            return Err(e);
        }
        nodes.push(build_node(desc, ids.ids[i], voxels));
        i = i + 1;
    }
    Ok(nodes)
}

/// The authored chunks, or one chunk for each node, in order.
fn choose_chunks(desc: &FxAssetDesc, ids: &IdSet) -> (r: Vec<Chunk2D>)
    requires
        ids@ == desc_ids(desc@),
    ensures
        chunk_models(r@) == desc_chunks(desc@),
{
    let mut chunks: Vec<Chunk2D> = Vec::new();
    match &desc.authored_chunks {
        Some(authored) => {
            let mut i: usize = 0;
            while i < authored.len()
                invariant
                    i <= authored.len(),
                    chunks.len() == i,
                    forall|k: int| 0 <= k < i ==> (#[trigger] chunks[k])@ == authored[k]@,
                decreases authored.len() - i,
            {
                chunks.push(authored[i].clone());
                i = i + 1;
            }
            assert(chunk_models(chunks@) =~= chunk_models(authored@));
        },
        None => {
            let mut i: usize = 0;
            while i < ids.ids.len()
                invariant
                    i <= ids.ids.len(),
                    chunks.len() == i,
                    forall|k: int|
                        0 <= k < i ==> (#[trigger] chunks[k])@ == default_chunks(ids@)[k],
                decreases ids.ids.len() - i,
            {
                let mut nodes: Vec<SupportNodeId> = Vec::new();
                nodes.push(SupportNodeId(ids.ids[i]));
                assert(nodes@ =~= seq![SupportNodeId(ids@[i as int])]);
                chunks.push(
                    Chunk2D { id: ChunkId(ids.ids[i]), support_nodes: nodes, parent: None },
                );
                i = i + 1;
            }
            assert(chunk_models(chunks@) =~= default_chunks(ids@));
        },
    }
    normalize_chunks(&mut chunks);
    chunks
}

/// Enters into each node the chunk that lists it.
fn assign_chunks(
    desc: &FxAssetDesc,
    ids: &IdSet,
    nodes: Vec<SupportNode2D>,
    owner: &IdMap<ChunkId>,
) -> (r: Vec<SupportNode2D>)
    requires
        ids@ == desc_ids(desc@),
        nodes.len() == ids@.len(),
        forall|i: int|
            0 <= i < nodes.len() ==> (#[trigger] nodes[i])@ == built_node(
                desc@,
                ids@[i],
                ChunkId(ids@[i]),
            ),
        hierarchy_error(desc_chunks(desc@), ids@) is None,
        covers(desc_chunks(desc@), ids@, owner@),
    ensures
        node_models(r@) == unbonded_asset(desc@).support_nodes,
{
    let ghost chunks = desc_chunks(desc@);
    let mut assigned: Vec<SupportNode2D> = Vec::new();
    let mut i: usize = 0;
    while i < nodes.len()
        invariant
            i <= nodes.len(),
            ids@ == desc_ids(desc@),
            nodes.len() == ids@.len(),
            chunks == desc_chunks(desc@),
            forall|i: int|
                0 <= i < nodes.len() ==> (#[trigger] nodes[i])@ == built_node(
                    desc@,
                    ids@[i],
                    ChunkId(ids@[i]),
                ),
            hierarchy_error(chunks, ids@) is None,
            covers(chunks, ids@, owner@),
            assigned.len() == i,
            forall|k: int|
                0 <= k < i ==> (#[trigger] assigned[k])@ == built_node(
                    desc@,
                    ids@[k],
                    listing_chunk(chunks, ids@[k]),
                ),
        decreases nodes.len() - i,
    {
        let mut node = nodes[i].clone();
        let ghost id = ids@[i as int];
        proof {
            assert(nodes[i as int]@ == built_node(desc@, id, ChunkId(id)));
            assert(ids@.contains(id));
            assert(exact_cover(chunks, ids@));
            assert(exists|c: int| listed(chunks, c, SupportNodeId(id)));
            let c = choose|c: int| listed(chunks, c, SupportNodeId(id));
            assert(listed(chunks, c, SupportNodeId(id)));
            assert(lookup(owner@, SupportNodeId(id).0) == Some(chunks[c].id));
        }
        if let Some(chunk_id) = owner.get(node.id.0) {
            node.chunk_id = *chunk_id;
        }
        assigned.push(node);
        i = i + 1;
    }
    assert(node_models(assigned@) =~= unbonded_asset(desc@).support_nodes);
    assigned
}

/// The nodes of the described asset are in the order of their ids, and every cell's node is
/// among them.
pub proof fn lemma_unbonded_asset(d: DescModel)
    ensures
        nodes_ascending(unbonded_asset(d).support_nodes),
        owners_known(unbonded_asset(d)),
{
    let m = unbonded_asset(d);
    let map = d.support_node_map;
    let ids = desc_ids(d);
    lemma_mapped_ids(map, map.len() as int);
    assert forall|p: int|
        0 <= p < m.voxel_to_node.len() && (#[trigger] m.voxel_to_node[p]) is Some implies has_node(
        m.support_nodes,
        m.voxel_to_node[p]->0,
    ) by {
        let id = (m.voxel_to_node[p]->0).0;
        assert(map[p] == Some(SupportNodeId(id)));
        assert(ids.contains(id));
        let i = choose|i: int| 0 <= i < ids.len() && ids[i] == id;
        assert(m.support_nodes[i].id == SupportNodeId(id));
    }
}

impl FxAsset {
    /// Builds the described asset and checks it.
    pub fn from_desc(desc: FxAssetDesc) -> (r: Result<Self, ValidationError>)
        requires
            desc@.occupancy.wf(),
        ensures
            match r {
                Ok(asset) => desc_error(desc@) is None && asset@ == built_asset(desc@) && sound(
                    asset@,
                ),
                Err(e) => desc_error(desc@) == Some(e),
            },
    {
        if desc.voxel_size.is_at_most(Scalar { bits: 0 }) {
            return Err(ValidationError::InvalidVoxelSize);
        }
        if let Some(e) = check_sizes(&desc) {
            return Err(e);
        }
        let ids = match group_cells(&desc) {
            Ok(ids) => ids,
            Err(e) => {
                return Err(e);
            },
        };
        let nodes = match build_nodes(&desc, &ids) {
            Ok(nodes) => nodes,
            Err(e) => {
                return Err(e);
            },
        };
        let chunks = choose_chunks(&desc, &ids);
        proof {
            lemma_mapped_ids(desc@.support_node_map, desc@.support_node_map.len() as int);
        }
        let owner = match validate_chunk_hierarchy(&chunks, &ids) {
            Ok(owner) => owner,
            Err(e) => {
                return Err(e);
            },
        };
        let support_nodes = assign_chunks(&desc, &ids, nodes, &owner);
        let ghost d = desc@;
        let strength = BondStrength {
            base_health: desc.default_bond_health,
            tension_limit: desc.default_tension_limit,
            compression_limit: desc.default_compression_limit,
            shear_limit: desc.default_shear_limit,
        };
        let mut asset = FxAsset {
            id: desc.id,
            voxel_size: desc.voxel_size,
            occupancy: desc.occupancy,
            support_nodes,
            chunks,
            internal_bonds: Vec::new(),
            voxel_to_node: desc.support_node_map,
        };
        proof {
            assert(bond_models(asset.internal_bonds@) =~= Seq::<BondModel>::empty());
            assert(asset@ == unbonded_asset(d));
            lemma_unbonded_asset(d);
            lemma_ends_known(unbonded_asset(d));
        }
        asset.internal_bonds = asset.generate_internal_bonds(strength)?;
        assert(asset@ == built_asset(d));
        match asset.validate() {
            Ok(_) => {
                proof {
                    lemma_built_sound(d);
                }
                Ok(asset)
            },
            Err(e) => Err(e),
        }
    }
}

} // verus!
