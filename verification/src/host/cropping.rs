//! Cutting an actor out of the grid of its body.

use crate::actor::lemma_bounds_tight;
use crate::geometry::{GridAabb, GridCoord, Vec2};
use crate::host::cells::{
    bit_of, cells_of_words, filled, is_marked, marked, word_count, words_for, VoxelAuthoringInput,
};
use crate::host::pixels::{
    actor_bounds, actor_cells, bounds_of_cells, centered_origin, coords_of, lemma_actor_cells,
    lemma_place_fits, pixel_shape_local_origin_for_com, ActorCell, VoxelRuntime,
};
use crate::idmap::lookup;
use crate::ids::FxActorId;
use crate::scalar::{difference, of_integer, Scalar};
use vstd::prelude::*;

verus! {

/// An actor in the least grid around its cells.
#[derive(Debug)]
pub struct CroppedActor {
    pub source_min_x: i32,
    pub source_min_y: i32,
    pub source_max_x: i32,
    pub source_max_y: i32,
    /// The places that the cells have in the grid of the body.
    pub source_cells: Vec<i32>,
    pub child_width: i32,
    pub child_height: i32,
    pub child_pixel_size: Scalar,
    pub child_local_origin: Vec2,
    pub child_occupancy_words: Vec<u64>,
    pub child_material_ids: Vec<u16>,
}

/// A number kept within the range of a signed one.
pub open spec fn signed(n: int) -> i32 {
    if n < i32::MAX {
        n as i32
    } else {
        i32::MAX
    }
}

pub(crate) fn to_signed(n: u64) -> (r: i32)
    ensures
        r == signed(n as int),
{
    if n < i32::MAX as u64 {
        n as i32
    } else {
        i32::MAX
    }
}

/// The width of a rectangle.
pub open spec fn box_width(b: GridAabb) -> int {
    b.max.x - b.min.x + 1
}

/// The height of a rectangle.
pub open spec fn box_height(b: GridAabb) -> int {
    b.max.y - b.min.y + 1
}

/// The cell lies in the rectangle.
pub open spec fn in_box(b: GridAabb, c: GridCoord) -> bool {
    b.min.x <= c.x <= b.max.x && b.min.y <= c.y <= b.max.y
}

/// The place of a cell in the row-by-row order of a rectangle.
pub open spec fn box_place(b: GridAabb, c: GridCoord) -> int {
    (c.y - b.min.y) * box_width(b) + (c.x - b.min.x)
}

/// The last one of the first `n` cells that has a place of the rectangle.
pub open spec fn last_on(cells: Seq<ActorCell>, b: GridAabb, place: int, n: int) -> Option<int>
    decreases n,
{
    if n <= 0 {
        None
    } else if box_place(b, cells[n - 1].coord) == place {
        Some(n - 1)
    } else {
        last_on(cells, b, place, n - 1)
    }
}

/// The material of a cell: the one that the host gives for its place, else its own.
pub open spec fn material_of(cell: ActorCell, material_ids: Seq<u16>) -> u16 {
    if cell.index < material_ids.len() {
        material_ids[cell.index as int]
    } else {
        cell.material
    }
}

/// The material at a place of the rectangle, zero where there is no cell.
pub open spec fn material_on(
    cells: Seq<ActorCell>,
    b: GridAabb,
    material_ids: Seq<u16>,
    place: int,
    n: int,
) -> u16 {
    match last_on(cells, b, place, n) {
        Some(k) => material_of(cells[k], material_ids),
        None => 0,
    }
}

/// The words mark just the places of the first `n` cells.
pub open spec fn words_mark(words: Seq<u64>, cells: Seq<ActorCell>, b: GridAabb, n: int) -> bool {
    forall|i: int| 0 <= i ==> (#[trigger] marked(words, i) <==> last_on(cells, b, i, n) is Some)
}

/// What is cut out of the grid: the cells of the actor in the least rectangle around them.
pub open spec fn is_cropped(
    crop: CroppedActor,
    runtime: VoxelRuntime,
    actor: FxActorId,
    material_ids: Seq<u16>,
) -> bool {
    let cells = runtime.cells_of_actor(actor)->0;
    let n = cells.len() as int;
    let b = bounds_of_cells(cells)->0;
    let count = box_width(b) * box_height(b);
    let com = (lookup(runtime.family@.actors, actor.0)->0).local_com;
    let size = runtime.family@.asset.voxel_size;
    &&& crop.source_min_x == signed(b.min.x as int)
    &&& crop.source_min_y == signed(b.min.y as int)
    &&& crop.source_max_x == signed(b.max.x as int)
    &&& crop.source_max_y == signed(b.max.y as int)
    &&& crop.source_cells@ == Seq::new(cells.len(), |i: int| signed(cells[i].index as int))
    &&& crop.child_width == signed(box_width(b))
    &&& crop.child_height == signed(box_height(b))
    &&& crop.child_pixel_size == size
    &&& crop.child_local_origin == centered_origin(
        box_width(b) as u32,
        box_height(b) as u32,
        size,
        Vec2 {
            x: difference(com.x, of_integer(b.min.x as int)),
            y: difference(com.y, of_integer(b.min.y as int)),
        },
    )
    &&& crop.child_occupancy_words@.len() == word_count(count)
    &&& words_mark(crop.child_occupancy_words@, cells, b, n)
    &&& crop.child_material_ids@ == Seq::new(
        count as nat,
        |i: int| material_on(cells, b, material_ids, i, n),
    )
}

/// Setting a bit leaves the other bits as they are.
proof fn lemma_set_bit(word: u64, bit: u64, other: u64)
    requires
        bit < 64,
        other < 64,
    ensures
        bit_of(word | (1u64 << bit), other as int) == (bit_of(word, other as int) || bit == other),
{
    assert((((word | (1u64 << bit)) >> other) & 1 != 0) == ((word >> other) & 1 != 0 || bit
        == other)) by (bit_vector)
        requires
            bit < 64,
            other < 64,
    ;
}

/// Marking a cell leaves the other cells as they are.
proof fn lemma_mark(words: Seq<u64>, cell: int, other: int)
    requires
        0 <= cell < words.len() * 64,
        0 <= other,
    ensures
        marked(
            words.update(cell / 64, words[cell / 64] | (1u64 << ((cell % 64) as u64))),
            other,
        ) == (marked(words, other) || other == cell),
{
    if other / 64 == cell / 64 {
        lemma_set_bit(words[cell / 64], (cell % 64) as u64, (other % 64) as u64);
    }
}

/// No cell is marked in empty words.
proof fn lemma_unmarked(words: Seq<u64>, cell: int)
    requires
        0 <= cell,
        forall|i: int| 0 <= i < words.len() ==> words[i] == 0,
    ensures
        !marked(words, cell),
{
    let bit = (cell % 64) as u64;
    assert((0u64 >> bit) & 1 == 0) by (bit_vector);
}

/// The place of a cell within a rectangle of the grid.
proof fn lemma_box_place(b: GridAabb, c: GridCoord, width: int, height: int)
    requires
        in_box(b, c),
        b.max.x < width,
        b.max.y < height,
    ensures
        0 <= (c.y - b.min.y) * box_width(b),
        0 <= box_place(b, c) < box_width(b) * box_height(b),
        0 < box_width(b) * box_height(b) <= width * height,
{
    let w = box_width(b);
    let h = box_height(b);
    let y = c.y - b.min.y;
    let x = c.x - b.min.x;
    assert(0 <= y * w && y * w + x < w * h && 0 < w * h) by (nonlinear_arith)
        requires
            0 <= x < w,
            0 <= y < h,
    ;
    assert(w * h <= width * height) by (nonlinear_arith)
        requires
            0 < w <= width,
            0 < h <= height,
    ;
}

/// Cuts an actor out of the grid of its body.
pub fn build_cropped_actor_payload(
    runtime: &VoxelRuntime,
    actor_id: FxActorId,
    material_ids: &[u16],
) -> (r: Option<CroppedActor>)
    requires
        runtime.wf(),
    ensures
        match r {
            Some(crop) => is_cropped(crop, *runtime, actor_id, material_ids@)
                && runtime.cells_of_actor(actor_id) is Some && runtime.cells_of_actor(
                actor_id,
            )->0.len() > 0,
            None => runtime.cells_of_actor(actor_id) is None || runtime.cells_of_actor(
                actor_id,
            )->0.len() == 0,
        },
{
    let cells = actor_cells(runtime, actor_id)?;
    let bounds = actor_bounds(cells.as_slice())?;
    let actor = runtime.family.actor(actor_id)?;
    let asset = &runtime.family.asset;
    let ghost grid = asset@.occupancy;
    let ghost all = cells@;
    proof {
        lemma_bounds_tight(coords_of(all), all.len() as int);
        assert forall|i: int| 0 <= i < all.len() implies in_box(bounds, (#[trigger] all[i]).coord)
            && grid.has(all[i].coord) by {
            assert(coords_of(all)[i] == all[i].coord);
            lemma_actor_cells(*runtime, actor_id, all[i]);
        }
        let i3 = choose|i: int|
            0 <= i < all.len() && (#[trigger] coords_of(all)[i]).x == bounds.max.x;
        let i4 = choose|i: int|
            0 <= i < all.len() && (#[trigger] coords_of(all)[i]).y == bounds.max.y;
        assert(all[i3].coord.x == bounds.max.x);
        assert(all[i4].coord.y == bounds.max.y);
        lemma_box_place(bounds, all[0].coord, grid.width as int, grid.height as int);
        assert(runtime.occupancy.len() <= usize::MAX);
    }
    let width: u32 = bounds.max.x - bounds.min.x + 1;
    let height: u32 = bounds.max.y - bounds.min.y + 1;
    let count: usize = width as usize * height as usize;
    let mut words: Vec<u64> = filled(0u64, words_for(count));
    let mut materials: Vec<u16> = filled(0u16, count);
    let mut source_cells: Vec<i32> = Vec::new();
    proof {
        assert forall|i: int| 0 <= i implies !(#[trigger] marked(words@, i)) by {
            lemma_unmarked(words@, i);
        }
    }
    let mut i: usize = 0;
    while i < cells.len()
        invariant
            i <= cells.len(),
            cells@ == all,
            width == box_width(bounds),
            height == box_height(bounds),
            count == width * height,
            grid.width * grid.height <= usize::MAX,
            bounds.max.x < grid.width,
            bounds.max.y < grid.height,
            forall|k: int|
                0 <= k < all.len() ==> in_box(bounds, (#[trigger] all[k]).coord) && grid.has(
                    all[k].coord,
                ),
            words@.len() == word_count(count as int),
            materials@.len() == count,
            words_mark(words@, all, bounds, i as int),
            forall|p: int|
                0 <= p < count ==> #[trigger] materials@[p] == material_on(
                    all,
                    bounds,
                    material_ids@,
                    p,
                    i as int,
                ),
            source_cells@ =~= Seq::new(i as nat, |k: int| signed(all[k].index as int)),
        decreases cells.len() - i,
    {
        let cell = cells[i];
        proof {
            assert(in_box(bounds, all[i as int].coord));
            lemma_box_place(bounds, cell.coord, grid.width as int, grid.height as int);
        }
        source_cells.push(to_signed(cell.index as u64));
        let child_x: usize = (cell.coord.x - bounds.min.x) as usize;
        let child_y: usize = (cell.coord.y - bounds.min.y) as usize;
        let place: usize = child_y * width as usize + child_x;
        let ghost was = words@;
        let word: u64 = words[place / 64];
        let bit: u64 = (place % 64) as u64;
        words.set(place / 64, word | (1u64 << bit));
        proof {
            assert forall|p: int| 0 <= p implies (#[trigger] marked(words@, p) <==> last_on(
                all,
                bounds,
                p,
                i + 1,
            ) is Some) by {
                lemma_mark(was, place as int, p);
                assert(marked(was, p) <==> last_on(all, bounds, p, i as int) is Some);
            }
        }
        let material: u16 = if cell.index < material_ids.len() {
            material_ids[cell.index]
        } else {
            cell.material
        };
        materials.set(place, material);
        i = i + 1;
    }
    let com = Vec2 {
        x: actor.local_com.x.minus(Scalar::from_u64(bounds.min.x as u64)),
        y: actor.local_com.y.minus(Scalar::from_u64(bounds.min.y as u64)),
    };
    let child_local_origin = pixel_shape_local_origin_for_com(
        width,
        height,
        asset.voxel_size,
        com,
    );
    proof {
        assert(materials@ =~= Seq::new(
            count as nat,
            |p: int| material_on(all, bounds, material_ids@, p, all.len() as int),
        ));
    }
    Some(
        CroppedActor {
            source_min_x: to_signed(bounds.min.x as u64),
            source_min_y: to_signed(bounds.min.y as u64),
            source_max_x: to_signed(bounds.max.x as u64),
            source_max_y: to_signed(bounds.max.y as u64),
            source_cells,
            child_width: to_signed(width as u64),
            child_height: to_signed(height as u64),
            child_pixel_size: asset.voxel_size,
            child_local_origin,
            child_occupancy_words: words,
            child_material_ids: materials,
        },
    )
}

/// A cell of the rectangle is solid after the cut just when the actor holds it.
pub proof fn lemma_crop_keeps_cells(
    crop: CroppedActor,
    runtime: VoxelRuntime,
    actor: FxActorId,
    material_ids: Seq<u16>,
    coord: GridCoord,
)
    requires
        runtime.wf(),
        runtime.cells_of_actor(actor) is Some,
        runtime.cells_of_actor(actor)->0.len() > 0,
        is_cropped(crop, runtime, actor, material_ids),
        in_box(bounds_of_cells(runtime.cells_of_actor(actor)->0)->0, coord),
    ensures
        marked(
            crop.child_occupancy_words@,
            box_place(bounds_of_cells(runtime.cells_of_actor(actor)->0)->0, coord),
        ) <==> exists|k: int|
            0 <= k < runtime.cells_of_actor(actor)->0.len() && (#[trigger] runtime.cells_of_actor(
                actor,
            )->0[k]).coord == coord,
{
    let cells = runtime.cells_of_actor(actor)->0;
    let b = bounds_of_cells(cells)->0;
    let place = box_place(b, coord);
    lemma_bounds_tight(coords_of(cells), cells.len() as int);
    assert forall|i: int| 0 <= i < cells.len() implies in_box(b, (#[trigger] cells[i]).coord) by {
        assert(coords_of(cells)[i] == cells[i].coord);
    }
    lemma_box_place(b, coord, b.max.x + 1, b.max.y + 1);
    assert(marked(crop.child_occupancy_words@, place) <==> last_on(
        cells,
        b,
        place,
        cells.len() as int,
    ) is Some);
    lemma_last_on(cells, b, coord, cells.len() as int);
}

proof fn lemma_last_on(cells: Seq<ActorCell>, b: GridAabb, coord: GridCoord, n: int)
    requires
        0 <= n <= cells.len(),
        in_box(b, coord),
        forall|i: int| 0 <= i < cells.len() ==> in_box(b, (#[trigger] cells[i]).coord),
    ensures
        last_on(cells, b, box_place(b, coord), n) is Some <==> exists|k: int|
            0 <= k < n && (#[trigger] cells[k]).coord == coord,
    decreases n,
{
    if n > 0 {
        lemma_last_on(cells, b, coord, n - 1);
        let c = cells[n - 1].coord;
        assert(in_box(b, cells[n - 1].coord));
        lemma_same_place(
            c.y - b.min.y,
            c.x - b.min.x,
            coord.y - b.min.y,
            coord.x - b.min.x,
            box_width(b),
        );
        if last_on(cells, b, box_place(b, coord), n - 1) is Some {
            let k = choose|k: int| 0 <= k < n - 1 && (#[trigger] cells[k]).coord == coord;
            assert(cells[k].coord == coord);
        }
    }
}

/// Places tell cells of one rectangle apart.
proof fn lemma_same_place(y1: int, x1: int, y2: int, x2: int, w: int)
    requires
        0 <= x1 < w,
        0 <= x2 < w,
    ensures
        y1 * w + x1 == y2 * w + x2 <==> y1 == y2 && x1 == x2,
{
    assert(y1 * w + x1 == y2 * w + x2 ==> y1 == y2 && x1 == x2) by (nonlinear_arith)
        requires
            0 <= x1 < w,
            0 <= x2 < w,
    ;
}

/// The materials of the solid cells, zero elsewhere.
pub open spec fn solid_materials(words: Seq<u64>, material_ids: Seq<u16>) -> Seq<u16> {
    Seq::new(
        material_ids.len(),
        |i: int|
            if marked(words, i) {
                material_ids[i]
            } else {
                0
            },
    )
}

/// The tables for authoring a body from its words and materials. It takes one material for each
/// cell; cells that are not solid lose theirs.
pub fn cropped_pixel_input_from_words(
    width: u32,
    height: u32,
    pixel_size: Scalar,
    occupancy_words: &[u64],
    material_ids: &[u16],
) -> (r: Option<VoxelAuthoringInput>)
    ensures
        match r {
            Some(input) => {
                let count = width * height;
                &&& count <= usize::MAX
                &&& material_ids.len() == count
                &&& input.width == width
                &&& input.height == height
                &&& input.voxel_size == pixel_size
                &&& input.occupancy@ == cells_of_words(occupancy_words@, count)
                &&& input.fracture_material@ == solid_materials(occupancy_words@, material_ids@)
                &&& input.contact_material@ == solid_materials(occupancy_words@, material_ids@)
                &&& input.external_id@ == Seq::new(count as nat, |i: int| 0u32)
            },
            None => width * height > usize::MAX || material_ids.len() != width * height,
        },
{
    assert(0 <= width * height <= 0xffff_ffff * 0xffff_ffff) by (nonlinear_arith)
        requires
            0 <= width <= 0xffff_ffff,
            0 <= height <= 0xffff_ffff,
    ;
    let total: u64 = width as u64 * height as u64;
    if total > usize::MAX as u64 || material_ids.len() as u64 != total {
        return None;
    }
    let count: usize = total as usize;
    let mut occupancy: Vec<bool> = Vec::new();
    let mut fracture_material: Vec<u16> = Vec::new();
    let mut contact_material: Vec<u16> = Vec::new();
    let mut i: usize = 0;
    while i < count
        invariant
            i <= count,
            count == material_ids.len(),
            occupancy@ =~= cells_of_words(occupancy_words@, i as int),
            fracture_material@ =~= solid_materials(occupancy_words@, material_ids@.take(i as int)),
            contact_material@ =~= solid_materials(occupancy_words@, material_ids@.take(i as int)),
        decreases count - i,
    {
        let occupied = is_marked(occupancy_words, i);
        let material: u16 = if occupied {
            material_ids[i]
        } else {
            0
        };
        occupancy.push(occupied);
        fracture_material.push(material);
        contact_material.push(material);
        i = i + 1;
    }
    assert(material_ids@.take(count as int) =~= material_ids@);
    Some(
        VoxelAuthoringInput {
            width,
            height,
            voxel_size: pixel_size,
            occupancy,
            fracture_material,
            contact_material,
            external_id: filled(0u32, count),
        },
    )
}

/// The last one of the first `n` cells with a place in the grid of the body.
pub open spec fn last_at(cells: Seq<ActorCell>, place: int, n: int) -> Option<int>
    decreases n,
{
    if n <= 0 {
        None
    } else if cells[n - 1].index == place {
        Some(n - 1)
    } else {
        last_at(cells, place, n - 1)
    }
}

/// The material at a place of the grid, zero where there is no cell.
pub open spec fn material_at(
    cells: Seq<ActorCell>,
    material_ids: Seq<u16>,
    place: int,
    n: int,
) -> u16 {
    match last_at(cells, place, n) {
        Some(k) => material_of(cells[k], material_ids),
        None => 0,
    }
}

/// The tables for authoring a body that holds the cells of one actor and nothing else.
pub fn actor_scoped_input(
    runtime: &VoxelRuntime,
    actor_id: FxActorId,
    material_ids: &[u16],
) -> (r: Option<VoxelAuthoringInput>)
    requires
        runtime.wf(),
    ensures
        match r {
            Some(input) => {
                let grid = runtime.family@.asset.occupancy;
                let cells = runtime.cells_of_actor(actor_id)->0;
                let n = cells.len() as int;
                let materials = Seq::new(
                    (grid.width * grid.height) as nat,
                    |i: int| material_at(cells, material_ids@, i, n),
                );
                &&& runtime.cells_of_actor(actor_id) is Some
                &&& input.width == grid.width
                &&& input.height == grid.height
                &&& input.voxel_size == runtime.family@.asset.voxel_size
                &&& input.occupancy@ == Seq::new(
                    (grid.width * grid.height) as nat,
                    |i: int| last_at(cells, i, n) is Some,
                )
                &&& input.fracture_material@ == materials
                &&& input.contact_material@ == materials
                &&& input.external_id@ == Seq::new(
                    (grid.width * grid.height) as nat,
                    |i: int| 0u32,
                )
            },
            None => runtime.cells_of_actor(actor_id) is None,
        },
{
    let cells = actor_cells(runtime, actor_id)?;
    let asset = &runtime.family.asset;
    let count: usize = runtime.occupancy.len();
    let ghost all = cells@;
    let mut occupancy: Vec<bool> = filled(false, count);
    let mut fracture_material: Vec<u16> = filled(0u16, count);
    let mut contact_material: Vec<u16> = filled(0u16, count);
    proof {
        assert forall|i: int| 0 <= i < all.len() implies (#[trigger] all[i]).index < count by {
            lemma_actor_cells(*runtime, actor_id, all[i]);
            let grid = asset@.occupancy;
            lemma_place_fits(all[i].coord.x, all[i].coord.y, grid.width, grid.height);
        }
    }
    let mut i: usize = 0;
    while i < cells.len()
        invariant
            i <= cells.len(),
            cells@ == all,
            forall|k: int| 0 <= k < all.len() ==> (#[trigger] all[k]).index < count,
            occupancy@.len() == count,
            fracture_material@.len() == count,
            contact_material@.len() == count,
            forall|p: int|
                0 <= p < count ==> #[trigger] occupancy@[p] == (last_at(all, p, i as int) is Some),
            forall|p: int|
                0 <= p < count ==> #[trigger] fracture_material@[p] == material_at(
                    all,
                    material_ids@,
                    p,
                    i as int,
                ),
            forall|p: int|
                0 <= p < count ==> #[trigger] contact_material@[p] == material_at(
                    all,
                    material_ids@,
                    p,
                    i as int,
                ),
        decreases cells.len() - i,
    {
        let cell = cells[i];
        assert(all[i as int].index < count);
        let material: u16 = if cell.index < material_ids.len() {
            material_ids[cell.index]
        } else {
            cell.material
        };
        occupancy.set(cell.index, true);
        fracture_material.set(cell.index, material);
        contact_material.set(cell.index, material);
        i = i + 1;
    }
    proof {
        let n = all.len() as int;
        assert(occupancy@ =~= Seq::new(count as nat, |p: int| last_at(all, p, n) is Some));
        assert(fracture_material@ =~= Seq::new(
            count as nat,
            |p: int| material_at(all, material_ids@, p, n),
        ));
        assert(contact_material@ =~= fracture_material@);
    }
    Some(
        VoxelAuthoringInput {
            width: asset.occupancy.width,
            height: asset.occupancy.height,
            voxel_size: asset.voxel_size,
            occupancy,
            fracture_material,
            contact_material,
            external_id: filled(0u32, count),
        },
    )
}

} // verus!
