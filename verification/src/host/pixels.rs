//! The pixels of a body: where they lie, which of them an actor holds, and how an actor is cut
//! out of the grid.

use crate::actor::{bounds_of, gather_voxels, gathered};
use crate::family::FxFamily;
use crate::geometry::{cell_center, vec_difference, vec_sum, GridAabb, GridCoord, Vec2};
use crate::idmap::lookup;
use crate::ids::FxActorId;
use crate::order::{
    key_of, lemma_sorted_permutation, single_key, sort_stable, sorted_by, Keyed, SortKey,
};
use crate::scalar::{of_integer, product, Scalar, HALF_BITS};
use vstd::prelude::*;

verus! {

/// A voxel body at run time: its family, and what is known of each cell of its grid.
#[derive(Debug)]
pub struct VoxelRuntime {
    pub family: FxFamily,
    pub occupancy: Vec<bool>,
    pub fracture_material: Vec<u16>,
}

/// A cell of an actor, its place in the row-by-row order and its material.
#[derive(Clone, Copy, Debug, PartialEq, Eq, Structural)]
pub struct ActorCell {
    pub coord: GridCoord,
    pub index: usize,
    pub material: u16,
}

impl Keyed for ActorCell {
    open spec fn sort_key(&self) -> SortKey {
        single_key(self.index as u64)
    }

    fn key(&self) -> (k: SortKey) {
        SortKey::single(self.index as u64)
    }
}

impl VoxelRuntime {
    /// There is one entry for each cell of the grid.
    pub open spec fn wf(self) -> bool {
        let grid = self.family@.asset.occupancy;
        &&& self.family@.wf()
        &&& self.occupancy@.len() == grid.width * grid.height
        &&& self.fracture_material@.len() == grid.width * grid.height
    }

    /// The cell with a coordinate of the grid.
    pub open spec fn cell(self, coord: GridCoord) -> ActorCell {
        let place = self.family@.asset.occupancy.place(coord);
        ActorCell { coord, index: place as usize, material: self.fracture_material@[place] }
    }

    /// The occupied ones among the first `n` of some coordinates.
    pub open spec fn solid_cells(self, coords: Seq<GridCoord>, n: int) -> Seq<ActorCell>
        decreases n,
    {
        if n <= 0 {
            Seq::empty()
        } else if self.occupancy@[self.family@.asset.occupancy.place(coords[n - 1])] {
            self.solid_cells(coords, n - 1).push(self.cell(coords[n - 1]))
        } else {
            self.solid_cells(coords, n - 1)
        }
    }

    /// The coordinates of the nodes of an actor.
    pub open spec fn actor_coords(self, actor: FxActorId) -> Seq<GridCoord> {
        let nodes = (lookup(self.family@.actors, actor.0)->0).owned_nodes;
        gathered(self.family@.asset, nodes, nodes.len() as int)
    }

    /// The occupied cells of an actor, row by row; none where there is no such actor, or where
    /// one of its nodes reaches beyond the grid.
    pub open spec fn cells_of_actor(self, actor: FxActorId) -> Option<Seq<ActorCell>> {
        let coords = self.actor_coords(actor);
        if lookup(self.family@.actors, actor.0) is None || exists|i: int|
            0 <= i < coords.len() && !self.family@.asset.occupancy.has(#[trigger] coords[i]) {
            None
        } else {
            Some(sorted_by(self.solid_cells(coords, coords.len() as int), key_of::<ActorCell>()))
        }
    }
}

/// The cells of an actor lie in the grid, each with its own place and material.
pub proof fn lemma_actor_cells(runtime: VoxelRuntime, actor: FxActorId, c: ActorCell)
    requires
        runtime.wf(),
        runtime.cells_of_actor(actor) is Some,
    ensures
        runtime.cells_of_actor(actor)->0.contains(c) <==> {
            &&& runtime.actor_coords(actor).contains(c.coord)
            &&& runtime.occupancy@[runtime.family@.asset.occupancy.place(c.coord)]
            &&& c == runtime.cell(c.coord)
        },
        runtime.cells_of_actor(actor)->0.contains(c) ==> runtime.family@.asset.occupancy.has(
            c.coord,
        ),
{
    broadcast use vstd::seq_lib::group_to_multiset_ensures;

    let coords = runtime.actor_coords(actor);
    let listed = runtime.solid_cells(coords, coords.len() as int);
    lemma_sorted_permutation(listed, key_of::<ActorCell>());
    let sorted = sorted_by(listed, key_of::<ActorCell>());
    assert(sorted.contains(c) <==> sorted.to_multiset().count(c) > 0);
    assert(listed.contains(c) <==> listed.to_multiset().count(c) > 0);
    lemma_solid_cells(runtime, coords, coords.len() as int, c);
    if coords.take(coords.len() as int).contains(c.coord) {
        let i = choose|i: int| 0 <= i < coords.len() && coords[i] == c.coord;
        assert(runtime.family@.asset.occupancy.has(coords[i]));
    }
    assert(coords.take(coords.len() as int) =~= coords);
}

proof fn lemma_solid_cells(runtime: VoxelRuntime, coords: Seq<GridCoord>, n: int, c: ActorCell)
    requires
        0 <= n <= coords.len(),
    ensures
        runtime.solid_cells(coords, n).contains(c) <==> {
            &&& coords.take(n).contains(c.coord)
            &&& runtime.occupancy@[runtime.family@.asset.occupancy.place(c.coord)]
            &&& c == runtime.cell(c.coord)
        },
    decreases n,
{
    if n > 0 {
        lemma_solid_cells(runtime, coords, n - 1, c);
        let before = runtime.solid_cells(coords, n - 1);
        let now = runtime.solid_cells(coords, n);
        let x = coords[n - 1];
        assert(coords.take(n) =~= coords.take(n - 1).push(x));
        assert(coords.take(n).contains(c.coord) <==> coords.take(n - 1).contains(c.coord)
            || c.coord == x) by {
            lemma_push_contains(coords.take(n - 1), x, c.coord);
        }
        lemma_push_contains(before, runtime.cell(x), c);
    }
}

pub(crate) proof fn lemma_push_contains<T>(s: Seq<T>, x: T, y: T)
    ensures
        s.push(x).contains(y) <==> s.contains(y) || y == x,
{
    if s.contains(y) {
        let i = choose|i: int| 0 <= i < s.len() && s[i] == y;
        assert(s.push(x)[i] == y);
    }
    assert(s.push(x)[s.len() as int] == x);
    if s.push(x).contains(y) {
        let i = choose|i: int| 0 <= i < s.push(x).len() && s.push(x)[i] == y;
        if i < s.len() {
            assert(s[i] == y);
        }
    }
}

/// The cells of an actor, row by row.
pub fn actor_cells(runtime: &VoxelRuntime, actor_id: FxActorId) -> (r: Option<Vec<ActorCell>>)
    requires
        runtime.wf(),
    ensures
        match r {
            Some(cells) => runtime.cells_of_actor(actor_id) == Some(cells@),
            None => runtime.cells_of_actor(actor_id) is None,
        },
{
    let actor = match runtime.family.actor(actor_id) {
        Some(actor) => actor,
        None => {
            return None;
        },
    };
    let asset = &runtime.family.asset;
    let coords = gather_voxels(&actor.owned_nodes, asset);
    let mut cells: Vec<ActorCell> = Vec::new();
    let mut i: usize = 0;
    while i < coords.len()
        invariant
            i <= coords.len(),
            runtime.wf(),
            asset == runtime.family.asset,
            lookup(runtime.family@.actors, actor_id.0) is Some,
            coords@ == runtime.actor_coords(actor_id),
            forall|j: int| 0 <= j < i ==> asset@.occupancy.has(#[trigger] coords@[j]),
            cells@ == runtime.solid_cells(coords@, i as int),
        decreases coords.len() - i,
    {
        let coord = coords[i];
        if !asset.occupancy.contains(coord) {
            assert(!runtime.family@.asset.occupancy.has(coords@[i as int]));
            return None;
        }
        proof {
            lemma_place_fits(coord.x, coord.y, asset.occupancy.width, asset.occupancy.height);
            assert(runtime.occupancy.len() <= usize::MAX);
        }
        let index: usize = coord.y as usize * asset.occupancy.width as usize + coord.x as usize;
        if runtime.occupancy[index] {
            cells.push(ActorCell { coord, index, material: runtime.fracture_material[index] });
        }
        i = i + 1;
    }
    sort_stable(&mut cells);
    Some(cells)
}

/// A place of the grid is before the number of its cells.
pub(crate) proof fn lemma_place_fits(x: u32, y: u32, width: u32, height: u32)
    requires
        x < width,
        y < height,
    ensures
        0 <= y * width,
        y * width + x < width * height,
{
    assert(0 <= y * width && y * width + x < width * height) by (nonlinear_arith)
        requires
            0 <= x < width,
            0 <= y,
            y + 1 <= height,
    ;
}

/// The coordinates of some cells.
pub open spec fn coords_of(cells: Seq<ActorCell>) -> Seq<GridCoord> {
    Seq::new(cells.len(), |i: int| cells[i].coord)
}

/// The least rectangle around some cells.
pub open spec fn bounds_of_cells(cells: Seq<ActorCell>) -> Option<GridAabb> {
    bounds_of(coords_of(cells), cells.len() as int)
}

/// The least rectangle around some cells, none where there are no cells.
pub fn actor_bounds(cells: &[ActorCell]) -> (r: Option<GridAabb>)
    ensures
        r == bounds_of_cells(cells@),
{
    if cells.len() == 0 {
        return None;
    }
    let first = cells[0].coord;
    let mut bounds = GridAabb { min: first, max: first };
    let ghost coords = coords_of(cells@);
    let mut i: usize = 1;
    assert(bounds_of(coords, 0) is None);
    while i < cells.len()
        invariant
            1 <= i <= cells.len(),
            coords == coords_of(cells@),
            bounds_of(coords, i as int) == Some(bounds),
        decreases cells.len() - i,
    {
        let coord = cells[i].coord;
        assert(coords[i as int] == coord);
        let min = GridCoord {
            x: if coord.x < bounds.min.x {
                coord.x
            } else {
                bounds.min.x
            },
            y: if coord.y < bounds.min.y {
                coord.y
            } else {
                bounds.min.y
            },
        };
        let max = GridCoord {
            x: if coord.x > bounds.max.x {
                coord.x
            } else {
                bounds.max.x
            },
            y: if coord.y > bounds.max.y {
                coord.y
            } else {
                bounds.max.y
            },
        };
        bounds = GridAabb { min, max };
        i = i + 1;
    }
    Some(bounds)
}

/// Half of the width and of the height of a grid.
pub open spec fn half_extents(width: u32, height: u32, pixel_size: Scalar) -> Vec2 {
    let half = Scalar { bits: HALF_BITS };
    Vec2 {
        x: product(product(half, of_integer(width as int)), pixel_size),
        y: product(product(half, of_integer(height as int)), pixel_size),
    }
}

pub fn pixel_shape_half_extents(width: u32, height: u32, pixel_size: Scalar) -> (r: Vec2)
    ensures
        r == half_extents(width, height, pixel_size),
{
    let half = Scalar::from_bits(HALF_BITS);
    Vec2 {
        x: half.times(Scalar::from_u64(width as u64)).times(pixel_size),
        y: half.times(Scalar::from_u64(height as u64)).times(pixel_size),
    }
}

/// A point of the grid as the body sees it: from the middle of the grid, moved by the origin.
pub open spec fn body_local(
    width: u32,
    height: u32,
    pixel_size: Scalar,
    local_origin: Vec2,
    point: Vec2,
) -> Vec2 {
    vec_sum(vec_difference(point, half_extents(width, height, pixel_size)), local_origin)
}

pub fn asset_point_to_body_local(
    width: u32,
    height: u32,
    pixel_size: Scalar,
    local_origin: Vec2,
    asset_point: Vec2,
) -> (r: Vec2)
    ensures
        r == body_local(width, height, pixel_size, local_origin, asset_point),
{
    asset_point.minus(pixel_shape_half_extents(width, height, pixel_size)).plus(local_origin)
}

/// The origin that puts the center of mass of a body at its position.
pub open spec fn centered_origin(width: u32, height: u32, pixel_size: Scalar, com: Vec2) -> Vec2 {
    vec_difference(half_extents(width, height, pixel_size), com)
}

pub fn pixel_shape_local_origin_for_com(
    width: u32,
    height: u32,
    pixel_size: Scalar,
    asset_com: Vec2,
) -> (r: Vec2)
    ensures
        r == centered_origin(width, height, pixel_size, asset_com),
{
    pixel_shape_half_extents(width, height, pixel_size).minus(asset_com)
}

/// The middles of the boxes of the occupied cells among the first `n` of a grid, as the body
/// sees them.
pub open spec fn pixel_boxes(
    width: u32,
    height: u32,
    pixel_size: Scalar,
    local_origin: Vec2,
    occupancy: Seq<bool>,
    n: int,
) -> Seq<Vec2>
    decreases n,
{
    if n <= 0 {
        Seq::empty()
    } else {
        let before = pixel_boxes(width, height, pixel_size, local_origin, occupancy, n - 1);
        let place = n - 1;
        let coord = GridCoord {
            x: (place % width as int) as u32,
            y: (place / width as int) as u32,
        };
        if occupancy[place] {
            before.push(
                body_local(width, height, pixel_size, local_origin, cell_center(coord, pixel_size)),
            )
        } else {
            before
        }
    }
}

/// Where the boxes of a pixel body lie, one for each solid cell, row by row.
pub fn pixel_collider_boxes(
    width: u32,
    height: u32,
    pixel_size: Scalar,
    local_origin: Vec2,
    occupancy: &[bool],
) -> (r: Vec<Vec2>)
    requires
        occupancy.len() == width * height,
    ensures
        r@ == pixel_boxes(
            width,
            height,
            pixel_size,
            local_origin,
            occupancy@,
            occupancy.len() as int,
        ),
{
    let mut boxes: Vec<Vec2> = Vec::new();
    let mut i: usize = 0;
    let mut x: u32 = 0;
    let mut y: u32 = 0;
    while i < occupancy.len()
        invariant
            i <= occupancy.len(),
            occupancy.len() == width * height,
            i == y * width + x,
            i < occupancy.len() ==> x < width,
            y <= height,
            boxes@ == pixel_boxes(width, height, pixel_size, local_origin, occupancy@, i as int),
        decreases occupancy.len() - i,
    {
        proof {
            assert(y < height) by (nonlinear_arith)
                requires
                    y * width + x < width * height,
                    0 <= x,
                    0 < width,
                    0 <= y,
            ;
            vstd::arithmetic::div_mod::lemma_fundamental_div_mod_converse(
                i as int,
                width as int,
                y as int,
                x as int,
            );
        }
        if occupancy[i] {
            let center = GridCoord { x, y }.center(pixel_size);
            boxes.push(
                asset_point_to_body_local(width, height, pixel_size, local_origin, center),
            );
        }
        i = i + 1;
        if x + 1 < width {
            x = x + 1;
        } else {
            proof {
                assert(y * width + width == (y + 1) * width) by (nonlinear_arith);
            }
            x = 0;
            y = y + 1;
        }
    }
    boxes
}

/// Where the boxes of an actor lie, one for each of its cells.
pub fn actor_collider_boxes(
    width: u32,
    height: u32,
    pixel_size: Scalar,
    local_origin: Vec2,
    cells: &[ActorCell],
) -> (r: Vec<Vec2>)
    ensures
        r@ == Seq::new(
            cells@.len(),
            |i: int|
                body_local(
                    width,
                    height,
                    pixel_size,
                    local_origin,
                    cell_center(cells@[i].coord, pixel_size),
                ),
        ),
{
    let mut boxes: Vec<Vec2> = Vec::new();
    let mut i: usize = 0;
    while i < cells.len()
        invariant
            i <= cells.len(),
            boxes@ =~= Seq::new(
                i as nat,
                |j: int|
                    body_local(
                        width,
                        height,
                        pixel_size,
                        local_origin,
                        cell_center(cells@[j].coord, pixel_size),
                    ),
            ),
        decreases cells.len() - i,
    {
        let center = cells[i].coord.center(pixel_size);
        boxes.push(asset_point_to_body_local(width, height, pixel_size, local_origin, center));
        i = i + 1;
    }
    boxes
}

} // verus!
