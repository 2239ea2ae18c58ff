//! Terrain as a grid of cells: which cell of the world a point belongs to.

use crate::geometry::{
    cell_center, dot_product, vec_difference, vec_sum, GridCoord, Vec2,
};
use crate::host::handles::AlchemyRapierRigidBodyHandle;
use crate::host::pixels::{
    asset_point_to_body_local, body_local, half_extents, lemma_place_fits,
    pixel_shape_half_extents,
};
use crate::rounding::INFINITE;
use crate::scalar::{
    at_most, below, difference, maximum, of_integer, of_signed, product, quotient, sum, Scalar,
    ONE_BITS,
};
use crate::truncation::floored;
use vstd::prelude::*;

verus! {

/// The bit pattern of `0.0001`, how far a point may lie beside a cell, in cells.
pub const CELL_MARGIN_BITS: u32 = 0x38d1_b717;

/// A piece of terrain: a grid of cells that are occupied or not, and where it lies.
#[derive(Debug)]
pub struct TerrainGrid {
    pub width: u32,
    pub height: u32,
    pub pixel_size: Scalar,
    pub source_world_origin_x: i32,
    pub source_world_origin_y: i32,
    pub local_origin_x: i32,
    pub local_origin_y: i32,
    pub pixel_shape_local_origin: Vec2,
    pub occupancy: Vec<bool>,
}

/// Which piece of terrain a collider belongs to.
#[derive(Clone, Copy, Debug, PartialEq, Eq, Structural)]
pub struct TerrainKey {
    pub x: i32,
    pub y: i32,
}

/// A chunk of terrain at rest.
#[derive(Debug)]
pub struct TerrainChunkState {
    pub grid: TerrainGrid,
    pub chunk_x: i32,
    pub chunk_y: i32,
    pub revision: i64,
}

/// A piece of terrain that came loose but stays in place.
#[derive(Debug)]
pub struct TerrainFractureActorState {
    pub grid: TerrainGrid,
    pub body: AlchemyRapierRigidBodyHandle,
    pub actor_key: i64,
    pub chunk_x: i32,
    pub chunk_y: i32,
    pub revision: i64,
}

/// A cell with signed coordinates.
pub ghost struct Cell {
    pub x: int,
    pub y: int,
}

impl TerrainGrid {
    /// There is one entry for each cell, and all cells have coordinates in the world.
    pub open spec fn wf(self) -> bool {
        &&& self.occupancy@.len() == self.width * self.height
        &&& self.source_world_origin_x + self.width - 1 <= i32::MAX
        &&& self.source_world_origin_y + self.height - 1 <= i32::MAX
    }

    /// The coordinates lie in the grid.
    pub open spec fn has(self, x: int, y: int) -> bool {
        0 <= x < self.width && 0 <= y < self.height
    }

    /// The cell is occupied; cells outside the grid are not.
    pub open spec fn occupied(self, x: int, y: int) -> bool {
        self.has(x, y) && self.occupancy@[y * self.width + x]
    }

    /// Where the grid lies.
    pub open spec fn body_origin(self) -> Vec2 {
        Vec2 {
            x: of_signed(self.local_origin_x as int),
            y: of_signed(self.local_origin_y as int),
        }
    }

    /// A point of the grid in the world.
    pub open spec fn to_world(self, point: Vec2) -> Vec2 {
        vec_sum(
            self.body_origin(),
            body_local(
                self.width,
                self.height,
                self.pixel_size,
                self.pixel_shape_local_origin,
                point,
            ),
        )
    }

    /// A point of the world in the grid.
    pub open spec fn to_asset(self, point: Vec2) -> Vec2 {
        vec_sum(
            vec_difference(
                vec_difference(point, self.body_origin()),
                self.pixel_shape_local_origin,
            ),
            half_extents(self.width, self.height, self.pixel_size),
        )
    }

    /// The cell that a point of the world falls into, in the grid or beside it.
    pub open spec fn cell_under(self, point: Vec2) -> Cell {
        let p = self.to_asset(point);
        Cell {
            x: floored(quotient(p.x, self.pixel_size)) as int,
            y: floored(quotient(p.y, self.pixel_size)) as int,
        }
    }

    /// How far beside a cell a point may lie.
    pub open spec fn margin(self) -> Scalar {
        product(
            maximum(self.pixel_size, Scalar { bits: ONE_BITS }),
            Scalar { bits: CELL_MARGIN_BITS },
        )
    }

    /// The cell is occupied, and the point lies on it or within the margin.
    pub open spec fn touched(self, point: Vec2, x: int, y: int) -> bool {
        let corner = self.to_world(
            Vec2 {
                x: product(of_integer(x), self.pixel_size),
                y: product(of_integer(y), self.pixel_size),
            },
        );
        &&& self.occupied(x, y)
        &&& at_most(difference(corner.x, self.margin()), point.x)
        &&& at_most(point.x, sum(sum(corner.x, self.pixel_size), self.margin()))
        &&& at_most(difference(corner.y, self.margin()), point.y)
        &&& at_most(point.y, sum(sum(corner.y, self.pixel_size), self.margin()))
    }

    /// The first cell from the `k`-th on, of the nine around a cell, that the point touches.
    pub open spec fn touched_around(self, point: Vec2, cell: Cell, k: int) -> Option<Cell>
        decreases 9 - k,
    {
        let x = cell.x - 1 + k % 3;
        let y = cell.y - 1 + k / 3;
        if k < 0 || k >= 9 {
            None
        } else if self.touched(point, x, y) {
            Some(Cell { x, y })
        } else {
            self.touched_around(point, cell, k + 1)
        }
    }

    /// The squared distance of a point from the middle of the cell at a place.
    pub open spec fn distance_sq(self, point: Vec2, place: int) -> Scalar {
        let coord = GridCoord {
            x: (place % self.width as int) as u32,
            y: (place / self.width as int) as u32,
        };
        let d = vec_difference(point, self.to_world(cell_center(coord, self.pixel_size)));
        dot_product(d, d)
    }

    /// The occupied cell nearest to a point among the first `n` and its distance. Of several at
    /// the same distance it is the first one; where no cell has a distance it is the first cell
    /// of all.
    pub open spec fn nearest_cell(self, point: Vec2, n: int) -> (int, Scalar)
        decreases n,
    {
        if n <= 0 {
            (0, Scalar { bits: INFINITE })
        } else {
            let best = self.nearest_cell(point, n - 1);
            let d = self.distance_sq(point, n - 1);
            if self.occupancy@[n - 1] && below(d, best.1) {
                (n - 1, d)
            } else {
                best
            }
        }
    }

    /// The cell at a place.
    pub open spec fn cell_at(self, place: int) -> Cell {
        if self.width == 0 {
            Cell { x: 0, y: 0 }
        } else {
            Cell { x: place % self.width as int, y: place / self.width as int }
        }
    }

    /// The cell of a chunk for a point: the occupied one under it, else an occupied one that it
    /// touches, else the nearest.
    pub open spec fn chunk_cell(self, point: Vec2) -> Cell {
        let under = self.cell_under(point);
        if self.occupied(under.x, under.y) {
            under
        } else {
            match self.touched_around(point, under, 0) {
                Some(cell) => cell,
                None => self.cell_at(
                    self.nearest_cell(point, self.occupancy@.len() as int).0,
                ),
            }
        }
    }

    /// The cell of a loose piece for a point: the one under it, else the nearest occupied one.
    pub open spec fn actor_cell(self, point: Vec2) -> Cell {
        let under = self.cell_under(point);
        if self.has(under.x, under.y) {
            under
        } else {
            self.cell_at(self.nearest_cell(point, self.occupancy@.len() as int).0)
        }
    }

    /// A cell as the world numbers it.
    pub open spec fn in_world(self, cell: Cell) -> (i32, i32) {
        (
            (self.source_world_origin_x + cell.x) as i32,
            (self.source_world_origin_y + cell.y) as i32,
        )
    }

    /// Whether there is one entry for each cell, and all cells have coordinates in the world.
    pub fn is_valid(&self) -> (r: bool)
        ensures
            r == self.wf(),
    {
        assert(0 <= self.width * self.height <= u32::MAX * u32::MAX) by (nonlinear_arith)
            requires
                0 <= self.width <= u32::MAX,
                0 <= self.height <= u32::MAX,
        ;
        self.occupancy.len() as u128 == self.width as u128 * self.height as u128
            && self.source_world_origin_x as i64 + self.width as i64 - 1 <= i32::MAX as i64
            && self.source_world_origin_y as i64 + self.height as i64 - 1 <= i32::MAX as i64
    }

    pub fn terrain_cell_occupied(&self, x: i64, y: i64) -> (r: bool)
        requires
            self.wf(),
        ensures
            r == self.occupied(x as int, y as int),
    {
        if x < 0 || y < 0 || x >= self.width as i64 || y >= self.height as i64 {
            return false;
        }
        proof {
            lemma_place_fits(x as u32, y as u32, self.width, self.height);
            assert(self.occupancy.len() <= usize::MAX);
        }
        self.occupancy[y as usize * self.width as usize + x as usize]
    }

    fn terrain_body_origin(&self) -> (r: Vec2)
        ensures
            r == self.body_origin(),
    {
        Vec2 {
            x: Scalar::from_i32(self.local_origin_x),
            y: Scalar::from_i32(self.local_origin_y),
        }
    }

    pub fn terrain_asset_point_to_world(&self, asset_point: Vec2) -> (r: Vec2)
        ensures
            r == self.to_world(asset_point),
    {
        self.terrain_body_origin().plus(
            asset_point_to_body_local(
                self.width,
                self.height,
                self.pixel_size,
                self.pixel_shape_local_origin,
                asset_point,
            ),
        )
    }

    pub fn terrain_point_to_asset_point(&self, point: Vec2) -> (r: Vec2)
        ensures
            r == self.to_asset(point),
    {
        point.minus(self.terrain_body_origin()).minus(self.pixel_shape_local_origin).plus(
            pixel_shape_half_extents(self.width, self.height, self.pixel_size),
        )
    }

    /// A point of the world as the body of the terrain sees it.
    pub fn terrain_local_point(&self, point: Vec2) -> (r: Vec2)
        ensures
            r == vec_difference(point, self.body_origin()),
    {
        point.minus(self.terrain_body_origin())
    }

    fn is_touched(&self, point: Vec2, x: i64, y: i64) -> (r: bool)
        requires
            self.wf(),
        ensures
            r == self.touched(point, x as int, y as int),
    {
        if !self.terrain_cell_occupied(x, y) {
            return false;
        }
        let margin = self.pixel_size.max(Scalar::from_bits(ONE_BITS)).times(
            Scalar::from_bits(CELL_MARGIN_BITS),
        );
        let corner = self.terrain_asset_point_to_world(
            Vec2 {
                x: Scalar::from_u64(x as u64).times(self.pixel_size),
                y: Scalar::from_u64(y as u64).times(self.pixel_size),
            },
        );
        corner.x.minus(margin).is_at_most(point.x) && point.x.is_at_most(
            corner.x.plus(self.pixel_size).plus(margin),
        ) && corner.y.minus(margin).is_at_most(point.y) && point.y.is_at_most(
            corner.y.plus(self.pixel_size).plus(margin),
        )
    }

    fn find_touched(&self, point: Vec2, local_x: i32, local_y: i32) -> (r: Option<(i64, i64)>)
        requires
            self.wf(),
        ensures
            match r {
                Some((x, y)) => self.touched_around(
                    point,
                    Cell { x: local_x as int, y: local_y as int },
                    0,
                ) == Some(Cell { x: x as int, y: y as int }) && self.has(x as int, y as int),
                None => self.touched_around(
                    point,
                    Cell { x: local_x as int, y: local_y as int },
                    0,
                ) is None,
            },
    {
        let ghost cell = Cell { x: local_x as int, y: local_y as int };
        let mut k: i64 = 0;
        while k < 9
            invariant
                0 <= k <= 9,
                self.wf(),
                cell == (Cell { x: local_x as int, y: local_y as int }),
                self.touched_around(point, cell, 0) == self.touched_around(point, cell, k as int),
            decreases 9 - k,
        {
            let x: i64 = local_x as i64 - 1 + k % 3;
            let y: i64 = local_y as i64 - 1 + k / 3;
            if self.is_touched(point, x, y) {
                return Some((x, y));
            }
            k = k + 1;
        }
        None
    }

    fn find_nearest(&self, point: Vec2) -> (r: (u32, u32))
        requires
            self.wf(),
        ensures
            self.cell_at(self.nearest_cell(point, self.occupancy@.len() as int).0) == (Cell {
                x: r.0 as int,
                y: r.1 as int,
            }),
            r.0 <= self.width,
            r.1 <= self.height,
    {
        let mut best_x: u32 = 0;
        let mut best_y: u32 = 0;
        let ghost mut best_place: int = 0;
        let mut best_distance_sq = Scalar::from_bits(INFINITE);
        let mut x: u32 = 0;
        let mut y: u32 = 0;
        let mut i: usize = 0;
        while i < self.occupancy.len()
            invariant
                i <= self.occupancy.len(),
                self.wf(),
                i == y * self.width + x,
                i < self.occupancy.len() ==> x < self.width,
                y <= self.height,
                self.nearest_cell(point, i as int) == (best_place, best_distance_sq),
                self.cell_at(best_place) == (Cell { x: best_x as int, y: best_y as int }),
                best_x <= self.width,
                best_y <= self.height,
            decreases self.occupancy.len() - i,
        {
            proof {
                assert(y < self.height) by (nonlinear_arith)
                    requires
                        y * self.width + x < self.width * self.height,
                        0 <= x,
                        0 < self.width,
                        0 <= y,
                ;
                vstd::arithmetic::div_mod::lemma_fundamental_div_mod_converse(
                    i as int,
                    self.width as int,
                    y as int,
                    x as int,
                );
            }
            if self.occupancy[i] {
                let center = self.terrain_asset_point_to_world(
                    GridCoord { x, y }.center(self.pixel_size),
                );
                let d = point.minus(center);
                let distance_sq = d.dot(d);
                if distance_sq.is_below(best_distance_sq) {
                    best_distance_sq = distance_sq;
                    best_x = x;
                    best_y = y;
                    proof {
                        best_place = i as int;
                    }
                }
            }
            i = i + 1;
            if x + 1 < self.width {
                x = x + 1;
            } else {
                proof {
                    assert(y * self.width + self.width == (y + 1) * self.width)
                        by (nonlinear_arith);
                }
                x = 0;
                y = y + 1;
            }
        }
        (best_x, best_y)
    }

    /// The cell of the world that a point on a chunk belongs to.
    pub fn terrain_world_cell(&self, point: Vec2) -> (r: (i32, i32))
        requires
            self.wf(),
        ensures
            r == self.in_world(self.chunk_cell(point)),
    {
        let asset_point = self.terrain_point_to_asset_point(point);
        let local_x = asset_point.x.over(self.pixel_size).floor_to_i32();
        let local_y = asset_point.y.over(self.pixel_size).floor_to_i32();
        if self.terrain_cell_occupied(local_x as i64, local_y as i64) {
            return (self.source_world_origin_x + local_x, self.source_world_origin_y + local_y);
        }
        if let Some((x, y)) = self.find_touched(point, local_x, local_y) {
            return (
                (self.source_world_origin_x as i64 + x) as i32,
                (self.source_world_origin_y as i64 + y) as i32,
            );
        }
        let (x, y) = self.find_nearest(point);
        (
            (self.source_world_origin_x as i64 + x as i64) as i32,
            (self.source_world_origin_y as i64 + y as i64) as i32,
        )
    }

    /// The cell of the world that a point on a loose piece belongs to.
    pub fn terrain_actor_world_cell(&self, point: Vec2) -> (r: (i32, i32))
        requires
            self.wf(),
        ensures
            r == self.in_world(self.actor_cell(point)),
    {
        let asset_point = self.terrain_point_to_asset_point(point);
        let local_x = asset_point.x.over(self.pixel_size).floor_to_i32();
        let local_y = asset_point.y.over(self.pixel_size).floor_to_i32();
        if local_x >= 0 && local_y >= 0 && (local_x as u32) < self.width && (local_y as u32)
            < self.height {
            return (self.source_world_origin_x + local_x, self.source_world_origin_y + local_y);
        }
        let (x, y) = self.find_nearest(point);
        (
            (self.source_world_origin_x as i64 + x as i64) as i32,
            (self.source_world_origin_y as i64 + y as i64) as i32,
        )
    }
}

/// No occupied cell lies nearer to a point than the nearest one, and an earlier one not even as
/// near.
pub proof fn lemma_nearest_is_nearest(grid: TerrainGrid, point: Vec2, n: int, i: int)
    requires
        grid.wf(),
        0 <= i < n <= grid.occupancy@.len(),
        grid.occupancy@[i],
    ensures
        !below(grid.distance_sq(point, i), grid.nearest_cell(point, n).1),
        below(grid.distance_sq(point, i), Scalar { bits: INFINITE }) ==> {
            let best = grid.nearest_cell(point, n);
            &&& 0 <= best.0 < n
            &&& grid.occupancy@[best.0]
            &&& best.1 == grid.distance_sq(point, best.0)
            &&& i < best.0 ==> below(best.1, grid.distance_sq(point, i))
        },
    decreases n,
{
    lemma_best_ordered(grid, point, n - 1);
    if i < n - 1 {
        lemma_nearest_is_nearest(grid, point, n - 1, i);
    }
}

/// The least distance so far is a number, and that of the cell that it belongs to.
proof fn lemma_best_ordered(grid: TerrainGrid, point: Vec2, n: int)
    requires
        0 <= n <= grid.occupancy@.len(),
    ensures
        !grid.nearest_cell(point, n).1.nan(),
        grid.nearest_cell(point, n).1 != (Scalar { bits: INFINITE }) ==> {
            let best = grid.nearest_cell(point, n);
            &&& 0 <= best.0 < n
            &&& grid.occupancy@[best.0]
            &&& best.1 == grid.distance_sq(point, best.0)
        },
    decreases n,
{
    if n > 0 {
        lemma_best_ordered(grid, point, n - 1);
    }
}

/// Where a chunk has an occupied cell at a finite distance, a point always gets an occupied cell.
pub proof fn lemma_chunk_cell_occupied(grid: TerrainGrid, point: Vec2, i: int)
    requires
        grid.wf(),
        0 <= i < grid.occupancy@.len(),
        grid.occupancy@[i],
        below(grid.distance_sq(point, i), Scalar { bits: INFINITE }),
    ensures
        grid.occupied(grid.chunk_cell(point).x, grid.chunk_cell(point).y),
{
    let n = grid.occupancy@.len() as int;
    let under = grid.cell_under(point);
    if !grid.occupied(under.x, under.y) {
        lemma_touched_occupied(grid, point, under, 0);
        if grid.touched_around(point, under, 0) is None {
            lemma_nearest_is_nearest(grid, point, n, i);
            let place = grid.nearest_cell(point, n).0;
            let w = grid.width as int;
            assert(w > 0) by (nonlinear_arith)
                requires
                    0 <= place < w * grid.height,
                    0 <= w,
            ;
            vstd::arithmetic::div_mod::lemma_fundamental_div_mod(place, w);
            vstd::arithmetic::div_mod::lemma_mod_bound(place, w);
            assert(0 <= place / w < grid.height) by (nonlinear_arith)
                requires
                    0 <= place < w * grid.height,
                    0 < w,
            ;
            assert(w * (place / w) == (place / w) * w) by (nonlinear_arith);
        }
    }
}

proof fn lemma_touched_occupied(grid: TerrainGrid, point: Vec2, cell: Cell, k: int)
    ensures
        match grid.touched_around(point, cell, k) {
            Some(found) => grid.occupied(found.x, found.y),
            None => true,
        },
    decreases 9 - k,
{
    if 0 <= k < 9 {
        lemma_touched_occupied(grid, point, cell, k + 1);
    }
}

} // verus!
