//! Plane vectors, grid coordinates and the edges between grid cells.

use crate::scalar::{
    below, difference, equals, negated, of_integer, product, quotient, root, sum, Scalar, HALF_BITS,
};
use vstd::prelude::*;

verus! {

#[derive(Clone, Copy, Debug, PartialEq, Eq, Structural)]
pub struct Vec2 {
    pub x: Scalar,
    pub y: Scalar,
}

/// The origin.
pub open spec fn origin() -> Vec2 {
    Vec2 { x: Scalar { bits: 0 }, y: Scalar { bits: 0 } }
}

pub open spec fn vec_sum(a: Vec2, b: Vec2) -> Vec2 {
    Vec2 { x: sum(a.x, b.x), y: sum(a.y, b.y) }
}

pub open spec fn vec_difference(a: Vec2, b: Vec2) -> Vec2 {
    Vec2 { x: difference(a.x, b.x), y: difference(a.y, b.y) }
}

pub open spec fn vec_scaled(a: Vec2, factor: Scalar) -> Vec2 {
    Vec2 { x: product(a.x, factor), y: product(a.y, factor) }
}

pub open spec fn dot_product(a: Vec2, b: Vec2) -> Scalar {
    sum(product(a.x, b.x), product(a.y, b.y))
}

/// The vector turned left by a quarter of a turn.
pub open spec fn turned(a: Vec2) -> Vec2 {
    Vec2 { x: negated(a.y), y: a.x }
}

pub open spec fn norm(a: Vec2) -> Scalar {
    root(dot_product(a, a))
}

/// The vector scaled to length one, or the origin when its length is not above zero.
pub open spec fn direction(a: Vec2) -> Vec2 {
    if below(Scalar { bits: 0 }, norm(a)) {
        Vec2 { x: quotient(a.x, norm(a)), y: quotient(a.y, norm(a)) }
    } else {
        origin()
    }
}

/// Both components are finite.
pub open spec fn vec_finite(a: Vec2) -> bool {
    a.x.finite() && a.y.finite()
}

impl Vec2 {
    pub fn new(x: Scalar, y: Scalar) -> (r: Self)
        ensures
            r == (Vec2 { x, y }),
    {
        Vec2 { x, y }
    }

    pub fn zero() -> (r: Self)
        ensures
            r == origin(),
    {
        Vec2 { x: Scalar { bits: 0 }, y: Scalar { bits: 0 } }
    }

    pub fn plus(self, rhs: Self) -> (r: Self)
        ensures
            r == vec_sum(self, rhs),
    {
        Vec2 { x: self.x.plus(rhs.x), y: self.y.plus(rhs.y) }
    }

    pub fn minus(self, rhs: Self) -> (r: Self)
        ensures
            r == vec_difference(self, rhs),
    {
        Vec2 { x: self.x.minus(rhs.x), y: self.y.minus(rhs.y) }
    }

    pub fn scaled(self, factor: Scalar) -> (r: Self)
        ensures
            r == vec_scaled(self, factor),
    {
        Vec2 { x: self.x.times(factor), y: self.y.times(factor) }
    }

    pub fn dot(self, rhs: Self) -> (r: Scalar)
        ensures
            r == dot_product(self, rhs),
    {
        self.x.times(rhs.x).plus(self.y.times(rhs.y))
    }

    pub fn perp(self) -> (r: Self)
        ensures
            r == turned(self),
    {
        Vec2 { x: self.y.negate(), y: self.x }
    }

    pub fn length(self) -> (r: Scalar)
        ensures
            r == norm(self),
    {
        self.dot(self).sqrt()
    }

    pub fn normalized_or_zero(self) -> (r: Self)
        ensures
            r == direction(self),
    {
        let len = self.length();
        if (Scalar { bits: 0 }).is_below(len) {
            Vec2 { x: self.x.over(len), y: self.y.over(len) }
        } else {
            Self::zero()
        }
    }

    pub fn is_finite(self) -> (r: bool)
        ensures
            r == vec_finite(self),
    {
        self.x.is_finite() && self.y.is_finite()
    }

    /// Numerical equality of both components.
    pub fn equals_value(self, rhs: Self) -> (r: bool)
        ensures
            r == vec_equals(self, rhs),
    {
        self.x.equals_value(rhs.x) && self.y.equals_value(rhs.y)
    }
}

pub open spec fn vec_equals(a: Vec2, b: Vec2) -> bool {
    equals(a.x, b.x) && equals(a.y, b.y)
}

/// A cell of the grid.
#[derive(Clone, Copy, Debug, PartialEq, Eq, Structural, PartialOrd, Ord, Hash)]
pub struct GridCoord {
    pub x: u32,
    pub y: u32,
}

/// The middle of a cell.
pub open spec fn cell_center(c: GridCoord, voxel_size: Scalar) -> Vec2 {
    Vec2 {
        x: product(sum(of_integer(c.x as int), Scalar { bits: HALF_BITS }), voxel_size),
        y: product(sum(of_integer(c.y as int), Scalar { bits: HALF_BITS }), voxel_size),
    }
}

impl GridCoord {
    pub fn new(x: u32, y: u32) -> (r: Self)
        ensures
            r == (GridCoord { x, y }),
    {
        GridCoord { x, y }
    }

    pub fn center(self, voxel_size: Scalar) -> (r: Vec2)
        ensures
            r == cell_center(self, voxel_size),
    {
        let half = Scalar { bits: HALF_BITS };
        Vec2 {
            x: Scalar::from_u64(self.x as u64).plus(half).times(voxel_size),
            y: Scalar::from_u64(self.y as u64).plus(half).times(voxel_size),
        }
    }
}

/// A corner of the grid.
#[derive(Clone, Copy, Debug, PartialEq, Eq, Structural, PartialOrd, Ord, Hash)]
pub struct LatticePoint {
    pub x: u32,
    pub y: u32,
}

pub open spec fn point_position(p: LatticePoint, voxel_size: Scalar) -> Vec2 {
    Vec2 {
        x: product(of_integer(p.x as int), voxel_size),
        y: product(of_integer(p.y as int), voxel_size),
    }
}

/// Points are ordered by their first coordinate, then by their second.
pub open spec fn point_at_most(a: LatticePoint, b: LatticePoint) -> bool {
    a.x < b.x || (a.x == b.x && a.y <= b.y)
}

impl LatticePoint {
    pub fn new(x: u32, y: u32) -> (r: Self)
        ensures
            r == (LatticePoint { x, y }),
    {
        LatticePoint { x, y }
    }

    pub fn to_vec2(self, voxel_size: Scalar) -> (r: Vec2)
        ensures
            r == point_position(self, voxel_size),
    {
        Vec2 {
            x: Scalar::from_u64(self.x as u64).times(voxel_size),
            y: Scalar::from_u64(self.y as u64).times(voxel_size),
        }
    }
}

/// An edge between two grid corners, the lesser corner first.
#[derive(Clone, Copy, Debug, PartialEq, Eq, Structural, PartialOrd, Ord, Hash)]
pub struct InterfaceEdge {
    pub start: LatticePoint,
    pub end: LatticePoint,
}

/// The edge between two corners given in either order.
pub open spec fn edge_between(a: LatticePoint, b: LatticePoint) -> InterfaceEdge {
    if point_at_most(a, b) {
        InterfaceEdge { start: a, end: b }
    } else {
        InterfaceEdge { start: b, end: a }
    }
}

pub open spec fn edge_midpoint(e: InterfaceEdge, voxel_size: Scalar) -> Vec2 {
    vec_scaled(
        vec_sum(point_position(e.start, voxel_size), point_position(e.end, voxel_size)),
        Scalar { bits: HALF_BITS },
    )
}

/// The edges share a corner.
pub open spec fn edges_touch(a: InterfaceEdge, b: InterfaceEdge) -> bool {
    a.start == b.start || a.start == b.end || a.end == b.start || a.end == b.end
}

impl InterfaceEdge {
    pub fn new(a: LatticePoint, b: LatticePoint) -> (r: Self)
        ensures
            r == edge_between(a, b),
    {
        if a.x < b.x || (a.x == b.x && a.y <= b.y) {
            InterfaceEdge { start: a, end: b }
        } else {
            InterfaceEdge { start: b, end: a }
        }
    }

    pub fn midpoint(self, voxel_size: Scalar) -> (r: Vec2)
        ensures
            r == edge_midpoint(self, voxel_size),
    {
        self.start.to_vec2(voxel_size).plus(self.end.to_vec2(voxel_size)).scaled(
            Scalar { bits: HALF_BITS },
        )
    }

    pub fn touches(self, rhs: Self) -> (r: bool)
        ensures
            r == edges_touch(self, rhs),
    {
        self.start == rhs.start || self.start == rhs.end || self.end == rhs.start || self.end
            == rhs.end
    }
}

/// A rectangle of cells, both corners included.
#[derive(Clone, Copy, Debug, PartialEq, Eq, Structural)]
pub struct GridAabb {
    pub min: GridCoord,
    pub max: GridCoord,
}

/// An edge does not depend on the order in which its corners are given.
pub proof fn lemma_edge_between_symmetric(a: LatticePoint, b: LatticePoint)
    ensures
        edge_between(a, b) == edge_between(b, a),
        point_at_most(edge_between(a, b).start, edge_between(a, b).end),
{
}

} // verus!
