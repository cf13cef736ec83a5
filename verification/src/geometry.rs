//! The capabilities that the board needs from a plane of constant curvature.
//!
//! Lengths cross this interface as whole thousandths of the geometry's unit,
//! so that a tolerance is an exact quantity on both sides of it.

use vstd::prelude::*;

verus! {

/// Two candidate positions closer than this are one and the same board point.
pub const COINCIDENCE_TOLERANCE: u32 = 1;

/// A point found this close to the far end of a neighbor direction is a neighbor.
pub const LINK_TOLERANCE: u32 = 100;

/// A query position this close to a board point selects it.
pub const STONE_RADIUS: u32 = 400;

/// The cached relative transforms are rebuilt once the viewpoint has moved
/// farther than this from the floating origin.
pub const RECENTER_DISTANCE: u32 = 2000;

/// A position in the plane.
///
/// Every method computes the function that its `spec_` twin names: an
/// implementation is a pure function of its arguments.
pub trait Point: Copy {
    /// The origin of the plane.
    spec fn spec_zero() -> Self;

    /// Whether the geometric distance from `self` to `other` is at most
    /// `tolerance` thousandths of a unit.
    spec fn spec_within(self, other: Self, tolerance: u32) -> bool;

    /// The origin of the plane.
    fn zero() -> (p: Self)
        ensures
            p == Self::spec_zero(),
    ;

    /// Whether `other` lies within `tolerance` thousandths of a unit.
    fn within(self, other: Self, tolerance: u32) -> (near: bool)
        ensures
            near == self.spec_within(other, tolerance),
    ;
}

/// A rigid motion of the plane: a rotation composed with a translation.
///
/// Every method computes the function that its `spec_` twin names: an
/// implementation is a pure function of its arguments.
pub trait Spinor: Copy {
    type Point: Point;

    /// The neutral motion.
    spec fn spec_one() -> Self;

    /// Whether regular tiles of `sides` edges, `around_vertex` of them meeting
    /// at every corner, close up in this geometry.
    spec fn spec_tiling_closes(sides: u32, around_vertex: u32) -> bool;

    /// The translation by one edge of the tiling, `step` turns of
    /// `1 / around_vertex` of the full circle away from the first direction.
    spec fn spec_neighbor_direction(sides: u32, around_vertex: u32, step: u32) -> Self;

    /// The inverse motion.
    spec fn spec_reverse(self) -> Self;

    /// The motion that applies `rhs` first and `self` second.
    spec fn spec_compose(self, rhs: Self) -> Self;

    /// The same motion, scaled back to unit magnitude.
    spec fn spec_normalize(self) -> Self;

    /// The image of `v` under the motion.
    spec fn spec_apply(self, v: Self::Point) -> Self::Point;

    /// The neutral motion.
    fn one() -> (s: Self)
        ensures
            s == Self::spec_one(),
    ;

    /// Whether the tiling closes up in this geometry.
    fn tiling_closes(sides: u32, around_vertex: u32) -> (closes: bool)
        ensures
            closes == Self::spec_tiling_closes(sides, around_vertex),
    ;

    /// The translation by one edge of a tiling that closes, in the
    /// direction of the given step.
    fn neighbor_direction(sides: u32, around_vertex: u32, step: u32) -> (d: Self)
        requires
            Self::spec_tiling_closes(sides, around_vertex),
            step < around_vertex,
        ensures
            d == Self::spec_neighbor_direction(sides, around_vertex, step),
    ;

    /// The inverse motion.
    fn reverse(&self) -> (r: Self)
        ensures
            r == self.spec_reverse(),
    ;

    /// The motion that applies `rhs` first and `self` second.
    fn compose(self, rhs: Self) -> (c: Self)
        ensures
            c == self.spec_compose(rhs),
    ;

    /// Scales the motion back to unit magnitude.
    fn normalize(&mut self)
        ensures
            *final(self) == old(self).spec_normalize(),
    ;

    /// The image of `v` under the motion.
    fn apply(&self, v: Self::Point) -> (p: Self::Point)
        ensures
            p == self.spec_apply(v),
    ;
}

/// Where a motion puts the origin.
pub open spec fn origin_image<S: Spinor>(transform: S) -> S::Point {
    transform.spec_apply(S::Point::spec_zero())
}

/// The shape of a regular tiling and the size of the board cut from it.
#[derive(Clone, Copy, Debug)]
pub struct TilingParameters {
    /// Points along one edge of the board.
    pub edge_count: u32,
    /// Edges of one tile.
    pub sides: u32,
    /// Tiles that meet at one corner.
    pub around_vertex: u32,
}

impl TilingParameters {
    pub fn new(edge_count: u32, sides: u32, around_vertex: u32) -> (params: TilingParameters)
        ensures
            params.edge_count == edge_count,
            params.sides == sides,
            params.around_vertex == around_vertex,
    {
        TilingParameters { edge_count, sides, around_vertex }
    }
}

} // verus!
