//! Points of an elliptic curve in affine coordinates.

use vstd::prelude::*;
use crate::bigint::BigInt;
use crate::error::Error;

verus! {

/// A point as the contracts see it: coordinates over the mathematical
/// integers, or the point at infinity.
pub enum SpecPoint {
    /// The point with the coordinates `x` and `y`.
    Affine(int, int),
    /// The identity of the group law.
    Infinity,
}

/// A point of a curve: a pair of coordinates, or the point at infinity.
#[derive(Debug)]
pub enum Point {
    /// The point with the coordinates `x` and `y`.
    Coordinates(BigInt, BigInt),
    /// The identity of the group law.
    Infinity,
}

impl View for Point {
    type V = SpecPoint;

    open spec fn view(&self) -> SpecPoint {
        match self {
            Point::Coordinates(x, y) => SpecPoint::Affine(x@, y@),
            Point::Infinity => SpecPoint::Infinity,
        }
    }
}

/// What a result that holds a point stands for.
pub open spec fn result_view(r: Result<Point, Error>) -> Result<SpecPoint, Error> {
    match r {
        Ok(p) => Ok(p@),
        Err(e) => Err(e),
    }
}

impl PartialEq for Point {
    fn eq(&self, other: &Point) -> (r: bool) {
        self.equals(other)
    }
}

impl vstd::std_specs::cmp::PartialEqSpecImpl for Point {
    open spec fn obeys_eq_spec() -> bool {
        true
    }

    open spec fn eq_spec(&self, other: &Point) -> bool {
        self@ == other@
    }
}

impl Clone for Point {
    fn clone(&self) -> (r: Point)
        ensures
            r@ == self@,
    {
        self.duplicate()
    }
}

impl Point {
    /// A copy of this point.
    pub fn duplicate(&self) -> (r: Point)
        ensures
            r@ == self@,
    {
        match self {
            Point::Coordinates(x, y) => Point::Coordinates(x.duplicate(), y.duplicate()),
            Point::Infinity => Point::Infinity,
        }
    }

    /// Whether this is the point at infinity.
    pub fn is_infinity(&self) -> (r: bool)
        ensures
            r == (self@ == SpecPoint::Infinity),
    {
        match self {
            Point::Coordinates(_, _) => false,
            Point::Infinity => true,
        }
    }

    /// Whether the two points are the same: both at infinity, or with equal
    /// coordinates.
    pub fn equals(&self, other: &Point) -> (r: bool)
        ensures
            r == (self@ == other@),
    {
        match (self, other) {
            (Point::Infinity, Point::Infinity) => true,
            (Point::Coordinates(x1, y1), Point::Coordinates(x2, y2)) => {
                x1.equals(x2) && y1.equals(y2)
            },
            _ => false,
        }
    }
}

} // verus!
