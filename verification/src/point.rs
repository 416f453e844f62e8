//! Points of the plane and the order in which the sweep line reaches them.

use vstd::prelude::*;

verus! {

/// A point of the plane.
///
/// Each coordinate is an ordinate: an integer that stands for a coordinate
/// value in such a way that equal values have equal ordinates and a smaller
/// value has a smaller ordinate. Nothing here does arithmetic on ordinates:
/// points are only compared.
#[derive(Clone, Copy, Debug, PartialEq, Eq, Structural)]
pub struct Point {
    pub x: i64,
    pub y: i64,
}

impl Point {
    /// Whether the sweep line reaches `self` strictly before `other`: the
    /// smaller `x` first and, on one vertical, the smaller `y` first.
    pub open spec fn precedes(self, other: Point) -> bool {
        self.x < other.x || (self.x == other.x && self.y < other.y)
    }

    pub fn new(x: i64, y: i64) -> (p: Point)
        ensures
            p == (Point { x, y }),
    {
        Point { x, y }
    }

    /// Decides `precedes`.
    pub fn is_before(&self, other: &Point) -> (b: bool)
        ensures
            b == self.precedes(*other),
    {
        self.x < other.x || (self.x == other.x && self.y < other.y)
    }
}

/// No point precedes itself, and of two points at most one precedes the
/// other.
pub proof fn lemma_precedes_is_strict(a: Point, b: Point)
    ensures
        !a.precedes(a),
        !(a.precedes(b) && b.precedes(a)),
{
}

/// Of two different points one precedes the other.
pub proof fn lemma_precedes_is_total(a: Point, b: Point)
    ensures
        a == b || a.precedes(b) || b.precedes(a),
{
}

/// What precedes a point precedes all that the point precedes.
pub proof fn lemma_precedes_is_transitive(a: Point, b: Point, c: Point)
    requires
        a.precedes(b),
        b.precedes(c),
    ensures
        a.precedes(c),
{
}

} // verus!
