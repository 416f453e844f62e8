//! How two segments meet.

use crate::point::Point;
use vstd::prelude::*;

verus! {

/// The relation between two segments, as a geometric predicate finds it.
#[derive(Clone, Copy, Debug, PartialEq, Eq, Structural)]
pub enum LineIntersection {
    /// The segments do not meet.
    Disjoint,
    /// The segments meet in this one point, which may be an endpoint of
    /// either.
    Point(Point),
    /// The segments lie on one line and share the stretch between these two
    /// points.
    Overlap(Point, Point),
}

} // verus!
