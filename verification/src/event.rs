//! Sweep events: one record for each endpoint of each polygon edge.

use crate::point::Point;
use vstd::prelude::*;

verus! {

/// How an edge contributes to the result once overlaps have been classified.
#[derive(Clone, Copy, Debug, PartialEq, Eq, Structural)]
pub enum EdgeType {
    /// The edge overlaps no edge of the other polygon.
    Normal,
    /// The edge duplicates an overlapping edge that already stands for the
    /// shared boundary.
    NonContributing,
    /// The edge stands for an overlap that both polygons cross in the same
    /// direction.
    SameTransition,
    /// The edge stands for an overlap that the polygons cross in opposite
    /// directions.
    DifferentTransition,
}

/// One endpoint of one polygon edge.
///
/// The two events of an edge name each other in `other_event`, by the id
/// under which the event queue holds them.
#[derive(Clone, Copy, Debug, PartialEq, Eq)]
pub struct SweepEvent {
    /// Where this endpoint lies.
    pub point: Point,
    /// Whether the sweep line reaches this endpoint before the other one.
    pub is_left: bool,
    /// The id of the other endpoint, once it exists.
    pub other_event: Option<usize>,
    /// Whether the edge belongs to the subject polygon; otherwise to the clip
    /// polygon.
    pub is_subject: bool,
    pub edge_type: EdgeType,
    /// Whether crossing the edge upwards leaves its own polygon.
    pub in_out: bool,
    /// The same flag, taken from the closest edge of the other polygon.
    pub other_in_out: bool,
    /// Whether the edge is part of the result.
    pub in_result: bool,
}

/// What a `SweepEvent` states, with the id of the other endpoint as a
/// mathematical integer.
pub struct EventModel {
    pub point: Point,
    pub is_left: bool,
    pub other_event: Option<int>,
    pub is_subject: bool,
    pub edge_type: EdgeType,
    pub in_out: bool,
    pub other_in_out: bool,
    pub in_result: bool,
}

impl EventModel {
    /// An event as it is created: of normal type, with every flag of the
    /// sweep still unset.
    pub open spec fn fresh(
        point: Point,
        is_left: bool,
        other_event: Option<int>,
        is_subject: bool,
    ) -> EventModel {
        EventModel {
            point,
            is_left,
            other_event,
            is_subject,
            edge_type: EdgeType::Normal,
            in_out: false,
            other_in_out: false,
            in_result: false,
        }
    }
}

impl View for SweepEvent {
    type V = EventModel;

    open spec fn view(&self) -> EventModel {
        EventModel {
            point: self.point,
            is_left: self.is_left,
            other_event: match self.other_event {
                Some(id) => Some(id as int),
                None => None,
            },
            is_subject: self.is_subject,
            edge_type: self.edge_type,
            in_out: self.in_out,
            other_in_out: self.other_in_out,
            in_result: self.in_result,
        }
    }
}

impl SweepEvent {
    /// A new event of normal type, outside the result, with its in/out flags
    /// unset.
    pub fn new(point: Point, is_left: bool, other_event: Option<usize>, is_subject: bool) -> (e:
        SweepEvent)
        ensures
            e.point == point,
            e.is_left == is_left,
            e.other_event == other_event,
            e.is_subject == is_subject,
            e@ == EventModel::fresh(
                point,
                is_left,
                match other_event {
                    Some(id) => Some(id as int),
                    None => None,
                },
                is_subject,
            ),
    {
        SweepEvent {
            point,
            is_left,
            other_event,
            is_subject,
            edge_type: EdgeType::Normal,
            in_out: false,
            other_in_out: false,
            in_result: false,
        }
    }
}

} // verus!
