//! Resolving the meeting of two edges that have become neighbours on the
//! sweep line.

use crate::divide_segment::{
    divide,
    divide_segment,
    lemma_divide_only_adds,
    lemma_divide_rebuilds_edge,
};
use crate::event::EdgeType;
use crate::intersection::LineIntersection;
use crate::outcomes::{grown, lemma_resolution_only_adds};
use crate::point::Point;
use crate::queue::{EventQueue, QueueModel};
use vstd::prelude::*;

verus! {

/// Whether both events know their other endpoints.
pub open spec fn both_edges_known(q: QueueModel, se1: int, se2: int) -> bool {
    q.has_other(se1) && q.has_other(se2)
}

/// Whether the two edges start at one point and end at one point.
pub open spec fn same_ends(q: QueueModel, se1: int, se2: int) -> bool {
    q.start(se1) == q.start(se2) && q.end(se1) == q.end(se2)
}

/// Whether the two edges belong to different polygons.
pub open spec fn of_different_polygons(q: QueueModel, se1: int, se2: int) -> bool {
    q.events[se1].is_subject != q.events[se2].is_subject
}

/// Whether the two edges have a stretch in common that is more than a point,
/// as far as the order of their endpoints tells: each edge starts before
/// either of them ends.
pub open spec fn share_a_stretch(q: QueueModel, se1: int, se2: int) -> bool {
    &&& q.start(se1).precedes(q.end(se1))
    &&& q.start(se1).precedes(q.end(se2))
    &&& q.start(se2).precedes(q.end(se1))
    &&& q.start(se2).precedes(q.end(se2))
}

/// Whether the finding is one that can be resolved: an overlap of edges of
/// different polygons must be one in which the edges share a stretch. Any
/// other finding can be resolved as it is.
pub open spec fn resolvable(q: QueueModel, se1: int, se2: int, found: LineIntersection) -> bool {
    found is Overlap && both_edges_known(q, se1, se2) && of_different_polygons(q, se1, se2)
        ==> share_a_stretch(q, se1, se2)
}

/// The queue after the edge of `se` has been cut at `p`, unless `p` is one
/// of the edge's endpoints.
pub open spec fn cut_unless_end(q: QueueModel, se: int, p: Point) -> QueueModel {
    if p != q.start(se) && p != q.end(se) {
        divide(q, se, p)
    } else {
        q
    }
}

/// The type that records whether the polygons of the two edges cross their
/// overlap in the same direction.
pub open spec fn transition(q: QueueModel, se1: int, se2: int) -> EdgeType {
    if q.events[se1].in_out == q.events[se2].in_out {
        EdgeType::SameTransition
    } else {
        EdgeType::DifferentTransition
    }
}

/// The queue after two overlapping edges that start at one point have been
/// typed: the second no longer contributes, and the first records whether
/// the two polygons cross the overlap in the same direction. Edges that
/// start at different points keep their types.
pub open spec fn overlap_typed(q: QueueModel, se1: int, se2: int) -> QueueModel {
    if q.start(se1) == q.start(se2) {
        q.classify(se2, EdgeType::NonContributing).classify(se1, transition(q, se1, se2))
    } else {
        q
    }
}

/// Of two edges, the one that starts first; the second where neither does.
pub open spec fn starting_first(q: QueueModel, se1: int, se2: int) -> int {
    if q.start(se1).precedes(q.start(se2)) {
        se1
    } else {
        se2
    }
}

/// Of two edges, the one that ends last; the first where neither does.
pub open spec fn ending_last(q: QueueModel, se1: int, se2: int) -> int {
    if q.end(se1).precedes(q.end(se2)) {
        se2
    } else {
        se1
    }
}

/// Of two events, the one that is not `se`.
pub open spec fn other_of_two(se: int, se1: int, se2: int) -> int {
    if se == se1 {
        se2
    } else {
        se1
    }
}

/// The queue after two overlapping edges have been cut at each other's
/// endpoints: where the starts differ, the edge that starts first is cut
/// where the other starts; where the ends differ, the edge that ends last,
/// or what the first cut has left of it, is cut where the other ends.
pub open spec fn overlap_cut(q: QueueModel, se1: int, se2: int) -> QueueModel {
    let first = starting_first(q, se1, se2);
    let longer = ending_last(q, se1, se2);
    let starts_differ = q.start(se1) != q.start(se2);
    let head_cut = if starts_differ {
        divide(q, first, q.start(other_of_two(first, se1, se2)))
    } else {
        q
    };
    let rest = if starts_differ && longer == first {
        q.events.len() as int + 1
    } else {
        longer
    };
    if q.end(se1) != q.end(se2) {
        divide(head_cut, rest, q.end(other_of_two(longer, se1, se2)))
    } else {
        head_cut
    }
}

/// The queue after the meeting of the edges of `se1` and `se2`, which the
/// predicate has found to be `found`, has been resolved.
pub open spec fn resolved(q: QueueModel, se1: int, se2: int, found: LineIntersection) -> QueueModel {
    if !both_edges_known(q, se1, se2) {
        q
    } else {
        match found {
            LineIntersection::Disjoint => q,
            LineIntersection::Point(p) => if same_ends(q, se1, se2) {
                q
            } else {
                cut_unless_end(cut_unless_end(q, se1, p), se2, p)
            },
            LineIntersection::Overlap(_, _) => if of_different_polygons(q, se1, se2) {
                overlap_cut(overlap_typed(q, se1, se2), se1, se2)
            } else {
                q
            },
        }
    }
}

/// What the resolution of a meeting tells the sweep: 0 where nothing was
/// done, 1 where a crossing was resolved, 2 where an overlap of edges that
/// start at one point was resolved, 3 for any other overlap.
pub open spec fn action_code(q: QueueModel, se1: int, se2: int, found: LineIntersection) -> u8 {
    if !both_edges_known(q, se1, se2) {
        0
    } else {
        match found {
            LineIntersection::Disjoint => 0,
            LineIntersection::Point(_) => if same_ends(q, se1, se2) {
                0
            } else {
                1
            },
            LineIntersection::Overlap(_, _) => if !of_different_polygons(q, se1, se2) {
                0
            } else if q.start(se1) == q.start(se2) {
                2
            } else {
                3
            },
        }
    }
}

/// Resolves the meeting of the edges of `se1` and `se2`, of which the
/// geometric predicate has found `found`.
///
/// A crossing cuts each edge at the point, unless the point is one of the
/// edge's endpoints. An overlap of edges of different polygons cuts each
/// edge at the other's endpoints and, where the edges start at one point,
/// types them. Nothing is done where an event lacks its other endpoint,
/// where the edges do not meet, where they meet in a point and have both
/// endpoints in common, or where edges of one polygon overlap.
///
/// An overlap of edges of different polygons must be a true one: each edge
/// starts before either of them ends.
pub fn possible_intersection(
    se1: usize,
    se2: usize,
    found: LineIntersection,
    queue: &mut EventQueue,
) -> (code: u8)
    requires
        old(queue).wf(),
        old(queue)@.has(se1 as int),
        old(queue)@.has(se2 as int),
        resolvable(old(queue)@, se1 as int, se2 as int, found),
    ensures
        final(queue).wf(),
        final(queue)@ == resolved(old(queue)@, se1 as int, se2 as int, found),
        code == action_code(old(queue)@, se1 as int, se2 as int, found),
        found is Disjoint ==> code == 0,
        code == 0 ==> final(queue)@ == old(queue)@,
        grown(old(queue)@, final(queue)@),
        found is Overlap && both_edges_known(old(queue)@, se1 as int, se2 as int)
            && of_different_polygons(old(queue)@, se1 as int, se2 as int) && old(queue)@.start(
            se1 as int,
        ) == old(queue)@.start(se2 as int) ==> {
            &&& code == 2
            &&& final(queue)@.events[se2 as int].edge_type == EdgeType::NonContributing
            &&& final(queue)@.events[se1 as int].edge_type == transition(
                old(queue)@,
                se1 as int,
                se2 as int,
            )
        },
{
    proof {
        lemma_resolution_only_adds(queue@, se1 as int, se2 as int, found);
    }
    let (other1, other2) = match (queue.other_event(se1), queue.other_event(se2)) {
        (Some(other1), Some(other2)) => (other1, other2),
        _ => {
            return 0;
        },
    };
    match found {
        LineIntersection::Disjoint => 0,
        LineIntersection::Point(inter) => {
            if queue.point(se1) == queue.point(se2) && queue.point(other1) == queue.point(other2) {
                // the edges meet where both of them start and end
                return 0;
            }
            cut_both_unless_end(se1, se2, inter, queue);
            1
        },
        LineIntersection::Overlap(inter_a, inter_b) => {
            if queue.event(se1).is_subject == queue.event(se2).is_subject {
                // edges of one polygon overlap
                return 0;
            }
            let left_coincide = queue.point(se1) == queue.point(se2);
            proof {
                if left_coincide {
                    lemma_common_start_is_typed(queue@, se1 as int, se2 as int, inter_a, inter_b);
                }
            }
            resolve_overlap(se1, se2, queue);
            if left_coincide {
                2
            } else {
                3
            }
        },
    }
}

/// Decides whether the finding is one that `possible_intersection` can
/// resolve.
pub fn is_resolvable(se1: usize, se2: usize, found: LineIntersection, queue: &EventQueue) -> (ok: bool)
    requires
        queue.wf(),
        queue@.has(se1 as int),
        queue@.has(se2 as int),
    ensures
        ok == resolvable(queue@, se1 as int, se2 as int, found),
{
    match (found, queue.other_event(se1), queue.other_event(se2)) {
        (LineIntersection::Overlap(_, _), Some(other1), Some(other2)) => {
            if queue.event(se1).is_subject == queue.event(se2).is_subject {
                return true;
            }
            let start1 = queue.point(se1);
            let start2 = queue.point(se2);
            let end1 = queue.point(other1);
            let end2 = queue.point(other2);
            start1.is_before(&end1) && start1.is_before(&end2) && start2.is_before(&end1)
                && start2.is_before(&end2)
        },
        _ => true,
    }
}

/// Cuts each of the two edges at `inter`, unless `inter` is one of the
/// edge's endpoints.
fn cut_both_unless_end(se1: usize, se2: usize, inter: Point, queue: &mut EventQueue)
    requires
        old(queue).wf(),
        old(queue)@.has(se1 as int),
        old(queue)@.has(se2 as int),
        both_edges_known(old(queue)@, se1 as int, se2 as int),
    ensures
        final(queue).wf(),
        final(queue)@ == cut_unless_end(
            cut_unless_end(old(queue)@, se1 as int, inter),
            se2 as int,
            inter,
        ),
{
    let end1 = queue.point(queue.other_event(se1).unwrap());
    if queue.point(se1) != inter && end1 != inter {
        proof {
            lemma_divide_only_adds(queue@, se1 as int, inter);
        }
        divide_segment(se1, inter, queue);
    }
    let end2 = queue.point(queue.other_event(se2).unwrap());
    if queue.point(se2) != inter && end2 != inter {
        divide_segment(se2, inter, queue);
    }
}

/// Types and cuts two overlapping edges: where they start at one point,
/// the second no longer contributes and the first records the direction;
/// where they start or end at different points, each is cut where the other
/// starts or ends inside it.
fn resolve_overlap(se1: usize, se2: usize, queue: &mut EventQueue)
    requires
        old(queue).wf(),
        old(queue)@.has(se1 as int),
        old(queue)@.has(se2 as int),
        both_edges_known(old(queue)@, se1 as int, se2 as int),
        share_a_stretch(old(queue)@, se1 as int, se2 as int),
    ensures
        final(queue).wf(),
        final(queue)@ == overlap_cut(
            overlap_typed(old(queue)@, se1 as int, se2 as int),
            se1 as int,
            se2 as int,
        ),
{
    let other1 = queue.other_event(se1).unwrap();
    let other2 = queue.other_event(se2).unwrap();
    let start1 = queue.point(se1);
    let start2 = queue.point(se2);
    let end1 = queue.point(other1);
    let end2 = queue.point(other2);
    let left_coincide = start1 == start2;
    let right_coincide = end1 == end2;
    let (shorter_end, longer) = if end1.is_before(&end2) {
        (end1, se2)
    } else {
        (end2, se1)
    };
    if left_coincide {
        // both edges are equal or start at the same point
        let same_direction = queue.event(se1).in_out == queue.event(se2).in_out;
        queue.set_edge_type(se2, EdgeType::NonContributing);
        if same_direction {
            queue.set_edge_type(se1, EdgeType::SameTransition);
        } else {
            queue.set_edge_type(se1, EdgeType::DifferentTransition);
        }
        assert(queue@ == overlap_typed(old(queue)@, se1 as int, se2 as int));
        if !right_coincide {
            divide_segment(longer, shorter_end, queue);
        }
        return ;
    }
    let (first, first_end, last, last_start) = if start1.is_before(&start2) {
        (se1, other1, se2, start2)
    } else {
        (se2, other2, se1, start1)
    };
    proof {
        lemma_divide_rebuilds_edge(queue@, first as int, last_start);
    }
    if right_coincide {
        // the edges end at the same point
        divide_segment(first, last_start, queue);
        return ;
    }
    if first != longer {
        // neither edge holds the whole of the other
        divide_segment(first, last_start, queue);
        divide_segment(last, shorter_end, queue);
        return ;
    }
    // the edge that starts first holds the whole of the other

    divide_segment(first, last_start, queue);
    let rest = queue.other_event(first_end).unwrap();
    divide_segment(rest, shorter_end, queue);
}

/// Two overlapping edges of different polygons that start at one point are
/// reported as 2. The second no longer contributes, and the first records
/// whether the polygons cross the overlap in the same direction. The cuts
/// do not change these types.
pub proof fn lemma_common_start_is_typed(q: QueueModel, se1: int, se2: int, a: Point, b: Point)
    requires
        q.wf(),
        q.has(se1),
        q.has(se2),
        both_edges_known(q, se1, se2),
        of_different_polygons(q, se1, se2),
        q.start(se1) == q.start(se2),
    ensures
        ({
            let r = resolved(q, se1, se2, LineIntersection::Overlap(a, b));
            &&& action_code(q, se1, se2, LineIntersection::Overlap(a, b)) == 2
            &&& r.events[se2].edge_type == EdgeType::NonContributing
            &&& r.events[se1].edge_type == transition(q, se1, se2)
            &&& r.events[se1].edge_type == EdgeType::SameTransition <==> q.events[se1].in_out
                == q.events[se2].in_out
        }),
{
    let t = overlap_typed(q, se1, se2);
    if t.end(se1) != t.end(se2) {
        let longer = ending_last(t, se1, se2);
        lemma_divide_only_adds(t, longer, t.end(other_of_two(longer, se1, se2)));
    }
}

} // verus!
