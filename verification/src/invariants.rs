//! What holds of the events before and after every resolution.

use crate::divide_segment::{
    divide,
    lemma_divide_keeps_edges_paired,
    lemma_divide_keeps_left_first,
    lemma_divide_only_adds,
    lemma_divide_rebuilds_edge,
};
use crate::event::EdgeType;
use crate::intersection::LineIntersection;
use crate::point::Point;
use crate::possible_intersection::{
    resolvable,
    both_edges_known,
    cut_unless_end,
    ending_last,
    of_different_polygons,
    other_of_two,
    overlap_cut,
    overlap_typed,
    resolved,
    same_ends,
    share_a_stretch,
    starting_first,
};
use crate::queue::QueueModel;
use vstd::prelude::*;

verus! {

/// Whether a crossing point, where the finding is one, lies before the
/// start of neither edge.
pub open spec fn not_before_start(q: QueueModel, se1: int, se2: int, found: LineIntersection) -> bool {
    match found {
        LineIntersection::Point(p) => !p.precedes(q.start(se1)) && !p.precedes(q.start(se2)),
        _ => true,
    }
}

/// In a queue whose events are paired, the other endpoint of an event
/// names the event in turn and lies at another point.
proof fn lemma_paired_edge(q: QueueModel, id: int)
    requires
        q.edges_paired(),
        q.has(id),
        q.has_other(id),
    ensures
        q.has(q.other(id)),
        q.events[q.other(id)].other_event == Some(id),
        q.start(id) != q.end(id),
        q.other(id) != id,
{
    reveal(QueueModel::edges_paired);
}

/// In a queue whose left flags are in place, an event of an edge is a left
/// one exactly if its point precedes that of its other endpoint.
proof fn lemma_left_flag(q: QueueModel, id: int)
    requires
        q.left_first(),
        q.has(id),
        q.has_other(id),
    ensures
        q.events[id].is_left <==> q.start(id).precedes(q.end(id)),
{
    reveal(QueueModel::left_first);
}

/// A change of one event's edge type keeps the events paired and the left
/// flags in place.
proof fn lemma_classify_keeps_edges(q: QueueModel, id: int, edge_type: EdgeType)
    requires
        q.wf(),
        q.has(id),
    ensures
        q.classify(id, edge_type).wf(),
        q.edges_paired() ==> q.classify(id, edge_type).edges_paired(),
        q.left_first() ==> q.classify(id, edge_type).left_first(),
{
    reveal(QueueModel::edges_paired);
    reveal(QueueModel::left_first);
    let t = q.classify(id, edge_type);
    assert forall|x: int| q.has(x) implies (#[trigger] t.events[x]).point == q.events[x].point
        && t.events[x].other_event == q.events[x].other_event && t.events[x].is_left
        == q.events[x].is_left by {}
    if q.left_first() {
        assert forall|x: int|
            t.has(x) && (#[trigger] t.events[x]).other_event is Some implies (t.events[x].is_left
            <==> t.start(x).precedes(t.end(x))) by {
            let o = q.other(x);
            assert(q.has(o));
            assert(t.events[o].point == q.events[o].point);
        }
    }
}

/// Typing two edges keeps the events paired and the left flags in place,
/// and leaves both edges where they are.
proof fn lemma_typing_keeps_edges(q: QueueModel, se1: int, se2: int)
    requires
        q.wf(),
        q.has(se1),
        q.has(se2),
        both_edges_known(q, se1, se2),
    ensures
        ({
            let t = overlap_typed(q, se1, se2);
            &&& t.wf()
            &&& t.events.len() == q.events.len()
            &&& q.edges_paired() ==> t.edges_paired()
            &&& q.left_first() ==> t.left_first()
            &&& both_edges_known(t, se1, se2)
            &&& t.span(se1) == q.span(se1)
            &&& t.span(se2) == q.span(se2)
            &&& t.events[se1].is_left == q.events[se1].is_left
            &&& t.events[se2].is_left == q.events[se2].is_left
        }),
{
    if q.start(se1) == q.start(se2) {
        let m = q.classify(se2, EdgeType::NonContributing);
        lemma_classify_keeps_edges(q, se2, EdgeType::NonContributing);
        lemma_classify_keeps_edges(m, se1, EdgeType::SameTransition);
        lemma_classify_keeps_edges(m, se1, EdgeType::DifferentTransition);
        assert(q.has(q.other(se1)) && q.has(q.other(se2)));
    }
}

/// Cutting two overlapping edges that share a stretch keeps the events
/// paired and the left flags in place.
proof fn lemma_overlap_cut_keeps_edges(q: QueueModel, se1: int, se2: int)
    requires
        q.wf(),
        q.edges_paired(),
        q.has(se1),
        q.has(se2),
        both_edges_known(q, se1, se2),
        share_a_stretch(q, se1, se2),
    ensures
        ({
            let r = overlap_cut(q, se1, se2);
            &&& r.wf()
            &&& r.edges_paired()
            &&& q.left_first() ==> r.left_first()
        }),
{
    let first = starting_first(q, se1, se2);
    let last = other_of_two(first, se1, se2);
    let longer = ending_last(q, se1, se2);
    let shorter = other_of_two(longer, se1, se2);
    let starts_differ = q.start(se1) != q.start(se2);
    let n = q.events.len() as int;
    let head_cut = if starts_differ {
        divide(q, first, q.start(last))
    } else {
        q
    };
    let rest = if starts_differ && longer == first {
        n + 1
    } else {
        longer
    };
    lemma_paired_edge(q, se1);
    lemma_paired_edge(q, se2);
    if q.left_first() {
        lemma_left_flag(q, se1);
        lemma_left_flag(q, se2);
    }
    if starts_differ {
        assert(q.start(first).precedes(q.start(last)));
        lemma_divide_rebuilds_edge(q, first, q.start(last));
        lemma_divide_keeps_edges_paired(q, first, q.start(last));
        if q.left_first() {
            lemma_divide_keeps_left_first(q, first, q.start(last));
        }
    }
    assert(head_cut.wf() && head_cut.edges_paired());
    assert(q.left_first() ==> head_cut.left_first());
    if q.end(se1) != q.end(se2) {
        assert(q.end(shorter).precedes(q.end(longer)));
        if starts_differ && longer != first {
            assert(longer != q.other(first));
            assert(q.other(longer) != first);
            assert(q.other(longer) != q.other(first));
            assert(head_cut.events[longer] == q.events[longer]);
            assert(head_cut.events[q.other(longer)] == q.events[q.other(longer)]);
        }
        assert(head_cut.has(rest) && head_cut.has_other(rest));
        assert(head_cut.start(rest).precedes(q.end(shorter)));
        assert(head_cut.end(rest) == q.end(longer));
        assert(q.left_first() ==> head_cut.events[rest].is_left);
        lemma_divide_only_adds(head_cut, rest, q.end(shorter));
        lemma_divide_keeps_edges_paired(head_cut, rest, q.end(shorter));
        if q.left_first() {
            lemma_divide_keeps_left_first(head_cut, rest, q.end(shorter));
        }
    }
}

/// A resolution keeps the events paired into edges of some length.
pub proof fn lemma_resolution_keeps_edges_paired(
    q: QueueModel,
    se1: int,
    se2: int,
    found: LineIntersection,
)
    requires
        q.wf(),
        q.edges_paired(),
        q.has(se1),
        q.has(se2),
        resolvable(q, se1, se2, found),
    ensures
        resolved(q, se1, se2, found).wf(),
        resolved(q, se1, se2, found).edges_paired(),
{
    if both_edges_known(q, se1, se2) {
        match found {
            LineIntersection::Disjoint => {},
            LineIntersection::Point(p) => {
                if !same_ends(q, se1, se2) {
                    lemma_cuts_keep_edges(q, se1, se2, p);
                }
            },
            LineIntersection::Overlap(_, _) => {
                if of_different_polygons(q, se1, se2) {
                    let t = overlap_typed(q, se1, se2);
                    lemma_typing_keeps_edges(q, se1, se2);
                    assert(share_a_stretch(t, se1, se2));
                    lemma_overlap_cut_keeps_edges(t, se1, se2);
                }
            },
        }
    }
}

/// A resolution of the meeting of two left events keeps the left flag of
/// every edge on the endpoint that the sweep line reaches first, provided
/// that a crossing point does not lie before the start of either edge.
pub proof fn lemma_resolution_keeps_left_first(
    q: QueueModel,
    se1: int,
    se2: int,
    found: LineIntersection,
)
    requires
        q.wf(),
        q.edges_paired(),
        q.left_first(),
        q.has(se1),
        q.has(se2),
        q.events[se1].is_left,
        q.events[se2].is_left,
        resolvable(q, se1, se2, found),
        not_before_start(q, se1, se2, found),
    ensures
        resolved(q, se1, se2, found).left_first(),
{
    if both_edges_known(q, se1, se2) {
        match found {
            LineIntersection::Disjoint => {},
            LineIntersection::Point(p) => {
                if !same_ends(q, se1, se2) {
                    lemma_cuts_keep_edges(q, se1, se2, p);
                }
            },
            LineIntersection::Overlap(_, _) => {
                if of_different_polygons(q, se1, se2) {
                    let t = overlap_typed(q, se1, se2);
                    lemma_typing_keeps_edges(q, se1, se2);
                    assert(share_a_stretch(t, se1, se2));
                    lemma_overlap_cut_keeps_edges(t, se1, se2);
                }
            },
        }
    }
}

/// Cutting two edges at a crossing point keeps the events paired and,
/// where the two events given are left ones and the point lies before the
/// start of neither edge, the left flags in place.
proof fn lemma_cuts_keep_edges(q: QueueModel, se1: int, se2: int, p: Point)
    requires
        q.wf(),
        q.edges_paired(),
        q.has(se1),
        q.has(se2),
        both_edges_known(q, se1, se2),
    ensures
        ({
            let r = cut_unless_end(cut_unless_end(q, se1, p), se2, p);
            &&& r.wf()
            &&& r.edges_paired()
            &&& q.left_first() && q.events[se1].is_left && q.events[se2].is_left && !p.precedes(
                q.start(se1),
            ) && !p.precedes(q.start(se2)) ==> r.left_first()
        }),
{
    let flags = q.left_first() && q.events[se1].is_left && q.events[se2].is_left && !p.precedes(
        q.start(se1),
    ) && !p.precedes(q.start(se2));
    let m = cut_unless_end(q, se1, p);
    lemma_paired_edge(q, se1);
    if p != q.start(se1) && p != q.end(se1) {
        lemma_divide_only_adds(q, se1, p);
        lemma_divide_keeps_edges_paired(q, se1, p);
        if flags {
            lemma_divide_keeps_left_first(q, se1, p);
            lemma_divide_rebuilds_edge(q, se1, p);
            lemma_left_flag(q, se1);
            lemma_paired_edge(q, q.other(se1));
            lemma_left_flag(q, q.other(se1));
            assert(se2 != q.other(se1));
            assert(m.events[se2].is_left);
        }
    }
    assert(m.wf() && m.edges_paired() && m.has(se2) && m.has_other(se2));
    assert(m.start(se2) == q.start(se2));
    assert(flags ==> m.left_first() && m.events[se2].is_left);
    if p != m.start(se2) && p != m.end(se2) {
        lemma_divide_only_adds(m, se2, p);
        lemma_divide_keeps_edges_paired(m, se2, p);
        if flags {
            lemma_divide_keeps_left_first(m, se2, p);
        }
    }
}

} // verus!
