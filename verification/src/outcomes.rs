//! What the resolution of a meeting leaves behind.

use crate::divide_segment::{divide, lemma_divide_only_adds, lemma_divide_rebuilds_edge};
use crate::intersection::LineIntersection;
use crate::point::{lemma_precedes_is_transitive, Point};
use crate::possible_intersection::{
    action_code,
    both_edges_known,
    cut_unless_end,
    ending_last,
    of_different_polygons,
    other_of_two,
    overlap_cut,
    overlap_typed,
    resolved,
    same_ends,
    share_a_stretch,
    starting_first,
};
use crate::queue::QueueModel;
use vstd::prelude::*;

verus! {

/// Whether the events of the two edges are four different events.
pub open spec fn four_events(q: QueueModel, se1: int, se2: int) -> bool {
    &&& se1 != se2
    &&& se1 != q.other(se1)
    &&& se1 != q.other(se2)
    &&& se2 != q.other(se1)
    &&& se2 != q.other(se2)
    &&& q.other(se1) != q.other(se2)
}

/// Whether `p` is neither endpoint of the edge of `se`.
pub open spec fn apart_from_ends(q: QueueModel, se: int, p: Point) -> bool {
    p != q.start(se) && p != q.end(se)
}

/// The number of new events that a cut of the edge of `se` at `p` creates:
/// two, or none where `p` is an endpoint of the edge.
pub open spec fn events_of_cut(q: QueueModel, se: int, p: Point) -> int {
    if apart_from_ends(q, se, p) {
        2
    } else {
        0
    }
}

/// Whether the edge that `se` had in `q` is in `r` either as it was, where
/// `p` is one of its endpoints, or in two parts that meet at `p`: one from
/// the edge's start to `p`, one from `p` to the edge's end, each with its
/// two events paired.
pub open spec fn rebuilt_around(q: QueueModel, r: QueueModel, se: int, p: Point) -> bool {
    let other = q.other(se);
    if apart_from_ends(q, se, p) {
        &&& r.has_other(se)
        &&& r.has_other(other)
        &&& r.paired(se, r.other(se))
        &&& r.paired(r.other(other), other)
        &&& !q.has(r.other(se))
        &&& !q.has(r.other(other))
        &&& r.span(se) == (q.start(se), p)
        &&& r.span(r.other(other)) == (p, q.end(se))
    } else {
        &&& r.events[se] == q.events[se]
        &&& r.events[other] == q.events[other]
    }
}

/// A resolution that reports 0 has changed nothing.
pub proof fn lemma_no_action_no_change(q: QueueModel, se1: int, se2: int, found: LineIntersection)
    requires
        action_code(q, se1, se2, found) == 0,
    ensures
        resolved(q, se1, se2, found) == q,
{
}

/// Whether `r` has grown out of `q` by additions alone: every event of `q`
/// is in `r` with its point, its polygon and its flags of the sweep, and
/// still knows its other endpoint if it did; what waited in `q` waits in
/// `r` in the same order; and behind it wait as many ids as `r` has more
/// events than `q`, each the id of one of these.
pub open spec fn grown(q: QueueModel, r: QueueModel) -> bool {
    &&& q.events.len() <= r.events.len()
    &&& r.pending.len() - q.pending.len() == r.events.len() - q.events.len()
    &&& forall|k: int| 0 <= k < q.pending.len() ==> #[trigger] r.pending[k] == q.pending[k]
    &&& forall|k: int|
        q.pending.len() <= k < r.pending.len() ==> q.events.len() <= #[trigger] r.pending[k]
            < r.events.len()
    &&& forall|id: int|
        q.has(id) ==> {
            &&& (#[trigger] r.events[id]).point == q.events[id].point
            &&& r.events[id].is_subject == q.events[id].is_subject
            &&& r.events[id].in_out == q.events[id].in_out
            &&& r.events[id].other_in_out == q.events[id].other_in_out
            &&& r.events[id].in_result == q.events[id].in_result
            &&& q.has_other(id) ==> r.has_other(id)
        }
}

/// Whether every event of `q` but the two given has its edge type in `r`.
pub open spec fn types_kept_but(q: QueueModel, r: QueueModel, se1: int, se2: int) -> bool {
    forall|id: int|
        q.has(id) && id != se1 && id != se2 ==> (#[trigger] r.events[id]).edge_type
            == q.events[id].edge_type
}

/// A queue has grown out of itself.
proof fn lemma_grown_from_itself(q: QueueModel)
    ensures
        grown(q, q),
        forall|se1: int, se2: int| types_kept_but(q, q, se1, se2),
{
}

/// What has grown out of a queue that has grown out of another has grown
/// out of that one.
proof fn lemma_grown_twice(q: QueueModel, m: QueueModel, r: QueueModel, se1: int, se2: int)
    requires
        grown(q, m),
        grown(m, r),
        types_kept_but(q, m, se1, se2),
        forall|id: int| m.has(id) ==> (#[trigger] r.events[id]).edge_type == m.events[id].edge_type,
    ensures
        grown(q, r),
        types_kept_but(q, r, se1, se2),
{
    assert forall|id: int| q.has(id) implies {
        &&& (#[trigger] r.events[id]).point == q.events[id].point
        &&& r.events[id].is_subject == q.events[id].is_subject
        &&& r.events[id].in_out == q.events[id].in_out
        &&& r.events[id].other_in_out == q.events[id].other_in_out
        &&& r.events[id].in_result == q.events[id].in_result
        &&& q.has_other(id) ==> r.has_other(id)
    } by {
        assert(m.has(id));
        assert(m.events[id].point == q.events[id].point);
    }
    assert forall|k: int| q.pending.len() <= k < r.pending.len() implies q.events.len()
        <= #[trigger] r.pending[k] < r.events.len() by {
        if k < m.pending.len() {
            assert(r.pending[k] == m.pending[k]);
        }
    }
    assert forall|k: int| 0 <= k < q.pending.len() implies #[trigger] r.pending[k]
        == q.pending[k] by {
        assert(r.pending[k] == m.pending[k]);
    }
}

/// A cut, made or left out, lets the queue grow by two events or by none,
/// and changes no edge type.
proof fn lemma_cut_grows(q: QueueModel, se: int, p: Point)
    requires
        q.wf(),
        q.has(se),
        q.has_other(se),
    ensures
        ({
            let d = cut_unless_end(q, se, p);
            &&& d.wf()
            &&& grown(q, d)
            &&& d.events.len() == q.events.len() + events_of_cut(q, se, p)
            &&& forall|id: int|
                q.has(id) ==> (#[trigger] d.events[id]).edge_type == q.events[id].edge_type
        }),
{
    if apart_from_ends(q, se, p) {
        lemma_divide_only_adds(q, se, p);
    }
}

/// A resolution only adds: it creates no, two or four events, lets exactly
/// the new events wait behind those that waited before, and leaves to every
/// event that was there its point, its polygon and its flags of the sweep.
/// The edge type changes at most on the two events given.
pub proof fn lemma_resolution_only_adds(q: QueueModel, se1: int, se2: int, found: LineIntersection)
    requires
        q.wf(),
        q.has(se1),
        q.has(se2),
    ensures
        ({
            let r = resolved(q, se1, se2, found);
            let made = r.events.len() - q.events.len();
            &&& r.wf()
            &&& grown(q, r)
            &&& types_kept_but(q, r, se1, se2)
            &&& made == 0 || made == 2 || made == 4
        }),
{
    let r = resolved(q, se1, se2, found);
    lemma_grown_from_itself(q);
    if both_edges_known(q, se1, se2) {
        match found {
            LineIntersection::Disjoint => {},
            LineIntersection::Point(p) => {
                if !same_ends(q, se1, se2) {
                    let m = cut_unless_end(q, se1, p);
                    lemma_cut_grows(q, se1, p);
                    lemma_cut_grows(m, se2, p);
                    assert(r == cut_unless_end(m, se2, p));
                    lemma_grown_twice(q, m, r, se1, se2);
                }
            },
            LineIntersection::Overlap(_, _) => {
                if of_different_polygons(q, se1, se2) {
                    let t = overlap_typed(q, se1, se2);
                    lemma_typing_grows(q, se1, se2);
                    lemma_overlap_cut_grows(t, se1, se2);
                    assert(r == overlap_cut(t, se1, se2));
                    lemma_grown_twice(q, t, r, se1, se2);
                }
            },
        }
    }
}

/// Typing two overlapping edges changes the edge type of the two events
/// given, and nothing else.
proof fn lemma_typing_grows(q: QueueModel, se1: int, se2: int)
    requires
        q.wf(),
        q.has(se1),
        q.has(se2),
    ensures
        ({
            let t = overlap_typed(q, se1, se2);
            &&& t.wf()
            &&& grown(q, t)
            &&& t.events.len() == q.events.len()
            &&& types_kept_but(q, t, se1, se2)
            &&& forall|id: int|
                q.has(id) ==> (#[trigger] t.events[id]).other_event == q.events[id].other_event
        }),
{
}

/// Cutting two overlapping edges at each other's endpoints lets the queue
/// grow by no, two or four events, and changes no edge type.
proof fn lemma_overlap_cut_grows(q: QueueModel, se1: int, se2: int)
    requires
        q.wf(),
        q.has(se1),
        q.has(se2),
        both_edges_known(q, se1, se2),
    ensures
        ({
            let r = overlap_cut(q, se1, se2);
            let made = r.events.len() - q.events.len();
            &&& r.wf()
            &&& grown(q, r)
            &&& made == 0 || made == 2 || made == 4
            &&& forall|id: int|
                q.has(id) ==> (#[trigger] r.events[id]).edge_type == q.events[id].edge_type
        }),
{
    let first = starting_first(q, se1, se2);
    let longer = ending_last(q, se1, se2);
    let starts_differ = q.start(se1) != q.start(se2);
    let at = q.start(other_of_two(first, se1, se2));
    let head_cut = if starts_differ {
        divide(q, first, at)
    } else {
        q
    };
    let rest = if starts_differ && longer == first {
        q.events.len() as int + 1
    } else {
        longer
    };
    lemma_grown_from_itself(q);
    if starts_differ {
        lemma_divide_only_adds(q, first, at);
    }
    assert(head_cut.wf() && grown(q, head_cut));
    assert(head_cut.has(rest) && head_cut.has_other(rest));
    if q.end(se1) != q.end(se2) {
        let end = q.end(other_of_two(longer, se1, se2));
        lemma_divide_only_adds(head_cut, rest, end);
        let r = divide(head_cut, rest, end);
        assert(grown(head_cut, r));
        lemma_grown_twice(q, head_cut, r, se1, se2);
        assert forall|id: int| q.has(id) implies (#[trigger] r.events[id]).edge_type
            == q.events[id].edge_type by {
            assert(head_cut.has(id));
            assert(head_cut.events[id].edge_type == q.events[id].edge_type);
        }
    }
}

/// A crossing of two edges that do not have both endpoints in common is
/// reported as 1. Each edge of which the crossing point is no endpoint is
/// cut there, so that zero, two or four events are created and wait to be
/// processed, and the parts of each edge, put end to end, are the edge.
pub proof fn lemma_crossing_rebuilds_both_edges(q: QueueModel, se1: int, se2: int, p: Point)
    requires
        q.wf(),
        q.has(se1),
        q.has(se2),
        both_edges_known(q, se1, se2),
        four_events(q, se1, se2),
        !same_ends(q, se1, se2),
    ensures
        ({
            let r = resolved(q, se1, se2, LineIntersection::Point(p));
            let made = events_of_cut(q, se1, p) + events_of_cut(q, se2, p);
            &&& action_code(q, se1, se2, LineIntersection::Point(p)) == 1
            &&& r.events.len() == q.events.len() + made
            &&& r.pending.len() == q.pending.len() + made
            &&& rebuilt_around(q, r, se1, p)
            &&& rebuilt_around(q, r, se2, p)
        }),
{
    let m = cut_unless_end(q, se1, p);
    let r = cut_unless_end(m, se2, p);
    assert(r == resolved(q, se1, se2, LineIntersection::Point(p)));
    if apart_from_ends(q, se1, p) {
        lemma_divide_rebuilds_edge(q, se1, p);
    }
    assert(rebuilt_around(q, m, se1, p));
    assert(m.events[se2] == q.events[se2]);
    assert(m.events[q.other(se2)] == q.events[q.other(se2)]);
    assert(m.start(se2) == q.start(se2) && m.end(se2) == q.end(se2));
    if apart_from_ends(m, se2, p) {
        lemma_divide_rebuilds_edge(m, se2, p);
        if apart_from_ends(q, se1, p) {
            let closing = q.events.len() as int;
            let opening = closing + 1;
            assert(r.events[se1] == m.events[se1]);
            assert(r.events[q.other(se1)] == m.events[q.other(se1)]);
            assert(r.events[closing] == m.events[closing]);
            assert(r.events[opening] == m.events[opening]);
        }
    }
}

/// Where an edge holds the whole of an overlapping edge of the other
/// polygon and shares no endpoint with it, the resolution is reported as 3
/// and makes two cuts, whichever of the two edges is given first. The
/// holding edge is left in three parts, each with its events paired: one up
/// to the start of the held edge, one that runs where the held edge runs,
/// one from its end on. The held edge stays as it was.
pub proof fn lemma_held_edge_cuts_holder_in_three(
    q: QueueModel,
    holder: int,
    held: int,
    a: Point,
    b: Point,
    held_first: bool,
)
    requires
        q.wf(),
        q.has(holder),
        q.has(held),
        both_edges_known(q, holder, held),
        of_different_polygons(q, holder, held),
        q.start(holder).precedes(q.start(held)),
        q.start(held).precedes(q.end(held)),
        q.end(held).precedes(q.end(holder)),
    ensures
        ({
            let found = LineIntersection::Overlap(a, b);
            let (se1, se2) = if held_first {
                (held, holder)
            } else {
                (holder, held)
            };
            let r = resolved(q, se1, se2, found);
            let n = q.events.len() as int;
            &&& share_a_stretch(q, se1, se2)
            &&& action_code(q, se1, se2, found) == 3
            &&& r.events.len() == n + 4
            &&& r.pending == q.pending.push(n + 1).push(n).push(n + 3).push(n + 2)
            &&& r.events[held] == q.events[held]
            &&& r.events[q.other(held)] == q.events[q.other(held)]
            &&& r.paired(holder, n)
            &&& r.span(holder) == (q.start(holder), q.start(held))
            &&& r.paired(n + 1, n + 2)
            &&& r.span(n + 1) == q.span(held)
            &&& r.paired(n + 3, q.other(holder))
            &&& r.span(n + 3) == (q.end(held), q.end(holder))
        }),
{
    let (se1, se2) = if held_first {
        (held, holder)
    } else {
        (holder, held)
    };
    let n = q.events.len() as int;
    lemma_precedes_is_transitive(q.start(holder), q.start(held), q.end(held));
    lemma_precedes_is_transitive(q.start(held), q.end(held), q.end(holder));
    lemma_precedes_is_transitive(q.start(holder), q.end(held), q.end(holder));
    assert(overlap_typed(q, se1, se2) == q);
    assert(starting_first(q, se1, se2) == holder);
    assert(ending_last(q, se1, se2) == holder);
    let head_cut = divide(q, holder, q.start(held));
    lemma_divide_rebuilds_edge(q, holder, q.start(held));
    assert(head_cut.events[held] == q.events[held]);
    assert(head_cut.events[q.other(held)] == q.events[q.other(held)]);
    let r = divide(head_cut, n + 1, q.end(held));
    assert(r == resolved(q, se1, se2, LineIntersection::Overlap(a, b)));
    lemma_divide_rebuilds_edge(head_cut, n + 1, q.end(held));
    assert(r.events[holder] == head_cut.events[holder]);
    assert(r.events[n] == head_cut.events[n]);
    assert(r.events[held] == head_cut.events[held]);
    assert(r.events[q.other(held)] == head_cut.events[q.other(held)]);
}

/// The stretch that two overlapping edges share: from where the later of
/// them starts to where the earlier of them ends.
pub open spec fn shared_stretch(q: QueueModel, se1: int, se2: int) -> (Point, Point) {
    (
        if q.start(se1).precedes(q.start(se2)) {
            q.start(se2)
        } else {
            q.start(se1)
        },
        if q.end(se1).precedes(q.end(se2)) {
            q.end(se1)
        } else {
            q.end(se2)
        },
    )
}

/// The event that, once the overlap of the two edges has been resolved,
/// starts the part of the edge of `se` on the shared stretch: `se` itself,
/// or the first event that the cuts have created where the edge of `se`
/// starts before the other.
pub open spec fn on_shared_stretch(q: QueueModel, se1: int, se2: int, se: int) -> int {
    if q.start(se1) != q.start(se2) && se == starting_first(q, se1, se2) {
        q.events.len() as int + 1
    } else {
        se
    }
}

/// Once the overlap of two edges of different polygons has been resolved,
/// each of them has a part, of its own polygon, that is exactly the stretch
/// they share.
pub proof fn lemma_overlap_leaves_shared_stretch_twice(
    q: QueueModel,
    se1: int,
    se2: int,
    a: Point,
    b: Point,
)
    requires
        q.wf(),
        q.has(se1),
        q.has(se2),
        both_edges_known(q, se1, se2),
        of_different_polygons(q, se1, se2),
        share_a_stretch(q, se1, se2),
    ensures
        ({
            let r = resolved(q, se1, se2, LineIntersection::Overlap(a, b));
            let part1 = on_shared_stretch(q, se1, se2, se1);
            let part2 = on_shared_stretch(q, se1, se2, se2);
            &&& r.has(part1) && r.has_other(part1)
            &&& r.has(part2) && r.has_other(part2)
            &&& r.span(part1) == shared_stretch(q, se1, se2)
            &&& r.span(part2) == shared_stretch(q, se1, se2)
            &&& r.events[part1].is_subject == q.events[se1].is_subject
            &&& r.events[part2].is_subject == q.events[se2].is_subject
        }),
{
    let t = overlap_typed(q, se1, se2);
    lemma_typing_grows(q, se1, se2);
    assert(q.has(q.other(se1)) && q.has(q.other(se2)));
    assert(t.span(se1) == q.span(se1) && t.span(se2) == q.span(se2));
    let first = starting_first(t, se1, se2);
    let last = other_of_two(first, se1, se2);
    let longer = ending_last(t, se1, se2);
    let shorter = other_of_two(longer, se1, se2);
    let starts_differ = t.start(se1) != t.start(se2);
    let n = t.events.len() as int;
    let head_cut = if starts_differ {
        divide(t, first, t.start(last))
    } else {
        t
    };
    let rest = if starts_differ && longer == first {
        n + 1
    } else {
        longer
    };
    let part_first = if starts_differ {
        n + 1
    } else {
        first
    };
    if starts_differ {
        lemma_divide_rebuilds_edge(t, first, t.start(last));
        lemma_divide_only_adds(t, first, t.start(last));
        assert(last != t.other(first));
        assert(head_cut.events[last] == t.events[last]);
        assert(head_cut.events[t.other(last)].point == t.events[t.other(last)].point);
    }
    assert(head_cut.wf());
    assert(head_cut.has(part_first) && head_cut.has_other(part_first));
    assert(head_cut.has(last) && head_cut.has_other(last));
    assert(head_cut.span(part_first) == (t.start(last), t.end(first)));
    assert(head_cut.span(last) == t.span(last));
    assert(head_cut.events[part_first].is_subject == t.events[first].is_subject);
    assert(head_cut.events[last].is_subject == t.events[last].is_subject);
    if t.end(se1) != t.end(se2) {
        let rest_other = head_cut.other(rest);
        lemma_divide_rebuilds_edge(head_cut, rest, t.end(shorter));
        lemma_divide_only_adds(head_cut, rest, t.end(shorter));
        let r = divide(head_cut, rest, t.end(shorter));
        if longer == first {
            assert(rest == part_first);
            assert(last != rest && last != rest_other);
            assert(r.events[last] == head_cut.events[last]);
        } else {
            assert(rest == last);
            assert(part_first != rest && part_first != rest_other);
            assert(r.events[part_first] == head_cut.events[part_first]);
        }
    }
}

/// An overlap of two edges that have both endpoints in common cuts
/// nothing. It is reported as 2, or as 0 where the edges are of one
/// polygon.
pub proof fn lemma_overlap_of_equal_edges_cuts_nothing(
    q: QueueModel,
    se1: int,
    se2: int,
    a: Point,
    b: Point,
)
    requires
        q.wf(),
        q.has(se1),
        q.has(se2),
        both_edges_known(q, se1, se2),
        same_ends(q, se1, se2),
    ensures
        ({
            let r = resolved(q, se1, se2, LineIntersection::Overlap(a, b));
            &&& r == if of_different_polygons(q, se1, se2) {
                overlap_typed(q, se1, se2)
            } else {
                q
            }
            &&& r.events.len() == q.events.len()
            &&& r.pending == q.pending
            &&& action_code(q, se1, se2, LineIntersection::Overlap(a, b)) == (
            if of_different_polygons(q, se1, se2) {
                2u8
            } else {
                0u8
            })
        }),
{
    let t = overlap_typed(q, se1, se2);
    lemma_typing_grows(q, se1, se2);
    assert(q.has(q.other(se1)) && q.has(q.other(se2)));
    assert(t.span(se1) == q.span(se1) && t.span(se2) == q.span(se2));
}

/// Once the overlap of two edges of different polygons has been resolved,
/// resolving the overlap of their two parts on the shared stretch cuts
/// nothing more, and is reported as 2.
pub proof fn lemma_resolved_overlap_stays(
    q: QueueModel,
    se1: int,
    se2: int,
    a: Point,
    b: Point,
)
    requires
        q.wf(),
        q.has(se1),
        q.has(se2),
        both_edges_known(q, se1, se2),
        of_different_polygons(q, se1, se2),
        share_a_stretch(q, se1, se2),
    ensures
        ({
            let r = resolved(q, se1, se2, LineIntersection::Overlap(a, b));
            let part1 = on_shared_stretch(q, se1, se2, se1);
            let part2 = on_shared_stretch(q, se1, se2, se2);
            let again = resolved(r, part1, part2, LineIntersection::Overlap(a, b));
            &&& share_a_stretch(r, part1, part2)
            &&& again.events.len() == r.events.len()
            &&& again.pending == r.pending
            &&& action_code(r, part1, part2, LineIntersection::Overlap(a, b)) == 2
        }),
{
    let r = resolved(q, se1, se2, LineIntersection::Overlap(a, b));
    let part1 = on_shared_stretch(q, se1, se2, se1);
    let part2 = on_shared_stretch(q, se1, se2, se2);
    lemma_overlap_leaves_shared_stretch_twice(q, se1, se2, a, b);
    lemma_resolution_only_adds(q, se1, se2, LineIntersection::Overlap(a, b));
    lemma_overlap_of_equal_edges_cuts_nothing(r, part1, part2, a, b);
}

/// What a resolution reports bounds what it has cut: nothing was cut where
/// it reports 0; no, one or two edges where it reports 1; at most one where
/// it reports 2; one or two where it reports 3. Each cut creates two
/// events and lets both wait.
pub proof fn lemma_code_tells_cuts(q: QueueModel, se1: int, se2: int, found: LineIntersection)
    requires
        q.wf(),
        q.has(se1),
        q.has(se2),
    ensures
        ({
            let r = resolved(q, se1, se2, found);
            let code = action_code(q, se1, se2, found);
            let made = r.events.len() - q.events.len();
            &&& r.pending.len() - q.pending.len() == made
            &&& code == 0 || code == 1 || code == 2 || code == 3
            &&& code == 0 ==> made == 0
            &&& code == 1 ==> made == 0 || made == 2 || made == 4
            &&& code == 2 ==> made == 0 || made == 2
            &&& code == 3 ==> made == 2 || made == 4
        }),
{
    lemma_resolution_only_adds(q, se1, se2, found);
    if both_edges_known(q, se1, se2) && found is Overlap && of_different_polygons(q, se1, se2) {
        let t = overlap_typed(q, se1, se2);
        lemma_typing_grows(q, se1, se2);
        assert(q.has(q.other(se1)) && q.has(q.other(se2)));
        assert(t.span(se1) == q.span(se1) && t.span(se2) == q.span(se2));
        let first = starting_first(t, se1, se2);
        let last = other_of_two(first, se1, se2);
        let longer = ending_last(t, se1, se2);
        let starts_differ = t.start(se1) != t.start(se2);
        let n = t.events.len() as int;
        let head_cut = if starts_differ {
            divide(t, first, t.start(last))
        } else {
            t
        };
        let rest = if starts_differ && longer == first {
            n + 1
        } else {
            longer
        };
        if starts_differ {
            lemma_divide_only_adds(t, first, t.start(last));
        }
        if t.end(se1) != t.end(se2) {
            lemma_divide_only_adds(head_cut, rest, t.end(other_of_two(longer, se1, se2)));
        }
    }
}

/// Whether `part` is the event that starts a part of the edge that `se` had
/// in `q`, once the edge has been cut at `p` or, where `p` is one of its
/// endpoints, left whole: `se` itself or, after a cut, the event that the
/// cut has paired with the edge's old other endpoint.
pub open spec fn starts_part(q: QueueModel, r: QueueModel, se: int, p: Point, part: int) -> bool {
    part == se || (apart_from_ends(q, se, p) && part == r.other(q.other(se)))
}

/// A crossing at a point that is an endpoint of both edges cuts nothing. It
/// is reported as 1, or as 0 where the edges have both endpoints in common.
pub proof fn lemma_crossing_at_ends_cuts_nothing(q: QueueModel, se1: int, se2: int, p: Point)
    requires
        both_edges_known(q, se1, se2),
        !apart_from_ends(q, se1, p),
        !apart_from_ends(q, se2, p),
    ensures
        resolved(q, se1, se2, LineIntersection::Point(p)) == q,
        action_code(q, se1, se2, LineIntersection::Point(p)) == (if same_ends(q, se1, se2) {
            0u8
        } else {
            1u8
        }),
{
}

/// Once a crossing has been resolved, no part of the one edge is cut again
/// by resolving the crossing with a part of the other: the queue stays as
/// it is. The repeated resolution is reported as 1, or as 0 where the two
/// parts have both endpoints in common.
pub proof fn lemma_resolved_crossing_stays(
    q: QueueModel,
    se1: int,
    se2: int,
    p: Point,
    part1: int,
    part2: int,
)
    requires
        q.wf(),
        q.has(se1),
        q.has(se2),
        both_edges_known(q, se1, se2),
        four_events(q, se1, se2),
        !same_ends(q, se1, se2),
        starts_part(q, resolved(q, se1, se2, LineIntersection::Point(p)), se1, p, part1),
        starts_part(q, resolved(q, se1, se2, LineIntersection::Point(p)), se2, p, part2),
    ensures
        ({
            let r = resolved(q, se1, se2, LineIntersection::Point(p));
            &&& r.has(part1) && r.has(part2)
            &&& both_edges_known(r, part1, part2)
            &&& resolved(r, part1, part2, LineIntersection::Point(p)) == r
            &&& action_code(r, part1, part2, LineIntersection::Point(p)) == (if same_ends(
                r,
                part1,
                part2,
            ) {
                0u8
            } else {
                1u8
            })
        }),
{
    let r = resolved(q, se1, se2, LineIntersection::Point(p));
    lemma_crossing_rebuilds_both_edges(q, se1, se2, p);
    lemma_resolution_only_adds(q, se1, se2, LineIntersection::Point(p));
    assert(r.has(part1) && r.has_other(part1) && !apart_from_ends(r, part1, p)) by {
        if part1 == se1 {
            assert(r.events[se1].point == q.events[se1].point);
        }
    }
    assert(r.has(part2) && r.has_other(part2) && !apart_from_ends(r, part2, p)) by {
        if part2 == se2 {
            assert(r.events[se2].point == q.events[se2].point);
        }
    }
    lemma_crossing_at_ends_cuts_nothing(r, part1, part2, p);
}

/// The ids that wait in `r` behind as many as wait in `q`.
pub open spec fn newly_waiting(q: QueueModel, r: QueueModel) -> Seq<int> {
    r.pending.subrange(q.pending.len() as int, r.pending.len() as int)
}

/// Whether two queues with the same events have grown, by the same step,
/// into queues with the same events, in which the same ids wait behind what
/// waited before.
spec fn in_step(q1: QueueModel, r1: QueueModel, q2: QueueModel, r2: QueueModel) -> bool {
    &&& r1.events == r2.events
    &&& q1.pending.len() <= r1.pending.len()
    &&& q2.pending.len() <= r2.pending.len()
    &&& r1.pending.subrange(0, q1.pending.len() as int) == q1.pending
    &&& r2.pending.subrange(0, q2.pending.len() as int) == q2.pending
    &&& newly_waiting(q1, r1) == newly_waiting(q2, r2)
}

proof fn lemma_in_step_at_rest(q1: QueueModel, q2: QueueModel)
    requires
        q1.events == q2.events,
    ensures
        in_step(q1, q1, q2, q2),
{
    assert(q1.pending.subrange(0, q1.pending.len() as int) =~= q1.pending);
    assert(q2.pending.subrange(0, q2.pending.len() as int) =~= q2.pending);
    assert(newly_waiting(q1, q1) =~= newly_waiting(q2, q2));
}

proof fn lemma_in_step_twice(
    q1: QueueModel,
    m1: QueueModel,
    r1: QueueModel,
    q2: QueueModel,
    m2: QueueModel,
    r2: QueueModel,
)
    requires
        in_step(q1, m1, q2, m2),
        in_step(m1, r1, m2, r2),
    ensures
        in_step(q1, r1, q2, r2),
{
    let a = newly_waiting(q1, m1);
    let b = newly_waiting(m1, r1);
    assert(r1.pending =~= q1.pending + a + b) by {
        assert(m1.pending =~= m1.pending.subrange(0, q1.pending.len() as int) + a);
        assert(r1.pending =~= r1.pending.subrange(0, m1.pending.len() as int) + b);
    }
    assert(r2.pending =~= q2.pending + a + b) by {
        assert(m2.pending =~= m2.pending.subrange(0, q2.pending.len() as int) + a);
        assert(r2.pending =~= r2.pending.subrange(0, m2.pending.len() as int) + b);
    }
    assert(newly_waiting(q1, r1) =~= a + b);
    assert(newly_waiting(q2, r2) =~= a + b);
    assert(r1.pending.subrange(0, q1.pending.len() as int) =~= q1.pending);
    assert(r2.pending.subrange(0, q2.pending.len() as int) =~= q2.pending);
}

proof fn lemma_divide_in_step(q1: QueueModel, q2: QueueModel, se: int, p: Point)
    requires
        q1.events == q2.events,
    ensures
        in_step(q1, divide(q1, se, p), q2, divide(q2, se, p)),
{
    let d1 = divide(q1, se, p);
    let d2 = divide(q2, se, p);
    let n = q1.events.len() as int;
    assert(d1.events =~= d2.events);
    assert(d1.pending.subrange(0, q1.pending.len() as int) =~= q1.pending);
    assert(d2.pending.subrange(0, q2.pending.len() as int) =~= q2.pending);
    assert(newly_waiting(q1, d1) =~= seq![n + 1, n]);
    assert(newly_waiting(q2, d2) =~= seq![n + 1, n]);
}

proof fn lemma_cut_in_step(q1: QueueModel, q2: QueueModel, se: int, p: Point)
    requires
        q1.events == q2.events,
    ensures
        in_step(q1, cut_unless_end(q1, se, p), q2, cut_unless_end(q2, se, p)),
{
    if apart_from_ends(q1, se, p) {
        lemma_divide_in_step(q1, q2, se, p);
    } else {
        lemma_in_step_at_rest(q1, q2);
    }
}

proof fn lemma_typing_in_step(q1: QueueModel, q2: QueueModel, se1: int, se2: int)
    requires
        q1.events == q2.events,
    ensures
        in_step(q1, overlap_typed(q1, se1, se2), q2, overlap_typed(q2, se1, se2)),
{
    let t1 = overlap_typed(q1, se1, se2);
    let t2 = overlap_typed(q2, se1, se2);
    assert(t1.events =~= t2.events);
    assert(t1.pending == q1.pending);
    assert(t2.pending == q2.pending);
    assert(t1.pending.subrange(0, q1.pending.len() as int) =~= q1.pending);
    assert(t2.pending.subrange(0, q2.pending.len() as int) =~= q2.pending);
    assert(newly_waiting(q1, t1) =~= newly_waiting(q2, t2));
}

proof fn lemma_overlap_cut_in_step(q1: QueueModel, q2: QueueModel, se1: int, se2: int)
    requires
        q1.events == q2.events,
    ensures
        in_step(q1, overlap_cut(q1, se1, se2), q2, overlap_cut(q2, se1, se2)),
{
    let first = starting_first(q1, se1, se2);
    let longer = ending_last(q1, se1, se2);
    let starts_differ = q1.start(se1) != q1.start(se2);
    let at = q1.start(other_of_two(first, se1, se2));
    let rest = if starts_differ && longer == first {
        q1.events.len() as int + 1
    } else {
        longer
    };
    let end = q1.end(other_of_two(longer, se1, se2));
    let h1 = if starts_differ {
        divide(q1, first, at)
    } else {
        q1
    };
    let h2 = if starts_differ {
        divide(q2, first, at)
    } else {
        q2
    };
    if starts_differ {
        lemma_divide_in_step(q1, q2, first, at);
    } else {
        lemma_in_step_at_rest(q1, q2);
    }
    assert(in_step(q1, h1, q2, h2));
    if q1.end(se1) != q1.end(se2) {
        lemma_divide_in_step(h1, h2, rest, end);
        lemma_in_step_twice(q1, h1, divide(h1, rest, end), q2, h2, divide(h2, rest, end));
    }
}

/// What a resolution reports, which events it leaves and which events it
/// lets wait depend on the events alone, not on what waited before: from
/// two queues with the same events, the same two events and the same
/// finding give the same code, the same events, and the same ids waiting
/// behind what waited before.
pub proof fn lemma_resolution_ignores_what_waits(
    q1: QueueModel,
    q2: QueueModel,
    se1: int,
    se2: int,
    found: LineIntersection,
)
    requires
        q1.events == q2.events,
    ensures
        ({
            let r1 = resolved(q1, se1, se2, found);
            let r2 = resolved(q2, se1, se2, found);
            &&& action_code(q1, se1, se2, found) == action_code(q2, se1, se2, found)
            &&& r1.events == r2.events
            &&& newly_waiting(q1, r1) == newly_waiting(q2, r2)
        }),
{
    lemma_in_step_at_rest(q1, q2);
    if both_edges_known(q1, se1, se2) {
        match found {
            LineIntersection::Disjoint => {},
            LineIntersection::Point(p) => {
                if !same_ends(q1, se1, se2) {
                    let m1 = cut_unless_end(q1, se1, p);
                    let m2 = cut_unless_end(q2, se1, p);
                    lemma_cut_in_step(q1, q2, se1, p);
                    lemma_cut_in_step(m1, m2, se2, p);
                    lemma_in_step_twice(
                        q1,
                        m1,
                        cut_unless_end(m1, se2, p),
                        q2,
                        m2,
                        cut_unless_end(m2, se2, p),
                    );
                }
            },
            LineIntersection::Overlap(_, _) => {
                if of_different_polygons(q1, se1, se2) {
                    let t1 = overlap_typed(q1, se1, se2);
                    let t2 = overlap_typed(q2, se1, se2);
                    lemma_typing_in_step(q1, q2, se1, se2);
                    lemma_overlap_cut_in_step(t1, t2, se1, se2);
                    lemma_in_step_twice(
                        q1,
                        t1,
                        overlap_cut(t1, se1, se2),
                        q2,
                        t2,
                        overlap_cut(t2, se1, se2),
                    );
                }
            },
        }
    }
}

} // verus!
