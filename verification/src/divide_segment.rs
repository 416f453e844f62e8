//! Cutting an edge in two at a point.

use crate::event::{EventModel, SweepEvent};
use crate::point::Point;
use crate::queue::{EventQueue, QueueModel};
use vstd::prelude::*;

verus! {

/// The queue after the edge of `se` has been cut at `inter`.
///
/// Two events at `inter` have the next two free ids: the first closes the
/// part that starts at `se`, the second opens the part that ends at the old
/// other endpoint of `se`. Both are of the polygon of `se`, and both wait
/// to be processed, the opening one first. The old endpoints now name the
/// new events and keep all else that they stated. Only where `inter` lies
/// beyond the old other endpoint, the second part has its left flag on that
/// endpoint, which the sweep line then reaches first.
pub open spec fn divide(q: QueueModel, se: int, inter: Point) -> QueueModel
    recommends
        q.has(se),
        q.has_other(se),
{
    let other = q.other(se);
    let closing = q.events.len() as int;
    let opening = closing + 1;
    let beyond = q.end(se).precedes(inter);
    let is_subject = q.events[se].is_subject;
    let ended = q.events.update(
        other,
        EventModel {
            other_event: Some(opening),
            is_left: q.events[other].is_left || beyond,
            ..q.events[other]
        },
    );
    let started = ended.update(se, EventModel { other_event: Some(closing), ..ended[se] });
    QueueModel {
        events: started.push(EventModel::fresh(inter, false, Some(se), is_subject)).push(
            EventModel::fresh(inter, !beyond, Some(other), is_subject),
        ),
        pending: q.pending.push(opening).push(closing),
    }
}

/// Cuts the edge of `se` in two at `inter`, which is neither of the edge's
/// endpoints. An event without another endpoint has no edge to cut, and
/// nothing happens.
pub fn divide_segment(se: usize, inter: Point, queue: &mut EventQueue)
    requires
        old(queue).wf(),
        old(queue)@.has(se as int),
        old(queue)@.has_other(se as int) ==> inter != old(queue)@.start(se as int) && inter != old(
            queue,
        )@.end(se as int),
    ensures
        final(queue).wf(),
        final(queue)@ == if old(queue)@.has_other(se as int) {
            divide(old(queue)@, se as int, inter)
        } else {
            old(queue)@
        },
        final(queue)@.events.len() == old(queue)@.events.len() + if old(queue)@.has_other(
            se as int,
        ) {
            2int
        } else {
            0int
        },
{
    let other = match queue.other_event(se) {
        Some(other) => other,
        None => {
            return ;
        },
    };
    let is_subject = queue.event(se).is_subject;
    let closing = queue.add_event(SweepEvent::new(inter, false, Some(se), is_subject));
    let opening = queue.add_event(SweepEvent::new(inter, true, Some(other), is_subject));
    if queue.point(other).is_before(&inter) {
        queue.set_left(other, true);
        queue.set_left(opening, false);
    }
    queue.set_other_event(other, opening);
    queue.set_other_event(se, closing);
    queue.push(opening);
    queue.push(closing);
    proof {
        lemma_divide_in_steps(old(queue)@, se as int, inter);
    }
}

/// The cut as a row of single changes to the queue: create the two events,
/// set the left flags of the second part, link the old endpoints to the new
/// events, let the new events wait.
proof fn lemma_divide_in_steps(q: QueueModel, se: int, inter: Point)
    requires
        q.has(se),
        q.has_other(se),
        q.has(q.other(se)),
    ensures
        ({
            let other = q.other(se);
            let closing = q.events.len() as int;
            let opening = closing + 1;
            let is_subject = q.events[se].is_subject;
            let made = q.add(EventModel::fresh(inter, false, Some(se), is_subject)).add(
                EventModel::fresh(inter, true, Some(other), is_subject),
            );
            let flagged = if q.end(se).precedes(inter) {
                made.flag_left(other, true).flag_left(opening, false)
            } else {
                made
            };
            divide(q, se, inter) == flagged.link(other, opening).link(se, closing).enqueue(
                opening,
            ).enqueue(closing)
        }),
{
    let other = q.other(se);
    let closing = q.events.len() as int;
    let opening = closing + 1;
    let is_subject = q.events[se].is_subject;
    let made = q.add(EventModel::fresh(inter, false, Some(se), is_subject)).add(
        EventModel::fresh(inter, true, Some(other), is_subject),
    );
    let flagged = if q.end(se).precedes(inter) {
        made.flag_left(other, true).flag_left(opening, false)
    } else {
        made
    };
    let linked = flagged.link(other, opening);
    let stepped = linked.link(se, closing).enqueue(opening).enqueue(closing);
    let d = divide(q, se, inter);
    assert(made.events.len() == q.events.len() + 2);
    assert(flagged.events.len() == made.events.len());
    assert(linked.events.len() == made.events.len());
    assert(stepped.events.len() == d.events.len());
    assert forall|id: int| 0 <= id < d.events.len() implies stepped.events[id]
        == d.events[id] by {
        if id == closing {
            assert(made.events[id] == EventModel::fresh(inter, false, Some(se), is_subject));
            assert(flagged.events[id] == made.events[id]);
            assert(linked.events[id] == flagged.events[id]);
        } else if id == opening {
            assert(made.events[id] == EventModel::fresh(inter, true, Some(other), is_subject));
            assert(linked.events[id] == flagged.events[id]);
        } else if id == se {
            assert(made.events[id] == q.events[id]);
        } else if id == other {
            assert(made.events[id] == q.events[id]);
        } else {
            assert(made.events[id] == q.events[id]);
            assert(flagged.events[id] == made.events[id]);
            assert(linked.events[id] == flagged.events[id]);
        }
    }
    assert(stepped.events =~= d.events);
    assert(stepped.pending =~= d.pending);
}

/// A cut puts two parts in the place of an edge, and together they are the
/// edge: the first runs from the edge's start to `inter`, the second from
/// `inter` to the edge's end. Each part has its two events paired, both new
/// events are of the edge's polygon and wait to be processed, the old
/// endpoints keep their point, polygon, type and flags of the sweep, and no
/// other event changes.
pub proof fn lemma_divide_rebuilds_edge(q: QueueModel, se: int, inter: Point)
    requires
        q.wf(),
        q.has(se),
        q.has_other(se),
        q.other(se) != se,
    ensures
        ({
            let d = divide(q, se, inter);
            let other = q.other(se);
            let closing = q.events.len() as int;
            let opening = closing + 1;
            &&& d.wf()
            &&& d.events.len() == q.events.len() + 2
            &&& d.pending == q.pending.push(opening).push(closing)
            &&& d.paired(se, closing)
            &&& d.paired(opening, other)
            &&& d.span(se) == (q.start(se), inter)
            &&& d.span(opening) == (inter, q.end(se))
            &&& d.events[closing] == EventModel::fresh(
                inter,
                false,
                Some(se),
                q.events[se].is_subject,
            )
            &&& d.events[opening] == EventModel::fresh(
                inter,
                !q.end(se).precedes(inter),
                Some(other),
                q.events[se].is_subject,
            )
            &&& d.events[se] == (EventModel { other_event: Some(closing), ..q.events[se] })
            &&& d.events[other] == (EventModel {
                other_event: Some(opening),
                is_left: q.events[other].is_left || q.end(se).precedes(inter),
                ..q.events[other]
            })
            &&& forall|id: int|
                q.has(id) && id != se && id != other ==> #[trigger] d.events[id] == q.events[id]
        }),
{
}

/// A cut only adds: it creates two events, lets them wait behind those that
/// waited before, and leaves to every event that was there its point, its
/// polygon, its type and its flags of the sweep. An event that knew its
/// other endpoint still knows one.
pub proof fn lemma_divide_only_adds(q: QueueModel, se: int, inter: Point)
    requires
        q.wf(),
        q.has(se),
        q.has_other(se),
    ensures
        ({
            let d = divide(q, se, inter);
            let n = q.events.len() as int;
            &&& d.wf()
            &&& d.events.len() == n + 2
            &&& d.pending == q.pending.push(n + 1).push(n)
            &&& d.has_other(n)
            &&& d.has_other(n + 1)
            &&& forall|id: int|
                q.has(id) ==> {
                    &&& (#[trigger] d.events[id]).point == q.events[id].point
                    &&& d.events[id].is_subject == q.events[id].is_subject
                    &&& d.events[id].edge_type == q.events[id].edge_type
                    &&& d.events[id].in_out == q.events[id].in_out
                    &&& d.events[id].other_in_out == q.events[id].other_in_out
                    &&& d.events[id].in_result == q.events[id].in_result
                    &&& q.has_other(id) ==> d.has_other(id)
                    &&& id != se && id != q.other(se) ==> d.events[id] == q.events[id]
                }
        }),
{
}

/// A cut at a point that is neither endpoint of the edge keeps the events
/// paired into edges of some length.
pub proof fn lemma_divide_keeps_edges_paired(q: QueueModel, se: int, inter: Point)
    requires
        q.wf(),
        q.edges_paired(),
        q.has(se),
        q.has_other(se),
        inter != q.start(se),
        inter != q.end(se),
    ensures
        divide(q, se, inter).edges_paired(),
{
    reveal(QueueModel::edges_paired);
    let d = divide(q, se, inter);
    let other = q.other(se);
    let closing = q.events.len() as int;
    let opening = closing + 1;
    assert(q.events[other].other_event == Some(se));
    lemma_divide_rebuilds_edge(q, se, inter);
    assert forall|id: int| d.has(id) implies match (#[trigger] d.events[id]).other_event {
        Some(o) => {
            &&& d.has(o)
            &&& d.events[o].other_event == Some(id)
            &&& d.events[o].point != d.events[id].point
        },
        None => true,
    } by {
        if id != se && id != other && id != closing && id != opening {
            assert(d.events[id] == q.events[id]);
            if let Some(o) = q.events[id].other_event {
                assert(q.events[o].other_event == Some(id));
                assert(o != se && o != other);
                assert(d.events[o] == q.events[o]);
            }
        }
    }
}

/// A cut of an edge at a point behind its start keeps the left flag of
/// every edge on the endpoint that the sweep line reaches first, also where
/// the point lies beyond the edge's end.
pub proof fn lemma_divide_keeps_left_first(q: QueueModel, se: int, inter: Point)
    requires
        q.wf(),
        q.edges_paired(),
        q.left_first(),
        q.has(se),
        q.has_other(se),
        q.events[se].is_left,
        q.start(se).precedes(inter),
        inter != q.end(se),
    ensures
        divide(q, se, inter).left_first(),
{
    reveal(QueueModel::edges_paired);
    reveal(QueueModel::left_first);
    let d = divide(q, se, inter);
    let other = q.other(se);
    let closing = q.events.len() as int;
    let opening = closing + 1;
    assert(q.events[other].other_event == Some(se));
    assert(q.start(se).precedes(q.end(se)));
    assert(!q.events[other].is_left) by {
        assert(q.start(other) == q.end(se) && q.end(other) == q.start(se));
    }
    lemma_divide_rebuilds_edge(q, se, inter);
    lemma_divide_only_adds(q, se, inter);
    assert forall|id: int| d.has(id) && (#[trigger] d.events[id]).other_event is Some implies (
    d.events[id].is_left <==> d.start(id).precedes(d.end(id))) by {
        if id != se && id != other && id != closing && id != opening {
            assert(d.events[id] == q.events[id]);
            let o = q.other(id);
            assert(q.has(o));
            assert(d.events[o].point == q.events[o].point);
        }
    }
}

} // verus!
