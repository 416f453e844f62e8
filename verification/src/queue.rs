//! The events of a sweep, each under a stable id, and the list of those that
//! still wait to be processed.

use crate::event::{EdgeType, EventModel, SweepEvent};
use crate::point::Point;
use vstd::prelude::*;

verus! {

/// The mathematical content of an `EventQueue`.
pub struct QueueModel {
    /// Every event created so far; an event's id is its index.
    pub events: Seq<EventModel>,
    /// The ids of the events that wait to be processed, in the order in
    /// which they were enqueued.
    pub pending: Seq<int>,
}

impl QueueModel {
    /// Whether `id` names an event.
    pub open spec fn has(self, id: int) -> bool {
        0 <= id < self.events.len()
    }

    /// Every id that an event or the pending list holds names an event.
    pub open spec fn wf(self) -> bool {
        &&& forall|id: int|
            0 <= id < self.events.len() ==> match (#[trigger] self.events[id]).other_event {
                Some(other) => self.has(other),
                None => true,
            }
        &&& forall|k: int| 0 <= k < self.pending.len() ==> self.has(#[trigger] self.pending[k])
    }

    /// Whether the event knows its other endpoint.
    pub open spec fn has_other(self, id: int) -> bool {
        self.events[id].other_event is Some
    }

    /// The id of the event's other endpoint.
    pub open spec fn other(self, id: int) -> int
        recommends
            self.has_other(id),
    {
        self.events[id].other_event->0
    }

    /// The point of the event itself: where its edge starts, seen from it.
    pub open spec fn start(self, id: int) -> Point {
        self.events[id].point
    }

    /// The point of the event's other endpoint: where its edge ends, seen
    /// from it.
    pub open spec fn end(self, id: int) -> Point
        recommends
            self.has_other(id),
    {
        self.events[self.other(id)].point
    }

    /// The edge of the event as a pair of points, from the event to its
    /// other endpoint.
    pub open spec fn span(self, id: int) -> (Point, Point)
        recommends
            self.has_other(id),
    {
        (self.start(id), self.end(id))
    }

    /// Whether the two events name each other as endpoints of one edge.
    pub open spec fn paired(self, a: int, b: int) -> bool {
        &&& self.has(a)
        &&& self.has(b)
        &&& self.events[a].other_event == Some(b)
        &&& self.events[b].other_event == Some(a)
    }

    /// Every event that names another endpoint is named by it in turn, and
    /// the two lie at different points: the events that know their other
    /// endpoint make up edges of some length.
    #[verifier::opaque]
    pub open spec fn edges_paired(self) -> bool {
        forall|id: int|
            self.has(id) ==> match (#[trigger] self.events[id]).other_event {
                Some(other) => {
                    &&& self.has(other)
                    &&& self.events[other].other_event == Some(id)
                    &&& self.events[other].point != self.events[id].point
                },
                None => true,
            }
    }

    /// Of the two events of an edge, the left flag is on the one that the
    /// sweep line reaches first.
    #[verifier::opaque]
    pub open spec fn left_first(self) -> bool {
        forall|id: int|
            self.has(id) && (#[trigger] self.events[id]).other_event is Some ==> (
            self.events[id].is_left <==> self.start(id).precedes(self.end(id)))
    }

    /// The queue with one more event, under the next free id.
    pub open spec fn add(self, event: EventModel) -> QueueModel {
        QueueModel { events: self.events.push(event), pending: self.pending }
    }

    /// The queue in which `id` names `other` as its other endpoint.
    pub open spec fn link(self, id: int, other: int) -> QueueModel {
        QueueModel {
            events: self.events.update(
                id,
                EventModel { other_event: Some(other), ..self.events[id] },
            ),
            pending: self.pending,
        }
    }

    /// The queue in which `id` has the given left flag.
    pub open spec fn flag_left(self, id: int, is_left: bool) -> QueueModel {
        QueueModel {
            events: self.events.update(id, EventModel { is_left, ..self.events[id] }),
            pending: self.pending,
        }
    }

    /// The queue in which `id` has the given edge type.
    pub open spec fn classify(self, id: int, edge_type: EdgeType) -> QueueModel {
        QueueModel {
            events: self.events.update(id, EventModel { edge_type, ..self.events[id] }),
            pending: self.pending,
        }
    }

    /// The queue in which `id` has the given in/out flags.
    pub open spec fn flag_in_out(self, id: int, in_out: bool, other_in_out: bool) -> QueueModel {
        QueueModel {
            events: self.events.update(
                id,
                EventModel { in_out, other_in_out, ..self.events[id] },
            ),
            pending: self.pending,
        }
    }

    /// The queue in which `id` is, or is not, part of the result.
    pub open spec fn flag_in_result(self, id: int, in_result: bool) -> QueueModel {
        QueueModel {
            events: self.events.update(id, EventModel { in_result, ..self.events[id] }),
            pending: self.pending,
        }
    }

    /// The queue in which the `k`-th waiting event waits no longer.
    pub open spec fn dequeue(self, k: int) -> QueueModel
        recommends
            0 <= k < self.pending.len(),
    {
        QueueModel { events: self.events, pending: self.pending.remove(k) }
    }

    /// The queue in which `id` waits behind all that waited before.
    pub open spec fn enqueue(self, id: int) -> QueueModel {
        QueueModel { events: self.events, pending: self.pending.push(id) }
    }
}

/// The events of a sweep and the list of those that wait to be processed.
///
/// Events are never removed, so an id stays valid. The order in which
/// waiting events are taken out is the business of whoever runs the sweep;
/// the queue keeps them in the order in which they came.
pub struct EventQueue {
    events: Vec<SweepEvent>,
    pending: Vec<usize>,
}

impl View for EventQueue {
    type V = QueueModel;

    closed spec fn view(&self) -> QueueModel {
        QueueModel {
            events: self.events@.map_values(|e: SweepEvent| e@),
            pending: self.pending@.map_values(|id: usize| id as int),
        }
    }
}

impl EventQueue {
    /// Every id that an event or the pending list holds names an event.
    pub open spec fn wf(&self) -> bool {
        self@.wf()
    }

    /// A queue without events.
    pub fn new() -> (queue: EventQueue)
        ensures
            queue@.events.len() == 0,
            queue@.pending.len() == 0,
            queue.wf(),
    {
        EventQueue { events: Vec::new(), pending: Vec::new() }
    }

    /// The number of events created so far; the ids are the numbers below it.
    pub fn len(&self) -> (n: usize)
        ensures
            n == self@.events.len(),
    {
        self.events.len()
    }

    /// The event under `id`.
    pub fn event(&self, id: usize) -> (e: SweepEvent)
        requires
            self@.has(id as int),
        ensures
            e@ == self@.events[id as int],
    {
        self.events[id]
    }

    /// The point of the event under `id`.
    pub fn point(&self, id: usize) -> (p: Point)
        requires
            self@.has(id as int),
        ensures
            p == self@.start(id as int),
    {
        self.events[id].point
    }

    /// The id of the other endpoint of the event under `id`, if it has one.
    pub fn other_event(&self, id: usize) -> (other: Option<usize>)
        requires
            self.wf(),
            self@.has(id as int),
        ensures
            match other {
                Some(o) => self@.events[id as int].other_event == Some(o as int) && self@.has(
                    o as int,
                ),
                None => self@.events[id as int].other_event is None,
            },
    {
        self.events[id].other_event
    }

    /// Takes `event` in and returns its id. The event does not wait to be
    /// processed until it is enqueued.
    pub fn add_event(&mut self, event: SweepEvent) -> (id: usize)
        requires
            old(self).wf(),
            match event.other_event {
                Some(other) => old(self)@.has(other as int),
                None => true,
            },
        ensures
            id == old(self)@.events.len(),
            final(self)@ == old(self)@.add(event@),
            final(self).wf(),
    {
        let id = self.events.len();
        self.events.push(event);
        assert(self@.events =~= old(self)@.events.push(event@));
        assert(self@.pending =~= old(self)@.pending);
        id
    }

    /// Makes `other` the other endpoint of `id`.
    pub fn set_other_event(&mut self, id: usize, other: usize)
        requires
            old(self).wf(),
            old(self)@.has(id as int),
            old(self)@.has(other as int),
        ensures
            final(self)@ == old(self)@.link(id as int, other as int),
            final(self).wf(),
    {
        let mut event = self.events[id];
        event.other_event = Some(other);
        self.events[id] = event;
        assert(self@.events =~= old(self)@.link(id as int, other as int).events);
        assert(self@.pending =~= old(self)@.pending);
    }

    /// Sets the left flag of `id`.
    pub fn set_left(&mut self, id: usize, is_left: bool)
        requires
            old(self).wf(),
            old(self)@.has(id as int),
        ensures
            final(self)@ == old(self)@.flag_left(id as int, is_left),
            final(self).wf(),
    {
        let mut event = self.events[id];
        event.is_left = is_left;
        self.events[id] = event;
        assert(self@.events =~= old(self)@.flag_left(id as int, is_left).events);
        assert(self@.pending =~= old(self)@.pending);
    }

    /// Sets the edge type of `id`.
    pub fn set_edge_type(&mut self, id: usize, edge_type: EdgeType)
        requires
            old(self).wf(),
            old(self)@.has(id as int),
        ensures
            final(self)@ == old(self)@.classify(id as int, edge_type),
            final(self).wf(),
    {
        let mut event = self.events[id];
        event.edge_type = edge_type;
        self.events[id] = event;
        assert(self@.events =~= old(self)@.classify(id as int, edge_type).events);
        assert(self@.pending =~= old(self)@.pending);
    }

    /// Sets the in/out flag of `id` and the one it takes from the other
    /// polygon.
    pub fn set_in_out(&mut self, id: usize, in_out: bool, other_in_out: bool)
        requires
            old(self).wf(),
            old(self)@.has(id as int),
        ensures
            final(self)@ == old(self)@.flag_in_out(id as int, in_out, other_in_out),
            final(self).wf(),
    {
        let mut event = self.events[id];
        event.in_out = in_out;
        event.other_in_out = other_in_out;
        self.events[id] = event;
        assert(self@.events =~= old(self)@.flag_in_out(id as int, in_out, other_in_out).events);
        assert(self@.pending =~= old(self)@.pending);
    }

    /// Records whether `id` is part of the result.
    pub fn set_in_result(&mut self, id: usize, in_result: bool)
        requires
            old(self).wf(),
            old(self)@.has(id as int),
        ensures
            final(self)@ == old(self)@.flag_in_result(id as int, in_result),
            final(self).wf(),
    {
        let mut event = self.events[id];
        event.in_result = in_result;
        self.events[id] = event;
        assert(self@.events =~= old(self)@.flag_in_result(id as int, in_result).events);
        assert(self@.pending =~= old(self)@.pending);
    }

    /// Lets `id` wait to be processed, behind all that wait already.
    pub fn push(&mut self, id: usize)
        requires
            old(self).wf(),
            old(self)@.has(id as int),
        ensures
            final(self)@ == old(self)@.enqueue(id as int),
            final(self).wf(),
    {
        self.pending.push(id);
        assert(self@.pending =~= old(self)@.pending.push(id as int));
        assert(self@.events =~= old(self)@.events);
    }

    /// Takes the `k`-th waiting event out of those that wait, and returns
    /// its id. The others keep their order. Which event is next is for the
    /// caller to say: by the order of the points and, among events at one
    /// point, by a rule of its own.
    pub fn take(&mut self, k: usize) -> (id: usize)
        requires
            old(self).wf(),
            k < old(self)@.pending.len(),
        ensures
            id == old(self)@.pending[k as int],
            final(self)@.has(id as int),
            final(self)@ == old(self)@.dequeue(k as int),
            final(self).wf(),
    {
        assert(old(self)@.has(old(self)@.pending[k as int]));
        let id = self.pending.remove(k);
        assert(self@.pending =~= old(self)@.pending.remove(k as int));
        assert(self@.events =~= old(self)@.events);
        id
    }

    /// The number of events that wait to be processed.
    pub fn pending_len(&self) -> (n: usize)
        ensures
            n == self@.pending.len(),
    {
        self.pending.len()
    }

    /// The id of the `k`-th waiting event, counted from the one that has
    /// waited longest.
    pub fn pending_at(&self, k: usize) -> (id: usize)
        requires
            self.wf(),
            k < self@.pending.len(),
        ensures
            id == self@.pending[k as int],
            self@.has(id as int),
    {
        self.pending[k]
    }
}

} // verus!
