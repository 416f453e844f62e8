use booleanop::event::{EdgeType, SweepEvent};
use booleanop::intersection::LineIntersection;
use booleanop::point::Point;
use booleanop::possible_intersection::{is_resolvable, possible_intersection};
use booleanop::queue::EventQueue;

/// An edge on the horizontal through the origin, with its two events paired.
fn edge(queue: &mut EventQueue, from: i64, to: i64, is_subject: bool) -> (usize, usize) {
    let right = queue.add_event(SweepEvent::new(Point::new(to, 0), false, None, is_subject));
    let left = queue.add_event(SweepEvent::new(Point::new(from, 0), true, Some(right), is_subject));
    queue.set_other_event(right, left);
    (left, right)
}

fn overlap(from: i64, to: i64) -> LineIntersection {
    LineIntersection::Overlap(Point::new(from, 0), Point::new(to, 0))
}

/// The stretch of the edge that `id` starts, as the ordinates of its ends.
fn stretch(queue: &EventQueue, id: usize) -> (i64, i64) {
    let other = queue.other_event(id).unwrap();
    assert_eq!(queue.other_event(other), Some(id));
    assert!(queue.event(id).is_left);
    assert!(!queue.event(other).is_left);
    assert_eq!((queue.point(id).y, queue.point(other).y), (0, 0));
    (queue.point(id).x, queue.point(other).x)
}

fn waiting(queue: &EventQueue) -> Vec<usize> {
    (0..queue.pending_len()).map(|k| queue.pending_at(k)).collect()
}

#[test]
fn equal_edges_are_typed_and_not_cut() {
    let mut q = EventQueue::new();
    let (se1, _) = edge(&mut q, 0, 5, true);
    let (se2, _) = edge(&mut q, 0, 5, false);

    assert_eq!(possible_intersection(se1, se2, overlap(0, 5), &mut q), 2);
    assert_eq!(q.event(se2).edge_type, EdgeType::NonContributing);
    assert_eq!(q.event(se1).edge_type, EdgeType::SameTransition);
    assert_eq!(q.len(), 4);
    assert_eq!(q.pending_len(), 0);
    assert_eq!(stretch(&q, se1), (0, 5));
    assert_eq!(stretch(&q, se2), (0, 5));
}

#[test]
fn opposite_directions_are_recorded_on_the_first_edge() {
    for (in_out1, in_out2) in [(true, false), (false, true)] {
        let mut q = EventQueue::new();
        let (se1, _) = edge(&mut q, 0, 5, false);
        let (se2, _) = edge(&mut q, 0, 5, true);
        q.set_in_out(se1, in_out1, false);
        q.set_in_out(se2, in_out2, false);

        assert_eq!(possible_intersection(se1, se2, overlap(0, 5), &mut q), 2);
        assert_eq!(q.event(se2).edge_type, EdgeType::NonContributing);
        assert_eq!(q.event(se1).edge_type, EdgeType::DifferentTransition);
    }
}

#[test]
fn equal_directions_are_recorded_on_the_first_edge() {
    for in_out in [true, false] {
        let mut q = EventQueue::new();
        let (se1, _) = edge(&mut q, 0, 5, false);
        let (se2, _) = edge(&mut q, 0, 7, true);
        q.set_in_out(se1, in_out, true);
        q.set_in_out(se2, in_out, false);

        assert_eq!(possible_intersection(se1, se2, overlap(0, 5), &mut q), 2);
        assert_eq!(q.event(se2).edge_type, EdgeType::NonContributing);
        assert_eq!(q.event(se1).edge_type, EdgeType::SameTransition);
        assert_eq!(q.event(se1).in_out, in_out);
        assert!(q.event(se1).other_in_out);
    }
}

#[test]
fn common_start_cuts_the_longer_edge_where_the_shorter_ends() {
    // the second edge is the longer one
    let mut q = EventQueue::new();
    let (se1, _) = edge(&mut q, 0, 2, true);
    let (se2, right2) = edge(&mut q, 0, 5, false);
    assert_eq!(possible_intersection(se1, se2, overlap(0, 2), &mut q), 2);
    assert_eq!(q.len(), 6);
    assert_eq!(waiting(&q), vec![5, 4]);
    assert_eq!(stretch(&q, se1), (0, 2));
    assert_eq!(stretch(&q, se2), (0, 2));
    assert_eq!(stretch(&q, 5), (2, 5));
    assert_eq!(q.other_event(5), Some(right2));
    assert_eq!(q.event(se2).edge_type, EdgeType::NonContributing);
    assert_eq!(q.event(se1).edge_type, EdgeType::SameTransition);
    assert_eq!(q.event(5).edge_type, EdgeType::Normal);
    assert!(!q.event(5).is_subject);

    // the first edge is the longer one
    let mut q = EventQueue::new();
    let (se1, right1) = edge(&mut q, 0, 5, true);
    let (se2, _) = edge(&mut q, 0, 2, false);
    assert_eq!(possible_intersection(se1, se2, overlap(0, 2), &mut q), 2);
    assert_eq!(q.len(), 6);
    assert_eq!(stretch(&q, se1), (0, 2));
    assert_eq!(stretch(&q, se2), (0, 2));
    assert_eq!(stretch(&q, 5), (2, 5));
    assert_eq!(q.other_event(5), Some(right1));
    assert_eq!(q.event(se2).edge_type, EdgeType::NonContributing);
    assert_eq!(q.event(se1).edge_type, EdgeType::SameTransition);
    assert!(q.event(5).is_subject);
}

#[test]
fn common_end_cuts_the_edge_that_starts_first_where_the_other_starts() {
    for first_is_longer in [true, false] {
        let mut q = EventQueue::new();
        let (long, long_end) = edge(&mut q, 0, 5, true);
        let (short, _) = edge(&mut q, 2, 5, false);
        let code = if first_is_longer {
            possible_intersection(long, short, overlap(2, 5), &mut q)
        } else {
            possible_intersection(short, long, overlap(2, 5), &mut q)
        };
        assert_eq!(code, 3);
        assert_eq!(q.len(), 6);
        assert_eq!(waiting(&q), vec![5, 4]);
        assert_eq!(stretch(&q, long), (0, 2));
        assert_eq!(stretch(&q, 5), (2, 5));
        assert_eq!(q.other_event(5), Some(long_end));
        assert_eq!(stretch(&q, short), (2, 5));
        assert_eq!(q.event(long).edge_type, EdgeType::Normal);
        assert_eq!(q.event(short).edge_type, EdgeType::Normal);
    }
}

#[test]
fn edges_that_overlap_in_part_are_each_cut_once() {
    for early_first in [true, false] {
        let mut q = EventQueue::new();
        let (early, early_end) = edge(&mut q, 0, 3, true);
        let (late, late_end) = edge(&mut q, 1, 5, false);
        let code = if early_first {
            possible_intersection(early, late, overlap(1, 3), &mut q)
        } else {
            possible_intersection(late, early, overlap(1, 3), &mut q)
        };
        assert_eq!(code, 3);
        assert_eq!(q.len(), 8);
        assert_eq!(waiting(&q), vec![5, 4, 7, 6]);
        // the edge that starts first loses its head
        assert_eq!(stretch(&q, early), (0, 1));
        assert_eq!(stretch(&q, 5), (1, 3));
        assert_eq!(q.other_event(5), Some(early_end));
        assert!(q.event(5).is_subject);
        // the edge that ends last loses its tail
        assert_eq!(stretch(&q, late), (1, 3));
        assert_eq!(stretch(&q, 7), (3, 5));
        assert_eq!(q.other_event(7), Some(late_end));
        assert!(!q.event(7).is_subject);
        for id in 0..q.len() {
            assert_eq!(q.event(id).edge_type, EdgeType::Normal);
        }
    }
}

#[test]
fn an_edge_that_holds_another_is_cut_in_three() {
    for holder_first in [true, false] {
        let mut q = EventQueue::new();
        let (holder, holder_end) = edge(&mut q, 0, 9, true);
        let (held, held_end) = edge(&mut q, 2, 5, false);
        let held_before = (q.event(held), q.event(held_end));
        let code = if holder_first {
            possible_intersection(holder, held, overlap(2, 5), &mut q)
        } else {
            possible_intersection(held, holder, overlap(2, 5), &mut q)
        };
        assert_eq!(code, 3);
        // exactly two cuts
        assert_eq!(q.len(), 8);
        assert_eq!(waiting(&q), vec![5, 4, 7, 6]);
        // three parts of the holder, the middle one where the held edge runs
        assert_eq!(stretch(&q, holder), (0, 2));
        assert_eq!(q.other_event(holder), Some(4));
        assert_eq!(stretch(&q, 5), (2, 5));
        assert_eq!(q.other_event(5), Some(6));
        assert_eq!(stretch(&q, 7), (5, 9));
        assert_eq!(q.other_event(7), Some(holder_end));
        assert_eq!(stretch(&q, 5), stretch(&q, held));
        for id in [4, 5, 6, 7] {
            assert!(q.event(id).is_subject);
            assert_eq!(q.event(id).edge_type, EdgeType::Normal);
        }
        // the held edge is as it was
        assert_eq!((q.event(held), q.event(held_end)), held_before);
    }
}

#[test]
fn overlapping_edges_of_one_polygon_are_left_alone() {
    for is_subject in [true, false] {
        let mut q = EventQueue::new();
        let (se1, _) = edge(&mut q, 0, 3, is_subject);
        let (se2, _) = edge(&mut q, 1, 5, is_subject);
        assert_eq!(possible_intersection(se1, se2, overlap(1, 3), &mut q), 0);
        assert_eq!(q.len(), 4);
        assert_eq!(q.pending_len(), 0);
        assert_eq!(stretch(&q, se1), (0, 3));
        assert_eq!(stretch(&q, se2), (1, 5));
    }
}

#[test]
fn edges_that_do_not_meet_are_left_alone() {
    let mut q = EventQueue::new();
    let (se1, _) = edge(&mut q, 0, 3, true);
    let (se2, _) = edge(&mut q, 4, 5, false);
    q.push(se1);
    assert_eq!(possible_intersection(se1, se2, LineIntersection::Disjoint, &mut q), 0);
    assert_eq!(q.len(), 4);
    assert_eq!(waiting(&q), vec![se1]);
    assert_eq!(stretch(&q, se1), (0, 3));
    assert_eq!(stretch(&q, se2), (4, 5));
}

#[test]
fn the_parts_of_a_resolved_overlap_are_not_cut_again() {
    let mut q = EventQueue::new();
    let (holder, _) = edge(&mut q, 0, 9, true);
    let (held, _) = edge(&mut q, 2, 5, false);
    assert_eq!(possible_intersection(holder, held, overlap(2, 5), &mut q), 3);
    assert_eq!(q.len(), 8);

    // the middle part of the holder runs where the held edge runs
    assert_eq!(possible_intersection(5, held, overlap(2, 5), &mut q), 2);
    assert_eq!(q.len(), 8);
    assert_eq!(q.pending_len(), 4);
    assert_eq!(q.event(held).edge_type, EdgeType::NonContributing);
    assert_eq!(q.event(5).edge_type, EdgeType::SameTransition);
    // the head and the tail touch it in a point
    let touch = LineIntersection::Point(Point::new(2, 0));
    assert_eq!(possible_intersection(holder, held, touch, &mut q), 1);
    let touch = LineIntersection::Point(Point::new(5, 0));
    assert_eq!(possible_intersection(held, 7, touch, &mut q), 1);
    assert_eq!(q.len(), 8);
    assert_eq!(q.pending_len(), 4);
}

#[test]
fn only_an_overlap_without_a_shared_stretch_is_refused() {
    let mut q = EventQueue::new();
    let (a, a_end) = edge(&mut q, 0, 3, true);
    let (b, _) = edge(&mut q, 3, 5, false);
    let (c, _) = edge(&mut q, 2, 5, false);
    let (d, _) = edge(&mut q, 4, 5, true);
    let alone = q.add_event(SweepEvent::new(Point::new(7, 0), true, None, false));
    let touch = LineIntersection::Point(Point::new(3, 0));

    // the edges touch in a point: they share no stretch
    assert!(!is_resolvable(a, b, overlap(3, 3), &q));
    assert!(!is_resolvable(b, a, overlap(3, 3), &q));
    // seen from its right endpoint an edge ends before it starts
    assert!(!is_resolvable(a_end, c, overlap(2, 3), &q));
    assert!(is_resolvable(a, c, overlap(2, 3), &q));
    assert!(is_resolvable(c, a, overlap(2, 3), &q));
    // whatever is not an overlap of edges of different polygons can be resolved
    assert!(is_resolvable(a, d, overlap(4, 5), &q));
    assert!(is_resolvable(a, alone, overlap(4, 5), &q));
    assert!(is_resolvable(alone, a, overlap(4, 5), &q));
    assert!(is_resolvable(a, b, touch, &q));
    assert!(is_resolvable(a, b, LineIntersection::Disjoint, &q));
}
