use booleanop::divide_segment::divide_segment;
use booleanop::event::{EdgeType, SweepEvent};
use booleanop::point::Point;
use booleanop::queue::EventQueue;

fn edge(queue: &mut EventQueue, from: Point, to: Point, is_subject: bool) -> (usize, usize) {
    let right = queue.add_event(SweepEvent::new(to, false, None, is_subject));
    let left = queue.add_event(SweepEvent::new(from, true, Some(right), is_subject));
    queue.set_other_event(right, left);
    (left, right)
}

#[test]
fn a_cut_makes_two_parts_of_an_edge() {
    let mut q = EventQueue::new();
    let (left, right) = edge(&mut q, Point::new(0, 0), Point::new(10, 20), true);
    let inter = Point::new(4, 8);

    divide_segment(left, inter, &mut q);

    assert_eq!(q.len(), 4);
    assert_eq!(q.event(2), SweepEvent::new(inter, false, Some(left), true));
    assert_eq!(q.event(3), SweepEvent::new(inter, true, Some(right), true));
    assert_eq!(q.event(left), SweepEvent::new(Point::new(0, 0), true, Some(2), true));
    assert_eq!(q.event(right), SweepEvent::new(Point::new(10, 20), false, Some(3), true));
    assert_eq!(q.pending_len(), 2);
    assert_eq!((q.pending_at(0), q.pending_at(1)), (3, 2));
}

#[test]
fn a_cut_keeps_what_the_endpoints_stated() {
    let mut q = EventQueue::new();
    let (left, right) = edge(&mut q, Point::new(0, 0), Point::new(10, 0), false);
    q.set_edge_type(left, EdgeType::DifferentTransition);
    q.set_in_out(left, true, false);
    q.set_in_result(left, true);
    q.set_edge_type(right, EdgeType::NonContributing);
    q.set_in_out(right, false, true);
    let (left_before, right_before) = (q.event(left), q.event(right));
    q.push(right);

    divide_segment(left, Point::new(5, 0), &mut q);

    let mut expected = left_before;
    expected.other_event = Some(2);
    assert_eq!(q.event(left), expected);
    let mut expected = right_before;
    expected.other_event = Some(3);
    assert_eq!(q.event(right), expected);
    // the new events are of the edge's polygon and start out normal
    assert_eq!(q.event(2), SweepEvent::new(Point::new(5, 0), false, Some(left), false));
    assert_eq!(q.event(3), SweepEvent::new(Point::new(5, 0), true, Some(right), false));
    // they wait behind what waited before
    assert_eq!(q.pending_len(), 3);
    assert_eq!((q.pending_at(0), q.pending_at(1), q.pending_at(2)), (right, 3, 2));
}

#[test]
fn a_cut_beyond_the_end_turns_the_second_part_round() {
    let mut q = EventQueue::new();
    let (left, right) = edge(&mut q, Point::new(0, 0), Point::new(10, 0), true);
    let inter = Point::new(10, 1);

    divide_segment(left, inter, &mut q);

    assert_eq!(q.event(2), SweepEvent::new(inter, false, Some(left), true));
    assert_eq!(q.event(3), SweepEvent::new(inter, false, Some(right), true));
    assert_eq!(q.event(right), SweepEvent::new(Point::new(10, 0), true, Some(3), true));
    assert_eq!(q.event(left), SweepEvent::new(Point::new(0, 0), true, Some(2), true));
}

#[test]
fn an_event_without_its_other_endpoint_is_not_cut() {
    let mut q = EventQueue::new();
    let alone = q.add_event(SweepEvent::new(Point::new(0, 0), true, None, true));

    divide_segment(alone, Point::new(1, 1), &mut q);

    assert_eq!(q.len(), 1);
    assert_eq!(q.pending_len(), 0);
    assert_eq!(q.event(alone), SweepEvent::new(Point::new(0, 0), true, None, true));
}

#[test]
fn a_part_can_be_cut_again() {
    let mut q = EventQueue::new();
    let (left, right) = edge(&mut q, Point::new(0, 0), Point::new(9, 0), true);
    divide_segment(left, Point::new(3, 0), &mut q);
    divide_segment(3, Point::new(6, 0), &mut q);

    assert_eq!(q.len(), 6);
    let spans: Vec<(i64, i64)> = [left, 3, 5]
        .iter()
        .map(|id| (q.point(*id).x, q.point(q.other_event(*id).unwrap()).x))
        .collect();
    assert_eq!(spans, vec![(0, 3), (3, 6), (6, 9)]);
    assert_eq!(q.other_event(right), Some(5));
    assert_eq!(q.other_event(5), Some(right));
    let waiting: Vec<usize> = (0..q.pending_len()).map(|k| q.pending_at(k)).collect();
    assert_eq!(waiting, vec![3, 2, 5, 4]);
}
