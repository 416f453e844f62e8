use booleanop::event::{EdgeType, SweepEvent};
use booleanop::point::Point;
use booleanop::queue::EventQueue;

#[test]
fn points_are_reached_by_x_then_by_y() {
    let p = Point::new(1, 5);
    assert!(p.is_before(&Point::new(2, 0)));
    assert!(p.is_before(&Point::new(1, 6)));
    assert!(!p.is_before(&Point::new(1, 5)));
    assert!(!p.is_before(&Point::new(1, 4)));
    assert!(!p.is_before(&Point::new(0, 9)));
    assert!(Point::new(i64::MIN, i64::MAX).is_before(&Point::new(i64::MAX, i64::MIN)));
    assert!(Point::new(-3, 0).is_before(&Point::new(-2, -7)));
}

#[test]
fn a_point_has_the_coordinates_given() {
    let p = Point::new(-7, 12);
    assert_eq!((p.x, p.y), (-7, 12));
    assert_eq!(p, Point { x: -7, y: 12 });
    assert_ne!(p, Point { x: 12, y: -7 });
}

#[test]
fn a_new_event_is_normal_and_unflagged() {
    let e = SweepEvent::new(Point::new(3, 4), true, Some(9), false);
    assert_eq!(e.point, Point::new(3, 4));
    assert!(e.is_left);
    assert_eq!(e.other_event, Some(9));
    assert!(!e.is_subject);
    assert_eq!(e.edge_type, EdgeType::Normal);
    assert!(!e.in_out);
    assert!(!e.other_in_out);
    assert!(!e.in_result);
}

#[test]
fn a_new_queue_is_empty() {
    let q = EventQueue::new();
    assert_eq!(q.len(), 0);
    assert_eq!(q.pending_len(), 0);
}

#[test]
fn events_get_the_next_free_id() {
    let mut q = EventQueue::new();
    let a = q.add_event(SweepEvent::new(Point::new(5, 5), false, None, true));
    let b = q.add_event(SweepEvent::new(Point::new(1, 1), true, Some(a), true));
    assert_eq!((a, b), (0, 1));
    assert_eq!(q.len(), 2);
    assert_eq!(q.pending_len(), 0);
    assert_eq!(q.point(a), Point::new(5, 5));
    assert_eq!(q.point(b), Point::new(1, 1));
    assert_eq!(q.other_event(a), None);
    assert_eq!(q.other_event(b), Some(a));
    assert_eq!(q.event(b), SweepEvent::new(Point::new(1, 1), true, Some(a), true));
}

#[test]
fn setters_change_one_field_of_one_event() {
    let mut q = EventQueue::new();
    let a = q.add_event(SweepEvent::new(Point::new(5, 5), false, None, true));
    let b = q.add_event(SweepEvent::new(Point::new(1, 1), true, Some(a), false));
    let untouched = q.event(b);
    let mut expected = q.event(a);

    q.set_other_event(a, b);
    expected.other_event = Some(b);
    assert_eq!(q.event(a), expected);

    q.set_left(a, true);
    expected.is_left = true;
    assert_eq!(q.event(a), expected);

    q.set_edge_type(a, EdgeType::SameTransition);
    expected.edge_type = EdgeType::SameTransition;
    assert_eq!(q.event(a), expected);

    q.set_in_out(a, true, false);
    expected.in_out = true;
    assert_eq!(q.event(a), expected);
    q.set_in_out(a, false, true);
    expected.in_out = false;
    expected.other_in_out = true;
    assert_eq!(q.event(a), expected);

    q.set_in_result(a, true);
    expected.in_result = true;
    assert_eq!(q.event(a), expected);

    assert_eq!(q.event(b), untouched);
    assert_eq!(q.len(), 2);
    assert_eq!(q.pending_len(), 0);
}

#[test]
fn events_wait_in_the_order_in_which_they_came() {
    let mut q = EventQueue::new();
    let a = q.add_event(SweepEvent::new(Point::new(5, 5), false, None, true));
    let b = q.add_event(SweepEvent::new(Point::new(1, 1), true, Some(a), true));
    q.push(b);
    q.push(a);
    q.push(b);
    assert_eq!(q.pending_len(), 3);
    assert_eq!((q.pending_at(0), q.pending_at(1), q.pending_at(2)), (b, a, b));
    assert_eq!(q.len(), 2);
}

#[test]
fn a_waiting_event_can_be_taken_out_of_turn() {
    let mut q = EventQueue::new();
    let a = q.add_event(SweepEvent::new(Point::new(5, 5), false, None, true));
    let b = q.add_event(SweepEvent::new(Point::new(1, 1), true, Some(a), true));
    let c = q.add_event(SweepEvent::new(Point::new(3, 1), true, None, false));
    q.push(a);
    q.push(b);
    q.push(c);
    assert_eq!(q.take(1), b);
    assert_eq!(q.pending_len(), 2);
    assert_eq!((q.pending_at(0), q.pending_at(1)), (a, c));
    assert_eq!(q.take(1), c);
    assert_eq!(q.take(0), a);
    assert_eq!(q.pending_len(), 0);
    assert_eq!(q.len(), 3);
    assert_eq!(q.event(b), SweepEvent::new(Point::new(1, 1), true, Some(a), true));
}
