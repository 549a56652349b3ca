use mesh_slicer::events::{events_of_spans, Event, EventKind, Span};
use mesh_slicer::sorting::{merge, merge_sort, Ranked};

fn event(value: i64, kind: EventKind, index: usize) -> Event {
    Event { value, kind, index }
}

#[test]
fn merge_sort_orders_events_by_value() {
    let raw = vec![
        event(5, EventKind::Start, 0),
        event(9, EventKind::End, 0),
        event(1, EventKind::Start, 1),
        event(7, EventKind::End, 1),
    ];
    let sorted = merge_sort(&raw);
    assert_eq!(
        sorted,
        vec![
            event(1, EventKind::Start, 1),
            event(5, EventKind::Start, 0),
            event(7, EventKind::End, 1),
            event(9, EventKind::End, 0),
        ]
    );
}

#[test]
fn merge_sort_keeps_the_order_of_making_among_equal_values() {
    let raw = vec![
        event(4, EventKind::Start, 0),
        event(4, EventKind::End, 0),
        event(4, EventKind::Start, 1),
        event(4, EventKind::End, 1),
        event(2, EventKind::Start, 2),
        event(4, EventKind::End, 2),
    ];
    let sorted = merge_sort(&raw);
    assert_eq!(
        sorted,
        vec![
            event(2, EventKind::Start, 2),
            event(4, EventKind::Start, 0),
            event(4, EventKind::End, 0),
            event(4, EventKind::Start, 1),
            event(4, EventKind::End, 1),
            event(4, EventKind::End, 2),
        ]
    );
}

#[test]
fn merge_sort_of_nothing_is_nothing() {
    let raw: Vec<Event> = Vec::new();
    assert_eq!(merge_sort(&raw), Vec::new());
}

#[test]
fn merge_sort_keeps_every_element() {
    let mut raw = Vec::new();
    let mut seed: i64 = 17;
    for i in 0..200usize {
        seed = (seed * 73 + 11) % 101;
        raw.push(event(seed, EventKind::Start, i));
    }
    let sorted = merge_sort(&raw);
    assert_eq!(sorted.len(), raw.len());
    for w in sorted.windows(2) {
        assert!(w[0].at_most(&w[1]));
    }
    for e in raw.iter() {
        assert!(sorted.contains(e));
    }
}

#[test]
fn merge_interleaves_two_ascending_lists() {
    let a = vec![event(1, EventKind::Start, 0), event(6, EventKind::End, 0)];
    let b = vec![event(3, EventKind::Start, 1), event(4, EventKind::End, 1)];
    assert_eq!(
        merge(&a, &b),
        vec![
            event(1, EventKind::Start, 0),
            event(3, EventKind::Start, 1),
            event(4, EventKind::End, 1),
            event(6, EventKind::End, 0),
        ]
    );
}

#[test]
fn start_comes_before_end_of_the_same_interval() {
    let s = event(3, EventKind::Start, 5);
    let e = event(3, EventKind::End, 5);
    assert!(s.at_most(&e));
    assert!(!e.at_most(&s));
    assert!(s.at_most(&s));
}

#[test]
fn smaller_value_comes_first_whatever_the_kind() {
    let e = event(2, EventKind::End, 9);
    let s = event(3, EventKind::Start, 0);
    assert!(e.at_most(&s));
    assert!(!s.at_most(&e));
}

#[test]
fn every_span_gives_two_events_when_flat_ones_are_kept() {
    let spans = vec![Span { lo: 0, hi: 10 }, Span { lo: 5, hi: 5 }, Span { lo: 2, hi: 7 }];
    let events = events_of_spans(&spans, true);
    assert_eq!(events.len(), 2 * spans.len());
    assert_eq!(
        events,
        vec![
            event(0, EventKind::Start, 0),
            event(2, EventKind::Start, 2),
            event(5, EventKind::Start, 1),
            event(5, EventKind::End, 1),
            event(7, EventKind::End, 2),
            event(10, EventKind::End, 0),
        ]
    );
}

#[test]
fn flat_spans_give_no_events_when_they_are_dropped() {
    let spans = vec![Span { lo: 0, hi: 10 }, Span { lo: 5, hi: 5 }, Span { lo: 2, hi: 7 }];
    let events = events_of_spans(&spans, false);
    assert_eq!(
        events,
        vec![
            event(0, EventKind::Start, 0),
            event(2, EventKind::Start, 2),
            event(7, EventKind::End, 2),
            event(10, EventKind::End, 0),
        ]
    );
}

#[test]
fn no_spans_give_no_events() {
    let spans: Vec<Span> = Vec::new();
    assert!(events_of_spans(&spans, true).is_empty());
}
