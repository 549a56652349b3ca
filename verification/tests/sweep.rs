use mesh_slicer::events::{events_of_spans, Span};
use mesh_slicer::sweep::{drain_events, ActiveSet};

#[test]
fn active_set_starts_empty() {
    let set = ActiveSet::new();
    assert!(set.members().is_empty());
    assert!(!set.contains(0));
}

#[test]
fn active_set_lists_members_smallest_first() {
    let mut set = ActiveSet::new();
    set.insert(7);
    set.insert(2);
    set.insert(9);
    set.insert(4);
    assert_eq!(set.members(), vec![2, 4, 7, 9]);
    assert!(set.contains(7));
    assert!(!set.contains(5));
}

#[test]
fn active_set_holds_a_member_once() {
    let mut set = ActiveSet::new();
    set.insert(3);
    set.insert(3);
    assert_eq!(set.members(), vec![3]);
}

#[test]
fn active_set_forgets_what_is_removed() {
    let mut set = ActiveSet::new();
    set.insert(1);
    set.insert(5);
    set.insert(3);
    set.remove(5);
    assert_eq!(set.members(), vec![1, 3]);
    set.remove(8);
    assert_eq!(set.members(), vec![1, 3]);
    set.remove(1);
    set.remove(3);
    assert!(set.members().is_empty());
}

#[test]
fn drain_applies_every_event_up_to_the_cursor() {
    let spans = vec![Span { lo: 0, hi: 10 }, Span { lo: 4, hi: 6 }, Span { lo: 6, hi: 20 }];
    let events = events_of_spans(&spans, true);
    let mut active = ActiveSet::new();
    let next = drain_events(&events, 0, &mut active, 0);
    assert_eq!(next, 1);
    assert_eq!(active.members(), vec![0]);
    let next = drain_events(&events, next, &mut active, 5);
    assert_eq!(next, 2);
    assert_eq!(active.members(), vec![0, 1]);
    let next = drain_events(&events, next, &mut active, 6);
    assert_eq!(next, 4);
    assert_eq!(active.members(), vec![0, 2]);
    let next = drain_events(&events, next, &mut active, 19);
    assert_eq!(next, 5);
    assert_eq!(active.members(), vec![2]);
    let next = drain_events(&events, next, &mut active, 20);
    assert_eq!(next, 6);
    assert!(active.members().is_empty());
}

#[test]
fn drain_takes_start_and_end_at_the_same_value_together() {
    let spans = vec![Span { lo: 3, hi: 3 }, Span { lo: 3, hi: 8 }];
    let events = events_of_spans(&spans, true);
    let mut active = ActiveSet::new();
    let next = drain_events(&events, 0, &mut active, 3);
    assert_eq!(next, 3);
    assert_eq!(active.members(), vec![1]);
}

#[test]
fn the_open_intervals_are_those_that_hold_the_cursor() {
    let spans = vec![
        Span { lo: 0, hi: 9 },
        Span { lo: 3, hi: 4 },
        Span { lo: 2, hi: 2 },
        Span { lo: 5, hi: 30 },
        Span { lo: 1, hi: 17 },
        Span { lo: 12, hi: 13 },
    ];
    let events = events_of_spans(&spans, true);
    let mut active = ActiveSet::new();
    let mut next = 0;
    for p in 0..32i64 {
        next = drain_events(&events, next, &mut active, p);
        let mut expected = Vec::new();
        for (i, s) in spans.iter().enumerate() {
            if s.lo <= p && p < s.hi {
                expected.push(i);
            }
        }
        assert_eq!(active.members(), expected);
    }
    assert_eq!(next, events.len());
}
