//! Start and end events of intervals, in the order a sweep visits them.
//!
//! Both sweeps of the kernel, the one along z over the triangles of a mesh
//! and the one along x over the segments of a contour, walk a list of events.
//! Each interval `[lo, hi]` gives a `Start` event at `lo` and an `End` event
//! at `hi`; the list is in ascending order of the events' values, and events
//! with the same value stand in the order in which they were made.

use crate::sorting::{ascending, merge_sort, Ranked};
use vstd::prelude::*;

verus! {

/// Whether an interval opens or closes at an event.
#[derive(Clone, Copy, Debug, PartialEq, Eq, Structural)]
pub enum EventKind {
    Start,
    End,
}

/// The opening or the closing of interval number `index` at `value`.
#[derive(Clone, Copy, Debug, PartialEq, Eq, Structural)]
pub struct Event {
    pub value: i64,
    pub kind: EventKind,
    pub index: usize,
}

/// An event of the sweep along z: `index` names a triangle of the mesh.
pub type ZEvent = Event;

/// An event of the sweep along x: `index` names a segment of the contour.
pub type LineEvent = Event;

/// The interval from `lo` to `hi`.
#[derive(Clone, Copy, Debug, PartialEq, Eq, Structural)]
pub struct Span {
    pub lo: i64,
    pub hi: i64,
}

impl Event {
    /// `self` is visited strictly before `other`: its value is smaller, or
    /// the values are equal and `self` was made first.  Events are made
    /// interval by interval, the `Start` of an interval before its `End`.
    pub open spec fn before(self, other: Event) -> bool {
        ||| self.value < other.value
        ||| self.value == other.value && self.index < other.index
        ||| self.value == other.value && self.index == other.index && self.kind is Start
            && other.kind is End
    }
}

impl Ranked for Event {
    open spec fn leq(self, other: Event) -> bool {
        self == other || self.before(other)
    }

    proof fn leq_total(a: Event, b: Event) {
    }

    proof fn leq_transitive(a: Event, b: Event, c: Event) {
    }

    fn at_most(&self, other: &Event) -> (r: bool) {
        if self.value != other.value {
            self.value < other.value
        } else if self.index != other.index {
            self.index < other.index
        } else {
            match (self.kind, other.kind) {
                (EventKind::End, EventKind::Start) => false,
                _ => true,
            }
        }
    }
}

impl Span {
    /// Whether the interval takes part in a sweep.  A sweep either keeps
    /// every interval or leaves out those that are a single point.
    pub open spec fn kept(self, keep_flat: bool) -> bool {
        keep_flat || self.lo < self.hi
    }

    /// The interval holds `p`, its upper end excluded.
    pub open spec fn holds(self, p: int) -> bool {
        self.lo <= p < self.hi
    }
}

/// No interval ends before it starts.
pub open spec fn spans_ordered(spans: Seq<Span>) -> bool {
    forall|i: int| 0 <= i < spans.len() ==> (#[trigger] spans[i]).lo <= spans[i].hi
}

pub open spec fn start_event(spans: Seq<Span>, i: int) -> Event {
    Event { value: spans[i].lo, kind: EventKind::Start, index: i as usize }
}

pub open spec fn end_event(spans: Seq<Span>, i: int) -> Event {
    Event { value: spans[i].hi, kind: EventKind::End, index: i as usize }
}

/// An event of `spans`: it names one of the intervals that take part, and
/// its value is the end of that interval which its kind says.
pub open spec fn genuine(e: Event, spans: Seq<Span>, keep_flat: bool) -> bool {
    &&& e.index < spans.len()
    &&& spans[e.index as int].kept(keep_flat)
    &&& e == if e.kind is Start {
        start_event(spans, e.index as int)
    } else {
        end_event(spans, e.index as int)
    }
}

/// `events` is the event list of `spans`: it holds the two events of every
/// interval that takes part and nothing else, each once, in the order of
/// `Event::before`.  There is exactly one such list.
pub open spec fn is_event_list(events: Seq<Event>, spans: Seq<Span>, keep_flat: bool) -> bool {
    &&& forall|a: int, b: int|
        0 <= a < b < events.len() ==> (#[trigger] events[a]).before(#[trigger] events[b])
    &&& forall|a: int| 0 <= a < events.len() ==> genuine(#[trigger] events[a], spans, keep_flat)
    &&& forall|i: int|
        0 <= i < spans.len() && (#[trigger] spans[i]).kept(keep_flat) ==> events.contains(
            start_event(spans, i),
        ) && events.contains(end_event(spans, i))
}

/// The events of `spans` in the order of their making.
pub open spec fn raw_events(spans: Seq<Span>, keep_flat: bool) -> Seq<Event>
    decreases spans.len(),
{
    if spans.len() == 0 {
        Seq::empty()
    } else {
        let rest = raw_events(spans.drop_last(), keep_flat);
        let i = spans.len() - 1;
        if spans[i].kept(keep_flat) {
            rest.push(start_event(spans, i)).push(end_event(spans, i))
        } else {
            rest
        }
    }
}

proof fn lemma_raw_events(spans: Seq<Span>, keep_flat: bool)
    requires
        spans.len() <= usize::MAX,
    ensures
        forall|a: int|
            0 <= a < raw_events(spans, keep_flat).len() ==> genuine(
                #[trigger] raw_events(spans, keep_flat)[a],
                spans,
                keep_flat,
            ),
        forall|i: int|
            0 <= i < spans.len() && (#[trigger] spans[i]).kept(keep_flat) ==> raw_events(
                spans,
                keep_flat,
            ).contains(start_event(spans, i)) && raw_events(spans, keep_flat).contains(
                end_event(spans, i),
            ),
        raw_events(spans, keep_flat).no_duplicates(),
        raw_events(spans, keep_flat).len() <= 2 * spans.len(),
        keep_flat ==> raw_events(spans, keep_flat).len() == 2 * spans.len(),
    decreases spans.len(),
{
    let raw = raw_events(spans, keep_flat);
    if spans.len() > 0 {
        let init = spans.drop_last();
        let rest = raw_events(init, keep_flat);
        let last = spans.len() - 1;
        lemma_raw_events(init, keep_flat);
        assert forall|a: int| 0 <= a < rest.len() implies genuine(
            #[trigger] rest[a],
            spans,
            keep_flat,
        ) && rest[a].index < last by {
            assert(genuine(rest[a], init, keep_flat));
            assert(init[rest[a].index as int] == spans[rest[a].index as int]);
        }
        assert forall|a: int| 0 <= a < raw.len() implies genuine(
            #[trigger] raw[a],
            spans,
            keep_flat,
        ) by {
            if a < rest.len() {
                assert(raw[a] == rest[a]);
            }
        }
        assert forall|i: int| 0 <= i < spans.len() && (#[trigger] spans[i]).kept(
            keep_flat,
        ) implies raw.contains(start_event(spans, i)) && raw.contains(end_event(spans, i)) by {
            if i < last {
                assert(init[i] == spans[i]);
                assert(init[i].kept(keep_flat));
                assert(start_event(init, i) == start_event(spans, i));
                assert(end_event(init, i) == end_event(spans, i));
                let s = choose|s: int| 0 <= s < rest.len() && rest[s] == start_event(init, i);
                let e = choose|e: int| 0 <= e < rest.len() && rest[e] == end_event(init, i);
                assert(raw[s] == rest[s]);
                assert(raw[e] == rest[e]);
            } else {
                assert(raw[rest.len() as int] == start_event(spans, i));
                assert(raw[rest.len() as int + 1] == end_event(spans, i));
            }
        }
        assert forall|a: int, b: int|
            0 <= a < raw.len() && 0 <= b < raw.len() && a != b implies raw[a] != raw[b] by {
            if a < rest.len() {
                assert(raw[a] == rest[a]);
            }
            if b < rest.len() {
                assert(raw[b] == rest[b]);
            }
        }
    }
}

/// Builds the event list of `spans`.
///
/// With `keep_flat` every interval gives its two events; without it the
/// intervals that are a single point give none.
pub fn events_of_spans(spans: &Vec<Span>, keep_flat: bool) -> (events: Vec<Event>)
    requires
        spans_ordered(spans@),
    ensures
        is_event_list(events@, spans@, keep_flat),
        events@.len() <= 2 * spans@.len(),
        keep_flat ==> events@.len() == 2 * spans@.len(),
{
    let mut raw: Vec<Event> = Vec::new();
    let mut i: usize = 0;
    while i < spans.len()
        invariant
            i <= spans@.len(),
            raw@ == raw_events(spans@.take(i as int), keep_flat),
        decreases spans@.len() - i,
    {
        let s = spans[i];
        proof {
            assert(spans@.take(i + 1).drop_last() =~= spans@.take(i as int));
            assert(spans@.take(i + 1)[i as int] == s);
        }
        if keep_flat || s.lo < s.hi {
            raw.push(Event { value: s.lo, kind: EventKind::Start, index: i });
            raw.push(Event { value: s.hi, kind: EventKind::End, index: i });
        }
        i += 1;
    }
    let events = merge_sort(&raw);
    proof {
        assert(spans@.take(i as int) =~= spans@);
        lemma_raw_events(spans@, keep_flat);
        lemma_sorted_raw_is_event_list(events@, raw@, spans@, keep_flat);
    }
    events
}

proof fn lemma_sorted_raw_is_event_list(
    events: Seq<Event>,
    raw: Seq<Event>,
    spans: Seq<Span>,
    keep_flat: bool,
)
    requires
        ascending(events),
        events.to_multiset() == raw.to_multiset(),
        spans_ordered(spans),
        forall|a: int| 0 <= a < raw.len() ==> genuine(#[trigger] raw[a], spans, keep_flat),
        forall|i: int|
            0 <= i < spans.len() && (#[trigger] spans[i]).kept(keep_flat) ==> raw.contains(
                start_event(spans, i),
            ) && raw.contains(end_event(spans, i)),
        raw.no_duplicates(),
    ensures
        is_event_list(events, spans, keep_flat),
{
    assert forall|e: Event| events.contains(e) == raw.contains(e) by {
        vstd::seq_lib::to_multiset_contains(events, e);
        vstd::seq_lib::to_multiset_contains(raw, e);
    }
    raw.lemma_multiset_has_no_duplicates();
    events.lemma_multiset_has_no_duplicates_conv();
    assert forall|a: int| 0 <= a < events.len() implies genuine(
        #[trigger] events[a],
        spans,
        keep_flat,
    ) by {
        assert(events.contains(events[a]));
        let r = choose|r: int| 0 <= r < raw.len() && raw[r] == events[a];
        assert(genuine(raw[r], spans, keep_flat));
    }
    assert forall|a: int, b: int| 0 <= a < b < events.len() implies (#[trigger] events[a]).before(
        #[trigger] events[b],
    ) by {
        assert(events[a].leq(events[b]));
        assert(events[a] != events[b]);
    }
}

/// Intervals have one event list and no more.
pub proof fn lemma_event_list_unique(
    one: Seq<Event>,
    other: Seq<Event>,
    spans: Seq<Span>,
    keep_flat: bool,
)
    requires
        is_event_list(one, spans, keep_flat),
        is_event_list(other, spans, keep_flat),
    ensures
        one == other,
{
    lemma_event_list_contents(one, spans, keep_flat);
    lemma_event_list_contents(other, spans, keep_flat);
    one.lemma_multiset_has_no_duplicates();
    other.lemma_multiset_has_no_duplicates();
    assert forall|e: Event| one.to_multiset().count(e) == other.to_multiset().count(e) by {
        vstd::seq_lib::to_multiset_contains(one, e);
        vstd::seq_lib::to_multiset_contains(other, e);
    }
    assert(one.to_multiset() =~= other.to_multiset());
    crate::sorting::lemma_ascending_unique(one, other);
}

/// An event list holds the events of the intervals that take part, each
/// once, and is in ascending order.
proof fn lemma_event_list_contents(events: Seq<Event>, spans: Seq<Span>, keep_flat: bool)
    requires
        is_event_list(events, spans, keep_flat),
    ensures
        ascending(events),
        events.no_duplicates(),
        forall|e: Event| events.contains(e) <==> genuine(e, spans, keep_flat),
{
    assert forall|e: Event| genuine(e, spans, keep_flat) implies events.contains(e) by {
        assert(spans[e.index as int].kept(keep_flat));
    }
    assert forall|a: int, b: int| 0 <= a < events.len() && 0 <= b < events.len() && a
        != b implies events[a] != events[b] by {
        if a < b {
            assert(events[a].before(events[b]));
        } else {
            assert(events[b].before(events[a]));
        }
    }
}

} // verus!
