//! The state of a sweep: a cursor into an event list and the set of
//! intervals that are open at the cursor.

use crate::events::{
    end_event, genuine, is_event_list, spans_ordered, start_event, Event, EventKind, Span,
};
use crate::sorting::{merge_sort, Ranked};
use std::collections::HashSet;
use vstd::prelude::*;
use vstd::std_specs::iter::IteratorSpec;

verus! {

broadcast use vstd::std_specs::hash::group_hash_axioms;

/// The set after `e` has been applied to `s`: a `Start` puts its interval
/// in, an `End` takes it out.
pub open spec fn apply_event(s: Set<usize>, e: Event) -> Set<usize> {
    match e.kind {
        EventKind::Start => s.insert(e.index),
        EventKind::End => s.remove(e.index),
    }
}

/// The set after all of `events` have been applied to `s`, first to last.
pub open spec fn apply_events(s: Set<usize>, events: Seq<Event>) -> Set<usize>
    decreases events.len(),
{
    if events.len() == 0 {
        s
    } else {
        apply_event(apply_events(s, events.drop_last()), events.last())
    }
}

/// The intervals that are open once the first `done` events of a sweep have
/// been applied.
pub open spec fn open_after(events: Seq<Event>, done: int) -> Set<usize> {
    apply_events(Set::empty(), events.take(done))
}

/// The intervals of `spans` that hold `p`.
pub open spec fn holding(spans: Seq<Span>, p: int) -> Set<usize> {
    Set::new(|i: usize| i < spans.len() && spans[i as int].holds(p))
}

/// `done` is where a sweep over `events` stands once it has applied every
/// event whose value does not exceed `p`, and no other.
pub open spec fn drained_to(events: Seq<Event>, done: int, p: int) -> bool {
    &&& 0 <= done <= events.len()
    &&& forall|a: int| 0 <= a < done ==> (#[trigger] events[a]).value <= p
    &&& forall|a: int| done <= a < events.len() ==> (#[trigger] events[a]).value > p
}

/// `list` names the members of `set`, each once, smallest first.
pub open spec fn lists(list: Seq<usize>, set: Set<usize>) -> bool {
    &&& forall|s: int, t: int| 0 <= s < t < list.len() ==> list[s] < list[t]
    &&& forall|i: usize| set.contains(i) <==> list.contains(i)
}

/// The set of the intervals that are open at the cursor of a sweep.
pub struct ActiveSet {
    members: HashSet<usize>,
}

impl View for ActiveSet {
    type V = Set<usize>;

    closed spec fn view(&self) -> Set<usize> {
        self.members@
    }
}

impl ActiveSet {
    pub fn new() -> (set: Self)
        ensures
            set@ == Set::<usize>::empty(),
    {
        ActiveSet { members: HashSet::new() }
    }

    pub fn contains(&self, i: usize) -> (b: bool)
        ensures
            b == self@.contains(i),
    {
        self.members.contains(&i)
    }

    /// Puts `i` into the set.
    pub fn insert(&mut self, i: usize)
        ensures
            final(self)@ == old(self)@.insert(i),
    {
        self.members.insert(i);
    }

    /// Takes `i` out of the set.
    pub fn remove(&mut self, i: usize)
        ensures
            final(self)@ == old(self)@.remove(i),
    {
        self.members.remove(&i);
    }

    /// The members of the set, smallest first.
    pub fn members(&self) -> (list: Vec<usize>)
        ensures
            lists(list@, self@),
    {
        let mut found: Vec<usize> = Vec::new();
        let ghost all = self.members.iter().remaining().unref();
        for k in it: self.members.iter()
            invariant
                found@.len() == it.index(),
                it.seq().unref() == all,
                all.to_set() == self.members@,
                all.no_duplicates(),
                forall|t: int| 0 <= t < found@.len() ==> found@[t] == all[t],
        {
            found.push(*k);
        }
        let list = merge_sort(&found);
        proof {
            assert(found@ =~= all);
            assert forall|i: usize| self@.contains(i) <==> list@.contains(i) by {
                vstd::seq_lib::to_multiset_contains(list@, i);
                vstd::seq_lib::to_multiset_contains(found@, i);
            }
            found@.lemma_multiset_has_no_duplicates();
            list@.lemma_multiset_has_no_duplicates_conv();
            assert forall|s: int, t: int| 0 <= s < t < list@.len() implies list@[s] < list@[t] by {
                assert(list@[s].leq(list@[t]));
            }
        }
        list
    }
}

/// Applies to `active` the events from position `next` on whose value does
/// not exceed `cursor`, and returns the position of the first event that is
/// left.
pub fn drain_events(events: &Vec<Event>, next: usize, active: &mut ActiveSet, cursor: i64) -> (stop:
    usize)
    requires
        next <= events@.len(),
        old(active)@ == open_after(events@, next as int),
    ensures
        next <= stop <= events@.len(),
        final(active)@ == open_after(events@, stop as int),
        forall|a: int| next <= a < stop ==> (#[trigger] events@[a]).value <= cursor,
        stop < events@.len() ==> events@[stop as int].value > cursor,
{
    let mut j: usize = next;
    while j < events.len() && events[j].value <= cursor
        invariant
            next <= j <= events@.len(),
            active@ == open_after(events@, j as int),
            forall|a: int| next <= a < j ==> (#[trigger] events@[a]).value <= cursor,
        decreases events@.len() - j,
    {
        let e = events[j];
        proof {
            assert(events@.take(j + 1).drop_last() =~= events@.take(j as int));
            assert(events@.take(j + 1).last() == e);
        }
        match e.kind {
            EventKind::Start => {
                active.insert(e.index);
            },
            EventKind::End => {
                active.remove(e.index);
            },
        }
        j += 1;
    }
    j
}

/// An interval is open after the first `done` events exactly if its `Start`
/// is among them and its `End` is not.
proof fn lemma_open_between_start_and_end(
    events: Seq<Event>,
    spans: Seq<Span>,
    keep_flat: bool,
    done: int,
    i: usize,
)
    requires
        is_event_list(events, spans, keep_flat),
        spans_ordered(spans),
        0 <= done <= events.len(),
        i < spans.len(),
    ensures
        open_after(events, done).contains(i) <==> events.take(done).contains(
            start_event(spans, i as int),
        ) && !events.take(done).contains(end_event(spans, i as int)),
    decreases done,
{
    let s = start_event(spans, i as int);
    let e = end_event(spans, i as int);
    let now = events.take(done);
    if done == 0 {
        assert(now.len() == 0);
    } else {
        let prev = events.take(done - 1);
        let x = events[done - 1];
        lemma_open_between_start_and_end(events, spans, keep_flat, done - 1, i);
        assert(now.drop_last() =~= prev);
        assert(now.last() == x);
        assert(open_after(events, done) == apply_event(open_after(events, done - 1), x));
        assert(genuine(events[done - 1], spans, keep_flat));
        assert forall|v: Event| now.contains(v) <==> prev.contains(v) || v == x by {
            if now.contains(v) {
                let t = choose|t: int| 0 <= t < now.len() && now[t] == v;
                if t < done - 1 {
                    assert(prev[t] == v);
                }
            }
            if prev.contains(v) {
                let t = choose|t: int| 0 <= t < prev.len() && prev[t] == v;
                assert(now[t] == v);
            }
            if v == x {
                assert(now[done - 1] == v);
            }
        }
        if x == s {
            // The `End` of an interval never stands before its `Start`.
            assert(s.before(e));
            if prev.contains(e) {
                let t = choose|t: int| 0 <= t < prev.len() && prev[t] == e;
                assert(events[t] == e);
                assert(events[t].before(events[done - 1]));
            }
        }
    }
}

/// The sweep's active set is what it should be: once a sweep over the event
/// list of `spans` has taken every event up to and including `p`, the open
/// intervals are those with `lo <= p < hi`.
pub proof fn lemma_sweep_active_set(
    events: Seq<Event>,
    spans: Seq<Span>,
    keep_flat: bool,
    done: int,
    p: int,
)
    requires
        is_event_list(events, spans, keep_flat),
        spans_ordered(spans),
        drained_to(events, done, p),
    ensures
        open_after(events, done) == holding(spans, p),
{
    let now = events.take(done);
    assert forall|i: usize| open_after(events, done).contains(i) == holding(spans, p).contains(
        i,
    ) by {
        if i < spans.len() {
            lemma_open_between_start_and_end(events, spans, keep_flat, done, i);
            let s = start_event(spans, i as int);
            let e = end_event(spans, i as int);
            if now.contains(s) {
                let t = choose|t: int| 0 <= t < now.len() && now[t] == s;
                assert(events[t] == s);
            }
            if now.contains(e) {
                let t = choose|t: int| 0 <= t < now.len() && now[t] == e;
                assert(events[t] == e);
            }
            if spans[i as int].kept(keep_flat) {
                let a = choose|a: int| 0 <= a < events.len() && events[a] == s;
                let b = choose|b: int| 0 <= b < events.len() && events[b] == e;
                if a < done {
                    assert(now[a] == s);
                }
                if b < done {
                    assert(now[b] == e);
                }
            } else {
                if now.contains(s) {
                    let t = choose|t: int| 0 <= t < now.len() && now[t] == s;
                    assert(genuine(events[t], spans, keep_flat));
                }
            }
        } else {
            lemma_open_members_are_intervals(events, spans, keep_flat, done);
        }
    }
    assert(open_after(events, done) =~= holding(spans, p));
}

/// Only intervals of `spans` are ever open.
proof fn lemma_open_members_are_intervals(
    events: Seq<Event>,
    spans: Seq<Span>,
    keep_flat: bool,
    done: int,
)
    requires
        is_event_list(events, spans, keep_flat),
        0 <= done <= events.len(),
    ensures
        forall|i: usize| open_after(events, done).contains(i) ==> i < spans.len(),
    decreases done,
{
    if done > 0 {
        lemma_open_members_are_intervals(events, spans, keep_flat, done - 1);
        assert(events.take(done).drop_last() =~= events.take(done - 1));
        assert(events.take(done).last() == events[done - 1]);
        assert(genuine(events[done - 1], spans, keep_flat));
        assert(open_after(events, done) == apply_event(
            open_after(events, done - 1),
            events[done - 1],
        ));
    } else {
        assert(events.take(done).len() == 0);
    }
}

/// A sweep that had applied every event up to `before`, and has now applied
/// those up to `p` as well, has applied every event up to `p` and no other.
pub proof fn lemma_drained(
    events: Seq<Event>,
    spans: Seq<Span>,
    keep_flat: bool,
    next: int,
    stop: int,
    before: int,
    p: int,
)
    requires
        is_event_list(events, spans, keep_flat),
        0 <= next <= stop <= events.len(),
        before <= p,
        forall|a: int| 0 <= a < next ==> (#[trigger] events[a]).value <= before,
        forall|a: int| next <= a < stop ==> (#[trigger] events[a]).value <= p,
        stop < events.len() ==> events[stop].value > p,
    ensures
        drained_to(events, stop, p),
{
    assert forall|a: int| stop <= a < events.len() implies (#[trigger] events[a]).value > p by {
        if a > stop {
            assert(events[stop].before(events[a]));
        }
    }
}

/// At a cursor at which no interval ends, the open intervals are those that
/// hold the cursor between their two ends, either end included.
pub proof fn lemma_sweep_active_set_between_ends(
    events: Seq<Event>,
    spans: Seq<Span>,
    keep_flat: bool,
    done: int,
    p: int,
)
    requires
        is_event_list(events, spans, keep_flat),
        spans_ordered(spans),
        drained_to(events, done, p),
        forall|i: int| 0 <= i < spans.len() ==> (#[trigger] spans[i]).hi != p,
    ensures
        open_after(events, done) == Set::new(
            |i: usize| i < spans.len() && spans[i as int].lo <= p <= spans[i as int].hi,
        ),
{
    lemma_sweep_active_set(events, spans, keep_flat, done, p);
    assert(holding(spans, p) =~= Set::new(
        |i: usize| i < spans.len() && spans[i as int].lo <= p <= spans[i as int].hi,
    ));
}

} // verus!
