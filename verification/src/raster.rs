//! Filling the inside of a contour, one raster column after the other.
//!
//! A sweep along x keeps the set of segments that cross the current column.
//! In the column every crossing counts `+1` where its segment runs from left
//! to right and `-1` where it runs from right to left; a cell is filled when
//! the crossings at or below its row add up to more than zero.

use crate::error::SliceError;
use crate::events::{
    end_event, events_of_spans, genuine, is_event_list, spans_ordered, Event, LineEvent, Span,
};
use crate::geometry::{nearest_cell, Facet, Segment, Vertex, SPAN_LIMIT, UNITS_PER_PIXEL};
use crate::layer::Layer;
use crate::slicer::{
    contour, contour_segments, facets_within, interpolate, lemma_lerp_between, lerp,
    segments_within,
};
use crate::sorting::{ascending, merge_sort, Ranked};
use crate::sweep::{
    drain_events, drained_to, holding, lemma_drained, lemma_sweep_active_set, lists, open_after,
    ActiveSet,
};
use vstd::prelude::*;

verus! {

/// The end of the segment with the smaller x.
pub open spec fn left_end(s: Segment) -> Vertex {
    if s.first.x <= s.second.x {
        s.first
    } else {
        s.second
    }
}

/// The end of the segment with the greater x.
pub open spec fn right_end(s: Segment) -> Vertex {
    if s.first.x <= s.second.x {
        s.second
    } else {
        s.first
    }
}

/// The stretch of x that the segment covers.
pub open spec fn x_span(s: Segment) -> Span {
    Span { lo: left_end(s).x, hi: right_end(s).x }
}

/// The stretches of x of a list of segments.
pub open spec fn x_spans(segments: Seq<Segment>) -> Seq<Span> {
    Seq::new(segments.len(), |i: int| x_span(segments[i]))
}

/// The segment crosses the column at `x`: it starts at or before `x` and
/// ends after it.  A vertical segment crosses no column.
pub open spec fn crosses(s: Segment, x: int) -> bool {
    x_span(s).holds(x)
}

/// `+1` for a segment that runs from left to right, `-1` for one that runs
/// from right to left, `0` for a vertical one.
pub open spec fn direction(s: Segment) -> int {
    if s.first.x < s.second.x {
        1
    } else if s.first.x > s.second.x {
        -1
    } else {
        0
    }
}

/// The y of the segment at `x`, rounded down to a whole unit.
pub open spec fn height_at(s: Segment, x: int) -> int {
    lerp(
        left_end(s).y as int,
        right_end(s).y as int,
        x - left_end(s).x,
        right_end(s).x - left_end(s).x,
    )
}

/// The raster row nearest to `y`; rows are not negative.
pub open spec fn row_of(y: int) -> int {
    nearest_cell(y)
}

/// `y` counts towards `bound`: its row is at or below the bounding row, or
/// there is no bound.
pub open spec fn under(y: int, bound: Option<int>) -> bool {
    match bound {
        Some(row) => row_of(y) <= row,
        None => true,
    }
}

/// What one segment adds to the count of the column at `x`.
pub open spec fn segment_count(s: Segment, x: int, bound: Option<int>) -> int {
    if crosses(s, x) && under(height_at(s, x), bound) {
        direction(s)
    } else {
        0
    }
}

/// The signed number of segments that cross the column at `x` under `bound`.
pub open spec fn column_count(segments: Seq<Segment>, x: int, bound: Option<int>) -> int
    decreases segments.len(),
{
    if segments.len() == 0 {
        0
    } else {
        column_count(segments.drop_last(), x, bound) + segment_count(segments.last(), x, bound)
    }
}

/// The winding number of the cell in row `row` of the column at `x`: the
/// signed number of segments that cross the column at or below that row.
pub open spec fn winding(segments: Seq<Segment>, x: int, row: int) -> int {
    column_count(segments, x, Some(row))
}

/// What is left of the winding number above all crossings of the column at
/// `x`.  It is zero for a closed contour.
pub open spec fn residual(segments: Seq<Segment>, x: int) -> int {
    column_count(segments, x, None)
}

/// The x of raster column `c`.
pub open spec fn column_x(c: int) -> int {
    c * UNITS_PER_PIXEL
}

/// One crossing of a column: the y at which a segment crosses it and the
/// direction of the segment.
#[derive(Clone, Copy, Debug, PartialEq, Eq, Structural)]
pub struct Crossing {
    pub y: i64,
    pub sign: i32,
}

impl Ranked for Crossing {
    open spec fn leq(self, other: Crossing) -> bool {
        self.y < other.y || (self.y == other.y && self.sign <= other.sign)
    }

    proof fn leq_total(a: Crossing, b: Crossing) {
    }

    proof fn leq_transitive(a: Crossing, b: Crossing, c: Crossing) {
    }

    fn at_most(&self, other: &Crossing) -> (r: bool) {
        self.y < other.y || (self.y == other.y && self.sign <= other.sign)
    }
}

/// What one crossing adds to a count under `bound`.
pub open spec fn crossing_count(c: Crossing, bound: Option<int>) -> int {
    if under(c.y as int, bound) {
        c.sign as int
    } else {
        0
    }
}

/// The signs of the crossings under `bound`, added up.
pub open spec fn signed_count(crossings: Seq<Crossing>, bound: Option<int>) -> int
    decreases crossings.len(),
{
    if crossings.len() == 0 {
        0
    } else {
        signed_count(crossings.drop_last(), bound) + crossing_count(crossings.last(), bound)
    }
}

/// The crossing of the column at `x` by a segment that crosses it.
pub open spec fn crossing_of(s: Segment, x: int) -> Crossing {
    Crossing { y: height_at(s, x) as i64, sign: direction(s) as i32 }
}

/// The y at which the line through `first` and `second` passes the column at `x`,
/// rounded down, and the direction in which it runs.
pub fn generate_y(first: Vertex, second: Vertex, x: i64) -> (r: (i64, i32))
    requires
        first.x != second.x,
        first.within(SPAN_LIMIT as int),
        second.within(SPAN_LIMIT as int),
        -SPAN_LIMIT <= x <= SPAN_LIMIT,
    ensures
        r.0 == height_at((Segment { first, second }), x as int),
        r.1 == direction((Segment { first, second })),
{
    if first.x < second.x {
        (interpolate(first.y, second.y, x - first.x, second.x - first.x), 1)
    } else {
        (interpolate(second.y, first.y, x - second.x, first.x - second.x), -1)
    }
}

/// Where a segment crosses a column, its y there lies between the y of its
/// two ends.
pub proof fn lemma_height_between(s: Segment, x: int)
    requires
        crosses(s, x),
    ensures
        left_end(s).y <= right_end(s).y ==> left_end(s).y <= height_at(s, x) <= right_end(s).y,
        right_end(s).y <= left_end(s).y ==> right_end(s).y <= height_at(s, x) <= left_end(s).y,
{
    lemma_lerp_between(
        left_end(s).y as int,
        right_end(s).y as int,
        x - left_end(s).x,
        right_end(s).x - left_end(s).x,
    );
}

/// Builds the event list of the sweep along x: for every segment that is
/// not vertical a `Start` at its smaller x and an `End` at its greater x.
pub fn generate_line_events(polyline: &Vec<Segment>) -> (events: Vec<LineEvent>)
    ensures
        is_event_list(events@, x_spans(polyline@), false),
        spans_ordered(x_spans(polyline@)),
        events@.len() <= 2 * polyline@.len(),
{
    let mut spans: Vec<Span> = Vec::new();
    let mut i: usize = 0;
    while i < polyline.len()
        invariant
            i <= polyline@.len(),
            spans@.len() == i,
            forall|k: int| 0 <= k < i ==> (#[trigger] spans@[k]) == x_span(polyline@[k]),
        decreases polyline@.len() - i,
    {
        let s = polyline[i];
        if s.first.x <= s.second.x {
            spans.push(Span { lo: s.first.x, hi: s.second.x });
        } else {
            spans.push(Span { lo: s.second.x, hi: s.first.x });
        }
        i += 1;
    }
    assert(spans@ =~= x_spans(polyline@));
    events_of_spans(&spans, false)
}

/// Taking one crossing out of a list takes its count out of the sum.
proof fn lemma_count_without(crossings: Seq<Crossing>, k: int, bound: Option<int>)
    requires
        0 <= k < crossings.len(),
    ensures
        signed_count(crossings, bound) == signed_count(crossings.remove(k), bound) + crossing_count(
            crossings[k],
            bound,
        ),
    decreases crossings.len(),
{
    let last = crossings.len() - 1;
    if k == last {
        assert(crossings.remove(k) =~= crossings.drop_last());
    } else {
        lemma_count_without(crossings.drop_last(), k, bound);
        assert(crossings.remove(k).drop_last() =~= crossings.drop_last().remove(k));
        assert(crossings.remove(k).last() == crossings.last());
    }
}

/// The sum of a list of crossings does not depend on their order.
pub proof fn lemma_count_any_order(a: Seq<Crossing>, b: Seq<Crossing>, bound: Option<int>)
    requires
        a.to_multiset() == b.to_multiset(),
    ensures
        signed_count(a, bound) == signed_count(b, bound),
    decreases a.len(),
{
    vstd::seq_lib::to_multiset_len(a);
    vstd::seq_lib::to_multiset_len(b);
    if a.len() > 0 {
        let x = a.last();
        assert(a.contains(x)) by {
            assert(a[a.len() - 1] == x);
        }
        vstd::seq_lib::to_multiset_contains(a, x);
        vstd::seq_lib::to_multiset_contains(b, x);
        let k = choose|k: int| 0 <= k < b.len() && b[k] == x;
        vstd::seq_lib::to_multiset_remove(a, a.len() - 1);
        vstd::seq_lib::to_multiset_remove(b, k);
        assert(a.remove(a.len() - 1) =~= a.drop_last());
        lemma_count_any_order(a.drop_last(), b.remove(k), bound);
        lemma_count_without(b, k, bound);
    } else {
        assert(b.len() == 0);
    }
}

/// In a list whose first `k` crossings lie at or below row `row` and whose
/// other crossings lie above it, the winding number of the row is the sum of
/// the signs of the first `k` crossings.
proof fn lemma_count_of_prefix(crossings: Seq<Crossing>, k: int, row: int)
    requires
        0 <= k <= crossings.len(),
        forall|j: int| 0 <= j < k ==> row_of((#[trigger] crossings[j]).y as int) <= row,
        forall|j: int|
            k <= j < crossings.len() ==> row_of((#[trigger] crossings[j]).y as int) > row,
    ensures
        signed_count(crossings, Some(row)) == signed_count(crossings.take(k), None),
    decreases crossings.len(),
{
    if crossings.len() == 0 {
        assert(crossings.take(k) =~= crossings);
    } else if k == crossings.len() {
        assert(crossings.take(k) =~= crossings);
        lemma_count_of_prefix(crossings.drop_last(), k - 1, row);
        assert(crossings.drop_last().take(k - 1) =~= crossings.drop_last());
    } else {
        lemma_count_of_prefix(crossings.drop_last(), k, row);
        assert(crossings.drop_last().take(k) =~= crossings.take(k));
    }
}

/// The row of the last crossing of a list, or row 0 for an empty list.
pub open spec fn top_row(crossings: Seq<Crossing>) -> int {
    if crossings.len() == 0 {
        0
    } else {
        row_of(crossings.last().y as int)
    }
}

/// Every crossing of the list lies within `limit`.
pub open spec fn crossings_within(crossings: Seq<Crossing>, limit: int) -> bool {
    forall|t: int| 0 <= t < crossings.len() ==> -limit <= (#[trigger] crossings[t]).y <= limit
}

/// The raster row nearest to `y`, but no more than `height`.
fn row_index(y: i64, height: usize) -> (row: usize)
    requires
        -SPAN_LIMIT <= y <= SPAN_LIMIT,
    ensures
        row == if row_of(y as int) < height {
            row_of(y as int)
        } else {
            height as int
        },
{
    if y < 0 {
        0
    } else {
        let r: i64 = (y + UNITS_PER_PIXEL / 2) / UNITS_PER_PIXEL;
        if r as u64 >= height as u64 {
            height
        } else {
            r as usize
        }
    }
}

/// Walks the crossings of one column from the lowest up and fills the cells
/// that lie between two crossings while the running sum of the signs is
/// above zero.  Returns the sum of all signs.
///
/// Cells outside the layer are passed over.
pub fn paint_column(layer: &mut Layer, column: usize, crossings: &Vec<Crossing>) -> (total: i128)
    requires
        old(layer).wf(),
        ascending(crossings@),
        crossings_within(crossings@, SPAN_LIMIT as int),
    ensures
        final(layer).wf(),
        final(layer).width == old(layer).width,
        final(layer).height == old(layer).height,
        total == signed_count(crossings@, None),
        forall|c: int, r: int|
            0 <= c < final(layer).width && 0 <= r < final(layer).height ==> final(layer).filled(
                c,
                r,
            ) == (old(layer).filled(c, r) || (c == column && r < top_row(crossings@)
                && signed_count(crossings@, Some(r)) > 0)),
{
    let height = layer.height;
    let mut inside: i128 = 0;
    let mut prev: usize = 0;
    let mut k: usize = 0;
    let ghost mut prev_row: int = 0;
    assert(crossings@.take(0) =~= Seq::<Crossing>::empty());
    while k < crossings.len()
        invariant
            k <= crossings@.len(),
            ascending(crossings@),
            crossings_within(crossings@, SPAN_LIMIT as int),
            height == layer.height,
            layer.wf(),
            layer.width == old(layer).width,
            layer.height == old(layer).height,
            inside == signed_count(crossings@.take(k as int), None),
            -0x8000_0000 * k <= inside <= 0x8000_0000 * k,
            prev_row == top_row(crossings@.take(k as int)),
            0 <= prev_row,
            prev == if prev_row < height {
                prev_row
            } else {
                height as int
            },
            forall|c: int, r: int|
                0 <= c < layer.width && 0 <= r < layer.height ==> layer.filled(c, r) == (old(
                    layer,
                ).filled(c, r) || (c == column && r < prev_row && signed_count(
                    crossings@,
                    Some(r),
                ) > 0)),
        decreases crossings@.len() - k,
    {
        let crossing = crossings[k];
        let target = row_index(crossing.y, height);
        let ghost target_row = row_of(crossing.y as int);
        let ghost before = *layer;
        proof {
            assert(crossings@.take(k + 1).drop_last() =~= crossings@.take(k as int));
            assert(crossings@.take(k + 1).last() == crossing);
            if k > 0 {
                assert(crossings@.take(k as int).last() == crossings@[k - 1]);
                assert(crossings@[k - 1].leq(crossings@[k as int]));
            }
            assert(prev_row <= target_row);
            assert forall|r: int| prev_row <= r < target_row implies signed_count(
                crossings@,
                Some(r),
            ) == inside by {
                assert forall|j: int| 0 <= j < k implies row_of(
                    (#[trigger] crossings@[j]).y as int,
                ) <= r by {
                    assert(crossings@[j].leq(crossings@[k - 1]) || j == k - 1);
                }
                assert forall|j: int| k <= j < crossings@.len() implies row_of(
                    (#[trigger] crossings@[j]).y as int,
                ) > r by {
                    assert(crossings@[k as int].leq(crossings@[j]) || j == k);
                }
                lemma_count_of_prefix(crossings@, k as int, r);
            }
        }
        if inside > 0 && column < layer.width && prev < target {
            layer.fill_rows(column, prev, target);
        }
        inside = inside + crossing.sign as i128;
        prev = target;
        proof {
            prev_row = target_row;
        }
        k += 1;
    }
    assert(crossings@.take(k as int) =~= crossings@);
    inside
}

/// With the members of the crossing set listed smallest first and their
/// crossings listed in the same order, the crossings add up to the count of
/// the column.
proof fn lemma_members_count(
    segments: Seq<Segment>,
    members: Seq<usize>,
    crossings: Seq<Crossing>,
    x: int,
    bound: Option<int>,
)
    requires
        forall|s: int, t: int| 0 <= s < t < members.len() ==> members[s] < members[t],
        forall|t: int| 0 <= t < members.len() ==> (#[trigger] members[t]) < segments.len(),
        forall|i: int|
            0 <= i < segments.len() ==> (crosses(#[trigger] segments[i], x) <==> members.contains(
                i as usize,
            )),
        segments.len() <= usize::MAX,
        crossings.len() == members.len(),
        forall|t: int|
            0 <= t < members.len() ==> (#[trigger] crossings[t]).sign == direction(
                segments[members[t] as int],
            ) && crossings[t].y == height_at(segments[members[t] as int], x),
    ensures
        signed_count(crossings, bound) == column_count(segments, x, bound),
    decreases segments.len(),
{
    if segments.len() == 0 {
        assert(members.len() == 0) by {
            if members.len() > 0 {
                assert(members[0] < segments.len());
            }
        }
    } else {
        let last = segments.len() - 1;
        let rest = segments.drop_last();
        if members.len() > 0 && members.last() == last {
            let m = members.drop_last();
            let c = crossings.drop_last();
            assert forall|i: int| 0 <= i < rest.len() implies (crosses(#[trigger] rest[i], x)
                <==> m.contains(i as usize)) by {
                assert(rest[i] == segments[i]);
                if members.contains(i as usize) {
                    let t = choose|t: int| 0 <= t < members.len() && members[t] == i as usize;
                    assert(m[t] == i as usize);
                }
                if m.contains(i as usize) {
                    let t = choose|t: int| 0 <= t < m.len() && m[t] == i as usize;
                    assert(members[t] == i as usize);
                }
            }
            assert forall|t: int| 0 <= t < m.len() implies (#[trigger] m[t]) < rest.len() by {
                assert(members[t] < members[members.len() - 1]);
            }
            assert forall|t: int| 0 <= t < m.len() implies (#[trigger] c[t]).sign == direction(
                rest[m[t] as int],
            ) && c[t].y == height_at(rest[m[t] as int], x) by {
                assert(c[t] == crossings[t]);
                assert(m[t] == members[t]);
                assert(members[t] < members[members.len() - 1]);
            }
            lemma_members_count(rest, m, c, x, bound);
            assert(members.contains(last as usize)) by {
                assert(members[members.len() - 1] == last as usize);
            }
            assert(crosses(segments[last], x));
            assert(crossings.last() == crossings[members.len() - 1]);
        } else {
            assert(!members.contains(last as usize)) by {
                if members.contains(last as usize) {
                    let t = choose|t: int| 0 <= t < members.len() && members[t] == last as usize;
                    if t < members.len() - 1 {
                        assert(members[t] < members[members.len() - 1]);
                        assert(members[members.len() - 1] < segments.len());
                    }
                }
            }
            assert(!crosses(segments[last], x));
            assert forall|i: int| 0 <= i < rest.len() implies (crosses(#[trigger] rest[i], x)
                <==> members.contains(i as usize)) by {
                assert(rest[i] == segments[i]);
            }
            assert forall|t: int| 0 <= t < members.len() implies (#[trigger] members[t])
                < rest.len() by {
                assert(members.contains(members[t]));
            }
            assert forall|t: int| 0 <= t < members.len() implies (#[trigger] crossings[t]).sign
                == direction(rest[members[t] as int]) && crossings[t].y == height_at(
                rest[members[t] as int],
                x,
            ) by {
                assert(members.contains(members[t]));
                assert(rest[members[t] as int] == segments[members[t] as int]);
            }
            lemma_members_count(rest, members, crossings, x, bound);
        }
    }
}

/// A column that no segment crosses counts nothing.
pub proof fn lemma_empty_column(segments: Seq<Segment>, x: int, bound: Option<int>)
    requires
        forall|i: int| 0 <= i < segments.len() ==> !crosses(#[trigger] segments[i], x),
    ensures
        column_count(segments, x, bound) == 0,
    decreases segments.len(),
{
    if segments.len() > 0 {
        assert forall|i: int| 0 <= i < segments.len() - 1 implies !crosses(
            #[trigger] segments.drop_last()[i],
            x,
        ) by {
            assert(segments.drop_last()[i] == segments[i]);
        }
        lemma_empty_column(segments.drop_last(), x, bound);
        assert(!crosses(segments[segments.len() - 1], x));
    }
}

/// The crossings of the column at `x`, lowest first.
fn column_crossings(segments: &Vec<Segment>, active: &ActiveSet, x: i64) -> (crossings: Vec<
    Crossing,
>)
    requires
        active@ == holding(x_spans(segments@), x as int),
        segments_within(segments@, SPAN_LIMIT as int),
        -SPAN_LIMIT <= x <= SPAN_LIMIT,
    ensures
        ascending(crossings@),
        crossings_within(crossings@, SPAN_LIMIT as int),
        forall|bound: Option<int>| #[trigger]
            signed_count(crossings@, bound) == column_count(segments@, x as int, bound),
{
    let members = active.members();
    let ghost spans = x_spans(segments@);
    let mut raw: Vec<Crossing> = Vec::new();
    let mut t: usize = 0;
    while t < members.len()
        invariant
            t <= members@.len(),
            lists(members@, active@),
            active@ == holding(spans, x as int),
            spans == x_spans(segments@),
            segments_within(segments@, SPAN_LIMIT as int),
            -SPAN_LIMIT <= x <= SPAN_LIMIT,
            raw@.len() == t,
            crossings_within(raw@, SPAN_LIMIT as int),
            forall|s: int|
                0 <= s < t ==> (#[trigger] raw@[s]).sign == direction(
                    segments@[members@[s] as int],
                ) && raw@[s].y == height_at(segments@[members@[s] as int], x as int),
        decreases members@.len() - t,
    {
        let i = members[t];
        proof {
            assert(members@.contains(i)) by {
                assert(members@[t as int] == i);
            }
            assert(holding(spans, x as int).contains(i));
            assert(spans[i as int] == x_span(segments@[i as int]));
            assert(segments@[i as int].within(SPAN_LIMIT as int));
            lemma_height_between(segments@[i as int], x as int);
        }
        let segment = segments[i];
        let (y, sign) = generate_y(segment.first, segment.second, x);
        raw.push(Crossing { y, sign });
        t += 1;
    }
    let crossings = merge_sort(&raw);
    let count = segments.len();
    proof {
        assert(segments@.len() == count);
        assert forall|i: int| 0 <= i < segments@.len() implies (crosses(
            #[trigger] segments@[i],
            x as int,
        ) <==> members@.contains(i as usize)) by {
            assert(spans[i] == x_span(segments@[i]));
            assert(holding(spans, x as int).contains(i as usize) == crosses(
                segments@[i],
                x as int,
            ));
        }
        assert forall|s: int| 0 <= s < members@.len() implies (#[trigger] members@[s])
            < segments@.len() by {
            assert(members@.contains(members@[s]));
            assert(holding(spans, x as int).contains(members@[s]));
        }
        assert forall|bound: Option<int>| #[trigger]
            signed_count(crossings@, bound) == column_count(segments@, x as int, bound) by {
            lemma_members_count(segments@, members@, raw@, x as int, bound);
            lemma_count_any_order(crossings@, raw@, bound);
        }
        assert forall|s: int| 0 <= s < crossings@.len() implies -SPAN_LIMIT <= (
        #[trigger] crossings@[s]).y <= SPAN_LIMIT by {
            vstd::seq_lib::to_multiset_contains(crossings@, crossings@[s]);
            vstd::seq_lib::to_multiset_contains(raw@, crossings@[s]);
            assert(crossings@.contains(crossings@[s]));
            let r = choose|r: int| 0 <= r < raw@.len() && raw@[r] == crossings@[s];
            assert(-SPAN_LIMIT <= raw@[r].y <= SPAN_LIMIT);
        }
    }
    crossings
}

/// Column `bad` is the first in which the signs of the crossings do not
/// add up to zero.
pub open spec fn first_open_column(segments: Seq<Segment>, bad: int) -> bool {
    &&& 0 <= bad
    &&& residual(segments, column_x(bad)) != 0
    &&& forall|c: int| 0 <= c < bad ==> residual(segments, #[trigger] column_x(c)) == 0
}

/// `after` is `before` with the inside of the contour filled in the columns
/// before column `limit`: there a cell is filled if it was filled or if its
/// winding number is above zero; all other cells are as they were.
pub open spec fn filled_before(
    before: Layer,
    after: Layer,
    segments: Seq<Segment>,
    limit: int,
) -> bool {
    forall|c: int, r: int|
        0 <= c < after.width && 0 <= r < after.height ==> after.filled(c, r) == (before.filled(
            c,
            r,
        ) || (c < limit && winding(segments, column_x(c), r) > 0))
}

/// The signs of the crossings, added up.
fn sum_of_signs(crossings: &Vec<Crossing>) -> (total: i128)
    ensures
        total == signed_count(crossings@, None),
{
    let mut total: i128 = 0;
    let mut k: usize = 0;
    assert(crossings@.take(0) =~= Seq::<Crossing>::empty());
    while k < crossings.len()
        invariant
            k <= crossings@.len(),
            total == signed_count(crossings@.take(k as int), None),
            -0x8000_0000 * k <= total <= 0x8000_0000 * k,
        decreases crossings@.len() - k,
    {
        assert(crossings@.take(k + 1).drop_last() =~= crossings@.take(k as int));
        assert(crossings@.take(k + 1).last() == crossings@[k as int]);
        total = total + crossings[k].sign as i128;
        k += 1;
    }
    assert(crossings@.take(k as int) =~= crossings@);
    total
}

/// Fills the inside of a contour.
///
/// The sweep visits the columns at x = 0, `UNITS_PER_PIXEL`, twice that and
/// so on, for as long as segments are left to the right.  In each column it
/// fills the cells whose winding number is above zero; cells that are filled
/// already stay filled, and cells outside the layer are passed over.  The
/// sweep ends with `WindingResidual` at the first column in which the signs
/// of the crossings do not add up to zero; that column and those after it
/// are then left as they were.
pub fn fill_contour(segments: &Vec<Segment>, layer: &mut Layer) -> (result: Result<
    (),
    SliceError,
>)
    requires
        old(layer).wf(),
        segments_within(segments@, SPAN_LIMIT as int),
    ensures
        final(layer).wf(),
        final(layer).width == old(layer).width,
        final(layer).height == old(layer).height,
        result is Ok <==> forall|c: int|
            0 <= c ==> residual(segments@, #[trigger] column_x(c)) == 0,
        result is Ok ==> forall|c: int, r: int|
            0 <= c < final(layer).width && 0 <= r < final(layer).height ==> final(layer).filled(
                c,
                r,
            ) == (old(layer).filled(c, r) || winding(segments@, column_x(c), r) > 0),
        result matches Err(e) ==> e == SliceError::WindingResidual,
        result is Err ==> exists|bad: int| #[trigger]
            first_open_column(segments@, bad) && filled_before(
                *old(layer),
                *final(layer),
                segments@,
                bad,
            ),
{
    let events = generate_line_events(segments);
    let ghost spans = x_spans(segments@);
    let mut active = ActiveSet::new();
    let mut x: i64 = 0;
    let mut column: usize = 0;
    assert(events@.take(0) =~= Seq::<Event>::empty());
    let mut next: usize = drain_events(&events, 0, &mut active, x);
    proof {
        lemma_drained(events@, spans, false, 0, next as int, -1, x as int);
    }
    while next < events.len()
        invariant
            0 <= x <= SPAN_LIMIT + UNITS_PER_PIXEL,
            x == column_x(column as int),
            next <= events@.len(),
            active@ == open_after(events@, next as int),
            drained_to(events@, next as int, x as int),
            is_event_list(events@, spans, false),
            spans_ordered(spans),
            spans == x_spans(segments@),
            segments_within(segments@, SPAN_LIMIT as int),
            layer.wf(),
            layer.width == old(layer).width,
            layer.height == old(layer).height,
            forall|c: int| 0 <= c < column ==> residual(segments@, #[trigger] column_x(c)) == 0,
            forall|c: int, r: int|
                0 <= c < layer.width && 0 <= r < layer.height ==> layer.filled(c, r) == (old(
                    layer,
                ).filled(c, r) || (c < column && winding(segments@, column_x(c), r) > 0)),
        decreases SPAN_LIMIT + UNITS_PER_PIXEL - x,
    {
        proof {
            lemma_sweep_active_set(events@, spans, false, next as int, x as int);
            let e = events@[next as int];
            assert(genuine(e, spans, false));
            assert(spans[e.index as int] == x_span(segments@[e.index as int]));
            assert(segments@[e.index as int].within(SPAN_LIMIT as int));
            assert(x < e.value <= SPAN_LIMIT);
        }
        let crossings = column_crossings(segments, &active, x);
        if sum_of_signs(&crossings) != 0 {
            proof {
                assert(residual(segments@, column_x(column as int)) != 0);
                assert(first_open_column(segments@, column as int));
                assert(filled_before(*old(layer), *layer, segments@, column as int));
            }
            return Err(SliceError::WindingResidual);
        }
        let ghost before = *layer;
        paint_column(layer, column, &crossings);
        proof {
            assert forall|r: int| top_row(crossings@) <= r implies signed_count(
                crossings@,
                Some(r),
            ) == 0 by {
                assert forall|j: int| 0 <= j < crossings@.len() implies row_of(
                    (#[trigger] crossings@[j]).y as int,
                ) <= r by {
                    assert(crossings@[j].leq(crossings@[crossings@.len() - 1]) || j
                        == crossings@.len() - 1);
                }
                lemma_count_of_prefix(crossings@, crossings@.len() as int, r);
                assert(crossings@.take(crossings@.len() as int) =~= crossings@);
            }
            assert forall|c: int, r: int|
                0 <= c < layer.width && 0 <= r < layer.height implies layer.filled(c, r) == (old(
                layer,
            ).filled(c, r) || (c < column + 1 && winding(segments@, column_x(c), r) > 0)) by {
                assert(layer.filled(c, r) == (before.filled(c, r) || (c == column && r < top_row(
                    crossings@,
                ) && signed_count(crossings@, Some(r)) > 0)));
                if c == column {
                    assert(signed_count(crossings@, Some(r)) == winding(
                        segments@,
                        column_x(c),
                        r,
                    ));
                }
            }
            assert(signed_count(crossings@, None) == residual(segments@, column_x(column as int)));
        }
        let ghost last_x = x as int;
        let ghost last_next = next as int;
        x = x + UNITS_PER_PIXEL;
        column = column + 1;
        next = drain_events(&events, next, &mut active, x);
        proof {
            lemma_drained(events@, spans, false, last_next, next as int, last_x, x as int);
        }
    }
    proof {
        assert forall|c: int| column <= c implies residual(segments@, #[trigger] column_x(c)) == 0
            && forall|r: int| winding(segments@, column_x(c), r) == 0 by {
            lemma_swept_out(segments@, events@, x as int, column_x(c));
            lemma_empty_column(segments@, column_x(c), None);
            assert forall|r: int| winding(segments@, column_x(c), r) == 0 by {
                lemma_empty_column(segments@, column_x(c), Some(r));
            }
        }
    }
    Ok(())
}

/// Once a sweep has applied every event, no segment crosses a column at or
/// to the right of its cursor.
proof fn lemma_swept_out(segments: Seq<Segment>, events: Seq<Event>, cursor: int, x: int)
    requires
        is_event_list(events, x_spans(segments), false),
        drained_to(events, events.len() as int, cursor),
        cursor <= x,
    ensures
        forall|i: int| 0 <= i < segments.len() ==> !crosses(#[trigger] segments[i], x),
{
    let spans = x_spans(segments);
    assert forall|i: int| 0 <= i < segments.len() implies !crosses(#[trigger] segments[i], x) by {
        assert(spans[i] == x_span(segments[i]));
        if spans[i].kept(false) {
            let e = end_event(spans, i);
            assert(events.contains(e));
            let a = choose|a: int| 0 <= a < events.len() && events[a] == e;
            assert(events[a].value <= cursor);
        }
    }
}

/// Cuts the triangles of `facets` with the plane at height `z` and fills the
/// inside of the contour into `layer`.
pub fn paint_plane(z: i64, facets: &Vec<Facet>, layer: &mut Layer) -> (result: Result<
    (),
    SliceError,
>)
    requires
        old(layer).wf(),
        facets_within(facets@, SPAN_LIMIT as int),
        -SPAN_LIMIT <= z <= SPAN_LIMIT,
    ensures
        final(layer).wf(),
        final(layer).width == old(layer).width,
        final(layer).height == old(layer).height,
        result is Ok <==> forall|c: int|
            0 <= c ==> residual(contour(facets@, z), #[trigger] column_x(c)) == 0,
        result is Ok ==> forall|c: int, r: int|
            0 <= c < final(layer).width && 0 <= r < final(layer).height ==> final(layer).filled(
                c,
                r,
            ) == (old(layer).filled(c, r) || winding(contour(facets@, z), column_x(c), r) > 0),
        result matches Err(e) ==> e == SliceError::WindingResidual,
        result is Err ==> exists|bad: int| #[trigger]
            first_open_column(contour(facets@, z), bad) && filled_before(
                *old(layer),
                *final(layer),
                contour(facets@, z),
                bad,
            ),
{
    let polyline = contour_segments(facets, z);
    fill_contour(&polyline, layer)
}

} // verus!
