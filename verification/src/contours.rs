//! Laws of closed contours.
//!
//! A contour is closed when every point is the start of as many segments as
//! it is the end of.  The filler leaves no winding number behind in any
//! column of a closed contour, and it fills a rectangle exactly.

use crate::geometry::{Segment, Vertex};
use crate::raster::{
    column_count, crosses, height_at, lemma_empty_column, residual, row_of, segment_count,
    winding,
};
use vstd::prelude::*;

verus! {

/// The points at which the segments of a contour start, in the order of
/// the segments.
pub open spec fn starts(segments: Seq<Segment>) -> Seq<Vertex> {
    Seq::new(segments.len(), |i: int| segments[i].first)
}

/// The points at which the segments of a contour end, in the order of the
/// segments.
pub open spec fn ends(segments: Seq<Segment>) -> Seq<Vertex> {
    Seq::new(segments.len(), |i: int| segments[i].second)
}

/// How many of the points lie to the right of the column at `x`.
pub open spec fn count_right_of(points: Seq<Vertex>, x: int) -> int
    decreases points.len(),
{
    if points.len() == 0 {
        0
    } else {
        count_right_of(points.drop_last(), x) + if points.last().x > x {
            1int
        } else {
            0int
        }
    }
}

proof fn lemma_right_without(points: Seq<Vertex>, k: int, x: int)
    requires
        0 <= k < points.len(),
    ensures
        count_right_of(points, x) == count_right_of(points.remove(k), x) + if points[k].x > x {
            1int
        } else {
            0int
        },
    decreases points.len(),
{
    let last = points.len() - 1;
    if k == last {
        assert(points.remove(k) =~= points.drop_last());
    } else {
        lemma_right_without(points.drop_last(), k, x);
        assert(points.remove(k).drop_last() =~= points.drop_last().remove(k));
        assert(points.remove(k).last() == points.last());
    }
}

proof fn lemma_right_any_order(a: Seq<Vertex>, b: Seq<Vertex>, x: int)
    requires
        a.to_multiset() == b.to_multiset(),
    ensures
        count_right_of(a, x) == count_right_of(b, x),
    decreases a.len(),
{
    vstd::seq_lib::to_multiset_len(a);
    vstd::seq_lib::to_multiset_len(b);
    if a.len() > 0 {
        let v = a.last();
        assert(a.contains(v)) by {
            assert(a[a.len() - 1] == v);
        }
        vstd::seq_lib::to_multiset_contains(a, v);
        vstd::seq_lib::to_multiset_contains(b, v);
        let k = choose|k: int| 0 <= k < b.len() && b[k] == v;
        vstd::seq_lib::to_multiset_remove(a, a.len() - 1);
        vstd::seq_lib::to_multiset_remove(b, k);
        assert(a.remove(a.len() - 1) =~= a.drop_last());
        lemma_right_any_order(a.drop_last(), b.remove(k), x);
        lemma_right_without(b, k, x);
    } else {
        assert(b.len() == 0);
    }
}

/// What is left of the winding number above a column is the number of
/// segments that end to the right of the column less the number of those
/// that start there.
pub proof fn lemma_residual_counts_ends(segments: Seq<Segment>, x: int)
    ensures
        residual(segments, x) == count_right_of(ends(segments), x) - count_right_of(
            starts(segments),
            x,
        ),
    decreases segments.len(),
{
    if segments.len() > 0 {
        lemma_residual_counts_ends(segments.drop_last(), x);
        assert(ends(segments).drop_last() =~= ends(segments.drop_last()));
        assert(starts(segments).drop_last() =~= starts(segments.drop_last()));
        assert(ends(segments).last() == segments.last().second);
        assert(starts(segments).last() == segments.last().first);
    }
}

/// A closed contour leaves no winding number behind: where every point is
/// the start of as many segments as it is the end of, the signs of the
/// crossings add up to zero in every column.
pub proof fn lemma_closed_contour_has_no_residual(segments: Seq<Segment>, x: int)
    requires
        starts(segments).to_multiset() == ends(segments).to_multiset(),
    ensures
        residual(segments, x) == 0,
{
    lemma_residual_counts_ends(segments, x);
    lemma_right_any_order(starts(segments), ends(segments), x);
}

/// The contour that runs round the rectangle from `(x0, y0)` to `(x1, y1)`
/// at height `z`: along the lower side to the right, up the right side,
/// back along the upper side and down the left side.
pub open spec fn rectangle(x0: i64, y0: i64, x1: i64, y1: i64, z: i64) -> Seq<Segment> {
    seq![
        Segment { first: Vertex { x: x0, y: y0, z }, second: Vertex { x: x1, y: y0, z } },
        Segment { first: Vertex { x: x1, y: y0, z }, second: Vertex { x: x1, y: y1, z } },
        Segment { first: Vertex { x: x1, y: y1, z }, second: Vertex { x: x0, y: y1, z } },
        Segment { first: Vertex { x: x0, y: y1, z }, second: Vertex { x: x0, y: y0, z } },
    ]
}

/// The filler fills a rectangle and nothing else: the winding number of a
/// cell is one in the columns from `x0` up to, but not including, `x1` and
/// in the rows from the row of `y0` up to, but not including, the row of
/// `y1`; everywhere else it is zero, and no column leaves a winding number
/// behind.
pub proof fn lemma_rectangle_fill(x0: i64, y0: i64, x1: i64, y1: i64, z: i64, x: int, row: int)
    requires
        x0 < x1,
        y0 <= y1,
    ensures
        winding(rectangle(x0, y0, x1, y1, z), x, row) == if x0 <= x < x1 && row_of(y0 as int)
            <= row < row_of(y1 as int) {
            1int
        } else {
            0int
        },
        residual(rectangle(x0, y0, x1, y1, z), x) == 0,
{
    let r = rectangle(x0, y0, x1, y1, z);
    let r3 = r.drop_last();
    let r2 = r3.drop_last();
    let r1 = r2.drop_last();
    assert(r1.drop_last().len() == 0);
    assert(r1.last() == r[0] && r2.last() == r[1] && r3.last() == r[2] && r.last() == r[3]);
    let den = x1 - x0;
    vstd::arithmetic::div_mod::lemma_fundamental_div_mod_converse(0, den, 0, 0);
    assert((y0 - y0) * (x - x0) == 0) by (nonlinear_arith);
    assert((y1 - y1) * (x - x0) == 0) by (nonlinear_arith);
    assert(height_at(r[0], x) == y0);
    assert(height_at(r[2], x) == y1);
    assert(!crosses(r[1], x));
    assert(!crosses(r[3], x));
    assert(row_of(y0 as int) <= row_of(y1 as int));
    let bound = Some(row);
    assert(column_count(r1.drop_last(), x, bound) == 0);
    assert(column_count(r1.drop_last(), x, None) == 0);
    assert(column_count(r1, x, bound) == segment_count(r[0], x, bound));
    assert(column_count(r2, x, bound) == column_count(r1, x, bound));
    assert(column_count(r3, x, bound) == column_count(r2, x, bound) + segment_count(
        r[2],
        x,
        bound,
    ));
    assert(column_count(r, x, bound) == column_count(r3, x, bound));
    assert(column_count(r1, x, None) == segment_count(r[0], x, None));
    assert(column_count(r2, x, None) == column_count(r1, x, None));
    assert(column_count(r3, x, None) == column_count(r2, x, None) + segment_count(r[2], x, None));
    assert(column_count(r, x, None) == column_count(r3, x, None));
}

/// A column with a count other than zero is crossed by some segment.
pub proof fn lemma_counted_column_is_crossed(segments: Seq<Segment>, x: int, bound: Option<int>)
    requires
        column_count(segments, x, bound) != 0,
    ensures
        exists|i: int| 0 <= i < segments.len() && crosses(#[trigger] segments[i], x),
{
    if !(exists|i: int| 0 <= i < segments.len() && crosses(#[trigger] segments[i], x)) {
        lemma_empty_column(segments, x, bound);
    }
}

/// Above the crossings of a column the winding number is what the column
/// leaves behind.
pub proof fn lemma_winding_above_crossings(segments: Seq<Segment>, x: int, row: int)
    requires
        forall|i: int|
            0 <= i < segments.len() && crosses(#[trigger] segments[i], x) ==> row_of(
                height_at(segments[i], x),
            ) <= row,
    ensures
        winding(segments, x, row) == residual(segments, x),
    decreases segments.len(),
{
    if segments.len() > 0 {
        let rest = segments.drop_last();
        assert forall|i: int| 0 <= i < rest.len() && crosses(#[trigger] rest[i], x) implies row_of(
            height_at(rest[i], x),
        ) <= row by {
            assert(rest[i] == segments[i]);
        }
        lemma_winding_above_crossings(rest, x, row);
        assert(segments.last() == segments[segments.len() - 1]);
    }
}

} // verus!
