//! Cutting one triangle with a horizontal plane.

use crate::boundingbox::BoundingBox;
use crate::geometry::{Facet, Segment, Vertex, SPAN_LIMIT};
use vstd::arithmetic::div_mod::{
    lemma_div_is_ordered, lemma_fundamental_div_mod, lemma_fundamental_div_mod_converse,
    lemma_mod_bound,
};
use vstd::prelude::*;

verus! {

/// The value a fraction `num / den` of the way from `from` to `to`, rounded
/// down to a whole unit.
pub open spec fn lerp(from: int, to: int, num: int, den: int) -> int {
    from + ((to - from) * num) / den
}

/// `lerp` is the largest whole number that does not exceed the exact value
/// of the interpolation.
pub proof fn lemma_lerp_is_floor(from: int, to: int, num: int, den: int)
    requires
        den > 0,
    ensures
        den * (lerp(from, to, num, den) - from) <= (to - from) * num,
        (to - from) * num < den * (lerp(from, to, num, den) - from + 1),
{
    let n = (to - from) * num;
    lemma_fundamental_div_mod(n, den);
    lemma_mod_bound(n, den);
    assert(den * (n / den + 1) == den * (n / den) + den) by (nonlinear_arith);
}

/// Between the ends of the way, `lerp` stays between `from` and `to`.
pub proof fn lemma_lerp_between(from: int, to: int, num: int, den: int)
    requires
        0 <= num <= den,
        den > 0,
    ensures
        from <= to ==> from <= lerp(from, to, num, den) <= to,
        to <= from ==> to <= lerp(from, to, num, den) <= from,
{
    let d = to - from;
    let n = d * num;
    if d >= 0 {
        assert(0 <= n <= d * den) by (nonlinear_arith)
            requires
                n == d * num,
                0 <= num <= den,
                d >= 0,
        ;
        lemma_div_is_ordered(0, n, den);
        lemma_div_is_ordered(n, d * den, den);
        lemma_fundamental_div_mod_converse(d * den, den, d, 0);
        assert(0int / den == 0) by {
            lemma_fundamental_div_mod_converse(0, den, 0, 0);
        }
    } else {
        assert(d * den <= n <= 0) by (nonlinear_arith)
            requires
                n == d * num,
                0 <= num <= den,
                d < 0,
        ;
        lemma_div_is_ordered(n, 0, den);
        lemma_div_is_ordered(d * den, n, den);
        lemma_fundamental_div_mod_converse(d * den, den, d, 0);
        assert(0int / den == 0) by {
            lemma_fundamental_div_mod_converse(0, den, 0, 0);
        }
    }
}

/// Computes `lerp` on machine integers.
pub fn interpolate(from: i64, to: i64, num: i64, den: i64) -> (r: i64)
    requires
        -SPAN_LIMIT <= from <= SPAN_LIMIT,
        -SPAN_LIMIT <= to <= SPAN_LIMIT,
        -2 * SPAN_LIMIT <= num <= 2 * SPAN_LIMIT,
        0 < den <= 2 * SPAN_LIMIT,
    ensures
        r == lerp(from as int, to as int, num as int, den as int),
{
    let d: i64 = to - from;
    assert(-0x4000_0000_0000_0000 <= d * num <= 0x4000_0000_0000_0000) by (nonlinear_arith)
        requires
            -0x8000_0000 <= d <= 0x8000_0000,
            -0x8000_0000 <= num <= 0x8000_0000,
    ;
    let n: i64 = d * num;
    let q: i64 = if n >= 0 {
        n / den
    } else {
        let up: i64 = (-n + (den - 1)) / den;
        proof {
            let m = -n + (den - 1);
            lemma_fundamental_div_mod(m as int, den as int);
            lemma_mod_bound(m as int, den as int);
            let c = m as int / den as int;
            let r0 = m as int % den as int;
            assert(den * c == c * den) by (nonlinear_arith);
            assert((-c) * den == -(c * den)) by (nonlinear_arith);
            lemma_fundamental_div_mod_converse(n as int, den as int, -c, den - 1 - r0);
            vstd::arithmetic::div_mod::lemma_div_pos_is_pos(m as int, den as int);
            vstd::arithmetic::div_mod::lemma_div_nonincreasing(m as int, den as int);
        }
        -up
    };
    proof {
        if n >= 0 {
            vstd::arithmetic::div_mod::lemma_div_pos_is_pos(n as int, den as int);
            vstd::arithmetic::div_mod::lemma_div_nonincreasing(n as int, den as int);
        }
    }
    from + q
}

/// The point at height `plane` on the edge between `a` and `b`, for an edge
/// whose ends lie at different heights.  The ends are taken lower one first,
/// so that both directions of an edge give the same point.
pub open spec fn edge_point(a: Vertex, b: Vertex, plane: i64) -> Vertex {
    let lo = if a.z < b.z {
        a
    } else {
        b
    };
    let hi = if a.z < b.z {
        b
    } else {
        a
    };
    Vertex {
        x: lerp(lo.x as int, hi.x as int, plane - lo.z, hi.z - lo.z) as i64,
        y: lerp(lo.y as int, hi.y as int, plane - lo.z, hi.z - lo.z) as i64,
        z: plane,
    }
}

/// The edge from `a` to `b` passes through `plane` with both ends off it.
pub open spec fn straddles(a: Vertex, b: Vertex, plane: i64) -> bool {
    (a.z < plane && plane < b.z) || (a.z > plane && plane > b.z)
}

/// What the directed edge from `a` to `b` adds to the cut of its triangle
/// at `plane`: `a` itself where `a` lies in the plane, else the point of the
/// edge at that height where the edge straddles the plane, else nothing.
pub open spec fn edge_crossing(a: Vertex, b: Vertex, plane: i64) -> Seq<Vertex> {
    if a.z == plane {
        seq![a]
    } else if straddles(a, b, plane) {
        seq![edge_point(a, b, plane)]
    } else {
        Seq::empty()
    }
}

/// The first of the corners that lie highest.
pub open spec fn highest_corner(f: Facet) -> int {
    if f.b.z > f.a.z {
        if f.c.z > f.b.z {
            2
        } else {
            1
        }
    } else {
        if f.c.z > f.a.z {
            2
        } else {
            0
        }
    }
}

/// The corner that follows corner `k` on the walk round a triangle.
pub open spec fn next_corner(k: int) -> int {
    if k == 2 {
        0
    } else {
        k + 1
    }
}

/// The corner at which the walk round the triangle starts: the first of the
/// highest corners, or the corner after it where that one lies in the plane.
pub open spec fn anchor(f: Facet, plane: i64) -> int {
    let top = highest_corner(f);
    if f.corner(next_corner(top)).z == plane {
        next_corner(top)
    } else {
        top
    }
}

/// The points in which `plane` cuts the triangle `a`, `b`, `c` on the walk
/// from `a` over `b` and `c` back to `a`, edge by edge.
pub open spec fn walk_crossings(a: Vertex, b: Vertex, c: Vertex, plane: i64) -> Seq<Vertex> {
    edge_crossing(a, b, plane) + edge_crossing(b, c, plane) + edge_crossing(c, a, plane)
}

/// The points in which `plane` cuts the triangle, edge by edge, on a walk
/// round the triangle that starts at the anchor.
pub open spec fn facet_crossings(f: Facet, plane: i64) -> Seq<Vertex> {
    let k = anchor(f, plane);
    walk_crossings(
        f.corner(k),
        f.corner(next_corner(k)),
        f.corner(next_corner(next_corner(k))),
        plane,
    )
}

/// No corner lies above the highest corner, and none before it lies as high.
pub proof fn lemma_highest_corner(f: Facet)
    ensures
        0 <= highest_corner(f) < 3,
        f.corner(highest_corner(f)).z == f.max_z(),
        forall|k: int| 0 <= k < highest_corner(f) ==> (#[trigger] f.corner(k)).z < f.max_z(),
{
}

/// Where the cut of an edge is a point of its own, it lies in the plane and
/// between the ends of the edge, and it does not depend on the direction in
/// which the edge is walked.
pub proof fn lemma_edge_point(a: Vertex, b: Vertex, plane: i64)
    requires
        straddles(a, b, plane),
        a.within(SPAN_LIMIT as int),
        b.within(SPAN_LIMIT as int),
    ensures
        edge_point(a, b, plane) == edge_point(b, a, plane),
        edge_point(a, b, plane).z == plane,
        a.x <= b.x ==> a.x <= edge_point(a, b, plane).x <= b.x,
        b.x <= a.x ==> b.x <= edge_point(a, b, plane).x <= a.x,
        a.y <= b.y ==> a.y <= edge_point(a, b, plane).y <= b.y,
        b.y <= a.y ==> b.y <= edge_point(a, b, plane).y <= a.y,
        edge_point(a, b, plane).within(SPAN_LIMIT as int),
{
    let lo = if a.z < b.z {
        a
    } else {
        b
    };
    let hi = if a.z < b.z {
        b
    } else {
        a
    };
    lemma_lerp_between(lo.x as int, hi.x as int, plane - lo.z, hi.z - lo.z);
    lemma_lerp_between(lo.y as int, hi.y as int, plane - lo.z, hi.z - lo.z);
}

/// Computes the cut of one directed edge, appending it to `points`.
fn push_edge_crossing(points: &mut Vec<Vertex>, a: Vertex, b: Vertex, plane: i64)
    requires
        a.within(SPAN_LIMIT as int),
        b.within(SPAN_LIMIT as int),
        -SPAN_LIMIT <= plane <= SPAN_LIMIT,
    ensures
        final(points)@ == old(points)@ + edge_crossing(a, b, plane),
        edge_crossing(a, b, plane).len() <= 1,
        forall|t: int|
            0 <= t < edge_crossing(a, b, plane).len() ==> (#[trigger] edge_crossing(
                a,
                b,
                plane,
            )[t]).within(SPAN_LIMIT as int),
{
    if a.z == plane {
        points.push(a);
        assert(points@ =~= old(points)@ + edge_crossing(a, b, plane));
    } else if (a.z < plane && b.z > plane) || (a.z > plane && b.z < plane) {
        let (lo, hi) = if a.z < b.z {
            (a, b)
        } else {
            (b, a)
        };
        proof {
            lemma_edge_point(a, b, plane);
        }
        let x = interpolate(lo.x, hi.x, plane - lo.z, hi.z - lo.z);
        let y = interpolate(lo.y, hi.y, plane - lo.z, hi.z - lo.z);
        points.push(Vertex { x, y, z: plane });
        assert(points@ =~= old(points)@ + edge_crossing(a, b, plane));
    } else {
        assert(points@ =~= old(points)@ + edge_crossing(a, b, plane));
    }
}

/// Picks the corner at which the walk round the triangle starts.
pub fn find_index_of_vector_with_greatest_z_value(facet: &Facet, z: i64) -> (index: usize)
    ensures
        index == anchor(*facet, z),
        index < 3,
{
    let mut top: usize = 0;
    let mut top_z: i64 = facet.a.z;
    let mut k: usize = 1;
    while k < 3
        invariant
            1 <= k <= 3,
            top < k,
            top_z == facet.corner(top as int).z,
            k == 1 ==> top == 0,
            k == 2 ==> top == (if facet.b.z > facet.a.z {
                1int
            } else {
                0int
            }),
            k == 3 ==> top == highest_corner(*facet),
        decreases 3 - k,
    {
        let v = facet.get(k);
        if v.z > top_z {
            top_z = v.z;
            top = k;
        }
        k += 1;
    }
    let next: usize = if top == 2 {
        0
    } else {
        top + 1
    };
    if facet.get(next).z == z {
        next
    } else {
        top
    }
}

/// The points in which the plane at height `z` cuts the triangle: none, one,
/// two or three of them.
pub fn get_intersecting_points_2(facet: &Facet, z: i64) -> (points: Vec<Vertex>)
    requires
        facet.within(SPAN_LIMIT as int),
        -SPAN_LIMIT <= z <= SPAN_LIMIT,
    ensures
        points@ == facet_crossings(*facet, z),
        points@.len() <= 3,
        forall|t: int| 0 <= t < points@.len() ==> (#[trigger] points@[t]).within(SPAN_LIMIT as int),
{
    let mut points: Vec<Vertex> = Vec::new();
    let k0 = find_index_of_vector_with_greatest_z_value(facet, z);
    let k1: usize = if k0 == 2 {
        0
    } else {
        k0 + 1
    };
    let k2: usize = if k1 == 2 {
        0
    } else {
        k1 + 1
    };
    let v0 = facet.get(k0);
    let v1 = facet.get(k1);
    let v2 = facet.get(k2);
    push_edge_crossing(&mut points, v0, v1, z);
    push_edge_crossing(&mut points, v1, v2, z);
    push_edge_crossing(&mut points, v2, v0, z);
    assert(points@ =~= walk_crossings(v0, v1, v2, z));
    points
}

/// A plane strictly between the lowest and the highest corner of a triangle
/// cuts it in exactly two points, and the two points come from two different
/// edges of the triangle.
pub proof fn lemma_clean_cut(f: Facet, plane: i64)
    requires
        f.min_z() < plane < f.max_z(),
    ensures
        facet_crossings(f, plane).len() == 2,
        exists|d: int, e: int|
            #![trigger f.corner(d), f.corner(e)]
            0 <= d < 3 && 0 <= e < 3 && d != e && edge_crossing(
                f.corner(d),
                f.corner(next_corner(d)),
                plane,
            ) == seq![facet_crossings(f, plane)[0]] && edge_crossing(
                f.corner(e),
                f.corner(next_corner(e)),
                plane,
            ) == seq![facet_crossings(f, plane)[1]],
{
    let k0 = anchor(f, plane);
    let k1 = next_corner(k0);
    let k2 = next_corner(k1);
    let c0 = edge_crossing(f.corner(k0), f.corner(k1), plane);
    let c1 = edge_crossing(f.corner(k1), f.corner(k2), plane);
    let c2 = edge_crossing(f.corner(k2), f.corner(k0), plane);
    let pts = facet_crossings(f, plane);
    assert(pts == c0 + c1 + c2);
    assert(next_corner(k2) == k0);
    if c0.len() == 0 {
        assert(pts =~= c1 + c2);
        assert(c1 =~= seq![pts[0]]);
        assert(c2 =~= seq![pts[1]]);
        assert(f.corner(k1) == f.corner(k1) && f.corner(k2) == f.corner(k2));
    } else if c1.len() == 0 {
        assert(pts =~= c0 + c2);
        assert(c0 =~= seq![pts[0]]);
        assert(c2 =~= seq![pts[1]]);
        assert(f.corner(k0) == f.corner(k0) && f.corner(k2) == f.corner(k2));
    } else {
        assert(pts =~= c0 + c1);
        assert(c0 =~= seq![pts[0]]);
        assert(c1 =~= seq![pts[1]]);
        assert(f.corner(k0) == f.corner(k0) && f.corner(k1) == f.corner(k1));
    }
}

/// The directed pieces of contour that one triangle gives at `plane`: one
/// segment where the plane cuts it in two points, a closed round of three
/// where it cuts it in three, and none otherwise.
pub open spec fn facet_segments(f: Facet, plane: i64) -> Seq<Segment> {
    let pts = facet_crossings(f, plane);
    if pts.len() == 2 {
        seq![Segment { first: pts[0], second: pts[1] }]
    } else if pts.len() == 3 {
        seq![
            Segment { first: pts[0], second: pts[1] },
            Segment { first: pts[1], second: pts[2] },
            Segment { first: pts[2], second: pts[0] },
        ]
    } else {
        Seq::empty()
    }
}

/// The contour of a list of triangles at `plane`: the segments of the first
/// triangle, then those of the second, and so on.
pub open spec fn contour(facets: Seq<Facet>, plane: i64) -> Seq<Segment>
    decreases facets.len(),
{
    if facets.len() == 0 {
        Seq::empty()
    } else {
        contour(facets.drop_last(), plane) + facet_segments(facets.last(), plane)
    }
}

/// Every triangle of the list lies within `limit`.
pub open spec fn facets_within(facets: Seq<Facet>, limit: int) -> bool {
    forall|i: int| 0 <= i < facets.len() ==> (#[trigger] facets[i]).within(limit)
}

/// Every segment of the list lies within `limit`.
pub open spec fn segments_within(segments: Seq<Segment>, limit: int) -> bool {
    forall|i: int| 0 <= i < segments.len() ==> (#[trigger] segments[i]).within(limit)
}

/// Cuts every triangle of `facets` with the plane at height `z` and collects
/// the segments of the contour.
pub fn contour_segments(facets: &Vec<Facet>, z: i64) -> (segments: Vec<Segment>)
    requires
        facets_within(facets@, SPAN_LIMIT as int),
        -SPAN_LIMIT <= z <= SPAN_LIMIT,
    ensures
        segments@ == contour(facets@, z),
        segments_within(segments@, SPAN_LIMIT as int),
{
    let mut segments: Vec<Segment> = Vec::new();
    let mut i: usize = 0;
    while i < facets.len()
        invariant
            i <= facets@.len(),
            facets_within(facets@, SPAN_LIMIT as int),
            -SPAN_LIMIT <= z <= SPAN_LIMIT,
            segments@ == contour(facets@.take(i as int), z),
            segments_within(segments@, SPAN_LIMIT as int),
        decreases facets@.len() - i,
    {
        let facet = facets[i];
        let ghost before = segments@;
        proof {
            assert(facets@.take(i + 1).drop_last() =~= facets@.take(i as int));
            assert(facets@.take(i + 1).last() == facet);
            assert(facets@[i as int].within(SPAN_LIMIT as int));
        }
        let points = get_intersecting_points_2(&facet, z);
        if points.len() == 2 {
            segments.push(Segment { first: points[0], second: points[1] });
        } else if points.len() == 3 {
            segments.push(Segment { first: points[0], second: points[1] });
            segments.push(Segment { first: points[1], second: points[2] });
            segments.push(Segment { first: points[2], second: points[0] });
        }
        proof {
            assert(segments@ =~= before + facet_segments(facet, z));
        }
        i += 1;
    }
    assert(facets@.take(i as int) =~= facets@);
    segments
}

/// Every corner of every triangle of the list lies inside the box.
pub open spec fn facets_enclosed(facets: Seq<Facet>, b: BoundingBox) -> bool {
    forall|i: int|
        0 <= i < facets.len() ==> b.encloses((#[trigger] facets[i]).a) && b.encloses(facets[i].b)
            && b.encloses(facets[i].c)
}

/// Both ends of every segment of the list lie inside the box.
pub open spec fn segments_enclosed(segments: Seq<Segment>, b: BoundingBox) -> bool {
    forall|i: int|
        0 <= i < segments.len() ==> b.encloses((#[trigger] segments[i]).first) && b.encloses(
            segments[i].second,
        )
}

proof fn lemma_edge_crossing_enclosed(a: Vertex, b: Vertex, plane: i64, around: BoundingBox)
    requires
        a.within(SPAN_LIMIT as int),
        b.within(SPAN_LIMIT as int),
        around.encloses(a),
        around.encloses(b),
    ensures
        forall|t: int|
            0 <= t < edge_crossing(a, b, plane).len() ==> around.encloses(
                #[trigger] edge_crossing(a, b, plane)[t],
            ),
{
    if straddles(a, b, plane) {
        lemma_edge_point(a, b, plane);
    }
}

/// The cut of triangles that lie inside a box lies inside the box.
pub proof fn lemma_contour_enclosed(facets: Seq<Facet>, plane: i64, around: BoundingBox)
    requires
        facets_within(facets, SPAN_LIMIT as int),
        facets_enclosed(facets, around),
    ensures
        segments_enclosed(contour(facets, plane), around),
    decreases facets.len(),
{
    if facets.len() > 0 {
        let f = facets.last();
        let rest = facets.drop_last();
        assert forall|i: int| 0 <= i < rest.len() implies (#[trigger] rest[i]).within(
            SPAN_LIMIT as int,
        ) && around.encloses(rest[i].a) && around.encloses(rest[i].b) && around.encloses(
            rest[i].c,
        ) by {
            assert(rest[i] == facets[i]);
        }
        lemma_contour_enclosed(rest, plane, around);
        assert(f == facets[facets.len() - 1]);
        let k = anchor(f, plane);
        let v0 = f.corner(k);
        let v1 = f.corner(next_corner(k));
        let v2 = f.corner(next_corner(next_corner(k)));
        lemma_edge_crossing_enclosed(v0, v1, plane, around);
        lemma_edge_crossing_enclosed(v1, v2, plane, around);
        lemma_edge_crossing_enclosed(v2, v0, plane, around);
        let points = facet_crossings(f, plane);
        assert forall|t: int| 0 <= t < points.len() implies around.encloses(
            #[trigger] points[t],
        ) by {
            let c0 = edge_crossing(v0, v1, plane);
            let c1 = edge_crossing(v1, v2, plane);
            let c2 = edge_crossing(v2, v0, plane);
            if t < c0.len() {
                assert(points[t] == c0[t]);
            } else if t < c0.len() + c1.len() {
                assert(points[t] == c1[t - c0.len()]);
            } else {
                assert(points[t] == c2[t - c0.len() - c1.len()]);
            }
        }
        let before = contour(rest, plane);
        let added = facet_segments(f, plane);
        assert forall|i: int| 0 <= i < (before + added).len() implies around.encloses(
            (#[trigger] (before + added)[i]).first,
        ) && around.encloses((before + added)[i].second) by {
            if i < before.len() {
                assert((before + added)[i] == before[i]);
            } else {
                assert((before + added)[i] == added[i - before.len()]);
            }
        }
    }
}

} // verus!
