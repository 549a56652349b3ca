//! Closed surfaces give closed contours.
//!
//! A mesh is a closed surface when every edge of a triangle is walked in
//! the opposite direction by another triangle.  The cut of such a mesh
//! leaves no winding number behind in any column, whatever the plane, so
//! the filler never has to give up on it.

use crate::geometry::{Facet, Segment, Vertex};
use crate::planner::{cut_by, cut_facets};
use crate::contours::{count_right_of, ends, lemma_residual_counts_ends, starts};
use crate::raster::{column_count, residual};
use crate::slicer::{contour, edge_point, facet_segments};
use vstd::prelude::*;

verus! {

/// A side of a triangle, walked from its first point to its second.
pub type Edge = (Vertex, Vertex);

/// 1 for a point to the right of the column at `x`, else 0.
pub open spec fn right_of(v: Vertex, x: int) -> int {
    if v.x > x {
        1
    } else {
        0
    }
}

/// What the directed edge from `a` to `b` adds to the winding number that
/// the cut at `plane` leaves behind in the column at `x`.
///
/// An edge adds the point at which it leaves the part of space above the
/// plane with a minus sign, and the point at which it enters it with a plus
/// sign, as far as the point lies to the right of the column.  The opposite
/// edge adds the opposite.
pub open spec fn edge_flux(a: Vertex, b: Vertex, plane: i64, x: int) -> int {
    if a.z > plane && b.z < plane {
        -right_of(edge_point(a, b, plane), x)
    } else if a.z < plane && b.z > plane {
        right_of(edge_point(a, b, plane), x)
    } else if a.z > plane && b.z == plane {
        -right_of(b, x)
    } else if a.z == plane && b.z > plane {
        right_of(a, x)
    } else {
        0
    }
}

/// The flux of the three sides of a triangle.
pub open spec fn facet_flux(f: Facet, plane: i64, x: int) -> int {
    edge_flux(f.a, f.b, plane, x) + edge_flux(f.b, f.c, plane, x) + edge_flux(f.c, f.a, plane, x)
}

/// The flux of a list of edges.
pub open spec fn total_flux(edges: Seq<Edge>, plane: i64, x: int) -> int
    decreases edges.len(),
{
    if edges.len() == 0 {
        0
    } else {
        total_flux(edges.drop_last(), plane, x) + edge_flux(
            edges.last().0,
            edges.last().1,
            plane,
            x,
        )
    }
}

/// The sides of the triangles of a list, each in the direction in which its
/// triangle walks it.
pub open spec fn directed_edges(facets: Seq<Facet>) -> Seq<Edge>
    decreases facets.len(),
{
    if facets.len() == 0 {
        Seq::empty()
    } else {
        let f = facets.last();
        directed_edges(facets.drop_last()).push((f.a, f.b)).push((f.b, f.c)).push((f.c, f.a))
    }
}

/// The same edges, each walked the other way.
pub open spec fn reversed(edges: Seq<Edge>) -> Seq<Edge> {
    Seq::new(edges.len(), |i: int| (edges[i].1, edges[i].0))
}

/// The triangles make up a closed surface: every directed edge occurs as
/// often as its opposite.
pub open spec fn closed_surface(facets: Seq<Facet>) -> bool {
    directed_edges(facets).to_multiset() == reversed(directed_edges(facets)).to_multiset()
}

proof fn lemma_flux_without(edges: Seq<Edge>, k: int, plane: i64, x: int)
    requires
        0 <= k < edges.len(),
    ensures
        total_flux(edges, plane, x) == total_flux(edges.remove(k), plane, x) + edge_flux(
            edges[k].0,
            edges[k].1,
            plane,
            x,
        ),
    decreases edges.len(),
{
    let last = edges.len() - 1;
    if k == last {
        assert(edges.remove(k) =~= edges.drop_last());
    } else {
        lemma_flux_without(edges.drop_last(), k, plane, x);
        assert(edges.remove(k).drop_last() =~= edges.drop_last().remove(k));
        assert(edges.remove(k).last() == edges.last());
    }
}

proof fn lemma_flux_any_order(a: Seq<Edge>, b: Seq<Edge>, plane: i64, x: int)
    requires
        a.to_multiset() == b.to_multiset(),
    ensures
        total_flux(a, plane, x) == total_flux(b, plane, x),
    decreases a.len(),
{
    vstd::seq_lib::to_multiset_len(a);
    vstd::seq_lib::to_multiset_len(b);
    if a.len() > 0 {
        let e = a.last();
        assert(a.contains(e)) by {
            assert(a[a.len() - 1] == e);
        }
        vstd::seq_lib::to_multiset_contains(a, e);
        vstd::seq_lib::to_multiset_contains(b, e);
        let k = choose|k: int| 0 <= k < b.len() && b[k] == e;
        vstd::seq_lib::to_multiset_remove(a, a.len() - 1);
        vstd::seq_lib::to_multiset_remove(b, k);
        assert(a.remove(a.len() - 1) =~= a.drop_last());
        lemma_flux_any_order(a.drop_last(), b.remove(k), plane, x);
        lemma_flux_without(b, k, plane, x);
    } else {
        assert(b.len() == 0);
    }
}

proof fn lemma_flux_reversed(edges: Seq<Edge>, plane: i64, x: int)
    ensures
        total_flux(reversed(edges), plane, x) == -total_flux(edges, plane, x),
    decreases edges.len(),
{
    if edges.len() > 0 {
        lemma_flux_reversed(edges.drop_last(), plane, x);
        assert(reversed(edges).drop_last() =~= reversed(edges.drop_last()));
        assert(reversed(edges).last() == (edges.last().1, edges.last().0));
    }
}

/// The edges of a closed surface have no flux.
pub proof fn lemma_closed_surface_has_no_flux(facets: Seq<Facet>, plane: i64, x: int)
    requires
        closed_surface(facets),
    ensures
        total_flux(directed_edges(facets), plane, x) == 0,
{
    let edges = directed_edges(facets);
    lemma_flux_any_order(edges, reversed(edges), plane, x);
    lemma_flux_reversed(edges, plane, x);
}

/// What the cut of one triangle leaves behind in a column is the flux of
/// its three sides; a triangle that the plane does not cut has no flux.
pub proof fn lemma_facet_flux(f: Facet, plane: i64, x: int)
    ensures
        cut_by(f, plane as int) ==> residual(facet_segments(f, plane), x) == facet_flux(
            f,
            plane,
            x,
        ),
        !cut_by(f, plane as int) ==> facet_flux(f, plane, x) == 0,
{
    let segments = facet_segments(f, plane);
    lemma_residual_counts_ends(segments, x);
    if cut_by(f, plane as int) {
        let s = starts(segments);
        let e = ends(segments);
        if segments.len() == 1 {
            assert(count_right_of(s.drop_last(), x) == 0);
            assert(count_right_of(e.drop_last(), x) == 0);
            assert(s.last() == segments[0].first);
            assert(e.last() == segments[0].second);
            assert(count_right_of(s, x) == right_of(segments[0].first, x));
            assert(count_right_of(e, x) == right_of(segments[0].second, x));
        } else {
            assert(segments.len() == 0);
            assert(count_right_of(s, x) == 0);
            assert(count_right_of(e, x) == 0);
        }
    }
}

/// What is left in a column is additive over contours.
pub proof fn lemma_count_of_joined(a: Seq<Segment>, b: Seq<Segment>, x: int, bound: Option<int>)
    ensures
        column_count(a + b, x, bound) == column_count(a, x, bound) + column_count(b, x, bound),
    decreases b.len(),
{
    if b.len() == 0 {
        assert(a + b =~= a);
    } else {
        lemma_count_of_joined(a, b.drop_last(), x, bound);
        assert((a + b).drop_last() =~= a + b.drop_last());
        assert((a + b).last() == b.last());
    }
}

/// What the cut of a list of triangles leaves behind in a column is the
/// flux of all their sides.
pub proof fn lemma_contour_flux(facets: Seq<Facet>, plane: i64, x: int)
    ensures
        residual(contour(cut_facets(facets, plane as int), plane), x) == total_flux(
            directed_edges(facets),
            plane,
            x,
        ),
    decreases facets.len(),
{
    if facets.len() > 0 {
        let f = facets.last();
        let rest = facets.drop_last();
        lemma_contour_flux(rest, plane, x);
        lemma_facet_flux(f, plane, x);
        let e0 = directed_edges(rest);
        let e1 = e0.push((f.a, f.b));
        let e2 = e1.push((f.b, f.c));
        let e3 = e2.push((f.c, f.a));
        assert(e3.drop_last() =~= e2 && e2.drop_last() =~= e1 && e1.drop_last() =~= e0);
        assert(total_flux(e1, plane, x) == total_flux(e0, plane, x) + edge_flux(
            f.a,
            f.b,
            plane,
            x,
        ));
        assert(total_flux(e2, plane, x) == total_flux(e1, plane, x) + edge_flux(
            f.b,
            f.c,
            plane,
            x,
        ));
        assert(total_flux(e3, plane, x) == total_flux(e2, plane, x) + edge_flux(
            f.c,
            f.a,
            plane,
            x,
        ));
        if cut_by(f, plane as int) {
            let cut = cut_facets(facets, plane as int);
            assert(cut.drop_last() =~= cut_facets(rest, plane as int));
            assert(cut.last() == f);
            lemma_count_of_joined(
                contour(cut_facets(rest, plane as int), plane),
                facet_segments(f, plane),
                x,
                None,
            );
        }
    }
}

/// The cut of a closed surface is a closed contour: at every plane, it
/// leaves no winding number behind in any column.
pub proof fn lemma_closed_surface_cut(facets: Seq<Facet>, plane: i64, x: int)
    requires
        closed_surface(facets),
    ensures
        residual(contour(cut_facets(facets, plane as int), plane), x) == 0,
{
    lemma_contour_flux(facets, plane, x);
    lemma_closed_surface_has_no_flux(facets, plane, x);
}

/// The edge as seen from `origin`.
pub open spec fn moved_edge(e: Edge, origin: Vertex) -> Edge {
    (e.0.relative_to(origin), e.1.relative_to(origin))
}

/// The edges as seen from `origin`.
pub open spec fn moved_edges(edges: Seq<Edge>, origin: Vertex) -> Seq<Edge> {
    Seq::new(edges.len(), |i: int| moved_edge(edges[i], origin))
}

/// The triangle as seen from `origin`.
pub open spec fn moved_facet(f: Facet, origin: Vertex) -> Facet {
    Facet {
        a: f.a.relative_to(origin),
        b: f.b.relative_to(origin),
        c: f.c.relative_to(origin),
    }
}

proof fn lemma_moved_any_order(a: Seq<Edge>, b: Seq<Edge>, origin: Vertex)
    requires
        a.to_multiset() == b.to_multiset(),
    ensures
        moved_edges(a, origin).to_multiset() == moved_edges(b, origin).to_multiset(),
    decreases a.len(),
{
    broadcast use vstd::multiset::group_multiset_axioms;

    vstd::seq_lib::to_multiset_len(a);
    vstd::seq_lib::to_multiset_len(b);
    let ma = moved_edges(a, origin);
    let mb = moved_edges(b, origin);
    if a.len() > 0 {
        let e = a.last();
        assert(a.contains(e)) by {
            assert(a[a.len() - 1] == e);
        }
        vstd::seq_lib::to_multiset_contains(a, e);
        vstd::seq_lib::to_multiset_contains(b, e);
        let k = choose|k: int| 0 <= k < b.len() && b[k] == e;
        vstd::seq_lib::to_multiset_remove(a, a.len() - 1);
        vstd::seq_lib::to_multiset_remove(b, k);
        assert(a.remove(a.len() - 1) =~= a.drop_last());
        lemma_moved_any_order(a.drop_last(), b.remove(k), origin);
        let m = moved_edge(e, origin);
        assert(ma.remove(ma.len() - 1) =~= moved_edges(a.drop_last(), origin));
        assert(mb.remove(k) =~= moved_edges(b.remove(k), origin));
        vstd::seq_lib::to_multiset_remove(ma, ma.len() - 1);
        vstd::seq_lib::to_multiset_remove(mb, k);
        vstd::seq_lib::to_multiset_contains(ma, m);
        vstd::seq_lib::to_multiset_contains(mb, m);
        assert(ma.contains(m)) by {
            assert(ma[ma.len() - 1] == m);
        }
        assert(mb.contains(m)) by {
            assert(mb[k] == m);
        }
        assert(ma.to_multiset() =~= ma.to_multiset().remove(m).insert(m));
        assert(mb.to_multiset() =~= mb.to_multiset().remove(m).insert(m));
    } else {
        assert(b.len() == 0);
        assert(ma =~= mb);
    }
}

proof fn lemma_moved_directed_edges(before: Seq<Facet>, after: Seq<Facet>, origin: Vertex)
    requires
        after.len() == before.len(),
        forall|i: int|
            0 <= i < before.len() ==> (#[trigger] after[i]) == moved_facet(before[i], origin),
    ensures
        directed_edges(after) == moved_edges(directed_edges(before), origin),
    decreases before.len(),
{
    if before.len() > 0 {
        let f = before.last();
        assert(after.last() == moved_facet(f, origin));
        assert forall|i: int| 0 <= i < before.len() - 1 implies (#[trigger] after.drop_last()[i])
            == moved_facet(before.drop_last()[i], origin) by {
            assert(after.drop_last()[i] == after[i]);
        }
        lemma_moved_directed_edges(before.drop_last(), after.drop_last(), origin);
        assert(directed_edges(after) =~= moved_edges(directed_edges(before), origin));
    } else {
        assert(directed_edges(after) =~= moved_edges(directed_edges(before), origin));
    }
}

/// Moving a closed surface leaves it closed.
pub proof fn lemma_moved_surface_closed(before: Seq<Facet>, after: Seq<Facet>, origin: Vertex)
    requires
        closed_surface(before),
        after.len() == before.len(),
        forall|i: int|
            0 <= i < before.len() ==> (#[trigger] after[i]) == moved_facet(before[i], origin),
    ensures
        closed_surface(after),
{
    let edges = directed_edges(before);
    lemma_moved_directed_edges(before, after, origin);
    lemma_moved_any_order(edges, reversed(edges), origin);
    assert(reversed(moved_edges(edges, origin)) =~= moved_edges(reversed(edges), origin));
}

} // verus!
