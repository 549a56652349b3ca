//! From a mesh to the work of its layers: the sweep along z.

use crate::boundingbox::{lemma_box_encloses, lemma_box_tight, BoundingBox};
use crate::error::SliceError;
use crate::events::{
    end_event, events_of_spans, genuine, is_event_list, spans_ordered, Event, Span, ZEvent,
};
use crate::geometry::{
    nearest_cell, Facet, Mesh, Vertex, COORD_LIMIT, SPAN_LIMIT, UNITS_PER_PIXEL,
};
use crate::sweep::{
    drain_events, drained_to, holding, lemma_drained, lemma_sweep_active_set, lists, open_after,
    ActiveSet,
};
use vstd::prelude::*;

verus! {

/// The stretch of z that a triangle covers.
pub open spec fn z_span(f: Facet) -> Span {
    Span { lo: f.min_z() as i64, hi: f.max_z() as i64 }
}

/// The stretches of z of a list of triangles.
pub open spec fn z_spans(facets: Seq<Facet>) -> Seq<Span> {
    Seq::new(facets.len(), |i: int| z_span(facets[i]))
}

/// The mesh `after` is the mesh `before` moved so that the low corner of
/// `before`'s bounding box lies at the origin.
pub open spec fn moved_to_origin(before: Mesh, after: Mesh) -> bool {
    &&& after.faces@ == before.faces@
    &&& after.vertices@.len() == before.vertices@.len()
    &&& forall|i: int|
        0 <= i < before.vertices@.len() ==> (#[trigger] after.vertices@[i])
            == before.vertices@[i].relative_to(BoundingBox::of(before.vertices@).low_corner())
}

/// A mesh as the sweep along z takes it: its faces name existing vertices
/// and every coordinate lies between 0 and `SPAN_LIMIT`.
pub open spec fn ready(mesh: Mesh) -> bool {
    &&& mesh.indices_valid()
    &&& mesh.within(SPAN_LIMIT as int)
    &&& forall|i: int|
        0 <= i < mesh.vertices@.len() ==> (#[trigger] mesh.vertices@[i]).non_negative()
}

/// Moves the mesh to the origin of its bounding box and builds the event
/// list of the sweep along z: for every face a `Start` at its lowest corner
/// and an `End` at its highest, twice as many events as there are faces.
///
/// A mesh without vertices, or one that is not well formed, is refused and
/// left as it is.
pub fn generate_events(mesh: &mut Mesh) -> (result: Result<(Vec<ZEvent>, BoundingBox), SliceError>)
    ensures
        result == Err::<(Vec<ZEvent>, BoundingBox), SliceError>(SliceError::EmptyMesh) <==> old(
            mesh,
        ).vertices@.len() == 0,
        result == Err::<(Vec<ZEvent>, BoundingBox), SliceError>(SliceError::InvalidMesh) <==> old(
            mesh,
        ).vertices@.len() > 0 && !old(mesh).wf(),
        result is Ok <==> old(mesh).vertices@.len() > 0 && old(mesh).wf(),
        result matches Err(e) ==> e == SliceError::EmptyMesh || e == SliceError::InvalidMesh,
        result is Err ==> *final(mesh) == *old(mesh),
        result matches Ok((events, bounds)) ==> bounds == BoundingBox::of(old(mesh).vertices@),
        result matches Ok((events, bounds)) ==> bounds.ordered() && bounds.low_corner().within(
            COORD_LIMIT as int,
        ) && bounds.high_corner().within(COORD_LIMIT as int),
        result is Ok ==> moved_to_origin(*old(mesh), *final(mesh)) && ready(*final(mesh)),
        result matches Ok((events, bounds)) ==> is_event_list(
            events@,
            z_spans(final(mesh).facets()),
            true,
        ),
        result matches Ok((events, bounds)) ==> events@.len() == 2 * final(mesh).faces@.len(),
{
    if mesh.vertices.len() == 0 {
        return Err(SliceError::EmptyMesh);
    }
    if !mesh.is_well_formed() {
        return Err(SliceError::InvalidMesh);
    }
    let bounds = BoundingBox::around(&mesh.vertices);
    let ghost before = *mesh;
    proof {
        lemma_box_tight(before.vertices@);
        lemma_box_encloses(before.vertices@, 0);
        assert forall|i: int| 0 <= i < before.vertices@.len() implies bounds.encloses(
            #[trigger] before.vertices@[i],
        ) by {
            lemma_box_encloses(before.vertices@, i);
        }
    }
    let mut i: usize = 0;
    while i < mesh.vertices.len()
        invariant
            i <= mesh.vertices@.len(),
            mesh.faces@ == before.faces@,
            mesh.vertices@.len() == before.vertices@.len(),
            before.within(COORD_LIMIT as int),
            bounds.low_corner().within(COORD_LIMIT as int),
            forall|k: int|
                0 <= k < before.vertices@.len() ==> bounds.encloses(#[trigger] before.vertices@[k]),
            forall|k: int|
                0 <= k < i ==> (#[trigger] mesh.vertices@[k]) == before.vertices@[k].relative_to(
                    bounds.low_corner(),
                ),
            forall|k: int|
                i <= k < mesh.vertices@.len() ==> (#[trigger] mesh.vertices@[k])
                    == before.vertices@[k],
        decreases mesh.vertices@.len() - i,
    {
        let v = mesh.vertices[i];
        assert(before.vertices@[i as int].within(COORD_LIMIT as int));
        assert(bounds.encloses(before.vertices@[i as int]));
        mesh.vertices[i] = Vertex { x: v.x - bounds.x.0, y: v.y - bounds.y.0, z: v.z - bounds.z.0 };
        i += 1;
    }
    proof {
        assert forall|k: int| 0 <= k < mesh.vertices@.len() implies (
        #[trigger] mesh.vertices@[k]).within(SPAN_LIMIT as int)
            && mesh.vertices@[k].non_negative() by {
            assert(before.vertices@[k].within(COORD_LIMIT as int));
            assert(bounds.encloses(before.vertices@[k]));
        }
        assert(mesh.indices_valid()) by {
            assert forall|a: int, k: int|
                0 <= a < mesh.faces@.len() && 0 <= k < 3 implies (
            #[trigger] mesh.faces@[a].vertices@[k]) < mesh.vertices@.len() by {
                assert(before.faces@[a].vertices@[k] < before.vertices@.len());
            }
        }
    }
    let mut spans: Vec<Span> = Vec::new();
    let mut j: usize = 0;
    while j < mesh.faces.len()
        invariant
            j <= mesh.faces@.len(),
            mesh.indices_valid(),
            spans@.len() == j,
            forall|k: int| 0 <= k < j ==> (#[trigger] spans@[k]) == z_span(mesh.facet(k)),
        decreases mesh.faces@.len() - j,
    {
        let facet = mesh.resolve(j);
        spans.push(Span { lo: facet.lowest_z(), hi: facet.highest_z() });
        j += 1;
    }
    assert(spans@ =~= z_spans(mesh.facets()));
    let events = events_of_spans(&spans, true);
    Ok((events, bounds))
}

/// The plane at height `p` cuts the triangle: it lies at or above the
/// lowest corner and below the highest.
pub open spec fn cut_by(f: Facet, p: int) -> bool {
    f.min_z() <= p < f.max_z()
}

/// The positions, smallest first, of the triangles that the plane at height
/// `p` cuts.
pub open spec fn cut_indices(facets: Seq<Facet>, p: int) -> Seq<usize>
    decreases facets.len(),
{
    if facets.len() == 0 {
        Seq::empty()
    } else {
        let rest = cut_indices(facets.drop_last(), p);
        if cut_by(facets.last(), p) {
            rest.push((facets.len() - 1) as usize)
        } else {
            rest
        }
    }
}

/// The triangles that the plane at height `p` cuts, in the order of the
/// list.
pub open spec fn cut_facets(facets: Seq<Facet>, p: int) -> Seq<Facet>
    decreases facets.len(),
{
    if facets.len() == 0 {
        Seq::empty()
    } else {
        let rest = cut_facets(facets.drop_last(), p);
        if cut_by(facets.last(), p) {
            rest.push(facets.last())
        } else {
            rest
        }
    }
}

/// Some triangle of the list reaches above the plane at height `p`.
pub open spec fn below_top(facets: Seq<Facet>, p: int) -> bool {
    exists|i: int| 0 <= i < facets.len() && p < (#[trigger] facets[i]).max_z()
}

/// The work of one layer: the height of its plane and an independent copy
/// of the triangles that the plane cuts.
#[derive(Clone, Debug)]
pub struct PlaneJob {
    /// Height of the cutting plane.
    pub z: i64,
    /// Positions in the mesh of the triangles that the plane cuts.
    pub faces: Vec<usize>,
    /// Those triangles with the coordinates of their corners.
    pub facets: Vec<Facet>,
}

impl PlaneJob {
    /// The number under which the layer of this job is handed on: the
    /// height of its plane in cells, rounded to the nearest whole number.
    pub fn identifier(&self) -> (id: u64)
        ensures
            id == nearest_cell(self.z as int),
    {
        if self.z < 0 {
            0
        } else {
            let whole: i64 = self.z / UNITS_PER_PIXEL;
            let part: i64 = self.z % UNITS_PER_PIXEL;
            if part >= UNITS_PER_PIXEL / 2 {
                (whole + 1) as u64
            } else {
                whole as u64
            }
        }
    }

    /// The job holds the plane at height `p` and exactly the triangles of
    /// `facets` that the plane cuts.
    pub open spec fn is_cut_of(&self, facets: Seq<Facet>, p: int) -> bool {
        &&& self.z == p
        &&& self.faces@ == cut_indices(facets, p)
        &&& self.facets@ == cut_facets(facets, p)
    }
}

/// A list that names the cut triangles smallest first is the list of their
/// positions, and the triangles at those positions are the cut triangles.
proof fn lemma_cut_listing(facets: Seq<Facet>, members: Seq<usize>, picked: Seq<Facet>, p: int)
    requires
        facets.len() <= usize::MAX,
        forall|s: int, t: int| 0 <= s < t < members.len() ==> members[s] < members[t],
        forall|t: int| 0 <= t < members.len() ==> (#[trigger] members[t]) < facets.len(),
        forall|i: int|
            0 <= i < facets.len() ==> (cut_by(#[trigger] facets[i], p) <==> members.contains(
                i as usize,
            )),
        picked.len() == members.len(),
        forall|t: int|
            0 <= t < members.len() ==> (#[trigger] picked[t]) == facets[members[t] as int],
    ensures
        members == cut_indices(facets, p),
        picked == cut_facets(facets, p),
    decreases facets.len(),
{
    if facets.len() == 0 {
        assert(members.len() == 0) by {
            if members.len() > 0 {
                assert(members[0] < facets.len());
            }
        }
        assert(members =~= cut_indices(facets, p));
        assert(picked =~= cut_facets(facets, p));
    } else {
        let last = facets.len() - 1;
        let rest = facets.drop_last();
        if members.len() > 0 && members.last() == last {
            let m = members.drop_last();
            let f = picked.drop_last();
            assert forall|i: int| 0 <= i < rest.len() implies (cut_by(#[trigger] rest[i], p)
                <==> m.contains(i as usize)) by {
                assert(rest[i] == facets[i]);
                if members.contains(i as usize) {
                    let t = choose|t: int| 0 <= t < members.len() && members[t] == i as usize;
                    assert(m[t] == i as usize);
                }
                if m.contains(i as usize) {
                    let t = choose|t: int| 0 <= t < m.len() && m[t] == i as usize;
                    assert(members[t] == i as usize);
                }
            }
            assert forall|t: int| 0 <= t < m.len() implies (#[trigger] m[t]) < rest.len() by {
                assert(members[t] < members[members.len() - 1]);
            }
            assert forall|t: int| 0 <= t < m.len() implies (#[trigger] f[t])
                == rest[m[t] as int] by {
                assert(f[t] == picked[t]);
                assert(m[t] == members[t]);
                assert(members[t] < members[members.len() - 1]);
            }
            lemma_cut_listing(rest, m, f, p);
            assert(members.contains(last as usize)) by {
                assert(members[members.len() - 1] == last as usize);
            }
            assert(cut_by(facets[last], p));
            assert(members =~= m.push(last as usize));
            assert(picked.last() == picked[members.len() - 1]);
            assert(picked =~= f.push(facets[last]));
        } else {
            assert(!members.contains(last as usize)) by {
                if members.contains(last as usize) {
                    let t = choose|t: int| 0 <= t < members.len() && members[t] == last as usize;
                    if t < members.len() - 1 {
                        assert(members[t] < members[members.len() - 1]);
                        assert(members[members.len() - 1] < facets.len());
                    }
                }
            }
            assert(!cut_by(facets[last], p));
            assert forall|i: int| 0 <= i < rest.len() implies (cut_by(#[trigger] rest[i], p)
                <==> members.contains(i as usize)) by {
                assert(rest[i] == facets[i]);
            }
            assert forall|t: int| 0 <= t < members.len() implies (#[trigger] members[t])
                < rest.len() by {
                assert(members.contains(members[t]));
            }
            assert forall|t: int| 0 <= t < members.len() implies (#[trigger] picked[t])
                == rest[members[t] as int] by {
                assert(members.contains(members[t]));
                assert(rest[members[t] as int] == facets[members[t] as int]);
            }
            lemma_cut_listing(rest, members, picked, p);
        }
    }
}

/// Copies out of the mesh the triangles that are open in the sweep.
fn snapshot(mesh: &Mesh, active: &ActiveSet, p: i64) -> (job: PlaneJob)
    requires
        mesh.indices_valid(),
        active@ == holding(z_spans(mesh.facets()), p as int),
    ensures
        job.is_cut_of(mesh.facets(), p as int),
{
    let members = active.members();
    let ghost facets = mesh.facets();
    let ghost spans = z_spans(facets);
    let mut faces: Vec<usize> = Vec::new();
    let mut picked: Vec<Facet> = Vec::new();
    let mut t: usize = 0;
    while t < members.len()
        invariant
            t <= members@.len(),
            mesh.indices_valid(),
            facets == mesh.facets(),
            spans == z_spans(facets),
            lists(members@, active@),
            active@ == holding(spans, p as int),
            faces@ == members@.take(t as int),
            picked@.len() == t,
            forall|s: int| 0 <= s < t ==> (#[trigger] picked@[s]) == facets[members@[s] as int],
        decreases members@.len() - t,
    {
        let i = members[t];
        proof {
            assert(members@.contains(i)) by {
                assert(members@[t as int] == i);
            }
            assert(holding(spans, p as int).contains(i));
            assert(members@.take(t + 1) =~= members@.take(t as int).push(i));
        }
        faces.push(i);
        picked.push(mesh.resolve(i));
        t += 1;
    }
    let count = mesh.faces.len();
    proof {
        assert(members@.take(t as int) =~= members@);
        assert(facets.len() == count);
        assert forall|i: int| 0 <= i < facets.len() implies (cut_by(#[trigger] facets[i], p as int)
            <==> members@.contains(i as usize)) by {
            assert(spans[i] == z_span(facets[i]));
            assert(holding(spans, p as int).contains(i as usize) == cut_by(facets[i], p as int));
        }
        assert forall|s: int| 0 <= s < members@.len() implies (#[trigger] members@[s])
            < facets.len() by {
            assert(members@.contains(members@[s]));
            assert(holding(spans, p as int).contains(members@[s]));
        }
        lemma_cut_listing(facets, members@, picked@, p as int);
    }
    PlaneJob { z: p, faces, facets: picked }
}

/// While events are left, some triangle reaches above the cursor; once all
/// are applied, none does.
proof fn lemma_events_left(facets: Seq<Facet>, events: Seq<Event>, done: int, p: int)
    requires
        is_event_list(events, z_spans(facets), true),
        drained_to(events, done, p),
    ensures
        below_top(facets, p) <==> done < events.len(),
{
    let spans = z_spans(facets);
    if done < events.len() {
        let e = events[done];
        assert(genuine(e, spans, true));
        assert(spans[e.index as int] == z_span(facets[e.index as int]));
        assert(p < facets[e.index as int].max_z());
    }
    if below_top(facets, p) {
        let i = choose|i: int| 0 <= i < facets.len() && p < (#[trigger] facets[i]).max_z();
        assert(spans[i] == z_span(facets[i]));
        assert(spans[i].kept(true));
        let e = end_event(spans, i);
        assert(events.contains(e));
        let a = choose|a: int| 0 <= a < events.len() && events[a] == e;
        assert(events[a].value > p);
    }
}

/// The sweep along z.
///
/// The cursor starts at height 0 and climbs by `step`.  At each height the
/// sweep first applies every event up to and including that height, and
/// then, if events are left, hands out the work of the plane at that
/// height: the triangles whose lowest corner lies at or below the plane and
/// whose highest corner lies above it.  The sweep ends when no event is
/// left.
pub fn sweep_planes(mesh: &Mesh, events: &Vec<ZEvent>, step: i64) -> (jobs: Vec<PlaneJob>)
    requires
        mesh.indices_valid(),
        is_event_list(events@, z_spans(mesh.facets()), true),
        step > 0,
    ensures
        forall|k: int|
            0 <= k < jobs@.len() ==> (#[trigger] jobs@[k]).is_cut_of(mesh.facets(), k * step)
                && below_top(mesh.facets(), k * step),
        !below_top(mesh.facets(), jobs@.len() * step),
{
    let ghost facets = mesh.facets();
    let ghost spans = z_spans(facets);
    let mut jobs: Vec<PlaneJob> = Vec::new();
    let count = events.len();
    let mut active = ActiveSet::new();
    let mut p: i64 = 0;
    assert(events@.take(0) =~= Seq::<Event>::empty());
    let mut next: usize = drain_events(events, 0, &mut active, p);
    proof {
        assert(spans_ordered(spans)) by {
            assert forall|i: int| 0 <= i < spans.len() implies (#[trigger] spans[i]).lo
                <= spans[i].hi by {
                assert(spans[i] == z_span(facets[i]));
            }
        }
        lemma_drained(events@, spans, true, 0, next as int, -1, 0);
        lemma_events_left(facets, events@, next as int, 0);
        assert(0 * step == 0) by (nonlinear_arith);
    }
    let mut more = next < count;
    while more
        invariant
            count == events@.len(),
            step > 0,
            mesh.indices_valid(),
            facets == mesh.facets(),
            spans == z_spans(facets),
            spans_ordered(spans),
            is_event_list(events@, spans, true),
                more ==> {
                &&& 0 <= p
                &&& p == jobs@.len() * step
                &&& next < count
                &&& active@ == open_after(events@, next as int)
                &&& drained_to(events@, next as int, p as int)
            },
            !more ==> !below_top(facets, jobs@.len() * step),
            forall|k: int|
                0 <= k < jobs@.len() ==> (#[trigger] jobs@[k]).is_cut_of(facets, k * step)
                    && below_top(facets, k * step),
        decreases
                if more {
                    events@[count - 1].value - p + 1
                } else {
                    0
                },
    {
        let top = events[count - 1].value;
        proof {
            lemma_sweep_active_set(events@, spans, true, next as int, p as int);
            lemma_events_left(facets, events@, next as int, p as int);
            if next < count - 1 {
                assert(events@[next as int].before(events@[count - 1]));
            }
            assert(p < top);
        }
        let job = snapshot(mesh, &active, p);
        let ghost k = jobs@.len() as int;
        jobs.push(job);
        proof {
            assert((k + 1) * step == k * step + step) by (nonlinear_arith);
        }
        if step >= top - p {
            proof {
                assert forall|a: int| 0 <= a < count implies (#[trigger] events@[a]).value <= p
                    + step by {
                    if a < count - 1 {
                        assert(events@[a].before(events@[count - 1]));
                    }
                }
                assert(drained_to(events@, count as int, p + step));
                lemma_events_left(facets, events@, count as int, p + step);
            }
            more = false;
        } else {
            let ghost last_next = next as int;
            let ghost last_p = p as int;
            p = p + step;
            next = drain_events(events, next, &mut active, p);
            proof {
                lemma_drained(events@, spans, true, last_next, next as int, last_p, p as int);
                lemma_events_left(facets, events@, next as int, p as int);
            }
            more = next < count;
        }
    }
    jobs
}

} // verus!
