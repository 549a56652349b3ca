//! The whole way from a mesh to its layers.

use crate::boundingbox::{cells_spanned, lemma_box_encloses, lemma_box_tight, BoundingBox};
use crate::contours::{lemma_counted_column_is_crossed, lemma_winding_above_crossings};
use crate::error::SliceError;
use crate::geometry::{Facet, Mesh, Segment, COORD_LIMIT, SPAN_LIMIT};
use crate::layer::Layer;
use crate::planner::{
    below_top, cut_facets, generate_events, moved_to_origin, ready, sweep_planes, PlaneJob,
};
use crate::raster::{
    column_x, crosses, height_at, lemma_height_between, paint_plane, residual, row_of, winding,
};
use crate::slicer::{contour, facets_enclosed, facets_within, lemma_contour_enclosed};
use crate::surface::{
    closed_surface, lemma_closed_surface_cut, lemma_moved_surface_closed, moved_facet,
};
use vstd::prelude::*;

verus! {

/// What there is to do for a mesh: one job per cutting plane, and the size
/// that every layer gets.
#[derive(Clone, Debug)]
pub struct LayerPlan {
    /// The box around the mesh as it was handed in.
    pub bounds: BoundingBox,
    /// Width of every layer, in cells.
    pub width: usize,
    /// Height of every layer, in cells.
    pub height: usize,
    /// The work of the layers, lowest plane first.
    pub jobs: Vec<PlaneJob>,
}

impl LayerPlan {
    /// The plan is that of the triangles `facets` for planes that lie `step`
    /// apart: it holds the box, the size of a layer that covers the box, and
    /// for every plane below the top of some triangle, lowest first, the job
    /// of that plane.
    pub open spec fn is_plan_of(&self, facets: Seq<Facet>, step: int, bounds: BoundingBox) -> bool {
        &&& self.bounds == bounds
        &&& self.width == cells_spanned(bounds.x.0 as int, bounds.x.1 as int)
        &&& self.height == cells_spanned(bounds.y.0 as int, bounds.y.1 as int)
        &&& forall|k: int|
            0 <= k < self.jobs@.len() ==> (#[trigger] self.jobs@[k]).is_cut_of(facets, k * step)
                && below_top(facets, k * step)
        &&& !below_top(facets, self.jobs@.len() * step)
    }
}

/// The contour in which the plane number `k` of a sweep with distance `step`
/// cuts the triangles `facets`.
pub open spec fn plane_contour(facets: Seq<Facet>, step: int, k: int) -> Seq<Segment> {
    contour(cut_facets(facets, k * step), (k * step) as i64)
}

/// The contour of plane `k` is closed as far as the filler can tell: in no
/// column do its crossings leave a winding number behind.
pub open spec fn plane_closed(facets: Seq<Facet>, step: int, k: int) -> bool {
    forall|c: int| 0 <= c ==> residual(plane_contour(facets, step, k), #[trigger] column_x(c)) == 0
}

/// `layer` is the raster of plane `k`: it has the given size, and a cell
/// is filled exactly if its winding number is above zero.
pub open spec fn is_raster_of(
    layer: Layer,
    facets: Seq<Facet>,
    step: int,
    k: int,
    width: int,
    height: int,
) -> bool {
    &&& layer.wf()
    &&& layer.width == width
    &&& layer.height == height
    &&& forall|c: int, r: int|
        0 <= c < width && 0 <= r < height ==> layer.filled(c, r) == (winding(
            plane_contour(facets, step, k),
            column_x(c),
            r,
        ) > 0)
}

/// `layers` are the layers of the triangles `facets` for planes that lie
/// `step` apart: there is one layer for every plane below the top of some
/// triangle, lowest plane first, each of the size that covers `bounds`, and
/// each the raster of its plane.
pub open spec fn is_slicing(
    layers: Seq<Layer>,
    facets: Seq<Facet>,
    step: int,
    bounds: BoundingBox,
) -> bool {
    &&& forall|k: int| 0 <= k < layers.len() ==> #[trigger] below_top(facets, k * step)
    &&& !below_top(facets, layers.len() * step)
    &&& forall|k: int|
        0 <= k < layers.len() ==> is_raster_of(
            #[trigger] layers[k],
            facets,
            step,
            k,
            cells_spanned(bounds.x.0 as int, bounds.x.1 as int),
            cells_spanned(bounds.y.0 as int, bounds.y.1 as int),
        )
}

/// The reason for which a mesh and a distance between planes are refused,
/// if they are refused: a distance that is not positive, else a mesh without
/// vertices, else a mesh that is not well formed.
pub open spec fn refusal(mesh: Mesh, step: int) -> Option<SliceError> {
    if step <= 0 {
        Some(SliceError::NonPositiveStep)
    } else if mesh.vertices@.len() == 0 {
        Some(SliceError::EmptyMesh)
    } else if !mesh.wf() {
        Some(SliceError::InvalidMesh)
    } else {
        None
    }
}

/// Tells whether every triangle of the list lies within `SPAN_LIMIT`.
pub fn facets_in_range(facets: &Vec<Facet>) -> (b: bool)
    ensures
        b == facets_within(facets@, SPAN_LIMIT as int),
{
    let mut i: usize = 0;
    while i < facets.len()
        invariant
            i <= facets@.len(),
            forall|k: int| 0 <= k < i ==> (#[trigger] facets@[k]).within(SPAN_LIMIT as int),
        decreases facets@.len() - i,
    {
        if !facets[i].is_within(SPAN_LIMIT) {
            return false;
        }
        i += 1;
    }
    true
}

/// Moves the mesh to the origin of its bounding box and plans its layers:
/// one job for each of the planes at height 0, `step`, twice `step` and so
/// on that lie below the top of some triangle.
pub fn plan_layers(mesh: &mut Mesh, step: i64) -> (result: Result<LayerPlan, SliceError>)
    ensures
        result matches Err(e) ==> *final(mesh) == *old(mesh) && refusal(*old(mesh), step as int)
            == Some(e),
        result is Err <==> refusal(*old(mesh), step as int) is Some,
        result is Ok ==> moved_to_origin(*old(mesh), *final(mesh)) && ready(*final(mesh)),
        result matches Ok(plan) ==> plan.is_plan_of(
            final(mesh).facets(),
            step as int,
            BoundingBox::of(old(mesh).vertices@),
        ),
{
    if step <= 0 {
        return Err(SliceError::NonPositiveStep);
    }
    match generate_events(mesh) {
        Err(e) => Err(e),
        Ok((events, bounds)) => {
            let jobs = sweep_planes(mesh, &events, step);
            let (width, height) = bounds.layer_size();
            Ok(LayerPlan { bounds, width, height, jobs })
        },
    }
}

/// Does the work of one layer: cuts the triangles of the job with its
/// plane and fills the inside of the contour into a fresh layer of the given
/// size.
pub fn render_layer(job: &PlaneJob, width: usize, height: usize) -> (result: Result<
    Layer,
    SliceError,
>)
    ensures
        result == Err::<Layer, SliceError>(SliceError::InvalidMesh) <==> !(facets_within(
            job.facets@,
            SPAN_LIMIT as int,
        ) && -SPAN_LIMIT <= job.z <= SPAN_LIMIT),
        result == Err::<Layer, SliceError>(SliceError::WindingResidual) <==> facets_within(
            job.facets@,
            SPAN_LIMIT as int,
        ) && -SPAN_LIMIT <= job.z <= SPAN_LIMIT && !(forall|c: int|
            0 <= c ==> residual(contour(job.facets@, job.z), #[trigger] column_x(c)) == 0),
        result matches Err(e) ==> e == SliceError::InvalidMesh || e == SliceError::WindingResidual,
        result matches Ok(layer) ==> layer.wf() && layer.width == width && layer.height == height,
        result matches Ok(layer) ==> forall|c: int, r: int|
            0 <= c < width && 0 <= r < height ==> layer.filled(c, r) == (winding(
                contour(job.facets@, job.z),
                column_x(c),
                r,
            ) > 0),
{
    if job.z < -SPAN_LIMIT || job.z > SPAN_LIMIT || !facets_in_range(&job.facets) {
        return Err(SliceError::InvalidMesh);
    }
    let mut layer = Layer::new(width, height);
    match paint_plane(job.z, &job.facets, &mut layer) {
        Err(e) => Err(e),
        Ok(()) => Ok(layer),
    }
}

/// Slices a mesh: moves it to the origin of its bounding box, plans the
/// layers and renders them one after the other, lowest plane first.
///
/// The first plane whose contour is not closed ends the work with
/// `WindingResidual`.
pub fn slice_mesh(mesh: &mut Mesh, step: i64) -> (result: Result<Vec<Layer>, SliceError>)
    ensures
        refusal(*old(mesh), step as int) matches Some(e) ==> *final(mesh) == *old(mesh) && result
            == Err::<Vec<Layer>, SliceError>(e),
        refusal(*old(mesh), step as int) is None ==> moved_to_origin(*old(mesh), *final(mesh)),
        refusal(*old(mesh), step as int) is None ==> (result matches Err(e) ==> e
            == SliceError::WindingResidual),
        refusal(*old(mesh), step as int) is None ==> (result is Ok <==> forall|k: int|
            0 <= k && below_top(final(mesh).facets(), k * step) ==> #[trigger] plane_closed(
                final(mesh).facets(),
                step as int,
                k,
            )),
        refusal(*old(mesh), step as int) is None && closed_surface(old(mesh).facets())
            ==> result is Ok,
        result matches Ok(layers) ==> is_slicing(
            layers@,
            final(mesh).facets(),
            step as int,
            BoundingBox::of(old(mesh).vertices@),
        ),
{
    let plan = match plan_layers(mesh, step) {
        Err(e) => {
            return Err(e);
        },
        Ok(plan) => plan,
    };
    let ghost facets = mesh.facets();
    let mut layers: Vec<Layer> = Vec::new();
    let mut k: usize = 0;
    while k < plan.jobs.len()
        invariant
            k <= plan.jobs@.len(),
            layers@.len() == k,
            step > 0,
            refusal(*old(mesh), step as int) is None,
            moved_to_origin(*old(mesh), *mesh),
            old(mesh).indices_valid(),
            facets == mesh.facets(),
            ready(*mesh),
            plan.is_plan_of(facets, step as int, BoundingBox::of(old(mesh).vertices@)),
            forall|j: int| 0 <= j < k ==> #[trigger] plane_closed(facets, step as int, j),
            forall|j: int|
                0 <= j < k ==> is_raster_of(
                    #[trigger] layers@[j],
                    facets,
                    step as int,
                    j,
                    plan.width as int,
                    plan.height as int,
                ),
        decreases plan.jobs@.len() - k,
    {
        let job = &plan.jobs[k];
        proof {
            assert(plan.jobs@[k as int].is_cut_of(facets, k * step));
            assert(0 <= k * step) by (nonlinear_arith)
                requires
                    0 <= k,
                    step > 0,
            ;
            lemma_cut_facets_ready(*mesh, k * step);
            lemma_plane_in_range(*mesh, k * step);
        }
        match render_layer(job, plan.width, plan.height) {
            Err(e) => {
                proof {
                    assert(!plane_closed(facets, step as int, k as int));
                    assert(below_top(facets, k * step));
                    if closed_surface(old(mesh).facets()) {
                        lemma_moved_mesh_closed(*old(mesh), *mesh);
                        lemma_closed_surface_planes(facets, step as int, k as int);
                    }
                }
                return Err(e);
            },
            Ok(layer) => {
                layers.push(layer);
            },
        }
        k += 1;
    }
    proof {
        assert forall|j: int| 0 <= j < layers@.len() implies #[trigger] below_top(
            facets,
            j * step,
        ) by {
            assert(plan.jobs@[j].is_cut_of(facets, j * step));
        }
        assert forall|j: int| 0 <= j && below_top(facets, j * step) implies #[trigger] plane_closed(
            facets,
            step as int,
            j,
        ) by {
            if j >= plan.jobs@.len() {
                assert(plan.jobs@.len() * step <= j * step) by (nonlinear_arith)
                    requires
                        plan.jobs@.len() <= j,
                        step > 0,
                ;
                lemma_below_top_downward(facets, plan.jobs@.len() * step, j * step);
            }
        }
    }
    Ok(layers)
}

/// Every plane through a closed surface has a closed contour.
pub proof fn lemma_closed_surface_planes(facets: Seq<Facet>, step: int, k: int)
    requires
        closed_surface(facets),
        i64::MIN <= k * step <= i64::MAX,
    ensures
        plane_closed(facets, step, k),
{
    let plane = (k * step) as i64;
    assert forall|c: int| 0 <= c implies residual(
        plane_contour(facets, step, k),
        #[trigger] column_x(c),
    ) == 0 by {
        lemma_closed_surface_cut(facets, plane, column_x(c));
    }
}

/// A mesh that is a closed surface is one still after it has been moved to
/// the origin of its bounding box.
pub proof fn lemma_moved_mesh_closed(before: Mesh, after: Mesh)
    requires
        before.indices_valid(),
        moved_to_origin(before, after),
        closed_surface(before.facets()),
    ensures
        closed_surface(after.facets()),
{
    let origin = BoundingBox::of(before.vertices@).low_corner();
    assert forall|i: int| 0 <= i < before.facets().len() implies (#[trigger] after.facets()[i])
        == moved_facet(before.facets()[i], origin) by {
        let t = before.faces@[i];
        assert(t.vertices@[0] < before.vertices@.len());
        assert(t.vertices@[1] < before.vertices@.len());
        assert(t.vertices@[2] < before.vertices@.len());
    }
    lemma_moved_surface_closed(before.facets(), after.facets(), origin);
}

/// A plane that lies below the top of some triangle has every lower plane
/// below the top of that triangle too.
pub proof fn lemma_below_top_downward(facets: Seq<Facet>, low: int, high: int)
    requires
        low <= high,
        below_top(facets, high),
    ensures
        below_top(facets, low),
{
    let i = choose|i: int| 0 <= i < facets.len() && high < (#[trigger] facets[i]).max_z();
    assert(low < facets[i].max_z());
}

/// The triangles that a plane cuts out of a mesh lie where the mesh lies.
proof fn lemma_cut_facets_ready(mesh: Mesh, p: int)
    requires
        ready(mesh),
    ensures
        facets_within(cut_facets(mesh.facets(), p), SPAN_LIMIT as int),
{
    let facets = mesh.facets();
    assert forall|i: int| 0 <= i < facets.len() implies (#[trigger] facets[i]).within(
        SPAN_LIMIT as int,
    ) by {
        let t = mesh.faces@[i];
        assert(t.vertices@[0] < mesh.vertices@.len());
        assert(t.vertices@[1] < mesh.vertices@.len());
        assert(t.vertices@[2] < mesh.vertices@.len());
        assert(mesh.vertices@[t.vertices@[0] as int].within(SPAN_LIMIT as int));
        assert(mesh.vertices@[t.vertices@[1] as int].within(SPAN_LIMIT as int));
        assert(mesh.vertices@[t.vertices@[2] as int].within(SPAN_LIMIT as int));
    }
    lemma_cut_facets_within(facets, p);
}

proof fn lemma_cut_facets_within(facets: Seq<Facet>, p: int)
    requires
        facets_within(facets, SPAN_LIMIT as int),
    ensures
        facets_within(cut_facets(facets, p), SPAN_LIMIT as int),
    decreases facets.len(),
{
    if facets.len() > 0 {
        assert forall|i: int| 0 <= i < facets.len() - 1 implies (
        #[trigger] facets.drop_last()[i]).within(SPAN_LIMIT as int) by {
            assert(facets.drop_last()[i] == facets[i]);
        }
        lemma_cut_facets_within(facets.drop_last(), p);
        assert(facets[facets.len() - 1].within(SPAN_LIMIT as int));
    }
}

/// A plane below the top of some triangle of a mesh lies within the mesh.
proof fn lemma_plane_in_range(mesh: Mesh, p: int)
    requires
        ready(mesh),
        0 <= p,
        below_top(mesh.facets(), p),
    ensures
        p < SPAN_LIMIT,
{
    let facets = mesh.facets();
    let i = choose|i: int| 0 <= i < facets.len() && p < (#[trigger] facets[i]).max_z();
    let t = mesh.faces@[i];
    assert(t.vertices@[0] < mesh.vertices@.len());
    assert(t.vertices@[1] < mesh.vertices@.len());
    assert(t.vertices@[2] < mesh.vertices@.len());
    assert(mesh.vertices@[t.vertices@[0] as int].within(SPAN_LIMIT as int));
    assert(mesh.vertices@[t.vertices@[1] as int].within(SPAN_LIMIT as int));
    assert(mesh.vertices@[t.vertices@[2] as int].within(SPAN_LIMIT as int));
}

/// Slicing is a function of the mesh and of the distance between planes:
/// two runs on the same mesh with the same distance give the same number of
/// layers, of the same size, with the same cells filled.
pub proof fn lemma_slicing_deterministic(
    mesh: Mesh,
    step: int,
    first_mesh: Mesh,
    first: Seq<Layer>,
    second_mesh: Mesh,
    second: Seq<Layer>,
)
    requires
        step > 0,
        moved_to_origin(mesh, first_mesh),
        moved_to_origin(mesh, second_mesh),
        is_slicing(first, first_mesh.facets(), step, BoundingBox::of(mesh.vertices@)),
        is_slicing(second, second_mesh.facets(), step, BoundingBox::of(mesh.vertices@)),
    ensures
        first_mesh.vertices@ == second_mesh.vertices@,
        first_mesh.facets() == second_mesh.facets(),
        first.len() == second.len(),
        forall|k: int|
            0 <= k < first.len() ==> (#[trigger] first[k]).width == second[k].width
                && first[k].height == second[k].height,
        forall|k: int, c: int, r: int|
            0 <= k < first.len() && 0 <= c < first[k].width && 0 <= r < first[k].height
                ==> #[trigger] first[k].filled(c, r) == second[k].filled(c, r),
{
    assert(first_mesh.vertices@ =~= second_mesh.vertices@);
    assert(first_mesh.facets() =~= second_mesh.facets());
    let facets = first_mesh.facets();
    if first.len() < second.len() {
        assert(below_top(facets, first.len() * step));
    }
    if second.len() < first.len() {
        assert(below_top(facets, second.len() * step));
    }
}

/// The layers are large enough for the cut: in a plane whose contour is
/// closed no cell outside the layer has a winding number above zero.
pub proof fn lemma_layer_covers_cut(before: Mesh, after: Mesh, step: int, k: int, c: int, r: int)
    requires
        before.wf(),
        before.vertices@.len() > 0,
        moved_to_origin(before, after),
        i64::MIN <= k * step <= i64::MAX,
        plane_closed(after.facets(), step, k),
        0 <= c,
        0 <= r,
        winding(plane_contour(after.facets(), step, k), column_x(c), r) > 0,
    ensures
        c < cells_spanned(
            BoundingBox::of(before.vertices@).x.0 as int,
            BoundingBox::of(before.vertices@).x.1 as int,
        ),
        r < cells_spanned(
            BoundingBox::of(before.vertices@).y.0 as int,
            BoundingBox::of(before.vertices@).y.1 as int,
        ),
{
    let bounds = BoundingBox::of(before.vertices@);
    let low = bounds.low_corner();
    let extent = BoundingBox {
        x: (0, (bounds.x.1 - bounds.x.0) as i64),
        y: (0, (bounds.y.1 - bounds.y.0) as i64),
        z: (0, (bounds.z.1 - bounds.z.0) as i64),
    };
    let facets = after.facets();
    let p = k * step;
    let segments = plane_contour(facets, step, k);
    let x = column_x(c);
    lemma_box_tight(before.vertices@);
    assert forall|i: int| 0 <= i < after.vertices@.len() implies extent.encloses(
        #[trigger] after.vertices@[i],
    ) && after.vertices@[i].within(SPAN_LIMIT as int) by {
        lemma_box_encloses(before.vertices@, i);
        assert(before.vertices@[i].within(COORD_LIMIT as int));
    }
    assert forall|i: int| 0 <= i < facets.len() implies (#[trigger] facets[i]).within(
        SPAN_LIMIT as int,
    ) && extent.encloses(facets[i].a) && extent.encloses(facets[i].b) && extent.encloses(
        facets[i].c,
    ) by {
        let t = before.faces@[i];
        assert(t.vertices@[0] < before.vertices@.len());
        assert(t.vertices@[1] < before.vertices@.len());
        assert(t.vertices@[2] < before.vertices@.len());
    }
    lemma_cut_facets_within(facets, p);
    lemma_cut_facets_enclosed(facets, p, extent);
    lemma_contour_enclosed(cut_facets(facets, p), p as i64, extent);
    lemma_counted_column_is_crossed(segments, x, Some(r));
    let i = choose|i: int| 0 <= i < segments.len() && crosses(#[trigger] segments[i], x);
    assert(extent.encloses(segments[i].first) && extent.encloses(segments[i].second));
    let rows = cells_spanned(bounds.y.0 as int, bounds.y.1 as int);
    if r >= rows {
        assert forall|j: int| 0 <= j < segments.len() && crosses(
            #[trigger] segments[j],
            x,
        ) implies row_of(height_at(segments[j], x)) <= r by {
            assert(extent.encloses(segments[j].first) && extent.encloses(segments[j].second));
            lemma_height_between(segments[j], x);
        }
        lemma_winding_above_crossings(segments, x, r);
        assert(residual(segments, column_x(c)) == 0);
    }
}

proof fn lemma_cut_facets_enclosed(facets: Seq<Facet>, p: int, around: BoundingBox)
    requires
        facets_enclosed(facets, around),
    ensures
        facets_enclosed(cut_facets(facets, p), around),
    decreases facets.len(),
{
    if facets.len() > 0 {
        let rest = facets.drop_last();
        assert forall|i: int| 0 <= i < rest.len() implies around.encloses((#[trigger] rest[i]).a)
            && around.encloses(rest[i].b) && around.encloses(rest[i].c) by {
            assert(rest[i] == facets[i]);
        }
        lemma_cut_facets_enclosed(rest, p, around);
        assert(facets.last() == facets[facets.len() - 1]);
    }
}

} // verus!
