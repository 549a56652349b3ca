use mesh_slicer::boundingbox::BoundingBox;
use mesh_slicer::error::SliceError;
use mesh_slicer::events::EventKind;
use mesh_slicer::geometry::{Facet, Mesh, Triangle, Vertex, COORD_LIMIT, UNITS_PER_PIXEL};
use mesh_slicer::layer::Layer;
use mesh_slicer::pipeline::{facets_in_range, plan_layers, render_layer, slice_mesh};
use mesh_slicer::planner::{generate_events, sweep_planes, PlaneJob};
use mesh_slicer::slicer::contour_segments;

const U: i64 = UNITS_PER_PIXEL;

fn units(v: f32) -> i64 {
    (v * U as f32).round() as i64
}

fn at(x: f32, y: f32, z: f32) -> Vertex {
    Vertex { x: units(x), y: units(y), z: units(z) }
}

fn face(a: usize, b: usize, c: usize) -> Triangle {
    Triangle { vertices: [a, b, c] }
}

fn picture(layer: &Layer) -> Vec<String> {
    let mut rows = Vec::new();
    for y in 0..layer.height {
        let mut row = String::new();
        for x in 0..layer.width {
            row.push(if layer.get(x, y) { '#' } else { '.' });
        }
        rows.push(row);
    }
    rows
}

/// A box with its faces turned outwards, from `low` to `low + size`.
fn box_mesh(low: (f32, f32, f32), size: (f32, f32, f32)) -> Mesh {
    let (x0, y0, z0) = low;
    let (x1, y1, z1) = (low.0 + size.0, low.1 + size.1, low.2 + size.2);
    let vertices = vec![
        at(x0, y0, z0),
        at(x1, y0, z0),
        at(x1, y1, z0),
        at(x0, y1, z0),
        at(x0, y0, z1),
        at(x1, y0, z1),
        at(x1, y1, z1),
        at(x0, y1, z1),
    ];
    let faces = vec![
        face(0, 2, 1),
        face(0, 3, 2),
        face(4, 5, 6),
        face(4, 6, 7),
        face(0, 1, 5),
        face(0, 5, 4),
        face(2, 3, 7),
        face(2, 7, 6),
        face(1, 2, 6),
        face(1, 6, 5),
        face(3, 0, 4),
        face(3, 4, 7),
    ];
    Mesh { vertices, faces }
}

fn single_triangle() -> Mesh {
    Mesh {
        vertices: vec![at(0.0, 0.0, 0.0), at(2.0, 0.0, 0.0), at(0.0, 2.0, 2.0)],
        faces: vec![face(0, 1, 2)],
    }
}

fn lowest(mesh: &Mesh, t: &Triangle) -> i64 {
    t.vertices.iter().map(|&v| mesh.vertices[v].z).min().unwrap()
}

fn highest(mesh: &Mesh, t: &Triangle) -> i64 {
    t.vertices.iter().map(|&v| mesh.vertices[v].z).max().unwrap()
}

#[test]
fn events_are_twice_the_faces() {
    let mut mesh = box_mesh((0.0, 0.0, 0.0), (2.0, 2.0, 2.0));
    let (events, _) = generate_events(&mut mesh).unwrap();
    assert_eq!(events.len(), 2 * mesh.faces.len());
    let starts = events.iter().filter(|e| e.kind == EventKind::Start).count();
    assert_eq!(starts, mesh.faces.len());
    for i in 0..mesh.faces.len() {
        let of_face: Vec<_> = events.iter().filter(|e| e.index == i).collect();
        assert_eq!(of_face.len(), 2);
        assert_eq!(of_face[0].kind, EventKind::Start);
        assert_eq!(of_face[0].value, lowest(&mesh, &mesh.faces[i]));
        assert_eq!(of_face[1].kind, EventKind::End);
        assert_eq!(of_face[1].value, highest(&mesh, &mesh.faces[i]));
    }
}

#[test]
fn events_are_in_ascending_order() {
    let mut mesh = box_mesh((0.0, 0.0, 0.0), (2.0, 2.0, 2.0));
    let (events, _) = generate_events(&mut mesh).unwrap();
    for w in events.windows(2) {
        assert!(w[0].value <= w[1].value);
    }
}

#[test]
fn generate_events_moves_the_mesh_to_the_origin() {
    let mut mesh = box_mesh((-3.0, 5.0, 1.5), (2.0, 4.0, 1.0));
    let (events, bounds) = generate_events(&mut mesh).unwrap();
    assert_eq!(bounds.x, (units(-3.0), units(-1.0)));
    assert_eq!(bounds.y, (units(5.0), units(9.0)));
    assert_eq!(bounds.z, (units(1.5), units(2.5)));
    assert_eq!(mesh.vertices[0], at(0.0, 0.0, 0.0));
    assert_eq!(mesh.vertices[6], at(2.0, 4.0, 1.0));
    assert_eq!(events[0].value, 0);
    assert_eq!(events[events.len() - 1].value, units(1.0));
}

#[test]
fn generate_events_counts_vertices_that_no_face_names() {
    let mut mesh = single_triangle();
    mesh.vertices.push(at(-1.0, -1.0, -1.0));
    let (events, bounds) = generate_events(&mut mesh).unwrap();
    assert_eq!(bounds.z, (units(-1.0), units(2.0)));
    assert_eq!(mesh.vertices[0], at(1.0, 1.0, 1.0));
    assert_eq!(mesh.vertices[3], at(0.0, 0.0, 0.0));
    assert_eq!(events[0].value, units(1.0));
    assert_eq!(events[1].value, units(3.0));
}

#[test]
fn empty_mesh_is_refused() {
    let mut mesh = Mesh { vertices: Vec::new(), faces: Vec::new() };
    assert_eq!(generate_events(&mut mesh).err(), Some(SliceError::EmptyMesh));
    assert_eq!(plan_layers(&mut mesh, U).err(), Some(SliceError::EmptyMesh));
    assert_eq!(slice_mesh(&mut mesh, U).err(), Some(SliceError::EmptyMesh));
}

#[test]
fn face_without_its_vertex_is_refused() {
    let mut mesh = single_triangle();
    mesh.faces.push(face(0, 1, 3));
    assert!(!mesh.is_well_formed());
    let before = mesh.vertices.clone();
    assert_eq!(generate_events(&mut mesh).err(), Some(SliceError::InvalidMesh));
    assert_eq!(mesh.vertices, before);
    assert_eq!(slice_mesh(&mut mesh, U).err(), Some(SliceError::InvalidMesh));
}

#[test]
fn coordinate_beyond_the_limit_is_refused() {
    let mut mesh = single_triangle();
    assert!(mesh.is_well_formed());
    mesh.vertices[1].x = COORD_LIMIT;
    assert!(mesh.is_well_formed());
    mesh.vertices[1].x = COORD_LIMIT + 1;
    assert!(!mesh.is_well_formed());
    assert_eq!(plan_layers(&mut mesh, U).err(), Some(SliceError::InvalidMesh));
}

#[test]
fn step_that_is_not_positive_is_refused() {
    let mut mesh = box_mesh((0.0, 0.0, 0.0), (2.0, 2.0, 2.0));
    let before = mesh.vertices.clone();
    assert_eq!(plan_layers(&mut mesh, 0).err(), Some(SliceError::NonPositiveStep));
    assert_eq!(slice_mesh(&mut mesh, -U).err(), Some(SliceError::NonPositiveStep));
    assert_eq!(mesh.vertices, before);
    let mut empty = Mesh { vertices: Vec::new(), faces: Vec::new() };
    assert_eq!(slice_mesh(&mut empty, 0).err(), Some(SliceError::NonPositiveStep));
}

#[test]
fn errors_tell_input_from_inconsistency() {
    assert!(SliceError::EmptyMesh.is_input_error());
    assert!(SliceError::NonPositiveStep.is_input_error());
    assert!(SliceError::InvalidMesh.is_input_error());
    assert!(!SliceError::WindingResidual.is_input_error());
}

#[test]
fn single_triangle_is_cut_at_height_one() {
    let mut mesh = single_triangle();
    let plan = plan_layers(&mut mesh, units(1.0)).unwrap();
    assert_eq!(plan.jobs.len(), 2);
    assert_eq!(plan.jobs[1].z, units(1.0));
    assert_eq!(plan.jobs[1].faces, vec![0]);
    let segments = contour_segments(&plan.jobs[1].facets, plan.jobs[1].z);
    assert_eq!(segments.len(), 1);
    assert_eq!(segments[0].first, at(0.0, 1.0, 1.0));
    assert_eq!(segments[0].second, at(1.0, 1.0, 1.0));
}

#[test]
fn single_triangle_is_not_a_closed_solid() {
    let mut mesh = single_triangle();
    assert_eq!(slice_mesh(&mut mesh, units(1.0)).err(), Some(SliceError::WindingResidual));
}

#[test]
fn active_set_matches_brute_force() {
    let mut mesh = Mesh { vertices: Vec::new(), faces: Vec::new() };
    let mut seed: i64 = 12345;
    for _ in 0..40 {
        let mut next = || {
            seed = (seed * 1103515245 + 12345) % 2147483648;
            (seed / 65536) % 9000
        };
        let v = Vertex { x: next(), y: next(), z: next() };
        mesh.vertices.push(v);
    }
    for i in 0..60usize {
        mesh.faces.push(face(i % 40, (i * 7 + 3) % 40, (i * 11 + 5) % 40));
    }
    mesh.faces.push(face(4, 4, 4));
    let step = 700;
    let plan = plan_layers(&mut mesh, step).unwrap();
    let top = mesh.faces.iter().map(|t| highest(&mesh, t)).max().unwrap();
    let mut expected_planes = 0;
    while expected_planes * step < top {
        expected_planes += 1;
    }
    assert_eq!(plan.jobs.len() as i64, expected_planes);
    for (k, job) in plan.jobs.iter().enumerate() {
        let p = k as i64 * step;
        assert_eq!(job.z, p);
        let mut expected = Vec::new();
        for (i, t) in mesh.faces.iter().enumerate() {
            if lowest(&mesh, t) <= p && p < highest(&mesh, t) {
                expected.push(i);
            }
        }
        assert_eq!(job.faces, expected);
        assert_eq!(job.facets.len(), expected.len());
        for (t, &i) in expected.iter().enumerate() {
            let f = mesh.faces[i];
            assert_eq!(job.facets[t].a, mesh.vertices[f.vertices[0]]);
            assert_eq!(job.facets[t].b, mesh.vertices[f.vertices[1]]);
            assert_eq!(job.facets[t].c, mesh.vertices[f.vertices[2]]);
        }
    }
}

#[test]
fn triangle_that_ends_at_a_plane_is_not_in_its_job() {
    let mut mesh = Mesh {
        vertices: vec![
            at(0.0, 0.0, 0.0),
            at(1.0, 0.0, 1.0),
            at(0.0, 1.0, 1.0),
            at(1.0, 1.0, 3.0),
        ],
        faces: vec![face(0, 1, 2), face(1, 2, 3), face(1, 2, 1)],
    };
    let (events, _) = generate_events(&mut mesh).unwrap();
    let jobs = sweep_planes(&mesh, &events, units(1.0));
    assert_eq!(jobs.len(), 3);
    assert_eq!(jobs[0].faces, vec![0]);
    assert_eq!(jobs[1].faces, vec![1]);
    assert_eq!(jobs[2].faces, vec![1]);
}

#[test]
fn planes_stop_below_the_top() {
    let mut mesh = box_mesh((0.0, 0.0, 0.0), (1.0, 1.0, 2.5));
    let plan = plan_layers(&mut mesh, units(1.0)).unwrap();
    let heights: Vec<i64> = plan.jobs.iter().map(|j| j.z).collect();
    assert_eq!(heights, vec![0, units(1.0), units(2.0)]);
    let mut mesh = box_mesh((0.0, 0.0, 0.0), (1.0, 1.0, 3.0));
    let plan = plan_layers(&mut mesh, units(1.0)).unwrap();
    assert_eq!(plan.jobs.len(), 3);
}

#[test]
fn step_larger_than_the_mesh_gives_one_plane() {
    let mut mesh = box_mesh((0.0, 0.0, 0.0), (1.0, 1.0, 1.0));
    let plan = plan_layers(&mut mesh, i64::MAX).unwrap();
    assert_eq!(plan.jobs.len(), 1);
    assert_eq!(plan.jobs[0].z, 0);
}

#[test]
fn flat_mesh_has_no_planes() {
    let mut mesh = Mesh {
        vertices: vec![at(0.0, 0.0, 5.0), at(1.0, 0.0, 5.0), at(0.0, 1.0, 5.0)],
        faces: vec![face(0, 1, 2)],
    };
    let plan = plan_layers(&mut mesh, units(1.0)).unwrap();
    assert!(plan.jobs.is_empty());
    assert_eq!(slice_mesh(&mut mesh, units(1.0)), Ok(Vec::new()));
}

#[test]
fn plan_sizes_the_layers_by_the_bounding_box() {
    let mut mesh = box_mesh((10.0, 20.0, 30.0), (2.5, 3.0, 1.0));
    let plan = plan_layers(&mut mesh, units(1.0)).unwrap();
    assert_eq!(plan.width, 3);
    assert_eq!(plan.height, 3);
    let mut expected = BoundingBox::new();
    expected.update(&at(10.0, 20.0, 30.0));
    expected.update(&at(12.5, 23.0, 31.0));
    assert_eq!(plan.bounds, expected);
}

#[test]
fn job_identifier_is_the_rounded_height() {
    let job = |z: i64| PlaneJob { z, faces: Vec::new(), facets: Vec::new() };
    assert_eq!(job(0).identifier(), 0);
    assert_eq!(job(U / 2 - 1).identifier(), 0);
    assert_eq!(job(U / 2).identifier(), 1);
    assert_eq!(job(3 * U).identifier(), 3);
    assert_eq!(job(3 * U + U / 2 - 1).identifier(), 3);
    assert_eq!(job(3 * U + U / 2).identifier(), 4);
    assert_eq!(job(-5).identifier(), 0);
    assert_eq!(job(i64::MAX).identifier(), (i64::MAX / U) as u64 + 1);
}

#[test]
fn cube_gives_two_filled_squares() {
    let mut mesh = box_mesh((0.0, 0.0, 0.0), (2.0, 2.0, 2.0));
    let layers = slice_mesh(&mut mesh, units(1.0)).unwrap();
    assert_eq!(layers.len(), 2);
    for layer in layers.iter() {
        assert_eq!(layer.width, 2);
        assert_eq!(layer.height, 2);
        assert_eq!(picture(layer), vec!["##", "##"]);
    }
}

#[test]
fn cube_away_from_the_origin_gives_the_same_layers() {
    let mut here = box_mesh((0.0, 0.0, 0.0), (2.0, 2.0, 2.0));
    let mut there = box_mesh((-7.0, 3.0, 11.0), (2.0, 2.0, 2.0));
    assert_eq!(slice_mesh(&mut here, units(1.0)), slice_mesh(&mut there, units(1.0)));
}

#[test]
fn box_with_half_cells_rounds_to_the_nearest_row() {
    let mut mesh = box_mesh((0.0, 0.0, 0.0), (3.0, 2.5, 1.0));
    let layers = slice_mesh(&mut mesh, units(1.0)).unwrap();
    assert_eq!(layers.len(), 1);
    assert_eq!(picture(&layers[0]), vec!["###", "###", "###"]);
    let mut mesh = box_mesh((0.0, 0.0, 0.0), (3.0, 2.25, 1.0));
    let layers = slice_mesh(&mut mesh, units(1.0)).unwrap();
    assert_eq!(picture(&layers[0]), vec!["###", "###", "..."]);
}

#[test]
fn box_turned_inside_out_stays_empty() {
    let mut mesh = box_mesh((0.0, 0.0, 0.0), (2.0, 2.0, 2.0));
    for t in mesh.faces.iter_mut() {
        t.vertices = [t.vertices[0], t.vertices[2], t.vertices[1]];
    }
    let layers = slice_mesh(&mut mesh, units(1.0)).unwrap();
    assert_eq!(layers.len(), 2);
    for layer in layers.iter() {
        assert_eq!(picture(layer), vec!["..", ".."]);
    }
}

#[test]
fn two_boxes_side_by_side() {
    let mut mesh = box_mesh((0.0, 0.0, 0.0), (2.0, 2.0, 1.0));
    let mut second = box_mesh((3.0, 1.0, 0.0), (2.0, 3.0, 2.0));
    for t in second.faces.iter_mut() {
        for v in t.vertices.iter_mut() {
            *v += 8;
        }
    }
    mesh.vertices.append(&mut second.vertices);
    mesh.faces.append(&mut second.faces);
    let layers = slice_mesh(&mut mesh, units(1.0)).unwrap();
    assert_eq!(layers.len(), 2);
    assert_eq!(picture(&layers[0]), vec!["##...", "##.##", "...##", "...##"]);
    assert_eq!(picture(&layers[1]), vec![".....", "...##", "...##", "...##"]);
}

#[test]
fn slicing_twice_gives_the_same_layers() {
    let mut first = box_mesh((1.0, 2.0, 3.0), (4.5, 3.25, 2.75));
    let mut second = box_mesh((1.0, 2.0, 3.0), (4.5, 3.25, 2.75));
    let a = slice_mesh(&mut first, units(0.5)).unwrap();
    let b = slice_mesh(&mut second, units(0.5)).unwrap();
    assert_eq!(a.len(), 6);
    assert_eq!(a, b);
    assert_eq!(first.vertices, second.vertices);
}

#[test]
fn layers_rendered_one_by_one_are_those_of_the_whole_run() {
    let mut planned = box_mesh((0.0, 0.0, 0.0), (3.0, 2.0, 2.0));
    let mut sliced = box_mesh((0.0, 0.0, 0.0), (3.0, 2.0, 2.0));
    let plan = plan_layers(&mut planned, units(1.0)).unwrap();
    let layers = slice_mesh(&mut sliced, units(1.0)).unwrap();
    assert_eq!(plan.jobs.len(), layers.len());
    for (job, layer) in plan.jobs.iter().rev().zip(layers.iter().rev()) {
        assert_eq!(&render_layer(job, plan.width, plan.height).unwrap(), layer);
    }
}

#[test]
fn render_layer_refuses_a_job_out_of_range() {
    let far = Vertex { x: 2 * COORD_LIMIT + 1, y: 0, z: 0 };
    let near = Vertex { x: 0, y: 0, z: 0 };
    let job = PlaneJob { z: 0, faces: vec![0], facets: vec![Facet { a: far, b: near, c: near }] };
    assert!(!facets_in_range(&job.facets));
    assert_eq!(render_layer(&job, 2, 2), Err(SliceError::InvalidMesh));
    let job = PlaneJob { z: 2 * COORD_LIMIT + 1, faces: Vec::new(), facets: Vec::new() };
    assert_eq!(render_layer(&job, 2, 2), Err(SliceError::InvalidMesh));
    let job = PlaneJob { z: 2 * COORD_LIMIT, faces: Vec::new(), facets: Vec::new() };
    assert_eq!(render_layer(&job, 2, 1), Ok(Layer::new(2, 1)));
}

fn tetrahedron(corners: [Vertex; 4]) -> Mesh {
    Mesh {
        vertices: corners.to_vec(),
        faces: vec![face(0, 2, 1), face(0, 1, 3), face(1, 2, 3), face(2, 0, 3)],
    }
}

#[test]
fn closed_surface_with_any_corners_is_sliced() {
    let mut seed: i64 = 2024;
    let mut next = |limit: i64| {
        seed = (seed * 1103515245 + 12345) % 2147483648;
        (seed / 65536) % limit
    };
    for round in 0..300 {
        let mut mesh = box_mesh((0.0, 0.0, 0.0), (1.0, 1.0, 1.0));
        for v in mesh.vertices.iter_mut() {
            if round % 2 == 0 {
                *v = Vertex { x: next(6) * U, y: next(6) * U, z: next(6) * U };
            } else {
                *v = Vertex { x: next(5000) - 2500, y: next(5000) - 2500, z: next(5000) - 2500 };
            }
        }
        let step = if round % 2 == 0 { U } else { 1 + next(700) };
        let result = slice_mesh(&mut mesh, step);
        assert!(result.is_ok(), "round {}", round);
    }
}

#[test]
fn tetrahedron_with_any_corners_is_sliced() {
    let mut seed: i64 = 77;
    let mut next = |limit: i64| {
        seed = (seed * 1103515245 + 12345) % 2147483648;
        (seed / 65536) % limit
    };
    for round in 0..300 {
        let mut corners = [Vertex { x: 0, y: 0, z: 0 }; 4];
        for v in corners.iter_mut() {
            *v = Vertex { x: next(4) * U, y: next(4) * U, z: next(4) * U / 2 };
        }
        let mut mesh = tetrahedron(corners);
        assert!(slice_mesh(&mut mesh, U / 2).is_ok(), "round {}", round);
    }
}

#[test]
fn surface_with_a_missing_face_is_reported() {
    let mut mesh = box_mesh((0.0, 0.0, 0.0), (2.0, 2.0, 2.0));
    mesh.faces.remove(4);
    assert_eq!(slice_mesh(&mut mesh, units(1.0)).err(), Some(SliceError::WindingResidual));
}

#[test]
fn pyramid_narrows_towards_its_tip() {
    let mut mesh = Mesh {
        vertices: vec![
            at(0.0, 0.0, 0.0),
            at(4.0, 0.0, 0.0),
            at(4.0, 4.0, 0.0),
            at(0.0, 4.0, 0.0),
            at(2.0, 2.0, 4.0),
        ],
        faces: vec![
            face(0, 2, 1),
            face(0, 3, 2),
            face(0, 1, 4),
            face(1, 2, 4),
            face(2, 3, 4),
            face(3, 0, 4),
        ],
    };
    let layers = slice_mesh(&mut mesh, units(1.0)).unwrap();
    assert_eq!(layers.len(), 4);
    assert_eq!(picture(&layers[0]), vec!["####", "####", "####", "####"]);
    assert_eq!(picture(&layers[1]), vec!["....", ".###", ".###", ".###"]);
    assert_eq!(picture(&layers[2]), vec!["....", ".##.", ".##.", "...."]);
    assert_eq!(picture(&layers[3]), vec!["....", "....", "..#.", "...."]);
}
