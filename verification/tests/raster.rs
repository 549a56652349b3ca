use mesh_slicer::error::SliceError;
use mesh_slicer::events::{Event, EventKind};
use mesh_slicer::geometry::{Facet, Segment, Vertex, UNITS_PER_PIXEL};
use mesh_slicer::layer::Layer;
use mesh_slicer::raster::{
    fill_contour, generate_line_events, generate_y, paint_column, paint_plane, Crossing,
};

const U: i64 = UNITS_PER_PIXEL;

fn flat_point(x: i64, y: i64) -> Vertex {
    Vertex { x, y, z: 0 }
}

fn segment(x0: i64, y0: i64, x1: i64, y1: i64) -> Segment {
    Segment { first: flat_point(x0, y0), second: flat_point(x1, y1) }
}

fn rows_of(layer: &Layer) -> Vec<String> {
    let mut rows = Vec::new();
    for y in 0..layer.height {
        let mut row = String::new();
        for x in 0..layer.width {
            row.push(if layer.get(x, y) { '#' } else { '.' });
        }
        rows.push(row);
    }
    rows
}

fn square(x0: i64, y0: i64, x1: i64, y1: i64) -> Vec<Segment> {
    vec![
        segment(x0, y0, x1, y0),
        segment(x1, y0, x1, y1),
        segment(x1, y1, x0, y1),
        segment(x0, y1, x0, y0),
    ]
}

#[test]
fn new_layer_is_empty() {
    let layer = Layer::new(3, 2);
    assert_eq!(layer.width, 3);
    assert_eq!(layer.height, 2);
    assert_eq!(rows_of(&layer), vec!["...", "..."]);
}

#[test]
fn fill_rows_fills_one_stretch_of_one_column() {
    let mut layer = Layer::new(3, 4);
    layer.fill_rows(1, 1, 3);
    assert_eq!(rows_of(&layer), vec!["...", ".#.", ".#.", "..."]);
    layer.fill_rows(2, 0, 0);
    assert_eq!(rows_of(&layer), vec!["...", ".#.", ".#.", "..."]);
}

#[test]
fn generate_y_interpolates_along_the_segment() {
    let left = flat_point(0, 0);
    let right = flat_point(10, 20);
    assert_eq!(generate_y(left, right, 5), (10, 1));
    assert_eq!(generate_y(right, left, 5), (10, -1));
    assert_eq!(generate_y(left, right, 0), (0, 1));
    assert_eq!(generate_y(left, right, 10), (20, 1));
}

#[test]
fn generate_y_rounds_down_from_the_left_end() {
    let left = flat_point(0, 0);
    let right = flat_point(3, 10);
    assert_eq!(generate_y(left, right, 1), (3, 1));
    assert_eq!(generate_y(right, left, 1), (3, -1));
    let high = flat_point(0, 10);
    let low = flat_point(3, 0);
    assert_eq!(generate_y(high, low, 1), (6, 1));
    assert_eq!(generate_y(low, high, 1), (6, -1));
}

#[test]
fn line_events_start_at_the_smaller_x() {
    let polyline = vec![segment(5, 0, 1, 0), segment(2, 3, 9, 3)];
    let events = generate_line_events(&polyline);
    assert_eq!(
        events,
        vec![
            Event { value: 1, kind: EventKind::Start, index: 0 },
            Event { value: 2, kind: EventKind::Start, index: 1 },
            Event { value: 5, kind: EventKind::End, index: 0 },
            Event { value: 9, kind: EventKind::End, index: 1 },
        ]
    );
}

#[test]
fn vertical_segments_give_no_line_events() {
    let polyline = vec![segment(4, 0, 4, 9), segment(0, 0, 4, 0), segment(4, 9, 4, 0)];
    let events = generate_line_events(&polyline);
    assert_eq!(
        events,
        vec![
            Event { value: 0, kind: EventKind::Start, index: 1 },
            Event { value: 4, kind: EventKind::End, index: 1 },
        ]
    );
}

#[test]
fn paint_column_fills_while_the_winding_is_positive() {
    let mut layer = Layer::new(2, 6);
    let crossings = vec![
        Crossing { y: U, sign: 1 },
        Crossing { y: 3 * U, sign: -1 },
        Crossing { y: 4 * U, sign: 1 },
        Crossing { y: 5 * U, sign: -1 },
    ];
    let total = paint_column(&mut layer, 1, &crossings);
    assert_eq!(total, 0);
    assert_eq!(rows_of(&layer), vec!["..", ".#", ".#", "..", ".#", ".."]);
}

#[test]
fn paint_column_rounds_crossings_to_the_nearest_row() {
    let mut layer = Layer::new(1, 6);
    let crossings =
        vec![Crossing { y: U + U / 2 - 1, sign: 1 }, Crossing { y: 3 * U + U / 2, sign: -1 }];
    let total = paint_column(&mut layer, 0, &crossings);
    assert_eq!(total, 0);
    assert_eq!(rows_of(&layer), vec![".", "#", "#", "#", ".", "."]);
}

#[test]
fn paint_column_leaves_negative_winding_empty() {
    let mut layer = Layer::new(1, 4);
    let crossings = vec![Crossing { y: U, sign: -1 }, Crossing { y: 3 * U, sign: 1 }];
    let total = paint_column(&mut layer, 0, &crossings);
    assert_eq!(total, 0);
    assert_eq!(rows_of(&layer), vec![".", ".", ".", "."]);
}

#[test]
fn paint_column_counts_nested_contours() {
    let mut layer = Layer::new(1, 8);
    let crossings = vec![
        Crossing { y: U, sign: 1 },
        Crossing { y: 2 * U, sign: 1 },
        Crossing { y: 4 * U, sign: -1 },
        Crossing { y: 6 * U, sign: -1 },
    ];
    let total = paint_column(&mut layer, 0, &crossings);
    assert_eq!(total, 0);
    assert_eq!(rows_of(&layer), vec![".", "#", "#", "#", "#", "#", ".", "."]);
}

#[test]
fn paint_column_reports_what_is_left_of_the_winding() {
    let mut layer = Layer::new(1, 4);
    let crossings = vec![Crossing { y: U, sign: 1 }, Crossing { y: 2 * U, sign: 1 }];
    assert_eq!(paint_column(&mut layer, 0, &crossings), 2);
    assert_eq!(rows_of(&layer), vec![".", "#", ".", "."]);
}

#[test]
fn paint_column_passes_over_cells_outside_the_layer() {
    let mut layer = Layer::new(1, 2);
    let crossings = vec![Crossing { y: U, sign: 1 }, Crossing { y: 5 * U, sign: -1 }];
    assert_eq!(paint_column(&mut layer, 0, &crossings), 0);
    assert_eq!(rows_of(&layer), vec![".", "#"]);
    assert_eq!(paint_column(&mut layer, 3, &crossings), 0);
    assert_eq!(rows_of(&layer), vec![".", "#"]);
}

#[test]
fn square_contour_fills_its_inside() {
    let mut layer = Layer::new(4, 4);
    let result = fill_contour(&square(U, U, 3 * U, 3 * U), &mut layer);
    assert_eq!(result, Ok(()));
    assert_eq!(rows_of(&layer), vec!["....", ".##.", ".##.", "...."]);
}

#[test]
fn square_at_the_origin_fills_the_whole_layer() {
    let mut layer = Layer::new(2, 2);
    let result = fill_contour(&square(0, 0, 2 * U, 2 * U), &mut layer);
    assert_eq!(result, Ok(()));
    assert_eq!(rows_of(&layer), vec!["##", "##"]);
}

#[test]
fn square_walked_the_other_way_round_stays_empty() {
    let mut layer = Layer::new(4, 4);
    let mut contour = square(U, U, 3 * U, 3 * U);
    for s in contour.iter_mut() {
        let first = s.first;
        s.first = s.second;
        s.second = first;
    }
    let result = fill_contour(&contour, &mut layer);
    assert_eq!(result, Ok(()));
    assert_eq!(rows_of(&layer), vec!["....", "....", "....", "...."]);
}

#[test]
fn contour_that_is_not_closed_is_reported() {
    let mut layer = Layer::new(4, 4);
    let contour = vec![segment(U, U, 3 * U, U)];
    assert_eq!(fill_contour(&contour, &mut layer), Err(SliceError::WindingResidual));
}

#[test]
fn empty_contour_fills_nothing() {
    let mut layer = Layer::new(2, 2);
    let contour: Vec<Segment> = Vec::new();
    assert_eq!(fill_contour(&contour, &mut layer), Ok(()));
    assert_eq!(rows_of(&layer), vec!["..", ".."]);
}

#[test]
fn contour_of_vertical_segments_only_fills_nothing() {
    let mut layer = Layer::new(2, 2);
    let contour = vec![segment(U, 0, U, 2 * U), segment(U, 2 * U, U, 0)];
    assert_eq!(fill_contour(&contour, &mut layer), Ok(()));
    assert_eq!(rows_of(&layer), vec!["..", ".."]);
}

#[test]
fn filling_keeps_what_is_filled_already() {
    let mut layer = Layer::new(4, 4);
    layer.fill_rows(0, 0, 1);
    let result = fill_contour(&square(U, U, 3 * U, 3 * U), &mut layer);
    assert_eq!(result, Ok(()));
    assert_eq!(rows_of(&layer), vec!["#...", ".##.", ".##.", "...."]);
}

#[test]
fn triangle_contour_fills_under_its_slope() {
    let mut layer = Layer::new(4, 4);
    let contour = vec![
        segment(0, 0, 4 * U, 0),
        segment(4 * U, 0, 0, 4 * U),
        segment(0, 4 * U, 0, 0),
    ];
    assert_eq!(fill_contour(&contour, &mut layer), Ok(()));
    assert_eq!(rows_of(&layer), vec!["####", "###.", "##..", "#..."]);
}

#[test]
fn square_with_a_hole_leaves_the_hole_empty() {
    let mut layer = Layer::new(6, 6);
    let mut contour = square(0, 0, 6 * U, 6 * U);
    let mut hole = square(2 * U, 2 * U, 4 * U, 4 * U);
    for s in hole.iter_mut() {
        let first = s.first;
        s.first = s.second;
        s.second = first;
    }
    contour.append(&mut hole);
    assert_eq!(fill_contour(&contour, &mut layer), Ok(()));
    assert_eq!(
        rows_of(&layer),
        vec!["######", "######", "##..##", "##..##", "######", "######"]
    );
}

#[test]
fn overlapping_squares_fill_their_union() {
    let mut layer = Layer::new(6, 4);
    let mut contour = square(0, 0, 4 * U, 2 * U);
    contour.append(&mut square(2 * U, U, 6 * U, 4 * U));
    assert_eq!(fill_contour(&contour, &mut layer), Ok(()));
    assert_eq!(rows_of(&layer), vec!["####..", "######", "..####", "..####"]);
}

#[test]
fn contour_wider_than_the_layer_is_clipped() {
    let mut layer = Layer::new(2, 2);
    assert_eq!(fill_contour(&square(0, 0, 5 * U, 5 * U), &mut layer), Ok(()));
    assert_eq!(rows_of(&layer), vec!["##", "##"]);
}

#[test]
fn paint_plane_fills_the_cut_of_a_box() {
    let p = |x: i64, y: i64, z: i64| Vertex { x: x * U, y: y * U, z: z * U };
    let facets = vec![
        Facet { a: p(0, 0, 0), b: p(2, 0, 0), c: p(2, 0, 2) },
        Facet { a: p(0, 0, 0), b: p(2, 0, 2), c: p(0, 0, 2) },
        Facet { a: p(2, 3, 0), b: p(0, 3, 0), c: p(0, 3, 2) },
        Facet { a: p(2, 3, 0), b: p(0, 3, 2), c: p(2, 3, 2) },
    ];
    let mut layer = Layer::new(3, 4);
    assert_eq!(paint_plane(U, &facets, &mut layer), Ok(()));
    assert_eq!(rows_of(&layer), vec!["##.", "##.", "##.", "..."]);
}

#[test]
fn paint_plane_reports_an_open_cut() {
    let p = |x: i64, y: i64, z: i64| Vertex { x: x * U, y: y * U, z: z * U };
    let facets = vec![Facet { a: p(0, 0, 0), b: p(2, 0, 0), c: p(2, 0, 2) }];
    let mut layer = Layer::new(3, 4);
    assert_eq!(paint_plane(U, &facets, &mut layer), Err(SliceError::WindingResidual));
}

#[test]
fn open_contour_leaves_the_columns_before_the_gap_filled() {
    let mut layer = Layer::new(4, 3);
    let mut contour = square(0, 0, 2 * U, 2 * U);
    contour.push(segment(2 * U, U, 4 * U, U));
    assert_eq!(fill_contour(&contour, &mut layer), Err(SliceError::WindingResidual));
    assert_eq!(rows_of(&layer), vec!["##..", "##..", "...."]);
}

#[test]
fn open_contour_in_the_first_column_leaves_the_layer_as_it_was() {
    let mut layer = Layer::new(3, 2);
    layer.fill_rows(2, 0, 1);
    let contour = vec![segment(0, 0, 3 * U, 0)];
    assert_eq!(fill_contour(&contour, &mut layer), Err(SliceError::WindingResidual));
    assert_eq!(rows_of(&layer), vec!["..#", "..."]);
}
