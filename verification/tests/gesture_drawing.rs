//! End-to-end tests of the gesture library: the point-sequence data model,
//! the geometric transforms and their round-trip laws, simplification,
//! serialization, and the rasterizer. Coordinates are fixed-point: 10_000
//! units stand for one coordinate unit.

use gesture_drawing::drawing::GestureDrawing;
use gesture_drawing::geom::{Point, SCALE};

fn drawing_of(points: &[(i64, i64)]) -> GestureDrawing {
    let mut g = GestureDrawing::new();
    for &(x, y) in points {
        g.add_point(x, y);
    }
    g
}

fn coords(g: &GestureDrawing) -> Vec<(i64, i64)> {
    let mut out = Vec::new();
    let flat = g.serialized();
    let mut i = 0;
    while i < flat.len() {
        out.push((flat[i], flat[i + 1]));
        i += 2;
    }
    out
}

#[test]
fn append_len_last_clear() {
    let mut g = GestureDrawing::new();
    assert_eq!(g.len(), 0);
    assert_eq!(g.last(), None);
    g.add_point(3, -4);
    g.add_point(5, 6);
    assert_eq!(g.len(), 2);
    assert_eq!(g.last(), Some((5, 6)));
    g.clear();
    assert_eq!(g.len(), 0);
    assert_eq!(g.last(), None);
}

#[test]
fn copy_is_independent() {
    let mut g = drawing_of(&[(1, 2), (3, 4)]);
    let c = g.copy();
    g.add_point(5, 6);
    assert_eq!(c.len(), 2);
    assert_eq!(g.len(), 3);
    assert_eq!(c.last(), Some((3, 4)));
}

#[test]
fn aabb_of_empty_is_degenerate() {
    let g = GestureDrawing::new();
    let (min_x, min_y, max_x, max_y) = g.get_aabb();
    assert_eq!(min_x, i64::MAX);
    assert_eq!(min_y, i64::MAX);
    assert_eq!(max_x, i64::MIN);
    assert_eq!(max_y, i64::MIN);
}

#[test]
fn aabb_folds_min_and_max() {
    let g = drawing_of(&[(10, -20), (-30, 40), (5, 5)]);
    assert_eq!(g.get_aabb(), (-30, -20, 10, 40));
}

#[test]
fn normalized_spans_longer_axis_exactly() {
    // A 2 x 1 unit drawing normalized into a 28-unit box: x spans exactly
    // [0, 28], y is centred.
    let g = drawing_of(&[(0, 0), (2 * SCALE, SCALE)]);
    let n = g.normalized(28 * SCALE);
    let (min_x, min_y, max_x, max_y) = n.get_aabb();
    assert_eq!(min_x, 0);
    assert_eq!(max_x, 28 * SCALE);
    assert_eq!(min_y, 7 * SCALE);
    assert_eq!(max_y, 21 * SCALE);
    assert_eq!(min_y + max_y, 28 * SCALE);
}

#[test]
fn normalized_degenerate_input_does_not_fail() {
    let g = drawing_of(&[(5, 5)]);
    let n = g.normalized(28 * SCALE);
    assert_eq!(coords(&n), vec![(0, 0)]);
    let empty = GestureDrawing::new();
    assert_eq!(empty.normalized(28 * SCALE).len(), 0);
}

#[test]
fn translate_round_trip_is_exact() {
    let g = drawing_of(&[(0, 0), (12_345, -6_789), (99, 1)]);
    let back = g.translated(777, -333).translated(-777, 333);
    assert_eq!(coords(&g), coords(&back));
}

#[test]
fn translate_moves_each_point() {
    let g = drawing_of(&[(0, 0), (10, 20)]);
    let t = g.translated(5, -7);
    assert_eq!(coords(&t), vec![(5, -7), (15, 13)]);
}

#[test]
fn reflect_twice_is_identity() {
    let g = drawing_of(&[(0, 0), (20_000, 10_000), (3_000, -4_000)]);
    let back = g.reflected().reflected();
    assert_eq!(coords(&g), coords(&back));
}

#[test]
fn reflect_mirrors_x_only() {
    let g = drawing_of(&[(0, 0), (20_000, 10_000)]);
    let r = g.reflected();
    assert_eq!(coords(&r), vec![(20_000, 0), (0, 10_000)]);
}

#[test]
fn rotate_quarter_turn_values() {
    // cos 90 deg = 0, sin 90 deg = 1, in SCALE units.
    let g = drawing_of(&[(0, 0), (2 * SCALE, 0)]);
    let r = g.rotated(0, SCALE);
    assert_eq!(coords(&r), vec![(SCALE, -SCALE), (SCALE, SCALE)]);
}

#[test]
fn rotate_there_and_back_two_points() {
    let g = drawing_of(&[(0, 0), (2 * SCALE, 0)]);
    let back = g.rotated(0, SCALE).rotated(0, -SCALE);
    assert_eq!(coords(&g), coords(&back));
}

#[test]
fn simplify_keeps_endpoints_and_drops_within_tolerance() {
    // Middle point stands 0.1 units off a 2-unit chord: kept below the
    // tolerance, dropped at it.
    let g = drawing_of(&[(0, 0), (10_000, 1_000), (20_000, 0)]);
    let fine = g.simplified(999);
    assert_eq!(fine.len(), 3);
    let coarse = g.simplified(1_000);
    assert_eq!(coarse.len(), 2);
    assert_eq!(coords(&coarse), vec![(0, 0), (20_000, 0)]);
}

#[test]
fn simplify_zero_keeps_non_collinear_points() {
    let g = drawing_of(&[(0, 0), (10_000, 1_000), (20_000, 0)]);
    let s = g.simplified(0);
    assert_eq!(coords(&s), coords(&g));
}

#[test]
fn simplify_length_is_monotone_in_tolerance() {
    let g = drawing_of(&[
        (0, 0),
        (5_000, 2_000),
        (10_000, -1_000),
        (15_000, 3_000),
        (20_000, 0),
    ]);
    let mut previous = usize::MAX;
    for eps in [0i64, 500, 1_000, 2_000, 5_000, 100_000] {
        let n = g.simplified(eps).len();
        assert!(n <= previous);
        previous = n;
    }
}

#[test]
fn simplify_degenerate_inputs_unchanged() {
    let empty = GestureDrawing::new();
    assert_eq!(empty.simplified(5_000).len(), 0);
    let single = drawing_of(&[(7, 8)]);
    assert_eq!(coords(&single.simplified(5_000)), vec![(7, 8)]);
}

#[test]
fn serialize_then_deserialize_round_trips() {
    let g = drawing_of(&[(1, 2), (-3, 4), (5, -6)]);
    let flat = g.serialized();
    assert_eq!(flat, vec![1, 2, -3, 4, 5, -6]);
    let back = GestureDrawing::deserialize(&flat, 2).unwrap();
    assert_eq!(coords(&back), coords(&g));
}

#[test]
fn deserialize_rejects_three_columns() {
    let flat = vec![1, 2, 3, 4, 5, 6];
    match GestureDrawing::deserialize(&flat, 3) {
        Ok(_) => panic!("three columns must be rejected"),
        Err(e) => assert_eq!(e.columns, 3),
    }
}

#[test]
fn deserialize_rejects_one_column() {
    let flat = vec![1, 2, 3];
    match GestureDrawing::deserialize(&flat, 1) {
        Ok(_) => panic!("one column must be rejected"),
        Err(e) => assert_eq!(e.columns, 1),
    }
}

#[test]
fn rasterize_empty_and_single_point_are_blank() {
    let empty = GestureDrawing::new();
    let g = empty.rasterized();
    assert_eq!(g.cells.len(), 784);
    assert!(g.cells.iter().all(|&v| v == 0));
    let single = drawing_of(&[(14 * SCALE, 14 * SCALE)]);
    assert!(single.rasterized().cells.iter().all(|&v| v == 0));
}

#[test]
fn rasterize_horizontal_line_brightens_row_zero() {
    // The segment (0,0)-(28,0), after the transpose, paints row 0 at full
    // intensity across all 28 columns, row 1 with the linear falloff value,
    // and nothing further from the centreline.
    let g = drawing_of(&[(0, 0), (28 * SCALE, 0)]);
    let grid = g.rasterized();
    for c in 0..28 {
        assert_eq!(grid.intensity_at(0, c), SCALE);
        assert_eq!(grid.intensity_at(1, c), 2_666);
        for r in 2..28 {
            assert_eq!(grid.intensity_at(r, c), 0);
        }
    }
}

#[test]
fn rasterize_never_exceeds_full_intensity() {
    let g = drawing_of(&[
        (0, 0),
        (28 * SCALE, 28 * SCALE),
        (0, 28 * SCALE),
        (28 * SCALE, 0),
    ]);
    let grid = g.rasterized();
    assert!(grid.cells.iter().all(|&v| (0..=SCALE).contains(&v)));
}

#[test]
fn compositing_identical_grids_changes_nothing() {
    let g = drawing_of(&[(0, 0), (28 * SCALE, 0)]).rasterized();
    let doubled = g.composited(&g);
    assert_eq!(g.cells, doubled.cells);
}

#[test]
fn compositing_takes_the_brighter_pixel() {
    let a = drawing_of(&[(0, 0), (28 * SCALE, 0)]).rasterized();
    let b = drawing_of(&[(0, 10 * SCALE), (28 * SCALE, 10 * SCALE)]).rasterized();
    let both = a.composited(&b);
    for t in 0..784 {
        assert_eq!(both.cells[t], a.cells[t].max(b.cells[t]));
    }
}

#[test]
fn simplify_closed_stroke_uses_point_distance() {
    // First and last point coincide, so the chord is degenerate and the
    // middle point is judged by its squared distance from the endpoint:
    // exactly one unit away, it is dropped at a one-unit tolerance and
    // kept just below it.
    let g = drawing_of(&[(0, 0), (SCALE, 0), (0, 0)]);
    assert_eq!(g.simplified(SCALE).len(), 2);
    assert_eq!(g.simplified(SCALE - 1).len(), 3);
}

#[test]
fn transforms_on_empty_drawing_do_not_fail() {
    let g = GestureDrawing::new();
    assert_eq!(g.translated(5, 5).len(), 0);
    assert_eq!(g.reflected().len(), 0);
    assert_eq!(g.rotated(0, SCALE).len(), 0);
    assert_eq!(g.normalized(28 * SCALE).len(), 0);
    assert_eq!(g.simplified(100).len(), 0);
}

#[test]
fn point_at_reads_back_points() {
    let g = drawing_of(&[(1, 2), (3, 4)]);
    let p = g.point_at(1);
    assert_eq!((p.x, p.y), (3, 4));
    let q: Point = g.point_at(0);
    assert_eq!((q.x, q.y), (1, 2));
}
