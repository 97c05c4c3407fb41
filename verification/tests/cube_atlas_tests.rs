use lib::cube_atlas::{
    charts_containing, corner_index, cube_edge_corner, cube_edge_index, cube_edge_parts, locate,
    split_polyline, ChartSegment, ChartSide, CHART_COUNT, CUBE_CORNER_COUNT, CUBE_EDGE_COUNT,
};
use lib::spatial::Vec3;

fn v(x: f64, y: f64, z: f64) -> Vec3 {
    Vec3 { x: x.to_bits(), y: y.to_bits(), z: z.to_bits() }
}

const SIDES: [ChartSide; 4] = [ChartSide::SPlus, ChartSide::SMinus, ChartSide::TPlus, ChartSide::TMinus];

#[test]
fn edge_index_exact_values() {
    assert_eq!(cube_edge_index(0, false, false), 0);
    assert_eq!(cube_edge_index(0, true, true), 3);
    assert_eq!(cube_edge_index(1, true, false), 6);
    assert_eq!(cube_edge_index(2, false, true), 9);
    assert_eq!(cube_edge_index(2, true, true), 11);
}

#[test]
fn edge_parts_invert_edge_index() {
    for edge in 0..CUBE_EDGE_COUNT {
        let (varying, first, second) = cube_edge_parts(edge);
        assert!(varying < 3);
        assert_eq!(cube_edge_index(varying, first, second), edge);
    }
    assert_eq!(cube_edge_parts(6), (1, true, false));
}

#[test]
fn corner_index_exact_values() {
    assert_eq!(corner_index([false, false, false]), 0);
    assert_eq!(corner_index([true, false, true]), 5);
    assert_eq!(corner_index([true, true, true]), 7);
    assert_eq!(corner_index([false, true, false]), 2);
}

#[test]
fn edge_corners_exact_values() {
    assert_eq!(cube_edge_corner(0, true), 1);
    assert_eq!(cube_edge_corner(0, false), 0);
    assert_eq!(cube_edge_corner(5, true), 3);
    assert_eq!(cube_edge_corner(5, false), 1);
    assert_eq!(cube_edge_corner(11, true), 7);
}

#[test]
fn every_corner_ends_exactly_three_edges() {
    let mut uses = [0usize; CUBE_CORNER_COUNT];
    for edge in 0..CUBE_EDGE_COUNT {
        let a = cube_edge_corner(edge, false);
        let b = cube_edge_corner(edge, true);
        assert_ne!(a, b);
        uses[a] += 1;
        uses[b] += 1;
    }
    assert!(uses.iter().all(|count| *count == 3));
}

#[test]
fn chart_side_edges_exact_values() {
    assert_eq!(ChartSide::SPlus.edge(0), (11, true));
    assert_eq!(ChartSide::SMinus.edge(0), (10, true));
    assert_eq!(ChartSide::TPlus.edge(0), (7, true));
    assert_eq!(ChartSide::TMinus.edge(0), (5, true));
    assert_eq!(ChartSide::SPlus.edge(1), (8, true));
    assert_eq!(ChartSide::SMinus.edge(1), (9, true));
    assert_eq!(ChartSide::TPlus.edge(1), (6, false));
    assert_eq!(ChartSide::TMinus.edge(1), (4, false));
}

#[test]
fn every_cube_edge_is_shared_by_exactly_two_charts() {
    let mut owners: Vec<Vec<usize>> = vec![Vec::new(); CUBE_EDGE_COUNT];
    for chart in 0..CHART_COUNT {
        for side in SIDES {
            let (edge, _) = side.edge(chart);
            assert!(edge < CUBE_EDGE_COUNT);
            owners[edge].push(chart);
        }
    }
    for list in &owners {
        assert_eq!(list.len(), 2);
        assert_ne!(list[0], list[1]);
    }
}

fn locate_reference(x: [f64; 3]) -> usize {
    let mut best = 0usize;
    let mut best_value = f64::NEG_INFINITY;
    for chart in 0..6 {
        let sign = if chart % 2 == 0 { 1.0 } else { -1.0 };
        let value = sign * x[chart / 2];
        if value > best_value {
            best_value = value;
            best = chart;
        }
    }
    best
}

fn locate_f(x: [f64; 3]) -> usize {
    locate([x[0].to_bits(), x[1].to_bits(), x[2].to_bits()])
}

#[test]
fn locate_picks_the_face_projected_furthest() {
    assert_eq!(locate_f([1.0, 0.2, -0.3]), 0);
    assert_eq!(locate_f([-1.0, 0.2, 0.3]), 1);
    assert_eq!(locate_f([0.1, 0.9, 0.3]), 2);
    assert_eq!(locate_f([0.1, -0.9, 0.3]), 3);
    assert_eq!(locate_f([0.1, 0.2, 0.95]), 4);
    assert_eq!(locate_f([0.1, 0.2, -0.95]), 5);
}

#[test]
fn locate_breaks_ties_by_lowest_index() {
    assert_eq!(locate_f([0.5, 0.5, 0.0]), 0);
    assert_eq!(locate_f([0.0, -0.5, -0.5]), 3);
    assert_eq!(locate_f([0.0, 0.0, 0.0]), 0);
    assert_eq!(locate_f([-0.0, -0.0, -0.0]), 0);
}

#[test]
fn locate_handles_nan_and_infinity() {
    assert_eq!(locate_f([f64::NAN, f64::NAN, f64::NAN]), 0);
    assert_eq!(locate_f([f64::NAN, 0.5, f64::NAN]), 2);
    assert_eq!(locate_f([f64::NEG_INFINITY, 0.0, 0.0]), 1);
}

#[test]
fn locate_agrees_with_the_float_rule() {
    let values = [-2.0, -1.0, -0.5, -0.0, 0.0, 0.25, 0.5, 1.0, 3.0, f64::NAN, f64::INFINITY];
    for &a in &values {
        for &b in &values {
            for &c in &values {
                assert_eq!(locate_f([a, b, c]), locate_reference([a, b, c]), "{a} {b} {c}");
            }
        }
    }
}

#[test]
fn charts_containing_lists_ascending_charts() {
    assert_eq!(charts_containing(|chart: usize| chart == 4 || chart == 1), vec![1, 4]);
    assert_eq!(charts_containing(|chart: usize| chart % 2 == 0), vec![0, 2, 4]);
    assert_eq!(charts_containing(|_chart: usize| false), Vec::<usize>::new());
}

fn chart_of(p: Vec3) -> usize {
    locate([p.x, p.y, p.z])
}

#[test]
fn split_polyline_closes_the_ring_in_order() {
    let points = vec![v(1.0, 0.0, 0.0), v(0.0, 1.0, 0.0), v(0.0, 0.0, 1.0)];
    let split = |start: Vec3, end: Vec3| -> Result<Vec<ChartSegment>, String> {
        Ok(vec![ChartSegment { start, end, chart: chart_of(start) }])
    };
    let segments = split_polyline(&points, split).unwrap();
    assert_eq!(segments.len(), 3);
    assert_eq!(segments[0].start, points[0]);
    assert_eq!(segments[0].end, points[1]);
    assert_eq!(segments[1].end, points[2]);
    assert_eq!(segments[2].start, points[2]);
    assert_eq!(segments[2].end, points[0]);
    assert_eq!(segments[2].chart, 4);
}

#[test]
fn split_polyline_concatenates_pieces() {
    let points = vec![v(1.0, 0.0, 0.0), v(0.0, 1.0, 0.0)];
    let split = |start: Vec3, end: Vec3| -> Result<Vec<ChartSegment>, String> {
        let middle = v(0.5, 0.5, 0.0);
        Ok(vec![
            ChartSegment { start, end: middle, chart: chart_of(start) },
            ChartSegment { start: middle, end, chart: chart_of(end) },
        ])
    };
    let segments = split_polyline(&points, split).unwrap();
    assert_eq!(segments.len(), 4);
    assert_eq!(segments[0].chart, 0);
    assert_eq!(segments[1].chart, 2);
    assert_eq!(segments[2].chart, 2);
    assert_eq!(segments[3].end, points[0]);
}

#[test]
fn split_polyline_returns_the_first_error() {
    let points = vec![v(1.0, 0.0, 0.0), v(0.0, 1.0, 0.0), v(0.0, 0.0, 1.0)];
    let split = |start: Vec3, _end: Vec3| -> Result<Vec<ChartSegment>, String> {
        if start == v(0.0, 1.0, 0.0) {
            Err("degenerate".to_string())
        } else {
            Ok(Vec::new())
        }
    };
    assert_eq!(split_polyline(&points, split).unwrap_err(), "degenerate");
    let empty: Vec<Vec3> = Vec::new();
    assert!(split_polyline(&empty, split).unwrap().is_empty());
}
