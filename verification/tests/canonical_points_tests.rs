use lib::canonical_points::{canonicalize_points, Cell};
use lib::spatial::Vec3;

fn v(x: f64, y: f64, z: f64) -> Vec3 {
    Vec3 { x: x.to_bits(), y: y.to_bits(), z: z.to_bits() }
}

fn f(p: Vec3) -> [f64; 3] {
    [f64::from_bits(p.x), f64::from_bits(p.y), f64::from_bits(p.z)]
}

fn cell_of(p: Vec3, size: f64) -> Cell {
    let q = f(p);
    ((q[0] / size).round() as i64, (q[1] / size).round() as i64, (q[2] / size).round() as i64)
}

fn distance(a: Vec3, b: Vec3) -> f64 {
    let (p, q) = (f(a), f(b));
    ((p[0] - q[0]).powi(2) + (p[1] - q[1]).powi(2) + (p[2] - q[2]).powi(2)).sqrt()
}

fn snap(points: &mut Vec<Vec3>, cell: f64, reach: f64) {
    let cells: Vec<Cell> = points.iter().map(|p| cell_of(*p, cell)).collect();
    canonicalize_points(points, &cells, |existing: Vec3, point: Vec3| distance(existing, point) <= reach);
}

#[test]
fn nearly_equal_points_take_the_first_value() {
    let a = v(1.0, 2.0, 3.0);
    let a_again = v(1.0 + 1e-13, 2.0, 3.0 - 1e-13);
    let b = v(-4.0, 0.5, 2.0);
    let mut points = vec![a, b, a_again, b, a_again];
    snap(&mut points, 1e-9, 1e-9);
    assert_eq!(points, vec![a, b, a, b, a]);
}

#[test]
fn distinct_points_are_left_alone() {
    let original = vec![v(0.0, 0.0, 0.0), v(1.0, 0.0, 0.0), v(0.0, 1.0, 0.0), v(0.0, 0.0, 1.0)];
    let mut points = original.clone();
    snap(&mut points, 1e-6, 1e-6);
    assert_eq!(points, original);
}

#[test]
fn points_across_a_cell_boundary_still_meet() {
    let a = v(0.49999999, 0.0, 0.0);
    let b = v(0.50000001, 0.0, 0.0);
    assert_ne!(cell_of(a, 1.0), cell_of(b, 1.0));
    let mut points = vec![a, b];
    snap(&mut points, 1.0, 1e-6);
    assert_eq!(points, vec![a, a]);
}

#[test]
fn a_new_representative_replaces_the_old_one_in_its_cell() {
    let a = v(0.0, 0.0, 0.0);
    let b = v(0.4, 0.0, 0.0);
    let c = v(0.05, 0.0, 0.0);
    let d = v(0.01, 0.0, 0.0);
    let mut points = vec![a, b, c, d];
    snap(&mut points, 1.0, 0.1);
    assert_eq!(points, vec![a, b, c, c]);
}

#[test]
fn empty_input_is_fine() {
    let mut points: Vec<Vec3> = Vec::new();
    snap(&mut points, 1.0, 1.0);
    assert!(points.is_empty());
}
