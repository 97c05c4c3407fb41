use lib::spatial::{axis, Aabb, Vec3};

fn v(x: f64, y: f64, z: f64) -> Vec3 {
    Vec3 { x: x.to_bits(), y: y.to_bits(), z: z.to_bits() }
}

#[test]
fn empty_box_contains_nothing() {
    let empty = Aabb::empty();
    assert!(!empty.contains(v(0.0, 0.0, 0.0)));
    assert!(!empty.contains(v(f64::INFINITY, f64::INFINITY, f64::INFINITY)));
    assert!(!empty.contains(v(f64::NEG_INFINITY, 0.0, 1.0)));
    assert_eq!(empty.minimum, v(f64::INFINITY, f64::INFINITY, f64::INFINITY));
    assert_eq!(empty.maximum, v(f64::NEG_INFINITY, f64::NEG_INFINITY, f64::NEG_INFINITY));
}

#[test]
fn included_point_is_contained_and_becomes_both_corners() {
    let mut bounds = Aabb::empty();
    bounds.include_point(v(1.0, -2.0, 3.0));
    assert!(bounds.contains(v(1.0, -2.0, 3.0)));
    assert_eq!(bounds.minimum, v(1.0, -2.0, 3.0));
    assert_eq!(bounds.maximum, v(1.0, -2.0, 3.0));
    assert!(!bounds.contains(v(1.0, -2.0, 3.5)));
}

#[test]
fn growing_keeps_points_already_inside() {
    let mut bounds = Aabb::empty();
    bounds.include_point(v(0.0, 0.0, 0.0));
    bounds.include_point(v(1.0, 1.0, 1.0));
    assert!(bounds.contains(v(0.5, 0.5, 0.5)));
    bounds.include_point(v(-1.0, 2.0, 0.5));
    assert!(bounds.contains(v(0.5, 0.5, 0.5)));
    assert!(bounds.contains(v(1.0, 1.0, 1.0)));
    assert!(bounds.contains(v(-1.0, 2.0, 0.5)));
    assert_eq!(bounds.minimum, v(-1.0, 0.0, 0.0));
    assert_eq!(bounds.maximum, v(1.0, 2.0, 1.0));
}

#[test]
fn nan_coordinates_are_ignored_by_growth_and_never_contained() {
    let mut bounds = Aabb::empty();
    bounds.include_point(v(1.0, 1.0, 1.0));
    bounds.include_point(v(f64::NAN, 5.0, 1.0));
    assert_eq!(bounds.minimum, v(1.0, 1.0, 1.0));
    assert_eq!(bounds.maximum, v(1.0, 5.0, 1.0));
    assert!(!bounds.contains(v(f64::NAN, 2.0, 1.0)));
}

#[test]
fn union_of_boxes_encloses_both() {
    let mut first = Aabb::empty();
    first.include_point(v(0.0, 0.0, 0.0));
    first.include_point(v(1.0, 1.0, 1.0));
    let mut second = Aabb::empty();
    second.include_point(v(2.0, -1.0, 0.5));
    second.include_point(v(3.0, 0.0, 0.75));
    first.include_box(second);
    assert_eq!(first.minimum, v(0.0, -1.0, 0.0));
    assert_eq!(first.maximum, v(3.0, 1.0, 1.0));
    assert!(first.contains(v(2.5, -0.5, 0.6)));
    assert!(first.contains(v(0.5, 0.5, 0.5)));
}

#[test]
fn from_points_bounds_every_point() {
    let points = vec![v(1.0, 5.0, -2.0), v(-3.0, 0.0, 4.0), v(0.0, 0.0, 0.0)];
    let bounds = Aabb::from_points(&points);
    for p in &points {
        assert!(bounds.contains(*p));
    }
    assert_eq!(bounds.minimum, v(-3.0, 0.0, -2.0));
    assert_eq!(bounds.maximum, v(1.0, 5.0, 4.0));
    let none = Aabb::from_points(&[]);
    assert_eq!(none.minimum, Aabb::empty().minimum);
}

#[test]
fn axis_reads_each_coordinate() {
    let p = v(1.0, 2.0, 3.0);
    assert_eq!(axis(p, 0), 1.0f64.to_bits());
    assert_eq!(axis(p, 1), 2.0f64.to_bits());
    assert_eq!(axis(p, 2), 3.0f64.to_bits());
}
