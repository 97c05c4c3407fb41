use lib::sphere_region::{cancel_slits, crossings, seed_search, Arc, Segment, SphericalRegion};
use lib::spatial::Vec3;

type F3 = [f64; 3];

fn v(p: F3) -> Vec3 {
    Vec3 { x: p[0].to_bits(), y: p[1].to_bits(), z: p[2].to_bits() }
}

fn f(p: Vec3) -> F3 {
    [f64::from_bits(p.x), f64::from_bits(p.y), f64::from_bits(p.z)]
}

fn sub(a: F3, b: F3) -> F3 {
    [a[0] - b[0], a[1] - b[1], a[2] - b[2]]
}

fn add(a: F3, b: F3) -> F3 {
    [a[0] + b[0], a[1] + b[1], a[2] + b[2]]
}

fn scale(a: F3, s: f64) -> F3 {
    [a[0] * s, a[1] * s, a[2] * s]
}

fn dot(a: F3, b: F3) -> f64 {
    a[0] * b[0] + a[1] * b[1] + a[2] * b[2]
}

fn cross(a: F3, b: F3) -> F3 {
    [a[1] * b[2] - a[2] * b[1], a[2] * b[0] - a[0] * b[2], a[0] * b[1] - a[1] * b[0]]
}

fn length(a: F3) -> f64 {
    dot(a, a).sqrt()
}

fn normalized(a: F3) -> Option<F3> {
    let l = length(a);
    if l > 0.0 && l.is_finite() {
        Some(scale(a, 1.0 / l))
    } else {
        None
    }
}

fn perpendicular(a: F3) -> Option<F3> {
    let helper = if a[0].abs() <= a[1].abs() && a[0].abs() <= a[2].abs() {
        [1.0, 0.0, 0.0]
    } else if a[1].abs() <= a[2].abs() {
        [0.0, 1.0, 0.0]
    } else {
        [0.0, 0.0, 1.0]
    };
    normalized(cross(a, helper))
}

fn direction(point: Vec3, centre: Vec3) -> Option<Vec3> {
    normalized(sub(f(point), f(centre))).map(v)
}

fn make_arc(a: Vec3, b: Vec3) -> Option<Arc> {
    let (fa, fb) = (f(a), f(b));
    if length(sub(fa, fb)) > 0.0 {
        Some(Arc { start: a, end: b, normal: v(normalized(cross(fa, fb)).unwrap_or([0.0; 3])) })
    } else {
        None
    }
}

fn leg(from: Vec3, to: Vec3) -> Option<Vec3> {
    normalized(cross(f(from), f(to))).map(v)
}

fn crosses(a0: Vec3, a1: Vec3, na: Vec3, arc: Arc) -> bool {
    let (a0, a1, na) = (f(a0), f(a1), f(na));
    let (b0, b1, nb) = (f(arc.start), f(arc.end), f(arc.normal));
    if dot(nb, nb) <= 0.0 {
        return false;
    }
    let straddles = |n: F3, x0: F3, x1: F3| {
        let (d0, d1) = (dot(n, x0), dot(n, x1));
        !((d0 > 0.0 && d1 > 0.0) || (d0 < 0.0 && d1 < 0.0))
    };
    if !straddles(na, b0, b1) || !straddles(nb, a0, a1) {
        return false;
    }
    let line = cross(na, nb);
    if length(line) <= 1e-9 {
        return false;
    }
    let Some(unit) = normalized(line) else {
        return false;
    };
    let within = |p: F3, x0: F3, x1: F3, n: F3| dot(cross(x0, p), n) >= 0.0 && dot(cross(p, x1), n) > 0.0;
    [unit, scale(unit, -1.0)].into_iter().any(|p| within(p, a0, a1, na) && within(p, b0, b1, nb))
}

fn via(from: Vec3, to: Vec3, index: usize) -> Option<Vec3> {
    let (from, to) = (f(from), f(to));
    let base = match normalized(cross(from, to)) {
        Some(unit) => unit,
        None => perpendicular(from)?,
    };
    let other = normalized(cross(base, from))?;
    let angle = std::f64::consts::TAU * index as f64 / 3.0;
    normalized(add(scale(base, angle.cos()), scale(other, angle.sin()))).map(v)
}

fn arc_length(arc: Arc) -> u64 {
    length(sub(f(arc.start), f(arc.end))).to_bits()
}

fn seed_frame(arc: Arc, outward_face_normal: bool) -> Option<(Vec3, Vec3, u64)> {
    let (a, b) = (f(arc.start), f(arc.end));
    let middle = normalized(add(a, b))?;
    let along = sub(b, a);
    let tangent = sub(along, scale(middle, dot(along, middle)));
    let normal = if outward_face_normal { middle } else { scale(middle, -1.0) };
    let left = normalized(cross(normal, tangent))?;
    Some((v(middle), v(left), (0.1 * length(sub(a, b)).max(1e-9)).to_bits()))
}

fn seed_probe(middle: Vec3, left: Vec3, step: u64) -> Option<(Vec3, Vec3)> {
    let (m, l, s) = (f(middle), f(left), f64::from_bits(step));
    Some((v(normalized(add(m, scale(l, s)))?), v(normalized(sub(m, scale(l, s)))?)))
}

fn halve(step: u64) -> u64 {
    (f64::from_bits(step) * 0.5).to_bits()
}

fn seed_from(arcs: &Vec<Arc>, outward_face_normal: bool) -> Option<Vec3> {
    seed_search(arcs, outward_face_normal, &arc_length, &seed_frame, &seed_probe, &halve, &leg, &crosses)
}

/// A counter-clockwise (seen from +z) ring at height `z` on the unit sphere.
fn ring(z: f64, samples: usize) -> Vec<Vec3> {
    let r = (1.0 - z * z).sqrt();
    (0..samples)
        .map(|i| {
            let t = std::f64::consts::TAU * i as f64 / samples as f64;
            v([r * t.cos(), r * t.sin(), z])
        })
        .collect()
}

fn origin() -> Vec3 {
    v([0.0, 0.0, 0.0])
}

fn north_cap() -> SphericalRegion {
    SphericalRegion::new(origin(), &[ring(0.5, 48)], true, &direction, &make_arc, &seed_from)
}

fn inside(region: &SphericalRegion, p: F3) -> bool {
    region.contains(origin(), v(p), &direction, &via, &leg, &crosses)
}

#[test]
fn slit_segments_cancel_against_their_reverses() {
    let (a, b, c, d) = (v([1.0, 0.0, 0.0]), v([0.0, 1.0, 0.0]), v([0.0, 0.0, 1.0]), v([-1.0, 0.0, 0.0]));
    let segments: Vec<Segment> = vec![(a, b), (b, c), (b, a), (c, d)];
    assert_eq!(cancel_slits(&segments), vec![(b, c), (c, d)]);
}

#[test]
fn surplus_copies_of_a_segment_survive_first_first() {
    let (a, b) = (v([1.0, 0.0, 0.0]), v([0.0, 1.0, 0.0]));
    let segments: Vec<Segment> = vec![(a, b), (a, b), (b, a)];
    assert_eq!(cancel_slits(&segments), vec![(a, b)]);
    let unbalanced: Vec<Segment> = vec![(b, a), (a, b), (b, a)];
    assert_eq!(cancel_slits(&unbalanced), vec![(b, a)]);
}

#[test]
fn collapsed_segments_are_dropped() {
    let a = v([1.0, 0.0, 0.0]);
    let b = v([0.0, 1.0, 0.0]);
    assert_eq!(cancel_slits(&[(a, a), (a, b), (b, b)]), vec![(a, b)]);
    assert!(cancel_slits(&[]).is_empty());
}

#[test]
fn negative_zero_is_a_different_point() {
    let a = v([0.0, 1.0, 0.0]);
    let b = v([1.0, 0.0, 0.0]);
    let b_negative_zero = v([1.0, -0.0, 0.0]);
    assert_eq!(cancel_slits(&[(a, b), (b_negative_zero, a)]).len(), 2);
}

#[test]
fn untrimmed_sphere_is_whole_and_contains_everything() {
    let region = SphericalRegion::new(origin(), &[], true, &direction, &make_arc, &seed_from);
    assert!(region.is_whole_sphere());
    assert!(region.is_decidable());
    assert!(inside(&region, [0.0, 0.0, -1.0]));
    assert!(inside(&region, [0.3, -0.2, 0.1]));
    assert_eq!(region.separation(origin(), v([0.0, 0.0, 1.0]), &direction, &via, &leg, &crosses), 0);
}

#[test]
fn northern_cap_classifies_points() {
    let region = north_cap();
    assert!(!region.is_whole_sphere());
    assert!(region.is_decidable());
    assert!(inside(&region, [0.0, 0.0, 1.0]));
    assert!(inside(&region, [0.2, -0.1, 0.9]));
    assert!(!inside(&region, [0.0, 0.0, -1.0]));
    assert!(!inside(&region, [0.9, 0.1, -0.2]));
    assert!(!inside(&region, [-0.7, 0.7, 0.0]));
}

#[test]
fn cap_built_from_the_other_side_is_the_complement() {
    let region = SphericalRegion::new(origin(), &[ring(0.5, 48)], false, &direction, &make_arc, &seed_from);
    assert!(!inside(&region, [0.0, 0.0, 1.0]));
    assert!(inside(&region, [0.0, 0.0, -1.0]));
}

#[test]
fn a_seam_slit_does_not_change_the_region() {
    let loop_points = ring(0.5, 48);
    let mut segments: Vec<Segment> = Vec::new();
    for i in 0..loop_points.len() {
        segments.push((loop_points[i], loop_points[(i + 1) % loop_points.len()]));
    }
    let pole = v([0.0, 0.0, 1.0]);
    segments.push((loop_points[0], pole));
    segments.push((pole, loop_points[0]));
    let region = SphericalRegion::from_segments(origin(), &segments, true, &direction, &make_arc, &seed_from);
    assert!(inside(&region, [0.1, 0.1, 0.95]));
    assert!(!inside(&region, [0.0, 0.0, -1.0]));
}

#[test]
fn points_off_the_centre_are_classified_by_direction() {
    let centre = v([10.0, -4.0, 2.0]);
    let shifted: Vec<Vec3> = ring(0.5, 32)
        .into_iter()
        .map(|p| {
            let q = f(p);
            v([q[0] * 3.0 + 10.0, q[1] * 3.0 - 4.0, q[2] * 3.0 + 2.0])
        })
        .collect();
    let region = SphericalRegion::new(centre, &[shifted], true, &direction, &make_arc, &seed_from);
    assert!(region.contains(centre, v([10.0, -4.0, 5.0]), &direction, &via, &leg, &crosses));
    assert!(!region.contains(centre, v([10.0, -4.0, -1.0]), &direction, &via, &leg, &crosses));
    assert!(!region.contains(centre, centre, &direction, &via, &leg, &crosses));
}

#[test]
fn separation_counts_boundary_arcs_to_the_seed() {
    let region = north_cap();
    let near = region.separation(origin(), v([0.0, 0.0, 1.0]), &direction, &via, &leg, &crosses);
    let far = region.separation(origin(), v([0.0, 0.0, -1.0]), &direction, &via, &leg, &crosses);
    assert_eq!(near % 2, 0);
    assert_eq!(far % 2, 1);
    assert_eq!(region.separation(origin(), origin(), &direction, &via, &leg, &crosses), usize::MAX);
}

#[test]
fn crossings_counts_accepted_arcs_and_nothing_without_a_plane() {
    let arcs = vec![
        Arc { start: v([1.0, 0.0, 0.0]), end: v([0.0, 1.0, 0.0]), normal: v([0.0, 0.0, 1.0]) },
        Arc { start: v([0.0, 1.0, 0.0]), end: v([-1.0, 0.0, 0.0]), normal: v([0.0, 0.0, 1.0]) },
    ];
    let always = |_a: Vec3, _b: Vec3, _n: Vec3, _arc: Arc| true;
    let some_plane = |_a: Vec3, _b: Vec3| Some(v([0.0, 0.0, 1.0]));
    let no_plane = |_a: Vec3, _b: Vec3| None;
    assert_eq!(crossings(&arcs, v([1.0, 0.0, 0.0]), v([0.0, 0.0, 1.0]), &some_plane, &always), 2);
    assert_eq!(crossings(&arcs, v([1.0, 0.0, 0.0]), v([0.0, 0.0, 1.0]), &no_plane, &always), 0);
    let from = v([0.6, 0.6, -0.52915]);
    let to = v([0.6, 0.6, 0.52915]);
    assert_eq!(crossings(&arcs, from, to, &leg, &crosses), 1);
}

#[test]
fn default_region_is_the_whole_sphere() {
    let region = SphericalRegion::default();
    assert!(region.is_whole_sphere());
    assert!(region.is_decidable());
    assert!(inside(&region, [0.0, 0.0, -1.0]));
}

#[test]
fn seed_search_without_arcs_finds_nothing() {
    assert_eq!(seed_from(&Vec::new(), true), None);
}

#[test]
fn seed_search_stops_at_the_first_single_crossing() {
    let arcs = vec![
        Arc { start: v([1.0, 0.0, 0.0]), end: v([0.0, 1.0, 0.0]), normal: v([0.0, 0.0, 1.0]) },
        Arc { start: v([0.0, 1.0, 0.0]), end: v([-1.0, 0.0, 0.0]), normal: v([0.0, 0.0, 1.0]) },
    ];
    let frame = |_arc: Arc, _outward: bool| Some((v([0.0, 0.0, 1.0]), v([1.0, 0.0, 0.0]), 8u64));
    let probe = |_m: Vec3, _l: Vec3, step: u64| Some((v([step as f64, 0.0, 0.0]), v([0.0, 0.0, 0.0])));
    let half = |step: u64| step / 2;
    let plane = |_a: Vec3, _b: Vec3| Some(v([0.0, 0.0, 1.0]));
    let once_at_two = |a: Vec3, _b: Vec3, _n: Vec3, arc: Arc| f(a)[0] == 2.0 && arc.start == v([1.0, 0.0, 0.0]);
    let found = seed_search(&arcs, true, &arc_length, &frame, &probe, &half, &plane, &once_at_two);
    assert_eq!(found, Some(v([2.0, 0.0, 0.0])));
    let never = |_a: Vec3, _b: Vec3, _n: Vec3, _arc: Arc| false;
    assert_eq!(seed_search(&arcs, true, &arc_length, &frame, &probe, &half, &plane, &never), None);
    let no_frame = |_arc: Arc, _outward: bool| None;
    assert_eq!(seed_search(&arcs, true, &arc_length, &no_frame, &probe, &half, &plane, &once_at_two), None);
}
