use lib::bvh::Bvh;
use lib::spatial::{Aabb, Vec3};

fn v(x: f64, y: f64, z: f64) -> Vec3 {
    Vec3 { x: x.to_bits(), y: y.to_bits(), z: z.to_bits() }
}

fn f(p: Vec3) -> (f64, f64, f64) {
    (f64::from_bits(p.x), f64::from_bits(p.y), f64::from_bits(p.z))
}

fn cube(x: f64, y: f64, z: f64, half: f64) -> Aabb {
    Aabb { minimum: v(x - half, y - half, z - half), maximum: v(x + half, y + half, z + half) }
}

fn center(b: &Aabb) -> Vec3 {
    let (a0, a1, a2) = f(b.minimum);
    let (b0, b1, b2) = f(b.maximum);
    v(0.5 * (a0 + b0), 0.5 * (a1 + b1), 0.5 * (a2 + b2))
}

fn extent(b: Aabb) -> Vec3 {
    let (a0, a1, a2) = f(b.minimum);
    let (b0, b1, b2) = f(b.maximum);
    v(b0 - a0, b1 - a1, b2 - a2)
}

fn overlaps(a: &Aabb, b: &Aabb) -> bool {
    let (a0, a1, a2) = f(a.minimum);
    let (a3, a4, a5) = f(a.maximum);
    let (b0, b1, b2) = f(b.minimum);
    let (b3, b4, b5) = f(b.maximum);
    a0 <= b3 && b0 <= a3 && a1 <= b4 && b1 <= a4 && a2 <= b5 && b2 <= a5
}

fn grid(count: usize) -> Vec<Aabb> {
    let mut boxes = Vec::new();
    for i in 0..count {
        let x = (i % 7) as f64 * 1.5;
        let y = ((i / 7) % 5) as f64 * 2.0;
        let z = (i / 35) as f64 * 0.75 - (i % 3) as f64 * 0.1;
        boxes.push(cube(x, y, z, 0.3 + 0.05 * (i % 4) as f64));
    }
    boxes
}

fn query(tree: &Bvh, probe: Aabb) -> Vec<usize> {
    let mut out = Vec::new();
    tree.visit(|bounds: Aabb| overlaps(&bounds, &probe), &mut out);
    out.sort();
    out
}

#[test]
fn empty_tree_reports_nothing() {
    let tree = Bvh::build(&[], &[], &extent);
    let mut out = vec![42];
    tree.visit(|_bounds: Aabb| true, &mut out);
    assert_eq!(out, vec![42]);
}

#[test]
fn visit_matches_brute_force() {
    let boxes = grid(100);
    let centers: Vec<Vec3> = boxes.iter().map(center).collect();
    let tree = Bvh::build(&boxes, &centers, &extent);
    let probes = [
        cube(0.0, 0.0, 0.0, 0.5),
        cube(4.5, 4.0, 1.0, 2.0),
        cube(100.0, 100.0, 100.0, 1.0),
        cube(5.0, 5.0, 0.5, 50.0),
    ];
    for probe in &probes {
        let expected: Vec<usize> =
            (0..boxes.len()).filter(|i| overlaps(&boxes[*i], probe)).collect();
        assert_eq!(query(&tree, *probe), expected);
    }
}

#[test]
fn accept_all_reports_every_index_once() {
    let boxes = grid(37);
    let centers: Vec<Vec3> = boxes.iter().map(center).collect();
    let tree = Bvh::build(&boxes, &centers, &extent);
    let mut out = Vec::new();
    tree.visit(|_bounds: Aabb| true, &mut out);
    out.sort();
    assert_eq!(out, (0..37).collect::<Vec<usize>>());
}

#[test]
fn visit_keeps_what_out_already_held() {
    let boxes = grid(9);
    let centers: Vec<Vec3> = boxes.iter().map(center).collect();
    let tree = Bvh::build(&boxes, &centers, &extent);
    let mut out = vec![1000, 2000];
    tree.visit(|bounds: Aabb| overlaps(&bounds, &boxes[4]), &mut out);
    assert_eq!(&out[..2], &[1000, 2000]);
    assert!(out[2..].contains(&4));
}

#[test]
fn single_box_tree() {
    let boxes = vec![cube(1.0, 2.0, 3.0, 0.5)];
    let centers: Vec<Vec3> = boxes.iter().map(center).collect();
    let tree = Bvh::build(&boxes, &centers, &extent);
    assert_eq!(query(&tree, cube(1.2, 2.2, 3.2, 0.1)), vec![0]);
    assert_eq!(query(&tree, cube(9.0, 9.0, 9.0, 0.1)), Vec::<usize>::new());
}

fn contains_expanded(b: &Aabb, p: (f64, f64, f64), tolerance: f64) -> bool {
    let (a0, a1, a2) = f(b.minimum);
    let (b0, b1, b2) = f(b.maximum);
    p.0 >= a0 - tolerance && p.0 <= b0 + tolerance && p.1 >= a1 - tolerance && p.1 <= b1 + tolerance
        && p.2 >= a2 - tolerance && p.2 <= b2 + tolerance
}

#[test]
fn a_small_tree_reports_in_build_order() {
    let boxes = vec![
        Aabb { minimum: v(0.0, 0.0, 0.0), maximum: v(1.0, 1.0, 1.0) },
        Aabb { minimum: v(2.0, 2.0, 2.0), maximum: v(3.0, 3.0, 3.0) },
    ];
    let centers: Vec<Vec3> = boxes.iter().map(center).collect();
    let tree = Bvh::build(&boxes, &centers, &extent);
    let point = (0.5, 0.5, 0.5);
    let mut out = vec![7];
    tree.visit(|bounds: Aabb| contains_expanded(&bounds, point, 0.0), &mut out);
    assert_eq!(out, vec![7, 0]);
    let mut out = vec![7];
    tree.visit(|bounds: Aabb| contains_expanded(&bounds, point, 1.5), &mut out);
    assert_eq!(out, vec![7, 0, 1]);
}

#[test]
fn split_follows_the_longest_axis() {
    // Eight boxes strung along y, listed out of order: the root splits on
    // y at the median, and the walk reports its upper half first.
    let ys = [3.0, 7.0, 0.0, 5.0, 1.0, 6.0, 2.0, 4.0];
    let boxes: Vec<Aabb> = ys.iter().map(|y| cube(0.0, *y * 2.0, 0.0, 0.4)).collect();
    let centers: Vec<Vec3> = boxes.iter().map(center).collect();
    let tree = Bvh::build(&boxes, &centers, &extent);
    let mut out = Vec::new();
    tree.visit(|_bounds: Aabb| true, &mut out);
    assert_eq!(out.len(), 8);
    let mut first: Vec<usize> = out[..4].to_vec();
    first.sort();
    // Items whose y is 4, 5, 6 and 7.
    assert_eq!(first, vec![1, 3, 5, 7]);
    let mut second: Vec<usize> = out[4..].to_vec();
    second.sort();
    assert_eq!(second, vec![0, 2, 4, 6]);
}
