//! A static bounding-volume hierarchy over per-item boxes.
//!
//! The tree is built top-down: every node's box is the union of its items'
//! boxes, a node with at most [`LEAF_SIZE`] items is a leaf, and a larger one
//! is split at its median item along the axis of its largest extent (items
//! ordered by the `total_cmp` order of their box centres). Queries walk the
//! tree and return indices into the slice it was built from.
//!
//! What the tree promises a query, whatever boxes and test it is given: every
//! reported index is reported once, only after the test accepted that item's
//! own box, and no item is lost to pruning — an item whose box has no NaN
//! corner is reported whenever the test can only accept that box and every
//! box that encloses it.
use vstd::prelude::*;

use crate::float_bits::{self, ieee_le, total_key};
use crate::spatial::{
    box_has_nan, coordinate, encloses, lemma_union_encloses, union, Aabb, Vec3,
};

verus! {

/// Most items a leaf holds.
pub const LEAF_SIZE: usize = 4;

/// One tree node. A leaf's `left..right` is its range of positions in the
/// item order; an internal node's `left` and `right` are its children's node
/// indices.
#[derive(Clone, Copy, Debug)]
struct Node {
    bounds: Aabb,
    left: usize,
    right: usize,
    leaf: bool,
}

/// Static BVH over per-item boxes; queries return indices into the slice the
/// tree was built from.
pub struct Bvh {
    nodes: Vec<Node>,
    /// A permutation of the item indices; every node covers a contiguous run
    /// of it.
    order: Vec<usize>,
    boxes: Vec<Aabb>,
    /// Box centres the median splits ordered by.
    centers: Ghost<Seq<Vec3>>,
    /// The run of `order` each node covers.
    ranges: Ghost<Seq<(int, int)>>,
    /// The axis each internal node was split along.
    axes: Ghost<Seq<int>>,
}

/// The key an item is ordered by along `axis` when a node is split.
pub open spec fn center_key(centers: Seq<Vec3>, item: usize, axis: int) -> int {
    total_key(coordinate(centers[item as int], axis))
}

/// `order` is a permutation of `0..n`.
pub open spec fn is_perm(order: Seq<usize>, n: int) -> bool {
    &&& order.len() == n
    &&& forall|k: int| 0 <= k < n ==> #[trigger] order[k] < n
    &&& order.no_duplicates()
    &&& forall|i: usize| i < n ==> #[trigger] order.contains(i)
}

/// `after` agrees with `before` outside `lo..hi`.
pub open spec fn frame(before: Seq<usize>, after: Seq<usize>, lo: int, hi: int) -> bool {
    &&& before.len() == after.len()
    &&& forall|k: int| 0 <= k < after.len() && !(lo <= k < hi) ==> #[trigger] after[k] == before[k]
}

/// `value` is an entry of `order` at a position in `lo..hi`.
pub open spec fn came_from(order: Seq<usize>, value: usize, lo: int, hi: int) -> bool {
    exists|q: int| lo <= q < hi && order[q] == value
}

/// Every entry of `after` in `lo..hi` was an entry of `before` in `lo..hi`.
pub open spec fn stays_within(before: Seq<usize>, after: Seq<usize>, lo: int, hi: int) -> bool {
    forall|p: int| lo <= p < hi ==> #[trigger] came_from(before, after[p], lo, hi)
}

/// The keys at positions `lo..mid` are no larger than those at `mid..hi`.
pub open spec fn split_ordered(
    centers: Seq<Vec3>,
    order: Seq<usize>,
    axis: int,
    lo: int,
    mid: int,
    hi: int,
) -> bool {
    forall|p: int, q: int|
        lo <= p < mid && mid <= q < hi ==> center_key(centers, #[trigger] order[p], axis)
            <= center_key(centers, #[trigger] order[q], axis)
}

/// The axis a node whose box has extents `e` is split along: `x` when its
/// extent is `>=` both others, else `y` when its extent is `>=` that of `z`,
/// else `z` (comparisons as IEEE `>=`, which is false where a NaN takes
/// part).
pub open spec fn largest_axis(e: Vec3) -> int {
    if ieee_le(e.y, e.x) && ieee_le(e.z, e.x) {
        0
    } else if ieee_le(e.z, e.y) {
        1
    } else {
        2
    }
}

/// `axis` is the [`largest_axis`] of extents that `extent` gives for
/// `bounds`.
pub open spec fn axis_chosen<E: Fn(Aabb) -> Vec3>(extent: E, bounds: Aabb, axis: int) -> bool {
    exists|e: Vec3| #[trigger] extent.ensures((bounds,), e) && axis == largest_axis(e)
}

/// Node `j` is well formed: its box encloses each of its items' boxes that
/// has no NaN corner; a leaf holds at most [`LEAF_SIZE`] items; an internal
/// node splits its run at the median into two later nodes, ordered by centre
/// along its axis.
spec fn node_ok(
    boxes: Seq<Aabb>,
    centers: Seq<Vec3>,
    order: Seq<usize>,
    nodes: Seq<Node>,
    ranges: Seq<(int, int)>,
    axes: Seq<int>,
    j: int,
) -> bool {
    let lo = ranges[j].0;
    let hi = ranges[j].1;
    let node = nodes[j];
    &&& 0 <= lo < hi <= order.len()
    &&& forall|k: int|
        lo <= k < hi && !box_has_nan(#[trigger] boxes[order[k] as int]) ==> encloses(
            node.bounds,
            boxes[order[k] as int],
        )
    &&& if node.leaf {
        &&& node.left == lo
        &&& node.right == hi
        &&& hi - lo <= LEAF_SIZE
    } else {
        let mid = lo + (hi - lo) / 2;
        &&& hi - lo > LEAF_SIZE
        &&& j < node.left < nodes.len()
        &&& j < node.right < nodes.len()
        &&& ranges[node.left as int] == (lo, mid)
        &&& ranges[node.right as int] == (mid, hi)
        &&& 0 <= axes[j] < 3
        &&& split_ordered(centers, order, axes[j], lo, mid, hi)
    }
}

/// Every enclosing-or-equal box of `item` can only be accepted by `hit`.
pub open spec fn always_hit<F: Fn(Aabb) -> bool>(hit: F, item: Aabb) -> bool {
    forall|outer: Aabb, accepted: bool|
        (outer == item || encloses(outer, item)) && #[trigger] hit.ensures((outer,), accepted)
            ==> accepted
}

/// The positions of the order array the walk reaches, in the order it
/// reaches them, under the node covering `lo..hi`: a leaf's positions in
/// order, and of a larger node first the upper half's walk, then the lower
/// half's (the right child is taken first).
pub open spec fn walk_positions(lo: int, hi: int) -> Seq<int>
    decreases hi - lo,
{
    if hi - lo <= LEAF_SIZE {
        Seq::new((if hi > lo { hi - lo } else { 0 }) as nat, |i: int| lo + i)
    } else {
        let mid = lo + (hi - lo) / 2;
        walk_positions(mid, hi) + walk_positions(lo, mid)
    }
}

/// The items under the node covering `lo..hi`, in walk order.
pub open spec fn walk_items_in(order: Seq<usize>, lo: int, hi: int) -> Seq<usize> {
    walk_positions(lo, hi).map_values(|p: int| order[p])
}

/// Whether `small` lists entries of `big` in the order `big` has them.
pub open spec fn in_order_within(small: Seq<usize>, big: Seq<usize>) -> bool {
    exists|positions: Seq<int>|
        #[trigger] positions.len() == small.len() && (forall|t: int|
            0 <= t < small.len() ==> 0 <= #[trigger] positions[t] < big.len() && small[t] == big[positions[t]])
            && (forall|t: int, u: int| 0 <= t < u < small.len() ==> positions[t] < positions[u])
}

proof fn lemma_walk_split(order: Seq<usize>, lo: int, mid: int, hi: int)
    requires
        hi - lo > LEAF_SIZE,
        mid == lo + (hi - lo) / 2,
    ensures
        walk_items_in(order, lo, hi) == walk_items_in(order, mid, hi) + walk_items_in(order, lo, mid),
{
    assert(walk_items_in(order, lo, hi) =~= walk_items_in(order, mid, hi) + walk_items_in(order, lo, mid));
}

proof fn lemma_in_order_concat(a: Seq<usize>, big_a: Seq<usize>, b: Seq<usize>, big_b: Seq<usize>)
    requires
        in_order_within(a, big_a),
        in_order_within(b, big_b),
    ensures
        in_order_within(a + b, big_a + big_b),
{
    let pa = choose|positions: Seq<int>|
        #[trigger] positions.len() == a.len() && (forall|t: int|
            0 <= t < a.len() ==> 0 <= #[trigger] positions[t] < big_a.len() && a[t] == big_a[positions[t]])
            && (forall|t: int, u: int| 0 <= t < u < a.len() ==> positions[t] < positions[u]);
    let pb = choose|positions: Seq<int>|
        #[trigger] positions.len() == b.len() && (forall|t: int|
            0 <= t < b.len() ==> 0 <= #[trigger] positions[t] < big_b.len() && b[t] == big_b[positions[t]])
            && (forall|t: int, u: int| 0 <= t < u < b.len() ==> positions[t] < positions[u]);
    let shifted = pb.map_values(|p: int| p + big_a.len());
    let pos = pa + shifted;
    let both = a + b;
    let big = big_a + big_b;
    assert forall|t: int| 0 <= t < both.len() implies 0 <= #[trigger] pos[t] < big.len() && both[t] == big[pos[t]] by {
        if t >= a.len() {
            assert(pos[t] == pb[t - a.len()] + big_a.len());
        }
    }
    assert forall|t: int, u: int| 0 <= t < u < both.len() implies pos[t] < pos[u] by {
        if u < a.len() {
        } else if t >= a.len() {
            assert(pos[t] == pb[t - a.len()] + big_a.len());
            assert(pos[u] == pb[u - a.len()] + big_a.len());
        } else {
            assert(pos[u] == pb[u - a.len()] + big_a.len());
        }
    }
    assert(pos.len() == both.len());
}

/// `reported` is a correct answer of a query with `hit` over `boxes`: no
/// index twice, each one accepted by `hit` on its own box, and every NaN-free
/// box that `hit` can only accept (with every box enclosing it) reported.
pub open spec fn reported_ok<F: Fn(Aabb) -> bool>(
    boxes: Seq<Aabb>,
    hit: F,
    reported: Seq<usize>,
) -> bool {
    &&& reported.no_duplicates()
    &&& forall|t: int|
        0 <= t < reported.len() ==> #[trigger] reported[t] < boxes.len() && hit.ensures(
            (boxes[reported[t] as int],),
            true,
        )
    &&& forall|i: usize|
        i < boxes.len() && !box_has_nan(boxes[i as int]) && always_hit(hit, boxes[i as int])
            ==> #[trigger] reported.contains(i)
}

/// Swapping two positions inside `lo..hi` keeps a permutation a permutation,
/// touches nothing outside the window and keeps the window's entries.
proof fn lemma_swap(s: Seq<usize>, a: int, b: int, lo: int, hi: int, n: int)
    requires
        is_perm(s, n),
        0 <= lo <= a < hi,
        lo <= b < hi,
        hi <= n,
    ensures
        is_perm(s.update(a, s[b]).update(b, s[a]), n),
        frame(s, s.update(a, s[b]).update(b, s[a]), lo, hi),
        stays_within(s, s.update(a, s[b]).update(b, s[a]), lo, hi),
{
    let t = s.update(a, s[b]).update(b, s[a]);
    assert forall|p: int, q: int| 0 <= p < t.len() && 0 <= q < t.len() && p != q implies t[p]
        != t[q] by {
        let pp = if p == a {
            b
        } else if p == b {
            a
        } else {
            p
        };
        let qq = if q == a {
            b
        } else if q == b {
            a
        } else {
            q
        };
        assert(t[p] == s[pp]);
        assert(t[q] == s[qq]);
    }
    assert forall|i: usize| i < n implies #[trigger] t.contains(i) by {
        assert(s.contains(i));
        let k = choose|k: int| 0 <= k < s.len() && s[k] == i;
        let kk = if k == a {
            b
        } else if k == b {
            a
        } else {
            k
        };
        assert(t[kk] == i);
    }
    assert forall|p: int| lo <= p < hi implies #[trigger] came_from(s, t[p], lo, hi) by {
        let q = if p == a {
            b
        } else if p == b {
            a
        } else {
            p
        };
        assert(s[q] == t[p]);
    }
}

/// Two reorderings, each confined to a window inside `lo..hi`, compose to a
/// reordering confined to `lo..hi`.
proof fn lemma_within_compose(
    a: Seq<usize>,
    b: Seq<usize>,
    c: Seq<usize>,
    lo1: int,
    hi1: int,
    lo2: int,
    hi2: int,
    lo: int,
    hi: int,
)
    requires
        stays_within(a, b, lo1, hi1),
        frame(a, b, lo1, hi1),
        stays_within(b, c, lo2, hi2),
        frame(b, c, lo2, hi2),
        lo <= lo1,
        hi1 <= hi,
        lo <= lo2,
        hi2 <= hi,
        0 <= lo,
        hi <= a.len(),
    ensures
        stays_within(a, c, lo, hi),
        frame(a, c, lo, hi),
{
    assert forall|p: int| lo <= p < hi implies #[trigger] came_from(a, c[p], lo, hi) by {
        let q = if lo2 <= p < hi2 {
            assert(came_from(b, c[p], lo2, hi2));
            choose|q: int| lo2 <= q < hi2 && b[q] == c[p]
        } else {
            p
        };
        assert(c[p] == b[q]);
        let r = if lo1 <= q < hi1 {
            assert(came_from(a, b[q], lo1, hi1));
            choose|r: int| lo1 <= r < hi1 && a[r] == b[q]
        } else {
            q
        };
        assert(a[r] == c[p]);
    }
}

/// A well-formed node stays well formed when nothing it reads changes: its own
/// entry, the ranges of earlier-built nodes, its axis, and the item order on
/// its own run.
proof fn lemma_node_ok_frame(
    boxes: Seq<Aabb>,
    centers: Seq<Vec3>,
    o1: Seq<usize>,
    o2: Seq<usize>,
    n1: Seq<Node>,
    n2: Seq<Node>,
    r1: Seq<(int, int)>,
    r2: Seq<(int, int)>,
    a1: Seq<int>,
    a2: Seq<int>,
    j: int,
)
    requires
        node_ok(boxes, centers, o1, n1, r1, a1, j),
        0 <= j < n1.len(),
        n1.len() == r1.len(),
        n1.len() <= n2.len(),
        n2[j] == n1[j],
        r1.len() <= r2.len(),
        forall|t: int| 0 <= t < r1.len() ==> #[trigger] r2[t] == r1[t],
        j < a1.len(),
        j < a2.len(),
        a2[j] == a1[j],
        o1.len() == o2.len(),
        forall|k: int| r1[j].0 <= k < r1[j].1 ==> #[trigger] o2[k] == o1[k],
    ensures
        node_ok(boxes, centers, o2, n2, r2, a2, j),
{
    let lo = r1[j].0;
    let hi = r1[j].1;
    assert(r2[j] == r1[j]);
    assert forall|k: int|
        lo <= k < hi && !box_has_nan(#[trigger] boxes[o2[k] as int]) implies encloses(
        n2[j].bounds,
        boxes[o2[k] as int],
    ) by {
        assert(o2[k] == o1[k]);
    }
    if !n1[j].leaf {
        let mid = lo + (hi - lo) / 2;
        let l = n1[j].left as int;
        let r = n1[j].right as int;
        assert(r2[l] == r1[l]);
        assert(r2[r] == r1[r]);
        assert forall|p: int, q: int| lo <= p < mid && mid <= q < hi implies center_key(
            centers,
            #[trigger] o2[p],
            a2[j],
        ) <= center_key(centers, #[trigger] o2[q], a2[j]) by {
            assert(o2[p] == o1[p]);
            assert(o2[q] == o1[q]);
        }
    }
}

/// The key of `item` along `axis`.
fn key_of(centers: &[Vec3], item: usize, axis: usize) -> (result: i64)
    requires
        item < centers@.len(),
    ensures
        result == center_key(centers@, item, axis as int),
{
    float_bits::total_key_of(crate::spatial::axis(centers[item], axis))
}

/// Exchange two entries of `order`.
fn swap_entries(order: &mut Vec<usize>, a: usize, b: usize)
    requires
        a < old(order)@.len(),
        b < old(order)@.len(),
    ensures
        final(order)@ == old(order)@.update(a as int, old(order)@[b as int]).update(
            b as int,
            old(order)@[a as int],
        ),
{
    let first = order[a];
    let second = order[b];
    order.set(a, second);
    order.set(b, first);
}

/// Reorder `order[start..end]` so that the entry at `nth` is the one a full
/// sort by key would put there: nothing before it has a larger key and
/// nothing after it a smaller one (the contract of
/// `select_nth_unstable_by`).
fn select_nth(
    order: &mut Vec<usize>,
    centers: &[Vec3],
    axis: usize,
    start: usize,
    end: usize,
    nth: usize,
)
    requires
        start <= nth < end <= old(order)@.len(),
        is_perm(old(order)@, centers@.len() as int),
    ensures
        is_perm(final(order)@, centers@.len() as int),
        frame(old(order)@, final(order)@, start as int, end as int),
        stays_within(old(order)@, final(order)@, start as int, end as int),
        forall|p: int, q: int|
            start <= p <= nth <= q < end ==> center_key(centers@, #[trigger] final(order)@[p], axis as int)
                <= center_key(centers@, #[trigger] final(order)@[q], axis as int),
{
    let ghost n = centers@.len() as int;
    let ghost original = order@;
    let ghost ax = axis as int;
    let mut lo = start;
    let mut hi = end;
    while hi - lo > 1
        invariant
            start <= lo <= nth < hi <= end,
            end <= order@.len(),
            n == centers@.len(),
            ax == axis,
            is_perm(order@, n),
            frame(original, order@, start as int, end as int),
            stays_within(original, order@, start as int, end as int),
            split_ordered(centers@, order@, ax, start as int, lo as int, end as int),
            split_ordered(centers@, order@, ax, start as int, hi as int, end as int),
        decreases hi - lo,
    {
        let ghost window_start = order@;
        let pivot_item = order[hi - 1];
        let pivot = key_of(centers, pivot_item, axis);
        let mut i = lo;
        let mut j = lo;
        while j < hi - 1
            invariant
                lo <= i <= j <= hi - 1,
                start <= lo,
                hi <= end,
                end <= order@.len(),
                n == centers@.len(),
                ax == axis,
                is_perm(order@, n),
                frame(window_start, order@, lo as int, hi as int),
                stays_within(window_start, order@, lo as int, hi as int),
                order@[hi - 1] == pivot_item,
                pivot == center_key(centers@, pivot_item, ax),
                forall|p: int| lo <= p < i ==> center_key(centers@, #[trigger] order@[p], ax) < pivot,
                forall|p: int| i <= p < j ==> center_key(centers@, #[trigger] order@[p], ax) >= pivot,
            decreases hi - 1 - j,
        {
            let item = order[j];
            if key_of(centers, item, axis) < pivot {
                let ghost before = order@;
                proof {
                    lemma_swap(before, i as int, j as int, lo as int, hi as int, n);
                }
                swap_entries(order, i, j);
                proof {
                    lemma_within_compose(window_start, before, order@, lo as int, hi as int, lo as int, hi as int, lo as int, hi as int);
                    assert(order@[i as int] == before[j as int]);
                    assert(order@[j as int] == before[i as int]);
                    assert forall|p: int| lo <= p < i + 1 implies center_key(centers@, #[trigger] order@[p], ax) < pivot by {
                        if p < i {
                            assert(order@[p] == before[p]);
                        }
                    }
                    assert forall|p: int| i + 1 <= p < j + 1 implies center_key(centers@, #[trigger] order@[p], ax) >= pivot by {
                        if p < j {
                            assert(order@[p] == before[p]);
                        } else {
                            assert(order@[p] == before[i as int]);
                        }
                    }
                }
                i = i + 1;
            }
            j = j + 1;
        }
        let ghost before = order@;
        proof {
            lemma_swap(before, i as int, hi - 1, lo as int, hi as int, n);
        }
        swap_entries(order, i, hi - 1);
        proof {
            lemma_within_compose(window_start, before, order@, lo as int, hi as int, lo as int, hi as int, lo as int, hi as int);
        }
        let ghost after = order@;
        // Keys of the window: below the pivot on lo..i, the pivot at i, and
        // at least the pivot on i+1..hi.
        assert(center_key(centers@, after[i as int], ax) == pivot);
        assert forall|p: int| lo <= p < i implies center_key(centers@, #[trigger] after[p], ax) < pivot by {
            assert(after[p] == before[p]);
        }
        assert forall|p: int| i < p < hi implies center_key(centers@, #[trigger] after[p], ax) >= pivot by {
            if p == hi - 1 {
                assert(after[p] == before[i as int]);
            } else {
                assert(after[p] == before[p]);
            }
        }
        proof {
            lemma_within_compose(original, window_start, after, start as int, end as int, lo as int, hi as int, start as int, end as int);
        }
        let ghost old_lo = lo as int;
        let ghost old_hi = hi as int;
        // The facts about the window's outside carry over: its entries are
        // the window's old entries.
        assert(split_ordered(centers@, after, ax, start as int, old_lo, end as int)) by {
            assert forall|p: int, q: int| start <= p < old_lo && old_lo <= q < end implies center_key(
                centers@,
                #[trigger] after[p],
                ax,
            ) <= center_key(centers@, #[trigger] after[q], ax) by {
                assert(after[p] == window_start[p]);
                if q < old_hi {
                    assert(came_from(window_start, after[q], old_lo, old_hi));
                    let r = choose|r: int| old_lo <= r < old_hi && window_start[r] == after[q];
                    assert(center_key(centers@, window_start[p], ax) <= center_key(centers@, window_start[r], ax));
                } else {
                    assert(after[q] == window_start[q]);
                }
            }
        }
        assert(split_ordered(centers@, after, ax, start as int, old_hi, end as int)) by {
            assert forall|p: int, q: int| start <= p < old_hi && old_hi <= q < end implies center_key(
                centers@,
                #[trigger] after[p],
                ax,
            ) <= center_key(centers@, #[trigger] after[q], ax) by {
                assert(after[q] == window_start[q]);
                if p < old_lo {
                    assert(after[p] == window_start[p]);
                } else {
                    assert(came_from(window_start, after[p], old_lo, old_hi));
                    let r = choose|r: int| old_lo <= r < old_hi && window_start[r] == after[p];
                    assert(center_key(centers@, window_start[r], ax) <= center_key(centers@, window_start[q], ax));
                }
            }
        }
        // The new split point i: everything before it is at most the pivot,
        // everything from it on at least the pivot.
        assert(split_ordered(centers@, after, ax, start as int, i as int, end as int)) by {
            assert forall|p: int, q: int| start <= p < i && i <= q < end implies center_key(
                centers@,
                #[trigger] after[p],
                ax,
            ) <= center_key(centers@, #[trigger] after[q], ax) by {
                if p < old_lo {
                } else if q >= old_hi {
                } else {
                    assert(center_key(centers@, after[p], ax) < pivot);
                    assert(center_key(centers@, after[q], ax) >= pivot);
                }
            }
        }
        assert(split_ordered(centers@, after, ax, start as int, i + 1, end as int)) by {
            assert forall|p: int, q: int| start <= p < i + 1 && i + 1 <= q < end implies center_key(
                centers@,
                #[trigger] after[p],
                ax,
            ) <= center_key(centers@, #[trigger] after[q], ax) by {
                if p < old_lo {
                } else if q >= old_hi {
                } else {
                    assert(center_key(centers@, after[p], ax) <= pivot);
                    assert(center_key(centers@, after[q], ax) >= pivot);
                }
            }
        }
        if nth == i {
            lo = i;
            hi = i + 1;
        } else if nth < i {
            hi = i;
        } else {
            lo = i + 1;
        }
    }
    assert forall|p: int, q: int| start <= p <= nth <= q < end implies center_key(
        centers@,
        #[trigger] order@[p],
        axis as int,
    ) <= center_key(centers@, #[trigger] order@[q], axis as int) by {
        if p < lo {
        } else if q >= hi {
        } else {
            assert(p == q);
        }
    }
}

/// Build the subtree over `order[start..end]`, appending its nodes in
/// preorder; returns the subtree root's index with the ranges and axes
/// extended by the new nodes.
#[verifier::spinoff_prover]
fn build_node<E: Fn(Aabb) -> Vec3>(
    boxes: &[Aabb],
    centers: &[Vec3],
    order: &mut Vec<usize>,
    start: usize,
    end: usize,
    nodes: &mut Vec<Node>,
    ranges: Ghost<Seq<(int, int)>>,
    axes: Ghost<Seq<int>>,
    extent: &E,
) -> (result: (usize, Ghost<Seq<(int, int)>>, Ghost<Seq<int>>))
    requires
        centers@.len() == boxes@.len(),
        is_perm(old(order)@, boxes@.len() as int),
        start < end <= boxes@.len(),
        old(nodes)@.len() == ranges@.len(),
        old(nodes)@.len() == axes@.len(),
        forall|b: Aabb| extent.requires((b,)),
    ensures
        result.0 == old(nodes)@.len(),
        final(nodes)@.len() > old(nodes)@.len(),
        result.1@.len() == final(nodes)@.len(),
        result.2@.len() == final(nodes)@.len(),
        forall|t: int| 0 <= t < old(nodes)@.len() ==> #[trigger] final(nodes)@[t] == old(nodes)@[t],
        forall|t: int| 0 <= t < old(nodes)@.len() ==> #[trigger] result.1@[t] == ranges@[t],
        forall|t: int| 0 <= t < old(nodes)@.len() ==> #[trigger] result.2@[t] == axes@[t],
        result.1@[result.0 as int] == (start as int, end as int),
        is_perm(final(order)@, boxes@.len() as int),
        frame(old(order)@, final(order)@, start as int, end as int),
        stays_within(old(order)@, final(order)@, start as int, end as int),
        end - start <= LEAF_SIZE ==> final(order)@ == old(order)@,
        forall|j: int|
            old(nodes)@.len() <= j < final(nodes)@.len() ==> #[trigger] node_ok(
                boxes@,
                centers@,
                final(order)@,
                final(nodes)@,
                result.1@,
                result.2@,
                j,
            ) && start <= result.1@[j].0 && result.1@[j].1 <= end,
        forall|j: int|
            old(nodes)@.len() <= j < final(nodes)@.len() && !final(nodes)@[j].leaf
                ==> #[trigger] axis_chosen(*extent, final(nodes)@[j].bounds, result.2@[j]),
    decreases end - start,
{
    let ghost n = boxes@.len() as int;
    let ghost order0 = order@;
    let mut bounds = Aabb::empty();
    let mut k = start;
    while k < end
        invariant
            start <= k <= end,
            end <= order@.len(),
            order@ == order0,
            is_perm(order@, n),
            n == boxes@.len(),
            forall|p: int|
                start <= p < k && !box_has_nan(#[trigger] boxes@[order@[p] as int]) ==> encloses(
                    bounds,
                    boxes@[order@[p] as int],
                ),
        decreases end - k,
    {
        let item = order[k];
        let ghost previous = bounds;
        bounds.include_box(boxes[item]);
        proof {
            lemma_union_encloses(previous, boxes@[item as int], boxes@[item as int]);
            assert forall|p: int|
                start <= p < k + 1 && !box_has_nan(#[trigger] boxes@[order@[p] as int]) implies encloses(
                bounds,
                boxes@[order@[p] as int],
            ) by {
                lemma_union_encloses(previous, boxes@[item as int], boxes@[order@[p] as int]);
            }
        }
        k = k + 1;
    }
    let index = nodes.len();
    if end - start <= LEAF_SIZE {
        nodes.push(Node { bounds, left: start, right: end, leaf: true });
        let ghost new_ranges = ranges@.push((start as int, end as int));
        let ghost new_axes = axes@.push(0int);
        proof {
            assert(node_ok(boxes@, centers@, order@, nodes@, new_ranges, new_axes, index as int));
        }
        return (index, Ghost(new_ranges), Ghost(new_axes));
    }
    let extents = extent(bounds);
    let split_axis: usize = if float_bits::ge(extents.x, extents.y) && float_bits::ge(
        extents.x,
        extents.z,
    ) {
        0
    } else if float_bits::ge(extents.y, extents.z) {
        1
    } else {
        2
    };
    let middle = start + (end - start) / 2;
    select_nth(order, centers, split_axis, start, end, middle);
    let ghost order1 = order@;
    proof {
        // The node's box still encloses every item on its run: the run holds
        // the same items, reordered.
        assert forall|p: int|
            start <= p < end && !box_has_nan(#[trigger] boxes@[order1[p] as int]) implies encloses(
            bounds,
            boxes@[order1[p] as int],
        ) by {
            assert(came_from(order0, order1[p], start as int, end as int));
            let q = choose|q: int| start <= q < end && order0[q] == order1[p];
            assert(boxes@[order0[q] as int] == boxes@[order1[p] as int]);
        }
    }
    nodes.push(Node { bounds, left: 0, right: 0, leaf: false });
    let ghost ranges1 = ranges@.push((start as int, end as int));
    let ghost axes1 = axes@.push(split_axis as int);
    let (left, ranges2, axes2) = build_node(
        boxes,
        centers,
        order,
        start,
        middle,
        nodes,
        Ghost(ranges1),
        Ghost(axes1),
        extent,
    );
    let ghost order2 = order@;
    let ghost nodes2 = nodes@;
    let (right, ranges3, axes3) = build_node(
        boxes,
        centers,
        order,
        middle,
        end,
        nodes,
        ranges2,
        axes2,
        extent,
    );
    let ghost order3 = order@;
    let ghost nodes3 = nodes@;
    let mut node = nodes[index];
    node.left = left;
    node.right = right;
    nodes.set(index, node);
    proof {
        let mid = middle as int;
        lemma_within_compose(order1, order2, order3, start as int, mid, mid, end as int, start as int, end as int);
        lemma_within_compose(order0, order1, order3, start as int, end as int, start as int, end as int, start as int, end as int);
        assert(ranges3@[index as int] == (start as int, end as int));
        assert(ranges3@[left as int] == (start as int, mid));
        assert(ranges3@[right as int] == (mid, end as int));
        assert(axes3@[index as int] == split_axis as int);
        // The split stays ordered: each side keeps its own items.
        assert forall|p: int, q: int| start <= p < mid && mid <= q < end implies center_key(
            centers@,
            #[trigger] order3[p],
            split_axis as int,
        ) <= center_key(centers@, #[trigger] order3[q], split_axis as int) by {
            assert(order3[p] == order2[p]);
            assert(came_from(order1, order2[p], start as int, mid));
            let pp = choose|pp: int| start <= pp < mid && order1[pp] == order2[p];
            assert(came_from(order2, order3[q], mid, end as int));
            let qq = choose|qq: int| mid <= qq < end && order2[qq] == order3[q];
            assert(order2[qq] == order1[qq]);
            assert(center_key(centers@, order1[pp], split_axis as int) <= center_key(centers@, order1[qq], split_axis as int));
        }
        assert forall|p: int|
            start <= p < end && !box_has_nan(#[trigger] boxes@[order3[p] as int]) implies encloses(
            bounds,
            boxes@[order3[p] as int],
        ) by {
            assert(came_from(order1, order3[p], start as int, end as int));
            let q = choose|q: int| start <= q < end && order1[q] == order3[p];
            assert(boxes@[order1[q] as int] == boxes@[order3[p] as int]);
        }
        assert(node_ok(boxes@, centers@, order3, nodes@, ranges3@, axes3@, index as int));
        assert forall|j: int| index < j < nodes@.len() implies node_ok(
            boxes@,
            centers@,
            order3,
            nodes@,
            ranges3@,
            axes3@,
            j,
        ) && start <= #[trigger] ranges3@[j].0 && ranges3@[j].1 <= end by {
            if j < nodes2.len() {
                assert(node_ok(boxes@, centers@, order2, nodes2, ranges2@, axes2@, j));
                lemma_node_ok_frame(boxes@, centers@, order2, order3, nodes2, nodes@, ranges2@, ranges3@, axes2@, axes3@, j);
            } else {
                assert(node_ok(boxes@, centers@, order3, nodes3, ranges3@, axes3@, j));
                lemma_node_ok_frame(boxes@, centers@, order3, order3, nodes3, nodes@, ranges3@, ranges3@, axes3@, axes3@, j);
            }
        }
    }
    proof {
        assert forall|j: int|
            old(nodes)@.len() <= j < nodes@.len() implies node_ok(
            boxes@,
            centers@,
            order@,
            nodes@,
            ranges3@,
            axes3@,
            j,
        ) && start <= #[trigger] ranges3@[j].0 && ranges3@[j].1 <= end by {
            if j == index {
            } else {
                assert(index < j);
            }
        }
        // The node's axis is the largest of the extents `extent` gave for
        // its box; the nodes below keep theirs.
        assert(extent.ensures((bounds,), extents));
        assert(axis_chosen(*extent, bounds, split_axis as int));
        assert forall|j: int|
            old(nodes)@.len() <= j < nodes@.len() && !nodes@[j].leaf implies #[trigger] axis_chosen(
            *extent,
            nodes@[j].bounds,
            axes3@[j],
        ) by {
            if j == index {
                assert(nodes@[j].bounds == bounds);
            } else if j < nodes2.len() {
                assert(nodes@[j] == nodes3[j]);
                assert(nodes3[j] == nodes2[j]);
                assert(axes3@[j] == axes2@[j]);
            } else {
                assert(nodes@[j] == nodes3[j]);
            }
        }
    }
    (index, ranges3, axes3)
}

impl Bvh {
    #[verifier::type_invariant]
    spec fn well_formed(self) -> bool {
        let n = self.boxes@.len() as int;
        &&& self.centers@.len() == n
        &&& is_perm(self.order@, n)
        &&& self.ranges@.len() == self.nodes@.len()
        &&& self.axes@.len() == self.nodes@.len()
        &&& (self.nodes@.len() == 0 <==> n == 0)
        &&& self.nodes@.len() > 0 ==> self.ranges@[0] == (0int, n)
        &&& forall|j: int|
            0 <= j < self.nodes@.len() ==> #[trigger] node_ok(
                self.boxes@,
                self.centers@,
                self.order@,
                self.nodes@,
                self.ranges@,
                self.axes@,
                j,
            )
    }

    /// The item indices in the order the tree holds them: every node covers
    /// a run of this array, a leaf at most [`LEAF_SIZE`] long, and an
    /// internal node's lower half is its left child and its upper half its
    /// right.
    pub closed spec fn held_order(self) -> Seq<usize> {
        self.order@
    }

    /// The items in the order the query walk reaches them when it prunes
    /// nothing: leaf by leaf, the upper half of a node before its lower
    /// half, and within a leaf in the order the tree holds them.
    pub open spec fn walk_items(self) -> Seq<usize> {
        walk_items_in(self.held_order(), 0, self@.len() as int)
    }

    /// The centres the tree was split by.
    pub closed spec fn centers_view(self) -> Seq<Vec3> {
        self.centers@
    }

    /// How many nodes the tree has; node 0 is the root.
    pub closed spec fn node_count(self) -> int {
        self.nodes@.len() as int
    }

    /// Whether node `j` is a leaf.
    pub closed spec fn node_is_leaf(self, j: int) -> bool {
        self.nodes@[j].leaf
    }

    /// Node `j`'s box.
    pub closed spec fn node_bounds(self, j: int) -> Aabb {
        self.nodes@[j].bounds
    }

    /// The run `lo..hi` of [`Self::held_order`] that node `j` covers.
    pub closed spec fn node_range(self, j: int) -> (int, int) {
        self.ranges@[j]
    }

    /// The axis internal node `j` was split along.
    pub closed spec fn node_axis(self, j: int) -> int {
        self.axes@[j]
    }

    /// Internal node `j`'s child over the lower half of its run.
    pub closed spec fn node_lower(self, j: int) -> int {
        self.nodes@[j].left as int
    }

    /// Internal node `j`'s child over the upper half of its run.
    pub closed spec fn node_upper(self, j: int) -> int {
        self.nodes@[j].right as int
    }

    /// Node `j` as the tree holds it: it covers a non-empty run `lo..hi` of
    /// [`Self::held_order`], and its box encloses each of those items' boxes
    /// that has no NaN corner. A leaf covers at most [`LEAF_SIZE`] items. An
    /// internal node covers more; its two children are later nodes over the
    /// halves `lo..mid` and `mid..hi` of its run, split at the median, and no
    /// item of the lower half has a larger centre key along the node's axis
    /// than an item of the upper half.
    pub open spec fn node_shape(self, j: int) -> bool {
        let lo = self.node_range(j).0;
        let hi = self.node_range(j).1;
        &&& 0 <= lo < hi <= self@.len()
        &&& forall|k: int|
            lo <= k < hi && !box_has_nan(#[trigger] self@[self.held_order()[k] as int])
                ==> encloses(self.node_bounds(j), self@[self.held_order()[k] as int])
        &&& if self.node_is_leaf(j) {
            hi - lo <= LEAF_SIZE
        } else {
            let mid = lo + (hi - lo) / 2;
            &&& hi - lo > LEAF_SIZE
            &&& j < self.node_lower(j) < self.node_count()
            &&& j < self.node_upper(j) < self.node_count()
            &&& self.node_range(self.node_lower(j)) == (lo, mid)
            &&& self.node_range(self.node_upper(j)) == (mid, hi)
            &&& 0 <= self.node_axis(j) < 3
            &&& split_ordered(self.centers_view(), self.held_order(), self.node_axis(j), lo, mid, hi)
        }
    }

    /// Build the tree over `boxes`.
    ///
    /// `centers[i]` is the centre of `boxes[i]` on each axis (the midpoint of
    /// its two corners), and `extent` gives a box's extent on each axis (its
    /// maximum corner minus its minimum); both are floating-point arithmetic
    /// the caller supplies. A node is split along the axis whose extent is
    /// largest, the lowest axis winning a tie.
    pub fn build<E: Fn(Aabb) -> Vec3>(boxes: &[Aabb], centers: &[Vec3], extent: &E) -> (result: Self)
        requires
            centers@.len() == boxes@.len(),
            forall|b: Aabb| extent.requires((b,)),
        ensures
            result@ == boxes@,
            result.centers_view() == centers@,
            result.held_order().len() == boxes@.len(),
            forall|i: usize| i < boxes@.len() ==> #[trigger] result.held_order().contains(i),
            boxes@.len() <= LEAF_SIZE ==> result.walk_items() == Seq::new(
                boxes@.len(),
                |i: int| i as usize,
            ),
            result.node_count() == 0 <==> boxes@.len() == 0,
            result.node_count() > 0 ==> result.node_range(0) == (0int, boxes@.len() as int),
            forall|j: int| 0 <= j < result.node_count() ==> #[trigger] result.node_shape(j),
            forall|j: int|
                0 <= j < result.node_count() && !result.node_is_leaf(j) ==> #[trigger] axis_chosen(
                    *extent,
                    result.node_bounds(j),
                    result.node_axis(j),
                ),
    {
        let count = boxes.len();
        let mut order: Vec<usize> = Vec::new();
        let mut i: usize = 0;
        while i < count
            invariant
                i <= count,
                count == boxes@.len(),
                order@.len() == i,
                forall|k: int| 0 <= k < i ==> #[trigger] order@[k] == k,
            decreases count - i,
        {
            order.push(i);
            i = i + 1;
        }
        proof {
            assert forall|a: int, b: int|
                0 <= a < order@.len() && 0 <= b < order@.len() && a != b implies order@[a]
                != order@[b] by {
                assert(order@[a] == a);
                assert(order@[b] == b);
            }
            assert forall|v: usize| v < count implies #[trigger] order@.contains(v) by {
                assert(order@[v as int] == v);
            }
        }
        let mut nodes: Vec<Node> = Vec::new();
        let ghost mut ranges: Seq<(int, int)> = Seq::empty();
        let ghost mut axes: Seq<int> = Seq::empty();
        if count > 0 {
            let (_root, built_ranges, built_axes) = build_node(
                boxes,
                centers,
                &mut order,
                0,
                count,
                &mut nodes,
                Ghost(Seq::empty()),
                Ghost(Seq::empty()),
                extent,
            );
            proof {
                ranges = built_ranges@;
                axes = built_axes@;
            }
        }
        proof {
            if count <= LEAF_SIZE {
                assert(walk_items_in(order@, 0, count as int) =~= Seq::new(count as nat, |i: int| i as usize));
            }
        }
        proof {
            assert forall|j: int| 0 <= j < nodes@.len() && !nodes@[j].leaf implies #[trigger] axis_chosen(
                *extent,
                nodes@[j].bounds,
                axes[j],
            ) by {
                assert(count > 0);
            }
        }
        let result = Bvh {
            nodes,
            order,
            boxes: vstd::slice::slice_to_vec(boxes),
            centers: Ghost(centers@),
            ranges: Ghost(ranges),
            axes: Ghost(axes),
        };
        proof {
            use_type_invariant(&result);
            assert forall|j: int| 0 <= j < result.node_count() implies #[trigger] result.node_shape(j) by {
                assert(node_ok(
                    result.boxes@,
                    result.centers@,
                    result.order@,
                    result.nodes@,
                    result.ranges@,
                    result.axes@,
                    j,
                ));
            }
        }
        result
    }

    /// Report, into `out`, every item of node `j`'s subtree that `hit`
    /// accepts; a subtree whose box `hit` rejects is skipped whole. The right
    /// child is walked before the left, as a depth-first stack pops them.
    fn visit_node<F: Fn(Aabb) -> bool>(&self, j: usize, hit: &F, out: &mut Vec<usize>) -> (emitted: Ghost<Seq<usize>>)
        requires
            j < self.nodes@.len(),
            forall|b: Aabb| hit.requires((b,)),
        ensures
            final(out)@ == old(out)@ + emitted@,
            emitted@.no_duplicates(),
            in_order_within(
                emitted@,
                walk_items_in(self.order@, self.ranges@[j as int].0, self.ranges@[j as int].1),
            ),
            forall|t: int|
                0 <= t < emitted@.len() ==> #[trigger] came_from(
                    self.order@,
                    emitted@[t],
                    self.ranges@[j as int].0,
                    self.ranges@[j as int].1,
                ),
            forall|t: int|
                0 <= t < emitted@.len() ==> hit.ensures(
                    (self.boxes@[#[trigger] emitted@[t] as int],),
                    true,
                ),
            forall|k: int|
                self.ranges@[j as int].0 <= k < self.ranges@[j as int].1 && !box_has_nan(
                    self.boxes@[self.order@[k] as int],
                ) && always_hit(*hit, self.boxes@[self.order@[k] as int])
                    ==> emitted@.contains(#[trigger] self.order@[k]),
        decreases self.nodes@.len() - j,
    {
        proof {
            use_type_invariant(self);
        }
        let ghost lo = self.ranges@[j as int].0;
        let ghost hi = self.ranges@[j as int].1;
        let node = self.nodes[j];
        assert(node_ok(self.boxes@, self.centers@, self.order@, self.nodes@, self.ranges@, self.axes@, j as int));
        if !hit(node.bounds) {
            proof {
                assert forall|k: int|
                    lo <= k < hi && !box_has_nan(self.boxes@[self.order@[k] as int]) && always_hit(
                        *hit,
                        self.boxes@[self.order@[k] as int],
                    ) implies Seq::<usize>::empty().contains(#[trigger] self.order@[k]) by {
                    assert(encloses(node.bounds, self.boxes@[self.order@[k] as int]));
                    assert(hit.ensures((node.bounds,), false));
                }
                assert(old(out)@ + Seq::<usize>::empty() == old(out)@);
                let none: Seq<int> = Seq::empty();
                assert(none.len() == Seq::<usize>::empty().len());
            }
            return Ghost(Seq::empty());
        }
        if node.leaf {
            let ghost start_out = out@;
            let ghost mut emitted: Seq<usize> = Seq::empty();
            let ghost mut positions: Seq<int> = Seq::empty();
            let ghost walk = walk_items_in(self.order@, lo, hi);
            assert(walk.len() == hi - lo);
            let mut k = node.left;
            while k < node.right
                invariant
                    lo == node.left,
                    hi == node.right,
                    node.left <= k <= node.right,
                    node.right <= self.order@.len(),
                    is_perm(self.order@, self.boxes@.len() as int),
                    forall|b: Aabb| hit.requires((b,)),
                    out@ == start_out + emitted,
                    emitted.no_duplicates(),
                    hi - lo <= LEAF_SIZE,
                    walk == walk_items_in(self.order@, lo, hi),
                    positions.len() == emitted.len(),
                    forall|t: int|
                        0 <= t < emitted.len() ==> 0 <= #[trigger] positions[t] < k - lo && emitted[t] == walk[positions[t]],
                    forall|t: int, u: int| 0 <= t < u < emitted.len() ==> positions[t] < positions[u],
                    forall|t: int|
                        0 <= t < emitted.len() ==> #[trigger] came_from(self.order@, emitted[t], lo, k as int),
                    forall|t: int|
                        0 <= t < emitted.len() ==> hit.ensures(
                            (self.boxes@[#[trigger] emitted[t] as int],),
                            true,
                        ),
                    forall|p: int|
                        lo <= p < k && !box_has_nan(self.boxes@[self.order@[p] as int]) && always_hit(
                            *hit,
                            self.boxes@[self.order@[p] as int],
                        ) ==> emitted.contains(#[trigger] self.order@[p]),
                decreases node.right - k,
            {
                let item = self.order[k];
                let accepted = hit(self.boxes[item]);
                proof {
                    let grown = if accepted {
                        emitted.push(item)
                    } else {
                        emitted
                    };
                    assert forall|t: int| 0 <= t < emitted.len() implies #[trigger] came_from(
                        self.order@,
                        emitted[t],
                        lo,
                        k + 1,
                    ) by {
                        assert(came_from(self.order@, emitted[t], lo, k as int));
                        let p = choose|p: int| lo <= p < k && self.order@[p] == emitted[t];
                    }
                    if accepted {
                        assert forall|t: int| 0 <= t < emitted.len() implies emitted[t] != item by {
                            assert(came_from(self.order@, emitted[t], lo, k as int));
                            let p = choose|p: int| lo <= p < k && self.order@[p] == emitted[t];
                            assert(self.order@[p] != self.order@[k as int]);
                        }
                        assert forall|t: int| 0 <= t < grown.len() implies #[trigger] came_from(
                            self.order@,
                            grown[t],
                            lo,
                            k + 1,
                        ) by {
                            if t < emitted.len() {
                                assert(grown[t] == emitted[t]);
                            } else {
                                assert(self.order@[k as int] == grown[t]);
                            }
                        }
                        assert forall|t: int| 0 <= t < grown.len() implies hit.ensures(
                            (self.boxes@[#[trigger] grown[t] as int],),
                            true,
                        ) by {
                            if t < emitted.len() {
                                assert(grown[t] == emitted[t]);
                            }
                        }
                    }
                    assert forall|p: int|
                        lo <= p < k + 1 && !box_has_nan(self.boxes@[self.order@[p] as int])
                            && always_hit(*hit, self.boxes@[self.order@[p] as int]) implies grown.contains(
                        #[trigger] self.order@[p],
                    ) by {
                        if p < k {
                            let t = choose|t: int| 0 <= t < emitted.len() && emitted[t] == self.order@[p];
                            assert(grown[t] == emitted[t]);
                        } else {
                            assert(accepted);
                            assert(grown[emitted.len() as int] == self.order@[p]);
                        }
                    }
                    let grown_positions = if accepted {
                        positions.push(k - lo)
                    } else {
                        positions
                    };
                    assert(walk[k - lo] == self.order@[k as int]);
                    assert forall|t: int| 0 <= t < grown.len() implies 0 <= #[trigger] grown_positions[t] < k + 1 - lo
                        && grown[t] == walk[grown_positions[t]] by {
                        if t < emitted.len() {
                            assert(grown[t] == emitted[t] && grown_positions[t] == positions[t]);
                        }
                    }
                    assert forall|t: int, u: int| 0 <= t < u < grown.len() implies grown_positions[t] < grown_positions[u] by {
                        if u < emitted.len() {
                            assert(grown_positions[t] == positions[t] && grown_positions[u] == positions[u]);
                        } else {
                            assert(grown_positions[t] == positions[t]);
                        }
                    }
                    emitted = grown;
                    positions = grown_positions;
                }
                if accepted {
                    out.push(item);
                }
                k = k + 1;
            }
            proof {
                assert(positions.len() == emitted.len());
                assert(in_order_within(emitted, walk));
            }
            return Ghost(emitted);
        }
        let from_right = self.visit_node(node.right, hit, out);
        let from_left = self.visit_node(node.left, hit, out);
        proof {
            let mid = lo + (hi - lo) / 2;
            let er = from_right@;
            let el = from_left@;
            let both = er + el;
            lemma_walk_split(self.order@, lo, mid, hi);
            assert(self.ranges@[node.right as int] == (mid, hi));
            assert(self.ranges@[node.left as int] == (lo, mid));
            assert(self.ranges@[node.right as int].0 == mid);
            assert(self.ranges@[node.right as int].1 == hi);
            assert(self.ranges@[node.left as int].0 == lo);
            assert(self.ranges@[node.left as int].1 == mid);
            assert forall|a: int, b: int| 0 <= a < both.len() && 0 <= b < both.len() && a != b implies both[a]
                != both[b] by {
                if a < er.len() && b >= er.len() {
                    assert(came_from(self.order@, er[a], mid, hi));
                    assert(came_from(self.order@, el[b - er.len()], lo, mid));
                    let pa = choose|p: int| mid <= p < hi && self.order@[p] == er[a];
                    let pb = choose|p: int| lo <= p < mid && self.order@[p] == el[b - er.len()];
                    assert(self.order@[pa] != self.order@[pb]);
                } else if a >= er.len() && b < er.len() {
                    assert(came_from(self.order@, el[a - er.len()], lo, mid));
                    assert(came_from(self.order@, er[b], mid, hi));
                    let pa = choose|p: int| lo <= p < mid && self.order@[p] == el[a - er.len()];
                    let pb = choose|p: int| mid <= p < hi && self.order@[p] == er[b];
                    assert(self.order@[pa] != self.order@[pb]);
                } else if a < er.len() {
                } else {
                    assert(both[a] == el[a - er.len()]);
                    assert(both[b] == el[b - er.len()]);
                }
            }
            assert forall|t: int| 0 <= t < both.len() implies #[trigger] came_from(self.order@, both[t], lo, hi) by {
                if t < er.len() {
                    assert(came_from(self.order@, er[t], mid, hi));
                    let p = choose|p: int| mid <= p < hi && self.order@[p] == er[t];
                    assert(self.order@[p] == both[t]);
                } else {
                    assert(both[t] == el[t - er.len()]);
                    assert(came_from(self.order@, el[t - er.len()], lo, mid));
                    let p = choose|p: int| lo <= p < mid && self.order@[p] == el[t - er.len()];
                    assert(self.order@[p] == both[t]);
                }
            }
            assert forall|t: int| 0 <= t < both.len() implies hit.ensures(
                (self.boxes@[#[trigger] both[t] as int],),
                true,
            ) by {
                if t < er.len() {
                    assert(both[t] == er[t]);
                } else {
                    assert(both[t] == el[t - er.len()]);
                }
            }
            assert forall|k: int|
                lo <= k < hi && !box_has_nan(self.boxes@[self.order@[k] as int]) && always_hit(
                    *hit,
                    self.boxes@[self.order@[k] as int],
                ) implies both.contains(#[trigger] self.order@[k]) by {
                if k < mid {
                    assert(el.contains(self.order@[k]));
                    let t = choose|t: int| 0 <= t < el.len() && el[t] == self.order@[k];
                    assert(both[er.len() + t] == el[t]);
                } else {
                    assert(er.contains(self.order@[k]));
                    let t = choose|t: int| 0 <= t < er.len() && er[t] == self.order@[k];
                    assert(both[t] == er[t]);
                }
            }
            lemma_in_order_concat(er, walk_items_in(self.order@, mid, hi), el, walk_items_in(self.order@, lo, mid));
        }
        Ghost(from_right@ + from_left@)
    }

    /// Append to `out` the index of every item whose box `hit` accepts,
    /// skipping every subtree whose box `hit` rejects.
    ///
    /// The query helpers (`overlapping`, `intersecting_segment`,
    /// `containing_point`) are this walk with a box test that accepts an
    /// enclosing box whenever it accepts the enclosed one.
    pub fn visit<F: Fn(Aabb) -> bool>(&self, hit: F, out: &mut Vec<usize>)
        requires
            forall|b: Aabb| hit.requires((b,)),
        ensures
            final(out)@.len() >= old(out)@.len(),
            final(out)@.subrange(0, old(out)@.len() as int) == old(out)@,
            reported_ok(self@, hit, final(out)@.subrange(old(out)@.len() as int, final(out)@.len() as int)),
            in_order_within(
                final(out)@.subrange(old(out)@.len() as int, final(out)@.len() as int),
                self.walk_items(),
            ),
    {
        proof {
            use_type_invariant(self);
        }
        if self.nodes.len() == 0 {
            proof {
                assert(out@.subrange(0, out@.len() as int) == out@);
                assert(self.boxes@.len() == 0);
                let none: Seq<int> = Seq::empty();
                assert(out@.subrange(out@.len() as int, out@.len() as int) =~= Seq::<usize>::empty());
                assert(none.len() == Seq::<usize>::empty().len());
            }
            return;
        }
        let emitted = self.visit_node(0, &hit, out);
        proof {
            let n = self.boxes@.len() as int;
            let e = emitted@;
            assert(self.ranges@[0].0 == 0 && self.ranges@[0].1 == n);
            assert(out@.subrange(0, old(out)@.len() as int) == old(out)@);
            assert(out@.subrange(old(out)@.len() as int, out@.len() as int) == e);
            assert forall|t: int| 0 <= t < e.len() implies #[trigger] e[t] < n && hit.ensures(
                (self.boxes@[e[t] as int],),
                true,
            ) by {
                assert(came_from(self.order@, e[t], 0, n));
                let k = choose|k: int| 0 <= k < n && self.order@[k] == e[t];
            }
            assert forall|i: usize|
                i < n && !box_has_nan(self.boxes@[i as int]) && always_hit(hit, self.boxes@[i as int]) implies #[trigger] e.contains(
                i,
            ) by {
                assert(self.order@.contains(i));
                let k = choose|k: int| 0 <= k < self.order@.len() && self.order@[k] == i;
                assert(0 <= k < n);
                assert(e.contains(self.order@[k]));
            }
        }
    }
}

impl View for Bvh {
    type V = Seq<Aabb>;

    /// The boxes the tree was built over, in their original order.
    closed spec fn view(&self) -> Seq<Aabb> {
        self.boxes@
    }
}

} // verus!
