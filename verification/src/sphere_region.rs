//! The trim of a spherical face as directed boundary arcs, and the crossing
//! parity that classifies points against it.
//!
//! A face's trim arrives as closed polylines or as loose directed segments.
//! Before anything geometric happens the segments are matched up exactly, by
//! the bit patterns of their endpoints: a segment whose ends are the same
//! point (a collapsed pole loop) is dropped, and each directed segment is
//! cancelled against a matching reverse, so a seam traversed once each way by
//! the same face leaves nothing behind. What survives is the material
//! boundary.
//!
//! The geometric primitives — normalizing a direction, the plane of an arc,
//! whether two arcs cross, where to route a parity path — are floating-point
//! arithmetic the caller supplies as closures; the counting, cancellation and
//! the majority vote that decides containment are here.
use vstd::prelude::*;

use crate::float_bits::{total_key, total_key_of};
use crate::spatial::Vec3;

verus! {

/// A directed boundary segment: start point, end point.
pub type Segment = (Vec3, Vec3);

/// The segment run the other way.
pub open spec fn reversed(segment: Segment) -> Segment {
    (segment.1, segment.0)
}

/// A segment whose two ends are the same point.
pub open spec fn collapsed(segment: Segment) -> bool {
    segment.0 == segment.1
}

/// How many times `segment` occurs in `segments`.
pub open spec fn occurrences(segments: Seq<Segment>, segment: Segment) -> nat
    decreases segments.len(),
{
    if segments.len() == 0 {
        0
    } else {
        occurrences(segments.drop_last(), segment) + if segments.last() == segment {
            1nat
        } else {
            0nat
        }
    }
}

/// The segments that are not collapsed, in order.
pub open spec fn directed(segments: Seq<Segment>) -> Seq<Segment>
    decreases segments.len(),
{
    if segments.len() == 0 {
        Seq::empty()
    } else if collapsed(segments.last()) {
        directed(segments.drop_last())
    } else {
        directed(segments.drop_last()).push(segments.last())
    }
}

/// How many copies of `segment` outlive cancellation against its reverse:
/// its count less its reverse's count, or none.
pub open spec fn budget(segments: Seq<Segment>, segment: Segment) -> nat {
    let forward = occurrences(segments, segment);
    let backward = occurrences(segments, reversed(segment));
    if forward > backward {
        (forward - backward) as nat
    } else {
        0
    }
}

/// Whether the `i`-th segment survives: the copies of it that come first
/// are the ones that outlive cancellation.
pub open spec fn kept(segments: Seq<Segment>, i: int) -> bool {
    occurrences(segments.take(i), segments[i]) < budget(segments, segments[i])
}

/// The surviving segments among the first `k`, in order.
pub open spec fn survivors(segments: Seq<Segment>, k: int) -> Seq<Segment>
    decreases k,
{
    if k <= 0 {
        Seq::empty()
    } else if kept(segments, k - 1) {
        survivors(segments, k - 1).push(segments[k - 1])
    } else {
        survivors(segments, k - 1)
    }
}

/// The material boundary left of `segments`: collapsed segments dropped,
/// every directed segment cancelled against a matching reverse.
pub open spec fn slit_free(segments: Seq<Segment>) -> Seq<Segment> {
    survivors(directed(segments), directed(segments).len() as int)
}

/// Whether two segments are the same directed segment, endpoint bits and
/// all.
fn same_segment(a: Segment, b: Segment) -> (result: bool)
    ensures
        result == (a == b),
{
    a.0 == b.0 && a.1 == b.1
}

/// How many times `segment` occurs among the first `end` of `segments`.
fn count_before(segments: &Vec<Segment>, end: usize, segment: Segment) -> (result: usize)
    requires
        end <= segments@.len(),
    ensures
        result == occurrences(segments@.take(end as int), segment),
        result <= end,
{
    let mut count: usize = 0;
    let mut index: usize = 0;
    while index < end
        invariant
            index <= end,
            end <= segments@.len(),
            count <= index,
            count == occurrences(segments@.take(index as int), segment),
        decreases end - index,
    {
        assert(segments@.take(index + 1).drop_last() == segments@.take(index as int));
        if same_segment(segments[index], segment) {
            count = count + 1;
        }
        index = index + 1;
    }
    count
}

/// Drop collapsed segments and cancel each directed segment against a
/// matching reverse; what is returned is the material boundary, in the
/// order the surviving segments were given.
pub fn cancel_slits(segments: &[Segment]) -> (result: Vec<Segment>)
    ensures
        result@ == slit_free(segments@),
{
    let mut live: Vec<Segment> = Vec::new();
    let mut index: usize = 0;
    while index < segments.len()
        invariant
            index <= segments@.len(),
            live@ == directed(segments@.take(index as int)),
        decreases segments@.len() - index,
    {
        assert(segments@.take(index + 1).drop_last() == segments@.take(index as int));
        let segment = segments[index];
        if segment.0 != segment.1 {
            live.push(segment);
        }
        index = index + 1;
    }
    assert(segments@.take(segments@.len() as int) == segments@);
    let total = live.len();
    let mut result: Vec<Segment> = Vec::new();
    let mut position: usize = 0;
    while position < total
        invariant
            position <= total,
            total == live@.len(),
            live@ == directed(segments@),
            result@ == survivors(live@, position as int),
        decreases total - position,
    {
        let segment = live[position];
        let forward = count_before(&live, total, segment);
        let backward = count_before(&live, total, (segment.1, segment.0));
        let allowance = if forward > backward {
            forward - backward
        } else {
            0
        };
        let earlier = count_before(&live, position, segment);
        assert(live@.take(total as int) == live@);
        if earlier < allowance {
            result.push(segment);
        }
        position = position + 1;
    }
    result
}

/// A segment and its reverse never both survive cancellation.
pub proof fn lemma_no_segment_survives_with_its_reverse(segments: Seq<Segment>, segment: Segment)
    requires
        slit_free(segments).contains(segment),
    ensures
        !slit_free(segments).contains(reversed(segment)),
{
    let d = directed(segments);
    lemma_survivors_are_kept(d, d.len() as int);
    let t = choose|t: int| 0 <= t < slit_free(segments).len() && slit_free(segments)[t] == segment;
    assert(budget(d, segment) > 0);
    if slit_free(segments).contains(reversed(segment)) {
        let u = choose|u: int|
            0 <= u < slit_free(segments).len() && slit_free(segments)[u] == reversed(segment);
        assert(reversed(reversed(segment)) == segment);
        assert(budget(d, reversed(segment)) > 0);
    }
}

/// Every survivor among the first `k` was kept: it has a positive budget.
proof fn lemma_survivors_are_kept(segments: Seq<Segment>, k: int)
    requires
        k <= segments.len(),
    ensures
        forall|t: int|
            0 <= t < survivors(segments, k).len() ==> budget(
                segments,
                #[trigger] survivors(segments, k)[t],
            ) > 0,
    decreases k,
{
    if k > 0 {
        lemma_survivors_are_kept(segments, k - 1);
        let before = survivors(segments, k - 1);
        assert forall|t: int| 0 <= t < survivors(segments, k).len() implies budget(
            segments,
            #[trigger] survivors(segments, k)[t],
        ) > 0 by {
            if t < before.len() {
                assert(survivors(segments, k)[t] == before[t]);
            } else {
                assert(kept(segments, k - 1));
                assert(survivors(segments, k)[t] == segments[k - 1]);
            }
        }
    }
}

/// Appending one segment adds one to its own count and nothing to any other.
proof fn lemma_occurrences_push(segments: Seq<Segment>, added: Segment, counted: Segment)
    ensures
        occurrences(segments.push(added), counted) == occurrences(segments, counted) + if added
            == counted {
            1nat
        } else {
            0nat
        },
{
    assert(segments.push(added).drop_last() =~= segments);
}

/// Two sequences that agree on their first `k` entries, and on which of them
/// are kept, agree on their first `k` survivors.
proof fn lemma_survivors_agree(a: Seq<Segment>, b: Seq<Segment>, k: int)
    requires
        0 <= k <= a.len(),
        k <= b.len(),
        forall|i: int| 0 <= i < k ==> a[i] == b[i] && kept(a, i) == kept(b, i),
    ensures
        survivors(a, k) == survivors(b, k),
    decreases k,
{
    if k > 0 {
        lemma_survivors_agree(a, b, k - 1);
    }
}

/// A slit cancels: appending a segment and its own reverse to the trim leaves
/// the material boundary exactly as it was. This is what makes a seam that a
/// face traverses once each way — or any doubled-back cut — invisible to the
/// classifier.
pub proof fn lemma_slit_cancels(segments: Seq<Segment>, segment: Segment)
    requires
        !collapsed(segment),
    ensures
        slit_free(segments + seq![segment, reversed(segment)]) == slit_free(segments),
{
    let back = reversed(segment);
    let extended = segments + seq![segment, back];
    let d = directed(segments);
    let n = d.len() as int;
    assert(extended.drop_last() =~= segments.push(segment));
    assert(segments.push(segment).drop_last() =~= segments);
    assert(extended.last() == back);
    assert(segments.push(segment).last() == segment);
    assert(!collapsed(back));
    let d1 = d.push(segment);
    let d2 = d1.push(back);
    assert(directed(segments.push(segment)) == d1);
    assert(directed(extended) == d2);
    assert(segment != back);
    // Every budget is unchanged: each pair of counts grows by one together.
    assert forall|y: Segment| #[trigger] budget(d2, y) == budget(d, y) by {
        lemma_occurrences_push(d, segment, y);
        lemma_occurrences_push(d1, back, y);
        lemma_occurrences_push(d, segment, reversed(y));
        lemma_occurrences_push(d1, back, reversed(y));
        if y == segment {
            assert(reversed(y) == back);
        } else if y == back {
            assert(reversed(y) == segment);
        } else {
            assert(reversed(y) != segment);
            assert(reversed(y) != back);
        }
    }
    assert forall|i: int| 0 <= i < n implies d2[i] == d[i] && kept(d2, i) == kept(d, i) by {
        assert(d2.take(i) =~= d.take(i));
        assert(budget(d2, d[i]) == budget(d, d[i]));
    }
    lemma_survivors_agree(d2, d, n);
    // The two appended segments are each outnumbered by what they cancel.
    assert(d2.take(n) =~= d);
    assert(d2.take(n + 1) =~= d1);
    assert(d2[n] == segment);
    assert(d2[n + 1] == back);
    lemma_occurrences_push(d, segment, back);
    assert(budget(d2, segment) == budget(d, segment));
    assert(budget(d2, back) == budget(d, back));
    assert(!kept(d2, n));
    assert(!kept(d2, n + 1));
    assert(survivors(d2, n + 2) == survivors(d2, n + 1));
    assert(survivors(d2, n + 1) == survivors(d2, n));
}

/// Among the first `k` segments, the survivors hold each segment as many
/// times as it occurs there, up to its budget.
proof fn lemma_survivor_count(segments: Seq<Segment>, k: int, segment: Segment)
    requires
        0 <= k <= segments.len(),
    ensures
        occurrences(survivors(segments, k), segment) == if occurrences(segments.take(k), segment)
            < budget(segments, segment) {
            occurrences(segments.take(k), segment)
        } else {
            budget(segments, segment)
        },
    decreases k,
{
    if k == 0 {
        assert(segments.take(0) =~= Seq::<Segment>::empty());
    } else {
        lemma_survivor_count(segments, k - 1, segment);
        assert(segments.take(k) =~= segments.take(k - 1).push(segments[k - 1]));
        lemma_occurrences_push(segments.take(k - 1), segments[k - 1], segment);
        if kept(segments, k - 1) {
            lemma_occurrences_push(survivors(segments, k - 1), segments[k - 1], segment);
        }
    }
}

/// Exactly the uncancelled copies survive: each directed segment is left as
/// many times as it occurs beyond its reverse, and not at all when its
/// reverse occurs as often or more.
pub proof fn lemma_survivors_are_the_uncancelled_copies(segments: Seq<Segment>, segment: Segment)
    ensures
        occurrences(slit_free(segments), segment) == budget(directed(segments), segment),
{
    let d = directed(segments);
    lemma_survivor_count(d, d.len() as int, segment);
    assert(d.take(d.len() as int) =~= d);
}

/// One directed boundary arc on the unit sphere: the unit directions of its
/// ends, and the unit normal of the great-circle plane through them (zero
/// when the ends name no plane).
#[derive(Clone, Copy, Debug)]
pub struct Arc {
    pub start: Vec3,
    pub end: Vec3,
    pub normal: Vec3,
}

/// The closing ring of one polyline: each point to the next, the last back
/// to the first.
pub open spec fn ring_segments(points: Seq<Vec3>) -> Seq<Segment> {
    Seq::new(points.len(), |i: int| (points[i], points[(i + 1) % (points.len() as int)]))
}

/// The rings of all polylines, one after another.
pub open spec fn loops_segments(loops: Seq<Seq<Vec3>>) -> Seq<Segment>
    decreases loops.len(),
{
    if loops.len() == 0 {
        Seq::empty()
    } else {
        loops_segments(loops.drop_last()) + ring_segments(loops.last())
    }
}

/// A ring joins each point of a closed polyline to the one after it and
/// the last point back to the first: one segment per point.
pub proof fn lemma_ring_closes(points: Seq<Vec3>)
    requires
        points.len() >= 1,
    ensures
        ring_segments(points).len() == points.len(),
        forall|i: int|
            0 <= i < points.len() - 1 ==> #[trigger] ring_segments(points)[i] == (
                points[i],
                points[i + 1],
            ),
        ring_segments(points)[points.len() - 1] == (points[points.len() - 1], points[0]),
{
    let n = points.len() as int;
    assert forall|i: int| 0 <= i < n - 1 implies #[trigger] ring_segments(points)[i] == (
        points[i],
        points[i + 1],
    ) by {
        assert((i + 1) % n == i + 1) by (nonlinear_arith)
            requires
                0 <= i + 1 < n,
        ;
    }
    assert(n % n == 0) by (nonlinear_arith)
        requires
            n >= 1,
    ;
}

/// A ring of two or more distinct points has no collapsed segment: each
/// segment joins two different points.
pub proof fn lemma_ring_not_collapsed(points: Seq<Vec3>)
    requires
        points.len() >= 2,
        points.no_duplicates(),
    ensures
        forall|i: int|
            0 <= i < points.len() ==> #[trigger] ring_segments(points)[i].0 != ring_segments(
                points,
            )[i].1,
{
    lemma_ring_closes(points);
    let n = points.len() as int;
    assert forall|i: int| 0 <= i < n implies #[trigger] ring_segments(points)[i].0 != ring_segments(
        points,
    )[i].1 by {
        if i < n - 1 {
            assert(ring_segments(points)[i] == (points[i], points[i + 1]));
        } else {
            assert(ring_segments(points)[i] == (points[n - 1], points[0]));
        }
    }
}

/// Every edge of every trim loop is among the segments the loops give:
/// point `i` of loop `k` joined to the next point of that loop, the last
/// point joined back to the first.
pub proof fn lemma_loops_hold_every_edge(loops: Seq<Seq<Vec3>>, k: int, i: int)
    requires
        0 <= k < loops.len(),
        0 <= i < loops[k].len(),
    ensures
        loops_segments(loops).contains(
            (
                loops[k][i],
                loops[k][if i + 1 < loops[k].len() {
                    i + 1
                } else {
                    0
                }],
            ),
        ),
    decreases loops.len(),
{
    let last = loops.len() - 1;
    let edge = (
        loops[k][i],
        loops[k][if i + 1 < loops[k].len() {
            i + 1
        } else {
            0
        }],
    );
    let before = loops_segments(loops.drop_last());
    assert(loops_segments(loops) == before + ring_segments(loops.last()));
    if k == last {
        lemma_ring_closes(loops[k]);
        let ring = ring_segments(loops[k]);
        if i + 1 < loops[k].len() {
            assert(ring[i] == edge);
        } else {
            assert(ring[i] == edge);
        }
        assert((before + ring)[before.len() + i] == edge);
    } else {
        assert(loops.drop_last()[k] == loops[k]);
        lemma_loops_hold_every_edge(loops.drop_last(), k, i);
        let w = choose|w: int| 0 <= w < before.len() && before[w] == edge;
        assert((before + ring_segments(loops.last()))[w] == edge);
    }
}

/// Every segment the trim loops give is an edge of one of them: point `i`
/// of some loop joined to the next point of that loop, or the last point
/// back to the first.
pub proof fn lemma_segments_are_loop_edges(loops: Seq<Seq<Vec3>>, w: int)
    requires
        0 <= w < loops_segments(loops).len(),
    ensures
        exists|k: int, i: int|
            0 <= k < loops.len() && 0 <= i < loops[k].len() && #[trigger] loops_segments(loops)[w]
                == (#[trigger] loops[k][i], loops[k][if i + 1 < loops[k].len() {
                i + 1
            } else {
                0
            }]),
    decreases loops.len(),
{
    let last = loops.len() - 1;
    let before = loops_segments(loops.drop_last());
    let ring = ring_segments(loops.last());
    assert(loops_segments(loops) == before + ring);
    if w < before.len() {
        lemma_segments_are_loop_edges(loops.drop_last(), w);
        let (k, i) = choose|k: int, i: int|
            0 <= k < loops.drop_last().len() && 0 <= i < loops.drop_last()[k].len()
                && #[trigger] loops_segments(loops.drop_last())[w] == (#[trigger] loops.drop_last()[k][i], loops.drop_last()[k][if i + 1 < loops.drop_last()[k].len() {
                i + 1
            } else {
                0
            }]);
        assert(loops.drop_last()[k] == loops[k]);
        assert(loops_segments(loops)[w] == before[w]);
    } else {
        let i = w - before.len();
        lemma_ring_closes(loops[last]);
        assert(loops_segments(loops)[w] == ring[i]);
        assert(loops_segments(loops)[w] == (loops[last][i], loops[last][if i + 1 < loops[last].len() {
            i + 1
        } else {
            0
        }]));
    }
}

/// The views of a list of polylines.
pub open spec fn polyline_views(polylines: Seq<Vec<Vec3>>) -> Seq<Seq<Vec3>> {
    polylines.map_values(|polyline: Vec<Vec3>| polyline@)
}

/// How many of `answers` are `true`.
pub open spec fn true_count(answers: Seq<bool>) -> nat
    decreases answers.len(),
{
    if answers.len() == 0 {
        0
    } else {
        true_count(answers.drop_last()) + if answers.last() {
            1nat
        } else {
            0nat
        }
    }
}

/// `count` is what [`crossings`] can return for the leg `from -> to`: zero
/// when the leg names no plane, otherwise the number of boundary arcs the
/// crossing test accepted against the leg's plane.
pub open spec fn crossing_count<L: Fn(Vec3, Vec3) -> Option<Vec3>, C: Fn(Vec3, Vec3, Vec3, Arc) -> bool>(
    arcs: Seq<Arc>,
    from: Vec3,
    to: Vec3,
    leg: L,
    crosses: C,
    count: nat,
) -> bool {
    exists|plane: Option<Vec3>|
        #[trigger] leg.ensures((from, to), plane) && match plane {
            None => count == 0,
            Some(normal) => exists|answers: Seq<bool>|
                answers.len() == arcs.len() && (forall|k: int|
                    0 <= k < arcs.len() ==> #[trigger] crosses.ensures(
                        (from, to, normal, arcs[k]),
                        answers[k],
                    )) && count == true_count(answers),
        }
}

/// `vote` is what the parity route number `index` from `from` to `to` can
/// contribute: nothing when no via point exists, otherwise whether the two
/// legs through the via point cross the boundary an even number of times.
pub open spec fn route_vote<
    V: Fn(Vec3, Vec3, usize) -> Option<Vec3>,
    L: Fn(Vec3, Vec3) -> Option<Vec3>,
    C: Fn(Vec3, Vec3, Vec3, Arc) -> bool,
>(
    arcs: Seq<Arc>,
    from: Vec3,
    to: Vec3,
    index: usize,
    via: V,
    leg: L,
    crosses: C,
    vote: Option<bool>,
) -> bool {
    exists|middle: Option<Vec3>|
        #[trigger] via.ensures((from, to, index), middle) && match middle {
            None => vote is None,
            Some(point) => exists|first: nat, second: nat|
                crossing_count(arcs, from, point, leg, crosses, first) && crossing_count(
                    arcs,
                    point,
                    to,
                    leg,
                    crosses,
                    second,
                ) && vote == Some((first + second) % 2 == 0),
        }
}

/// How many routes voted `even`.
pub open spec fn votes_for(votes: Seq<Option<bool>>, even: bool) -> nat
    decreases votes.len(),
{
    if votes.len() == 0 {
        0
    } else {
        votes_for(votes.drop_last(), even) + if votes.last() == Some(even) {
            1nat
        } else {
            0nat
        }
    }
}

/// Material when at least as many routes cross the boundary an even
/// number of times as cross it an odd number of times.
pub open spec fn majority_even(votes: Seq<Option<bool>>) -> bool {
    votes_for(votes, true) >= votes_for(votes, false)
}

/// The trim of a spherical face, as directed boundary arcs on the unit
/// sphere, ready to classify points by crossing parity against a seed
/// direction known to be material.
#[derive(Clone, Debug)]
pub struct SphericalRegion {
    arcs: Vec<Arc>,
    seed: Option<Vec3>,
}

/// Number of boundary arcs the legs `from -> to` cross, by the caller's
/// crossing test against the leg's plane; zero when the leg names no plane.
pub fn crossings<L: Fn(Vec3, Vec3) -> Option<Vec3>, C: Fn(Vec3, Vec3, Vec3, Arc) -> bool>(
    arcs: &Vec<Arc>,
    from: Vec3,
    to: Vec3,
    leg: &L,
    crosses: &C,
) -> (count: usize)
    requires
        forall|a: Vec3, b: Vec3| leg.requires((a, b)),
        forall|a: Vec3, b: Vec3, n: Vec3, arc: Arc| crosses.requires((a, b, n, arc)),
    ensures
        count <= arcs@.len(),
        crossing_count(arcs@, from, to, *leg, *crosses, count as nat),
{
    let plane = leg(from, to);
    match plane {
        None => 0,
        Some(normal) => {
            let mut count: usize = 0;
            let mut index: usize = 0;
            let ghost mut answers: Seq<bool> = Seq::empty();
            while index < arcs.len()
                invariant
                    index <= arcs@.len(),
                    count <= index,
                    answers.len() == index,
                    forall|a: Vec3, b: Vec3, n: Vec3, arc: Arc| crosses.requires((a, b, n, arc)),
                    forall|k: int|
                        0 <= k < index ==> #[trigger] crosses.ensures(
                            (from, to, normal, arcs@[k]),
                            answers[k],
                        ),
                    count == true_count(answers),
                decreases arcs@.len() - index,
            {
                let answer = crosses(from, to, normal, arcs[index]);
                proof {
                    let grown = answers.push(answer);
                    assert(grown.drop_last() =~= answers);
                    assert forall|k: int| 0 <= k < index + 1 implies #[trigger] crosses.ensures(
                        (from, to, normal, arcs@[k]),
                        grown[k],
                    ) by {
                        if k < index {
                            assert(grown[k] == answers[k]);
                        }
                    }
                    answers = grown;
                }
                if answer {
                    count = count + 1;
                }
                index = index + 1;
            }
            proof {
                assert(leg.ensures((from, to), plane));
            }
            count
        },
    }
}

impl Default for SphericalRegion {
    /// The region with no boundary and no seed: the whole sphere.
    fn default() -> (result: Self)
        ensures
            result.arcs().len() == 0,
            result.seed() is None,
    {
        SphericalRegion { arcs: Vec::new(), seed: None }
    }
}

impl SphericalRegion {
    /// The boundary arcs, with slits already cancelled.
    pub closed spec fn arcs(self) -> Seq<Arc> {
        self.arcs@
    }

    /// The boundary arcs as the seed search was handed them.
    pub closed spec fn arc_list(self) -> Vec<Arc> {
        self.arcs
    }

    /// A unit direction known to be material, if the seed search found one.
    pub closed spec fn seed(self) -> Option<Vec3> {
        self.seed
    }

    /// Build the region from the face's trim loops given as closed
    /// polylines: every point joined to the next and the last back to the
    /// first, then handed to [`SphericalRegion::from_segments`].
    pub fn new<
        D: Fn(Vec3, Vec3) -> Option<Vec3>,
        M: Fn(Vec3, Vec3) -> Option<Arc>,
        S: Fn(&Vec<Arc>, bool) -> Option<Vec3>,
    >(
        centre: Vec3,
        polylines: &[Vec<Vec3>],
        outward_face_normal: bool,
        direction: &D,
        make_arc: &M,
        seed_from: &S,
    ) -> (result: Self)
        requires
            forall|p: Vec3, c: Vec3| direction.requires((p, c)),
            forall|a: Vec3, b: Vec3| make_arc.requires((a, b)),
            forall|arcs: &Vec<Arc>, outward: bool| seed_from.requires((arcs, outward)),
        ensures
            built_from(
                result,
                centre,
                loops_segments(polyline_views(polylines@)),
                outward_face_normal,
                *direction,
                *make_arc,
                *seed_from,
            ),
    {
        let mut segments: Vec<Segment> = Vec::new();
        let ghost views = polyline_views(polylines@);
        let mut k: usize = 0;
        while k < polylines.len()
            invariant
                k <= polylines@.len(),
                views == polyline_views(polylines@),
                views.len() == polylines@.len(),
                segments@ == loops_segments(views.take(k as int)),
            decreases polylines@.len() - k,
        {
            let polyline = &polylines[k];
            let count = polyline.len();
            let ghost before = segments@;
            assert(views[k as int] == polyline@);
            let mut index: usize = 0;
            while index < count
                invariant
                    index <= count,
                    count == polyline@.len(),
                    segments@ == before + ring_segments(polyline@).take(index as int),
                decreases count - index,
            {
                let next = (index + 1) % count;
                segments.push((polyline[index], polyline[next]));
                assert(ring_segments(polyline@).take(index + 1) =~= ring_segments(polyline@).take(
                    index as int,
                ).push((polyline@[index as int], polyline@[next as int])));
                index = index + 1;
            }
            assert(ring_segments(polyline@).take(count as int) =~= ring_segments(polyline@));
            assert(views.take(k + 1).drop_last() =~= views.take(k as int));
            assert(views.take(k + 1).last() == views[k as int]);
            k = k + 1;
        }
        assert(views.take(polylines@.len() as int) =~= views);
        Self::from_segments(centre, &segments, outward_face_normal, direction, make_arc, seed_from)
    }

    /// Build the region from the directed boundary segments themselves.
    ///
    /// Collapsed segments are dropped and slits cancelled
    /// ([`cancel_slits`]); each surviving segment becomes an arc when both its
    /// ends have a direction from `centre` and `make_arc` accepts the pair
    /// (the ends are distinct and their plane is computed). The seed is then
    /// searched for over the arcs, on the material side the face normal
    /// names.
    pub fn from_segments<
        D: Fn(Vec3, Vec3) -> Option<Vec3>,
        M: Fn(Vec3, Vec3) -> Option<Arc>,
        S: Fn(&Vec<Arc>, bool) -> Option<Vec3>,
    >(
        centre: Vec3,
        segments: &[Segment],
        outward_face_normal: bool,
        direction: &D,
        make_arc: &M,
        seed_from: &S,
    ) -> (result: Self)
        requires
            forall|p: Vec3, c: Vec3| direction.requires((p, c)),
            forall|a: Vec3, b: Vec3| make_arc.requires((a, b)),
            forall|arcs: &Vec<Arc>, outward: bool| seed_from.requires((arcs, outward)),
        ensures
            built_from(
                result,
                centre,
                segments@,
                outward_face_normal,
                *direction,
                *make_arc,
                *seed_from,
            ),
    {
        let boundary = cancel_slits(segments);
        let mut arcs: Vec<Arc> = Vec::new();
        let ghost mut sources: Seq<int> = Seq::empty();
        let mut index: usize = 0;
        while index < boundary.len()
            invariant
                index <= boundary@.len(),
                boundary@ == slit_free(segments@),
                forall|p: Vec3, c: Vec3| direction.requires((p, c)),
                forall|a: Vec3, b: Vec3| make_arc.requires((a, b)),
                arcs_from_prefix(boundary@, index as int, arcs@, sources, centre, *direction, *make_arc),
            decreases boundary@.len() - index,
        {
            let (a, b) = boundary[index];
            let start = direction(a, centre);
            let end = direction(b, centre);
            let ghost old_arcs = arcs@;
            let ghost old_sources = sources;
            let mut made: Option<Arc> = None;
            match (start, end) {
                (Some(u), Some(v)) => {
                    made = make_arc(u, v);
                    match made {
                        Some(arc) => {
                            arcs.push(arc);
                            proof {
                                sources = sources.push(index as int);
                            }
                        },
                        None => {},
                    }
                },
                _ => {},
            }
            proof {
                assert forall|t: int| 0 <= t < arcs@.len() implies arc_made(
                    boundary@[#[trigger] sources[t]],
                    arcs@[t],
                    centre,
                    *direction,
                    *make_arc,
                ) by {
                    if t < old_arcs.len() {
                        assert(sources[t] == old_sources[t]);
                        assert(arcs@[t] == old_arcs[t]);
                    } else {
                        assert(direction.ensures((a, centre), start));
                        assert(direction.ensures((b, centre), end));
                    }
                }
                assert forall|j: int|
                    0 <= j < index + 1 && !sources.contains(j) implies #[trigger] arc_refused(
                    boundary@[j],
                    centre,
                    *direction,
                    *make_arc,
                ) by {
                    if j < index {
                        if old_sources.contains(j) {
                            let t = choose|t: int| 0 <= t < old_sources.len() && old_sources[t] == j;
                            assert(sources[t] == j);
                        }
                    } else {
                        assert(boundary@[j] == (a, b));
                        assert(direction.ensures((a, centre), start));
                        assert(direction.ensures((b, centre), end));
                        if start is Some && end is Some {
                            assert(make_arc.ensures((start.unwrap(), end.unwrap()), made));
                            if made is Some {
                                assert(sources[old_sources.len() as int] == j);
                                assert(sources.contains(j));
                            }
                        }
                    }
                }
            }
            index = index + 1;
        }
        let seed = if arcs.len() == 0 {
            None
        } else {
            seed_from(&arcs, outward_face_normal)
        };
        SphericalRegion { arcs, seed }
    }

    /// Whether the face has no material boundary at all — an untrimmed ball,
    /// whose only loops were the seam slit and the two collapsed poles.
    pub fn is_whole_sphere(&self) -> (result: bool)
        ensures
            result == (self.arcs().len() == 0),
    {
        self.arcs.len() == 0
    }

    /// Whether this region can answer at all: either it has no boundary, or
    /// the seed search cleared one. A region with arcs but no seed must make
    /// its caller decline.
    pub fn is_decidable(&self) -> (result: bool)
        ensures
            result == (self.arcs().len() == 0 || self.seed() is Some),
    {
        self.arcs.len() == 0 || self.seed.is_some()
    }

    /// Crossing parity along three two-leg routes `from -> via -> to`, the
    /// via points chosen by `via` for route numbers 0, 1 and 2: material when
    /// at least as many routes cross the boundary an even number of times as
    /// an odd number.
    fn parity<
        V: Fn(Vec3, Vec3, usize) -> Option<Vec3>,
        L: Fn(Vec3, Vec3) -> Option<Vec3>,
        C: Fn(Vec3, Vec3, Vec3, Arc) -> bool,
    >(&self, from: Vec3, to: Vec3, via: &V, leg: &L, crosses: &C) -> (result: bool)
        requires
            forall|a: Vec3, b: Vec3, i: usize| via.requires((a, b, i)),
            forall|a: Vec3, b: Vec3| leg.requires((a, b)),
            forall|a: Vec3, b: Vec3, n: Vec3, arc: Arc| crosses.requires((a, b, n, arc)),
        ensures
            exists|votes: Seq<Option<bool>>|
                votes.len() == 3 && (forall|i: int|
                    0 <= i < 3 ==> #[trigger] route_vote(
                        self.arcs(),
                        from,
                        to,
                        i as usize,
                        *via,
                        *leg,
                        *crosses,
                        votes[i],
                    )) && result == majority_even(votes),
    {
        let mut even: usize = 0;
        let mut odd: usize = 0;
        let ghost mut votes: Seq<Option<bool>> = Seq::empty();
        let mut index: usize = 0;
        while index < 3
            invariant
                index <= 3,
                votes.len() == index,
                even == votes_for(votes, true),
                odd == votes_for(votes, false),
                even + odd <= index,
                forall|a: Vec3, b: Vec3, i: usize| via.requires((a, b, i)),
                forall|a: Vec3, b: Vec3| leg.requires((a, b)),
                forall|a: Vec3, b: Vec3, n: Vec3, arc: Arc| crosses.requires((a, b, n, arc)),
                forall|i: int|
                    0 <= i < index ==> #[trigger] route_vote(
                        self.arcs(),
                        from,
                        to,
                        i as usize,
                        *via,
                        *leg,
                        *crosses,
                        votes[i],
                    ),
            decreases 3 - index,
        {
            let middle = via(from, to, index);
            let vote: Option<bool> = match middle {
                None => None,
                Some(point) => {
                    let first = crossings(&self.arcs, from, point, leg, crosses);
                    let second = crossings(&self.arcs, point, to, leg, crosses);
                    Some(first % 2 == second % 2)
                },
            };
            proof {
                assert(via.ensures((from, to, index), middle));
                let grown = votes.push(vote);
                assert(grown.drop_last() =~= votes);
                assert forall|i: int| 0 <= i < index + 1 implies #[trigger] route_vote(
                    self.arcs(),
                    from,
                    to,
                    i as usize,
                    *via,
                    *leg,
                    *crosses,
                    grown[i],
                ) by {
                    if i < index {
                        assert(grown[i] == votes[i]);
                    }
                }
                votes = grown;
            }
            match vote {
                Some(true) => {
                    even = even + 1;
                },
                Some(false) => {
                    odd = odd + 1;
                },
                None => {},
            }
            index = index + 1;
        }
        even >= odd
    }

    /// Whether the sphere point `point` is material: its direction from
    /// `centre` (none means not material), then crossing parity against the
    /// seed. With no seed the face is the whole ball and every direction is
    /// material; a region that has a boundary but no seed is not decidable,
    /// and its caller must have declined already.
    pub fn contains<
        D: Fn(Vec3, Vec3) -> Option<Vec3>,
        V: Fn(Vec3, Vec3, usize) -> Option<Vec3>,
        L: Fn(Vec3, Vec3) -> Option<Vec3>,
        C: Fn(Vec3, Vec3, Vec3, Arc) -> bool,
    >(&self, centre: Vec3, point: Vec3, direction: &D, via: &V, leg: &L, crosses: &C) -> (result: bool)
        requires
            forall|p: Vec3, c: Vec3| direction.requires((p, c)),
            forall|a: Vec3, b: Vec3, i: usize| via.requires((a, b, i)),
            forall|a: Vec3, b: Vec3| leg.requires((a, b)),
            forall|a: Vec3, b: Vec3, n: Vec3, arc: Arc| crosses.requires((a, b, n, arc)),
        ensures
            exists|probe: Option<Vec3>|
                #[trigger] direction.ensures((point, centre), probe) && match probe {
                    None => !result,
                    Some(unit) => match self.seed() {
                        None => result,
                        Some(seed) => exists|votes: Seq<Option<bool>>|
                            votes.len() == 3 && (forall|i: int|
                                0 <= i < 3 ==> #[trigger] route_vote(
                                    self.arcs(),
                                    seed,
                                    unit,
                                    i as usize,
                                    *via,
                                    *leg,
                                    *crosses,
                                    votes[i],
                                )) && result == majority_even(votes),
                    },
                },
    {
        let probe = direction(point, centre);
        proof {
            assert(direction.ensures((point, centre), probe));
        }
        match probe {
            None => false,
            Some(unit) => match self.seed {
                None => true,
                Some(seed) => self.parity(seed, unit, via, leg, crosses),
            },
        }
    }

    /// How many boundary arcs separate `point` from the seed along the first
    /// parity route: the crossings of both legs through via point 0.
    /// `usize::MAX` when the point has no direction or the route has no via
    /// point; zero when there is no seed.
    pub fn separation<
        D: Fn(Vec3, Vec3) -> Option<Vec3>,
        V: Fn(Vec3, Vec3, usize) -> Option<Vec3>,
        L: Fn(Vec3, Vec3) -> Option<Vec3>,
        C: Fn(Vec3, Vec3, Vec3, Arc) -> bool,
    >(&self, centre: Vec3, point: Vec3, direction: &D, via: &V, leg: &L, crosses: &C) -> (result: usize)
        requires
            forall|p: Vec3, c: Vec3| direction.requires((p, c)),
            forall|a: Vec3, b: Vec3, i: usize| via.requires((a, b, i)),
            forall|a: Vec3, b: Vec3| leg.requires((a, b)),
            forall|a: Vec3, b: Vec3, n: Vec3, arc: Arc| crosses.requires((a, b, n, arc)),
        ensures
            exists|probe: Option<Vec3>|
                #[trigger] direction.ensures((point, centre), probe) && match probe {
                    None => result == usize::MAX,
                    Some(unit) => match self.seed() {
                        None => result == 0,
                        Some(seed) => exists|middle: Option<Vec3>|
                            #[trigger] via.ensures((seed, unit, 0usize), middle) && match middle {
                                None => result == usize::MAX,
                                Some(m) => exists|first: nat, second: nat|
                                    crossing_count(self.arcs(), seed, m, *leg, *crosses, first)
                                        && crossing_count(self.arcs(), m, unit, *leg, *crosses, second)
                                        && result == if first + second <= usize::MAX {
                                        first + second
                                    } else {
                                        usize::MAX as nat
                                    },
                            },
                    },
                },
    {
        let probe = direction(point, centre);
        proof {
            assert(direction.ensures((point, centre), probe));
        }
        match probe {
            None => usize::MAX,
            Some(unit) => match self.seed {
                None => 0,
                Some(seed) => {
                    let middle = via(seed, unit, 0);
                    proof {
                        assert(via.ensures((seed, unit, 0usize), middle));
                    }
                    match middle {
                        None => usize::MAX,
                        Some(m) => {
                            let first = crossings(&self.arcs, seed, m, leg, crosses);
                            let second = crossings(&self.arcs, m, unit, leg, crosses);
                            let total = if first <= usize::MAX - second {
                                first + second
                            } else {
                                usize::MAX
                            };
                            proof {
                                assert(crossing_count(self.arcs(), seed, m, *leg, *crosses, first as nat));
                                assert(crossing_count(self.arcs(), m, unit, *leg, *crosses, second as nat));
                            }
                            total
                        },
                    }
                },
            },
        }
    }
}

/// `arc` is what `make_arc` made of the directions of `segment`'s ends.
pub open spec fn arc_made<D: Fn(Vec3, Vec3) -> Option<Vec3>, M: Fn(Vec3, Vec3) -> Option<Arc>>(
    segment: Segment,
    arc: Arc,
    centre: Vec3,
    direction: D,
    make_arc: M,
) -> bool {
    exists|u: Vec3, v: Vec3|
        #[trigger] direction.ensures((segment.0, centre), Some(u)) && #[trigger] direction.ensures(
            (segment.1, centre),
            Some(v),
        ) && make_arc.ensures((u, v), Some(arc))
}

/// `segment` makes no arc: an end has no direction, or `make_arc` refused
/// the pair.
pub open spec fn arc_refused<D: Fn(Vec3, Vec3) -> Option<Vec3>, M: Fn(Vec3, Vec3) -> Option<Arc>>(
    segment: Segment,
    centre: Vec3,
    direction: D,
    make_arc: M,
) -> bool {
    exists|start: Option<Vec3>, end: Option<Vec3>|
        #[trigger] direction.ensures((segment.0, centre), start) && #[trigger] direction.ensures(
            (segment.1, centre),
            end,
        ) && (start is None || end is None || make_arc.ensures(
            (start.unwrap(), end.unwrap()),
            None,
        ))
}

/// `arcs` are the arcs made from the first `k` of `boundary`, in order:
/// `sources[t]` is the segment arc `t` came from, and every segment that is
/// no source made no arc.
pub open spec fn arcs_from_prefix<D: Fn(Vec3, Vec3) -> Option<Vec3>, M: Fn(Vec3, Vec3) -> Option<Arc>>(
    boundary: Seq<Segment>,
    k: int,
    arcs: Seq<Arc>,
    sources: Seq<int>,
    centre: Vec3,
    direction: D,
    make_arc: M,
) -> bool {
    &&& sources.len() == arcs.len()
    &&& forall|t: int| 0 <= t < sources.len() ==> 0 <= #[trigger] sources[t] < k
    &&& forall|t: int, u: int| 0 <= t < u < sources.len() ==> #[trigger] sources[t] < #[trigger] sources[u]
    &&& forall|t: int|
        0 <= t < arcs.len() ==> arc_made(
            boundary[#[trigger] sources[t]],
            arcs[t],
            centre,
            direction,
            make_arc,
        )
    &&& forall|j: int|
        0 <= j < k && !sources.contains(j) ==> #[trigger] arc_refused(
            boundary[j],
            centre,
            direction,
            make_arc,
        )
}

/// `region` is what [`SphericalRegion::from_segments`] builds from
/// `segments`: one arc, in order, for each segment of the slit-free boundary
/// that makes one, and the seed the search found over those arcs.
pub open spec fn built_from<
    D: Fn(Vec3, Vec3) -> Option<Vec3>,
    M: Fn(Vec3, Vec3) -> Option<Arc>,
    S: Fn(&Vec<Arc>, bool) -> Option<Vec3>,
>(
    region: SphericalRegion,
    centre: Vec3,
    segments: Seq<Segment>,
    outward_face_normal: bool,
    direction: D,
    make_arc: M,
    seed_from: S,
) -> bool {
    let boundary = slit_free(segments);
    &&& region.arc_list()@ == region.arcs()
    &&& exists|sources: Seq<int>|
        arcs_from_prefix(
            boundary,
            boundary.len() as int,
            region.arcs(),
            sources,
            centre,
            direction,
            make_arc,
        )
    &&& if region.arcs().len() == 0 {
        region.seed() is None
    } else {
        seed_from.ensures((&region.arc_list(), outward_face_normal), region.seed())
    }
}


/// Whether `index` is the longest arc by `lengths` as `Iterator::max_by`
/// with `total_cmp` picks it: a largest length, the last of equals.
pub open spec fn is_longest(lengths: Seq<u64>, index: int) -> bool {
    &&& 0 <= index < lengths.len()
    &&& forall|j: int| 0 <= j < lengths.len() ==> total_key(#[trigger] lengths[j]) <= total_key(lengths[index])
    &&& forall|j: int| index < j < lengths.len() ==> total_key(#[trigger] lengths[j]) < total_key(lengths[index])
}

/// Whether `result` is what the seed search makes of its probe rounds from
/// `middle` and `left`: `rounds` rounds (at most 24) were probed, at steps
/// starting from `first_step` and halving, every round before the last gave a
/// pair crossing the boundary other than exactly once, and the last round
/// ended the search: its pair crosses exactly once (its inside is the seed),
/// or it gave no pair, or it was the 24th.
pub open spec fn seed_rounds<
    P: Fn(Vec3, Vec3, u64) -> Option<(Vec3, Vec3)>,
    H: Fn(u64) -> u64,
    L: Fn(Vec3, Vec3) -> Option<Vec3>,
    C: Fn(Vec3, Vec3, Vec3, Arc) -> bool,
>(
    arcs: Seq<Arc>,
    middle: Vec3,
    left: Vec3,
    first_step: u64,
    probe: P,
    halve: H,
    leg: L,
    crosses: C,
    result: Option<Vec3>,
) -> bool {
    exists|steps: Seq<u64>, pairs: Seq<Option<(Vec3, Vec3)>>, counts: Seq<nat>|
        #![trigger steps.len(), pairs.len(), counts.len()]
        {
            let r = steps.len() as int;
            &&& 1 <= r <= 24
            &&& pairs.len() == r && counts.len() == r
            &&& steps[0] == first_step
            &&& forall|j: int| 0 <= j < r - 1 ==> halve.ensures((#[trigger] steps[j],), steps[j + 1])
            &&& forall|j: int| 0 <= j < r ==> probe.ensures((middle, left, #[trigger] steps[j]), pairs[j])
            &&& forall|j: int|
                0 <= j < r && #[trigger] pairs[j] is Some ==> crossing_count(
                    arcs,
                    pairs[j].unwrap().0,
                    pairs[j].unwrap().1,
                    leg,
                    crosses,
                    counts[j],
                )
            &&& forall|j: int| 0 <= j < r - 1 ==> #[trigger] pairs[j] is Some && counts[j] != 1
            &&& result == if pairs[r - 1] is Some && counts[r - 1] == 1 {
                Some(pairs[r - 1].unwrap().0)
            } else {
                None::<Vec3>
            }
            &&& result is None && pairs[r - 1] is Some ==> r == 24
        }
}

/// The probe rounds recorded by the search witness its outcome.
proof fn lemma_seed_rounds_intro<
    P: Fn(Vec3, Vec3, u64) -> Option<(Vec3, Vec3)>,
    H: Fn(u64) -> u64,
    L: Fn(Vec3, Vec3) -> Option<Vec3>,
    C: Fn(Vec3, Vec3, Vec3, Arc) -> bool,
>(
    arcs: Seq<Arc>,
    middle: Vec3,
    left: Vec3,
    first_step: u64,
    probe: P,
    halve: H,
    leg: L,
    crosses: C,
    result: Option<Vec3>,
    steps: Seq<u64>,
    pairs: Seq<Option<(Vec3, Vec3)>>,
    counts: Seq<nat>,
)
    requires
        1 <= steps.len() <= 24,
        pairs.len() == steps.len() && counts.len() == steps.len(),
        steps[0] == first_step,
        forall|j: int| 0 <= j < steps.len() - 1 ==> halve.ensures((#[trigger] steps[j],), steps[j + 1]),
        forall|j: int| 0 <= j < steps.len() ==> probe.ensures((middle, left, #[trigger] steps[j]), pairs[j]),
        forall|j: int|
            0 <= j < steps.len() && #[trigger] pairs[j] is Some ==> crossing_count(
                arcs,
                pairs[j].unwrap().0,
                pairs[j].unwrap().1,
                leg,
                crosses,
                counts[j],
            ),
        forall|j: int| 0 <= j < steps.len() - 1 ==> #[trigger] pairs[j] is Some && counts[j] != 1,
        result == if pairs[steps.len() - 1] is Some && counts[steps.len() - 1] == 1 {
            Some(pairs[steps.len() - 1].unwrap().0)
        } else {
            None::<Vec3>
        },
        result is None && pairs[steps.len() - 1] is Some ==> steps.len() == 24,
    ensures
        seed_rounds(arcs, middle, left, first_step, probe, halve, leg, crosses, result),
{
    assert(steps.len() == steps.len() && pairs.len() == pairs.len() && counts.len() == counts.len());
}

/// A unit direction just to the material side of the longest boundary arc,
/// or none.
///
/// `length(arc)` is the arc's chord length; the longest arc (the last of
/// equals) is handed to `frame`, which gives the arc's midpoint direction,
/// the unit direction towards its material side and the first offset. Each
/// round `probe` steps that offset to either side, giving an inside and an
/// outside direction; the first round whose two directions are separated by
/// exactly one boundary crossing yields its inside as the seed. The offset
/// is halved between rounds, for at most 24 rounds. No arcs give no seed, as
/// do a frame or a probe that cannot be formed.
pub fn seed_search<
    N: Fn(Arc) -> u64,
    F: Fn(Arc, bool) -> Option<(Vec3, Vec3, u64)>,
    P: Fn(Vec3, Vec3, u64) -> Option<(Vec3, Vec3)>,
    H: Fn(u64) -> u64,
    L: Fn(Vec3, Vec3) -> Option<Vec3>,
    C: Fn(Vec3, Vec3, Vec3, Arc) -> bool,
>(
    arcs: &Vec<Arc>,
    outward_face_normal: bool,
    length: &N,
    frame: &F,
    probe: &P,
    halve: &H,
    leg: &L,
    crosses: &C,
) -> (result: Option<Vec3>)
    requires
        forall|arc: Arc| length.requires((arc,)),
        forall|arc: Arc, outward: bool| frame.requires((arc, outward)),
        forall|m: Vec3, l: Vec3, step: u64| probe.requires((m, l, step)),
        forall|step: u64| halve.requires((step,)),
        forall|a: Vec3, b: Vec3| leg.requires((a, b)),
        forall|a: Vec3, b: Vec3, n: Vec3, arc: Arc| crosses.requires((a, b, n, arc)),
    ensures
        arcs@.len() == 0 ==> result is None,
        arcs@.len() > 0 ==> exists|lengths: Seq<u64>, longest: int|
            {
                &&& lengths.len() == arcs@.len()
                &&& forall|j: int| 0 <= j < lengths.len() ==> length.ensures((arcs@[j],), #[trigger] lengths[j])
                &&& is_longest(lengths, longest)
                &&& exists|framed: Option<(Vec3, Vec3, u64)>|
                    #[trigger] frame.ensures((arcs@[longest], outward_face_normal), framed) && match framed {
                        None => result is None,
                        Some(f) => seed_rounds(arcs@, f.0, f.1, f.2, *probe, *halve, *leg, *crosses, result),
                    }
            },
{
    if arcs.len() == 0 {
        return None;
    }
    let mut best: usize = 0;
    let mut best_length = length(arcs[0]);
    let ghost mut lengths: Seq<u64> = seq![best_length];
    let mut index: usize = 1;
    while index < arcs.len()
        invariant
            1 <= index <= arcs@.len(),
            forall|arc: Arc| length.requires((arc,)),
            lengths.len() == index,
            forall|j: int| 0 <= j < lengths.len() ==> length.ensures((arcs@[j],), #[trigger] lengths[j]),
            best < index,
            best_length == lengths[best as int],
            is_longest(lengths, best as int),
        decreases arcs@.len() - index,
    {
        let candidate = length(arcs[index]);
        let ghost previous = lengths;
        proof {
            lengths = lengths.push(candidate);
            assert forall|j: int| 0 <= j < lengths.len() implies length.ensures((arcs@[j],), #[trigger] lengths[j]) by {
                if j < previous.len() {
                    assert(lengths[j] == previous[j]);
                }
            }
        }
        if total_key_of(candidate) >= total_key_of(best_length) {
            best = index;
            best_length = candidate;
        }
        proof {
            assert forall|j: int| 0 <= j < lengths.len() implies total_key(#[trigger] lengths[j]) <= total_key(lengths[best as int]) by {
                if j < previous.len() {
                    assert(lengths[j] == previous[j]);
                }
            }
            assert forall|j: int| best < j < lengths.len() implies total_key(#[trigger] lengths[j]) < total_key(lengths[best as int]) by {
                if j < previous.len() {
                    assert(lengths[j] == previous[j]);
                }
            }
        }
        index = index + 1;
    }
    let framed = frame(arcs[best], outward_face_normal);
    proof {
        assert(frame.ensures((arcs@[best as int], outward_face_normal), framed));
        assert(lengths.len() == arcs@.len());
    }
    let (middle, left, first_step) = match framed {
        None => {
            return None;
        },
        Some(f) => f,
    };
    let mut step = first_step;
    let ghost mut steps: Seq<u64> = Seq::empty();
    let ghost mut pairs: Seq<Option<(Vec3, Vec3)>> = Seq::empty();
    let ghost mut counts: Seq<nat> = Seq::empty();
    let mut round: usize = 0;
    while round < 24
        invariant
            round <= 24,
            arcs@.len() > 0,
            lengths.len() == arcs@.len(),
            forall|j: int| 0 <= j < lengths.len() ==> length.ensures((arcs@[j],), #[trigger] lengths[j]),
            is_longest(lengths, best as int),
            frame.ensures((arcs@[best as int], outward_face_normal), Some((middle, left, first_step))),
            steps.len() == round && pairs.len() == round && counts.len() == round,
            forall|m: Vec3, l: Vec3, s: u64| probe.requires((m, l, s)),
            forall|s: u64| halve.requires((s,)),
            forall|a: Vec3, b: Vec3| leg.requires((a, b)),
            forall|a: Vec3, b: Vec3, n: Vec3, arc: Arc| crosses.requires((a, b, n, arc)),
            round == 0 ==> step == first_step,
            round > 0 ==> steps[0] == first_step && halve.ensures((steps[round - 1],), step),
            forall|j: int| 0 <= j < round - 1 ==> halve.ensures((#[trigger] steps[j],), steps[j + 1]),
            forall|j: int| 0 <= j < round ==> probe.ensures((middle, left, #[trigger] steps[j]), pairs[j]),
            forall|j: int|
                0 <= j < round && #[trigger] pairs[j] is Some ==> crossing_count(
                    arcs@,
                    pairs[j].unwrap().0,
                    pairs[j].unwrap().1,
                    *leg,
                    *crosses,
                    counts[j],
                ),
            forall|j: int| 0 <= j < round ==> #[trigger] pairs[j] is Some && counts[j] != 1,
        decreases 24 - round,
    {
        let probed = probe(middle, left, step);
        let ghost old_steps = steps;
        let ghost old_pairs = pairs;
        let ghost old_counts = counts;
        match probed {
            None => {
                proof {
                    steps = steps.push(step);
                    pairs = pairs.push(probed);
                    counts = counts.push(0);
                    assert(steps[0] == first_step);
                    assert(seed_rounds(arcs@, middle, left, first_step, *probe, *halve, *leg, *crosses, None)) by {
                        lemma_seed_rounds_intro(arcs@, middle, left, first_step, *probe, *halve, *leg, *crosses, None, steps, pairs, counts);
                        assert forall|j: int| 0 <= j < steps.len() - 1 implies halve.ensures((#[trigger] steps[j],), steps[j + 1]) by {
                            assert(steps[j] == old_steps[j]);
                            if j + 1 < old_steps.len() {
                                assert(steps[j + 1] == old_steps[j + 1]);
                            }
                        }
                        assert forall|j: int| 0 <= j < steps.len() implies probe.ensures((middle, left, #[trigger] steps[j]), pairs[j]) by {
                            if j < old_steps.len() {
                                assert(steps[j] == old_steps[j] && pairs[j] == old_pairs[j]);
                            }
                        }
                        assert forall|j: int| 0 <= j < steps.len() && #[trigger] pairs[j] is Some implies crossing_count(
                            arcs@, pairs[j].unwrap().0, pairs[j].unwrap().1, *leg, *crosses, counts[j]) by {
                            assert(pairs[j] == old_pairs[j] && counts[j] == old_counts[j]);
                        }
                        assert forall|j: int| 0 <= j < steps.len() - 1 implies #[trigger] pairs[j] is Some && counts[j] != 1 by {
                            assert(pairs[j] == old_pairs[j] && counts[j] == old_counts[j]);
                        }
                    }
                }
                return None;
            },
            Some(pair) => {
                let count = crossings(arcs, pair.0, pair.1, leg, crosses);
                proof {
                    steps = steps.push(step);
                    pairs = pairs.push(probed);
                    counts = counts.push(count as nat);
                    assert forall|j: int| 0 <= j < steps.len() - 1 implies halve.ensures((#[trigger] steps[j],), steps[j + 1]) by {
                        assert(steps[j] == old_steps[j]);
                        if j + 1 < old_steps.len() {
                            assert(steps[j + 1] == old_steps[j + 1]);
                        }
                    }
                    assert forall|j: int| 0 <= j < steps.len() implies probe.ensures((middle, left, #[trigger] steps[j]), pairs[j]) by {
                        if j < old_steps.len() {
                            assert(steps[j] == old_steps[j] && pairs[j] == old_pairs[j]);
                        }
                    }
                    assert forall|j: int| 0 <= j < steps.len() && #[trigger] pairs[j] is Some implies crossing_count(
                        arcs@, pairs[j].unwrap().0, pairs[j].unwrap().1, *leg, *crosses, counts[j]) by {
                        if j < old_steps.len() {
                            assert(pairs[j] == old_pairs[j] && counts[j] == old_counts[j]);
                        }
                    }
                    assert forall|j: int| 0 <= j < steps.len() - 1 implies #[trigger] pairs[j] is Some && counts[j] != 1 by {
                        assert(pairs[j] == old_pairs[j] && counts[j] == old_counts[j]);
                    }
                }
                proof {
                    assert(steps[0] == first_step);
                    assert(steps.len() == 1 || halve.ensures((steps[steps.len() - 2],), steps[steps.len() - 1]));
                    assert(pairs[round as int] == Some(pair));
                }
                if count == 1 {
                    proof {
                        lemma_seed_rounds_intro(arcs@, middle, left, first_step, *probe, *halve, *leg, *crosses, Some(pair.0), steps, pairs, counts);
                    }
                    return Some(pair.0);
                }
                if round == 23 {
                    proof {
                        lemma_seed_rounds_intro(arcs@, middle, left, first_step, *probe, *halve, *leg, *crosses, None, steps, pairs, counts);
                    }
                    return None;
                }
                step = halve(step);
            },
        }
        round = round + 1;
    }
    None
}


/// Whether `f` gives one answer for each pair of arguments.
pub open spec fn answers_alike<A, B, R, F: Fn(A, B) -> R>(f: F) -> bool {
    forall|a: A, b: B, one: R, other: R|
        #![trigger f.ensures((a, b), one), f.ensures((a, b), other)]
        f.ensures((a, b), one) && f.ensures((a, b), other) ==> one == other
}

/// Whether the seed search gives one answer for each list of arcs and side.
pub open spec fn seeds_alike<S: Fn(&Vec<Arc>, bool) -> Option<Vec3>>(seed_from: S) -> bool {
    forall|arcs: &Vec<Arc>, others: &Vec<Arc>, outward: bool, one: Option<Vec3>, other: Option<Vec3>|
        #![trigger seed_from.ensures((arcs, outward), one), seed_from.ensures((others, outward), other)]
        seed_from.ensures((arcs, outward), one) && seed_from.ensures((others, outward), other) && arcs@
            == others@ ==> one == other
}

/// The first `t` positions of both lists exist together and agree.
spec fn agree_upto(one: Seq<int>, other: Seq<int>, t: int) -> bool {
    forall|u: int| 0 <= u < t ==> #[trigger] agree_at(one, other, u)
}

/// Position `u` exists in both lists or neither, with the same entry.
spec fn agree_at(one: Seq<int>, other: Seq<int>, u: int) -> bool {
    (u < one.len() <==> u < other.len()) && (u < one.len() ==> one[u] == other[u])
}

/// Two strictly increasing lists of the same positions agree on their
/// first `t` entries.
proof fn lemma_same_increasing(one: Seq<int>, other: Seq<int>, t: int)
    requires
        forall|a: int, b: int| 0 <= a < b < one.len() ==> #[trigger] one[a] < #[trigger] one[b],
        forall|a: int, b: int| 0 <= a < b < other.len() ==> #[trigger] other[a] < #[trigger] other[b],
        forall|x: int| #[trigger] one.contains(x) <==> other.contains(x),
        0 <= t,
    ensures
        agree_upto(one, other, t),
    decreases t,
{
    if t > 0 {
        let p = t - 1;
        lemma_same_increasing(one, other, p);
        assert forall|u: int| 0 <= u < p implies #[trigger] agree_at(one, other, u) by {}
        if p < one.len() {
            let x = one[p];
            assert(one.contains(x));
            assert(other.contains(x));
            let w = choose|w: int| 0 <= w < other.len() && other[w] == x;
            if w < p {
                assert(agree_at(one, other, w));
                assert(one[w] == other[w]);
                assert(one[w] < one[p]);
            } else if w > p {
                let y = other[p];
                assert(other.contains(y));
                assert(one.contains(y));
                let v = choose|v: int| 0 <= v < one.len() && one[v] == y;
                assert(other[p] < other[w]);
                if v < p {
                    assert(agree_at(one, other, v));
                    assert(other[v] == one[v]);
                    assert(other[v] < other[p]);
                } else if v > p {
                    assert(one[p] < one[v]);
                }
            }
        }
        if p < other.len() && p >= one.len() {
            let y = other[p];
            assert(other.contains(y));
            assert(one.contains(y));
            let v = choose|v: int| 0 <= v < one.len() && one[v] == y;
            assert(agree_at(one, other, v));
            assert(other[v] == one[v]);
            assert(other[v] < other[p]);
        }
        if p < one.len() {
            assert(p < other.len() && one[p] == other[p]);
        }
        if p < other.len() {
            assert(p < one.len());
            assert(other[p] == one[p]);
        }
        assert forall|u: int| 0 <= u < t implies #[trigger] agree_at(one, other, u) by {
            if u < p {
                assert(agree_at(one, other, u));
            }
        }
        assert(agree_upto(one, other, t));
    } else {
        assert(agree_upto(one, other, t));
    }
}

/// The same region comes out of any two segment lists with the same
/// slit-free boundary, when the closures it was built with answer alike on
/// alike arguments: the same arcs, in the same order, and the same seed, so
/// every query answers alike. Two cases: a slit used once each way and a
/// collapsed segment change nothing (see [`lemma_slit_cancels`] and
/// [`lemma_collapsed_ignored`]), and [`SphericalRegion::new`] builds from
/// its polylines' closing rings exactly what
/// [`SphericalRegion::from_segments`] builds from those rings.
pub proof fn lemma_same_boundary_same_region<
    D: Fn(Vec3, Vec3) -> Option<Vec3>,
    M: Fn(Vec3, Vec3) -> Option<Arc>,
    S: Fn(&Vec<Arc>, bool) -> Option<Vec3>,
>(
    one: SphericalRegion,
    other: SphericalRegion,
    centre: Vec3,
    segments: Seq<Segment>,
    other_segments: Seq<Segment>,
    outward_face_normal: bool,
    direction: D,
    make_arc: M,
    seed_from: S,
)
    requires
        built_from(one, centre, segments, outward_face_normal, direction, make_arc, seed_from),
        built_from(other, centre, other_segments, outward_face_normal, direction, make_arc, seed_from),
        slit_free(segments) == slit_free(other_segments),
        answers_alike(direction),
        answers_alike(make_arc),
        seeds_alike(seed_from),
    ensures
        one.arcs() == other.arcs(),
        one.seed() == other.seed(),
{
    let boundary = slit_free(segments);
    let k = boundary.len() as int;
    let s1 = choose|sources: Seq<int>|
        arcs_from_prefix(boundary, k, one.arcs(), sources, centre, direction, make_arc);
    let s2 = choose|sources: Seq<int>|
        arcs_from_prefix(boundary, k, other.arcs(), sources, centre, direction, make_arc);
    // A segment makes an arc or is refused, never both, and makes at most one arc.
    assert forall|j: int, a: Arc| 0 <= j < k && arc_made(boundary[j], a, centre, direction, make_arc) implies !arc_refused(
        boundary[j],
        centre,
        direction,
        make_arc,
    ) by {
        let (u, v) = choose|u: Vec3, v: Vec3|
            #[trigger] direction.ensures((boundary[j].0, centre), Some(u)) && #[trigger] direction.ensures(
                (boundary[j].1, centre),
                Some(v),
            ) && make_arc.ensures((u, v), Some(a));
        if arc_refused(boundary[j], centre, direction, make_arc) {
            let (start, end) = choose|start: Option<Vec3>, end: Option<Vec3>|
                #[trigger] direction.ensures((boundary[j].0, centre), start) && #[trigger] direction.ensures(
                    (boundary[j].1, centre),
                    end,
                ) && (start is None || end is None || make_arc.ensures((start.unwrap(), end.unwrap()), None));
            assert(start == Some(u));
            assert(end == Some(v));
            assert(make_arc.ensures((u, v), None::<Arc>));
        }
    }
    assert forall|x: int| #[trigger] s1.contains(x) <==> s2.contains(x) by {
        if s1.contains(x) {
            let t = choose|t: int| 0 <= t < s1.len() && s1[t] == x;
            assert(arc_made(boundary[s1[t]], one.arcs()[t], centre, direction, make_arc));
            if !s2.contains(x) {
                assert(arc_refused(boundary[x], centre, direction, make_arc));
            }
        }
        if s2.contains(x) {
            let t = choose|t: int| 0 <= t < s2.len() && s2[t] == x;
            assert(arc_made(boundary[s2[t]], other.arcs()[t], centre, direction, make_arc));
            if !s1.contains(x) {
                assert(arc_refused(boundary[x], centre, direction, make_arc));
            }
        }
    }
    lemma_same_increasing(s1, s2, (s1.len() + s2.len()) as int);
    assert(s1.len() == s2.len()) by {
        if s1.len() < s2.len() {
            assert(agree_at(s1, s2, s1.len() as int));
        } else if s2.len() < s1.len() {
            assert(agree_at(s1, s2, s2.len() as int));
        }
    }
    assert forall|t: int| 0 <= t < one.arcs().len() implies #[trigger] one.arcs()[t] == other.arcs()[t] by {
        assert(agree_at(s1, s2, t));
        let j = s1[t];
        assert(s2[t] == j);
        assert(arc_made(boundary[j], one.arcs()[t], centre, direction, make_arc));
        assert(arc_made(boundary[j], other.arcs()[t], centre, direction, make_arc));
        let (u, v) = choose|u: Vec3, v: Vec3|
            #[trigger] direction.ensures((boundary[j].0, centre), Some(u)) && #[trigger] direction.ensures(
                (boundary[j].1, centre),
                Some(v),
            ) && make_arc.ensures((u, v), Some(one.arcs()[t]));
        let (u2, v2) = choose|u: Vec3, v: Vec3|
            #[trigger] direction.ensures((boundary[j].0, centre), Some(u)) && #[trigger] direction.ensures(
                (boundary[j].1, centre),
                Some(v),
            ) && make_arc.ensures((u, v), Some(other.arcs()[t]));
        assert(Some(u) == Some(u2));
        assert(Some(v) == Some(v2));
        assert(Some(one.arcs()[t]) == Some(other.arcs()[t]));
    }
    assert(one.arcs() =~= other.arcs());
    if one.arcs().len() > 0 {
        assert(seed_from.ensures((&one.arc_list(), outward_face_normal), one.seed()));
        assert(seed_from.ensures((&other.arc_list(), outward_face_normal), other.seed()));
    }
}

/// A collapsed segment leaves the slit-free boundary as it was.
pub proof fn lemma_collapsed_ignored(segments: Seq<Segment>, point: Vec3)
    ensures
        slit_free(segments.push((point, point))) == slit_free(segments),
{
    assert(segments.push((point, point)).drop_last() =~= segments);
    assert(directed(segments.push((point, point))) == directed(segments));
}

} // verus!
