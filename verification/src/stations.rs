//! Choosing interpolation stations among the points of a polyline.
//!
//! A fit interpolates a curve through some of its input points, the
//! stations. They are chosen in two steps: a simplification keeps the points
//! the polyline cannot lose without moving further than the tolerance, and a
//! decimation spreads a station budget evenly over what was kept.
use vstd::prelude::*;

use vstd::arithmetic::div_mod::lemma_fundamental_div_mod_converse;

use crate::float_bits::{self, ieee_le, ieee_lt};

verus! {

/// Where station `i` of `count` lands among `pool_len` pool positions:
/// `i * (pool_len - 1) / (count - 1)` rounded to the nearest position,
/// halves rounded up.
pub open spec fn station_position(i: int, pool_len: int, count: int) -> int {
    (2 * i * (pool_len - 1) + (count - 1)) / (2 * (count - 1))
}

/// `count` stations spread evenly over `pool`, both ends kept; the whole
/// pool where it holds no more than `count` stations.
pub open spec fn decimated(pool: Seq<usize>, count: int) -> Seq<usize> {
    if pool.len() <= count {
        pool
    } else if count <= 0 {
        Seq::empty()
    } else if count == 1 {
        seq![pool[0]]
    } else {
        Seq::new(count as nat, |i: int| pool[station_position(i, pool.len() as int, count)])
    }
}

/// Rounding `p / d` to the nearest integer, halves up, is the quotient plus
/// one exactly when twice the remainder reaches the divisor.
proof fn lemma_round_half_up(p: int, d: int)
    requires
        p >= 0,
        d > 0,
    ensures
        (2 * p + d) / (2 * d) == p / d + (if 2 * (p % d) >= d { 1int } else { 0int }),
{
    let q = p / d;
    let r = p % d;
    assert(p == q * d + r && 0 <= r < d) by {
        vstd::arithmetic::div_mod::lemma_fundamental_div_mod(p, d);
        vstd::arithmetic::div_mod::lemma_mod_bound(p, d);
        vstd::arithmetic::mul::lemma_mul_is_commutative(d, q);
    }
    if 2 * r >= d {
        assert(2 * p + d == (q + 1) * (2 * d) + (2 * r - d)) by (nonlinear_arith)
            requires
                p == q * d + r,
        ;
        lemma_fundamental_div_mod_converse(2 * p + d, 2 * d, q + 1, 2 * r - d);
    } else {
        assert(2 * p + d == q * (2 * d) + (2 * r + d)) by (nonlinear_arith)
            requires
                p == q * d + r,
        ;
        lemma_fundamental_div_mod_converse(2 * p + d, 2 * d, q, 2 * r + d);
    }
}

/// The positions of `count` stations spread over a larger pool are strictly
/// increasing, start at the pool's first position and end at its last.
pub proof fn lemma_station_positions(pool_len: int, count: int, i: int, j: int)
    requires
        2 <= count < pool_len,
        0 <= i < j < count,
    ensures
        station_position(0, pool_len, count) == 0,
        station_position(count - 1, pool_len, count) == pool_len - 1,
        0 <= station_position(i, pool_len, count),
        station_position(i, pool_len, count) < station_position(j, pool_len, count),
        station_position(j, pool_len, count) <= pool_len - 1,
{
    let d = 2 * (count - 1);
    assert(station_position(0, pool_len, count) == 0) by {
        vstd::arithmetic::div_mod::lemma_basic_div(count - 1, d);
    }
    assert(station_position(count - 1, pool_len, count) == pool_len - 1) by {
        let x = 2 * (count - 1) * (pool_len - 1) + (count - 1);
        assert(x == (pool_len - 1) * d + (count - 1)) by (nonlinear_arith)
            requires
                x == 2 * (count - 1) * (pool_len - 1) + (count - 1),
                d == 2 * (count - 1),
        ;
        lemma_fundamental_div_mod_converse(x, d, pool_len - 1, count - 1);
    }
    let xi = 2 * i * (pool_len - 1) + (count - 1);
    let xj = 2 * j * (pool_len - 1) + (count - 1);
    assert(xi >= 0) by (nonlinear_arith)
        requires
            xi == 2 * i * (pool_len - 1) + (count - 1),
            i >= 0,
            pool_len >= 1,
            count >= 1,
    ;
    assert(xj - xi == 2 * ((j - i) * (pool_len - 1))) by (nonlinear_arith)
        requires
            xi == 2 * i * (pool_len - 1) + (count - 1),
            xj == 2 * j * (pool_len - 1) + (count - 1),
    ;
    assert((j - i) * (pool_len - 1) >= pool_len - 1) by (nonlinear_arith)
        requires
            j - i >= 1,
            pool_len - 1 >= 0,
    ;
    assert(xj >= xi + d);
    assert(xi / d + 1 <= xj / d) by {
        vstd::arithmetic::div_mod::lemma_div_is_ordered(xi + d, xj, d);
        vstd::arithmetic::div_mod::lemma_div_plus_one(xi, d);
    }
    assert(xi / d >= 0) by {
        vstd::arithmetic::div_mod::lemma_div_pos_is_pos(xi, d);
    }
    let xl = 2 * (count - 1) * (pool_len - 1) + (count - 1);
    assert(xj <= xl) by (nonlinear_arith)
        requires
            xj == 2 * j * (pool_len - 1) + (count - 1),
            xl == 2 * (count - 1) * (pool_len - 1) + (count - 1),
            j <= count - 1,
            pool_len >= 1,
    ;
    vstd::arithmetic::div_mod::lemma_div_is_ordered(xj, xl, d);
}

/// `maximum_points` stations spread evenly over the pool, both ends kept:
/// station `i` is the pool entry at `i * (n - 1) / (maximum_points - 1)`,
/// rounded to the nearest position. A pool that already fits the budget is
/// returned whole.
pub fn decimate_stations(pool: &[usize], maximum_points: usize) -> (result: Vec<usize>)
    ensures
        result@ == decimated(pool@, maximum_points as int),
        pool.len() > maximum_points ==> result.len() == maximum_points,
        pool.len() > maximum_points >= 1 ==> result@[0] == pool@[0],
        pool.len() > maximum_points >= 2 ==> result@[maximum_points - 1] == pool@[pool.len() - 1],
{
    let n = pool.len();
    if n <= maximum_points {
        return vstd::slice::slice_to_vec(pool);
    }
    let mut result: Vec<usize> = Vec::new();
    if maximum_points == 0 {
        assert(result@ =~= decimated(pool@, maximum_points as int));
        return result;
    }
    if maximum_points == 1 {
        result.push(pool[0]);
        assert(result@ =~= decimated(pool@, maximum_points as int));
        return result;
    }
    let span: u128 = (n - 1) as u128;
    let divisor: u128 = (maximum_points - 1) as u128;
    let mut i: usize = 0;
    while i < maximum_points
        invariant
            2 <= maximum_points < n,
            n == pool.len(),
            span == n - 1,
            divisor == maximum_points - 1,
            i <= maximum_points,
            result.len() == i,
            forall|k: int|
                0 <= k < i ==> result@[k] == pool@[station_position(k, n as int, maximum_points as int)],
        decreases maximum_points - i,
    {
        assert((i as int) * (span as int) <= 0xffff_ffff_ffff_ffff * 0xffff_ffff_ffff_ffff) by (nonlinear_arith)
            requires
                0 <= i <= 0xffff_ffff_ffff_ffff,
                0 <= span <= 0xffff_ffff_ffff_ffff,
        ;
        let product: u128 = (i as u128) * span;
        let quotient: u128 = product / divisor;
        let remainder: u128 = product % divisor;
        proof {
            lemma_round_half_up(product as int, divisor as int);
            assert(2 * (product as int) + divisor == 2 * (i as int) * (n - 1) + (maximum_points - 1)) by (nonlinear_arith)
                requires
                    product == (i as int) * (span as int),
                    span == n - 1,
                    divisor == maximum_points - 1,
            ;
            assert(2 * (divisor as int) == 2 * (maximum_points - 1));
            lemma_station_positions(n as int, maximum_points as int, 0, maximum_points - 1);
            if i < maximum_points - 1 {
                lemma_station_positions(n as int, maximum_points as int, i as int, maximum_points - 1);
            }
            assert(quotient + (if 2 * remainder >= divisor { 1int } else { 0int }) == station_position(
                i as int,
                n as int,
                maximum_points as int,
            ));
        }
        let position: u128 = if 2 * remainder >= divisor { quotient + 1 } else { quotient };
        result.push(pool[position as usize]);
        i = i + 1;
    }
    proof {
        lemma_station_positions(n as int, maximum_points as int, 0, maximum_points - 1);
        assert(result@ =~= decimated(pool@, maximum_points as int));
    }
    result
}

/// Whether some call of `distance` on point `i` and the chord from `a` to
/// `b` answered no more than `tolerance` (a NaN answer counts as within,
/// since it exceeds nothing).
pub open spec fn within_tolerance<D: Fn(usize, usize, usize) -> u64>(
    distance: D,
    tolerance: u64,
    i: int,
    a: int,
    b: int,
) -> bool {
    exists|d: u64|
        #[trigger] distance.ensures((i as usize, a as usize, b as usize), d) && !ieee_lt(tolerance, d)
}

/// Whether `answers` are what `distance` gave, one per interior point in
/// order, when the chord from `a` to `b` was scanned.
pub open spec fn chord_answers<D: Fn(usize, usize, usize) -> u64>(
    distance: D,
    a: int,
    b: int,
    answers: Seq<u64>,
) -> bool {
    &&& answers.len() == b - a - 1
    &&& forall|j: int|
        0 <= j < answers.len() ==> distance.ensures(
            ((a + 1 + j) as usize, a as usize, b as usize),
            #[trigger] answers[j],
        )
}

/// Whether entry `f` of a chord's answers is the first furthest and lies
/// beyond `tolerance`: every earlier answer is smaller (or NaN), and no later
/// one is larger.
pub open spec fn first_furthest(tolerance: u64, answers: Seq<u64>, f: int) -> bool {
    &&& 0 <= f < answers.len()
    &&& ieee_lt(tolerance, answers[f])
    &&& forall|j: int| 0 <= j < f ==> !ieee_le(answers[f], #[trigger] answers[j])
    &&& forall|j: int| f < j < answers.len() ==> !ieee_lt(answers[f], #[trigger] answers[j])
}

/// Whether the scan of the chord from `a` to `b` split it at point `k`: the
/// first furthest point of the chord's interior, beyond `tolerance`.
pub open spec fn split_at<D: Fn(usize, usize, usize) -> u64>(
    distance: D,
    tolerance: u64,
    k: int,
    a: int,
    b: int,
) -> bool {
    exists|answers: Seq<u64>|
        #[trigger] chord_answers(distance, a, b, answers) && first_furthest(tolerance, answers, k - a - 1)
}

/// Whether point `k` is where the chord between two points of `kept` on
/// either side of it was split: the first furthest point of its interior,
/// beyond the tolerance.
pub open spec fn split_point<D: Fn(usize, usize, usize) -> u64>(
    distance: D,
    tolerance: u64,
    kept: Seq<usize>,
    k: int,
) -> bool {
    exists|a: int, b: int|
        a < k < b && kept.contains(a as usize) && kept.contains(b as usize) && #[trigger] split_at(
            distance,
            tolerance,
            k,
            a,
            b,
        )
}

/// Whether `result` lists strictly ascending indices below `count`.
pub open spec fn strictly_ascending(result: Seq<usize>, count: int) -> bool {
    &&& forall|j: int| 0 <= j < result.len() ==> #[trigger] result[j] < count
    &&& forall|j: int, k: int| 0 <= j < k < result.len() ==> result[j] < result[k]
}

/// `a` and `b` are kept and nothing strictly between them is.
spec fn is_gap(keep: Seq<bool>, a: int, b: int) -> bool {
    &&& 0 <= a < b < keep.len()
    &&& keep[a]
    &&& keep[b]
    &&& forall|k: int| a < k < b ==> !#[trigger] keep[k]
}

/// Both ends of a chord are kept. Opaque, so that a kept point's chord does
/// not lead the prover on to that chord's ends' chords.
#[verifier::opaque]
spec fn kept_ends(keep: Seq<bool>, a: int, b: int) -> bool {
    0 <= a < keep.len() && 0 <= b < keep.len() && keep[a] && keep[b]
}

proof fn lemma_kept_ends_grow(keep: Seq<bool>, k: int, a: int, b: int)
    requires
        kept_ends(keep, a, b),
        0 <= k < keep.len(),
    ensures
        kept_ends(keep.update(k, true), a, b),
{
    reveal(kept_ends);
}

proof fn lemma_kept_ends_intro(keep: Seq<bool>, a: int, b: int)
    requires
        0 <= a < keep.len(),
        0 <= b < keep.len(),
        keep[a],
        keep[b],
    ensures
        kept_ends(keep, a, b),
{
    reveal(kept_ends);
}

proof fn lemma_kept_ends_elim(keep: Seq<bool>, a: int, b: int)
    requires
        kept_ends(keep, a, b),
    ensures
        keep[a],
        keep[b],
{
    reveal(kept_ends);
}

/// Positions still to be examined: the interiors of the pending chords.
spec fn pending_size(stack: Seq<(usize, usize)>) -> nat
    decreases stack.len(),
{
    if stack.len() == 0 {
        0
    } else {
        let (a, b) = stack.last();
        pending_size(stack.drop_last()) + if a < b { (b - a - 1) as nat } else { 0 }
    }
}

proof fn lemma_pending_push(stack: Seq<(usize, usize)>, chord: (usize, usize))
    ensures
        pending_size(stack.push(chord)) == pending_size(stack) + if chord.0 < chord.1 {
            (chord.1 - chord.0 - 1) as nat
        } else {
            0
        },
{
    assert(stack.push(chord).drop_last() =~= stack);
}

/// The state of the simplification between two chords: the kept points,
/// the pending chords (gaps between kept points, with disjoint interiors),
/// the dropped points already vouched for by the chord they were measured
/// against (`settled`), and for every kept interior point the chord it
/// exceeded (`cause`). Every point is kept, settled, or inside a pending
/// chord.
spec fn walk_state<D: Fn(usize, usize, usize) -> u64>(
    distance: D,
    tolerance: u64,
    count: int,
    keep: Seq<bool>,
    stack: Seq<(usize, usize)>,
    settled: Map<int, (int, int)>,
    cause: Map<int, (int, int)>,
) -> bool {
    &&& 2 < count
    &&& keep.len() == count
    &&& keep[0]
    &&& keep[count - 1]
    &&& forall|q: int| 0 <= q < stack.len() ==> is_gap(keep, #[trigger] stack[q].0 as int, stack[q].1 as int)
    &&& forall|p: int, q: int|
        0 <= p < q < stack.len() ==> #[trigger] stack[p].1 <= #[trigger] stack[q].0 || stack[q].1
            <= stack[p].0
    &&& forall|i: int|
        #[trigger] settled.contains_key(i) ==> {
            let (a, b) = settled[i];
            &&& is_gap(keep, a, b)
            &&& a < i < b
            &&& within_tolerance(distance, tolerance, i, a, b)
        }
    &&& forall|i: int, q: int|
        #![trigger settled.contains_key(i), stack[q]]
        settled.contains_key(i) && 0 <= q < stack.len() ==> !(stack[q].0 < i < stack[q].1)
    &&& forall|i: int|
        0 <= i < count && !#[trigger] keep[i] && !settled.contains_key(i) ==> exists|q: int|
            0 <= q < stack.len() && #[trigger] stack[q].0 < i < stack[q].1
    &&& forall|k: int|
        0 < k < count - 1 && #[trigger] keep[k] ==> cause.contains_key(k) && {
            let (a, b) = cause[k];
            &&& 0 <= a < k < b < count
            &&& kept_ends(keep, a, b)
            &&& split_at(distance, tolerance, k, a, b)
        }
}

/// Popping a chord with an empty interior keeps the state.
#[verifier::spinoff_prover]
proof fn lemma_walk_pop_short<D: Fn(usize, usize, usize) -> u64>(
    distance: D,
    tolerance: u64,
    count: int,
    keep: Seq<bool>,
    stack: Seq<(usize, usize)>,
    settled: Map<int, (int, int)>,
    cause: Map<int, (int, int)>,
)
    requires
        walk_state(distance, tolerance, count, keep, stack, settled, cause),
        stack.len() > 0,
        stack.last().1 - stack.last().0 < 2,
    ensures
        walk_state(distance, tolerance, count, keep, stack.drop_last(), settled, cause),
        pending_size(stack.drop_last()) == pending_size(stack),
{
    let rest = stack.drop_last();
    let n = rest.len() as int;
    assert(is_gap(keep, stack[n].0 as int, stack[n].1 as int));
    assert forall|i: int|
        0 <= i < count && !#[trigger] keep[i] && !settled.contains_key(i) implies exists|q: int|
        0 <= q < rest.len() && #[trigger] rest[q].0 < i < rest[q].1 by {
        let q = choose|q: int| 0 <= q < stack.len() && #[trigger] stack[q].0 < i < stack[q].1;
        assert(q != n);
        assert(rest[q] == stack[q]);
    }
    assert forall|i: int, q: int|
        #![trigger settled.contains_key(i), rest[q]]
        settled.contains_key(i) && 0 <= q < rest.len() implies !(rest[q].0 < i < rest[q].1) by {
        assert(rest[q] == stack[q]);
    }
    assert forall|p: int, q: int|
        0 <= p < q < rest.len() implies #[trigger] rest[p].1 <= #[trigger] rest[q].0 || rest[q].1
        <= rest[p].0 by {
        assert(rest[p] == stack[p] && rest[q] == stack[q]);
    }
    assert forall|q: int| 0 <= q < rest.len() implies is_gap(keep, #[trigger] rest[q].0 as int, rest[q].1 as int) by {
        assert(rest[q] == stack[q]);
    }
}

/// Splitting a chord at a point measured beyond the tolerance keeps the
/// state, with the point kept and both halves pending.
#[verifier::spinoff_prover]
proof fn lemma_walk_split<D: Fn(usize, usize, usize) -> u64>(
    distance: D,
    tolerance: u64,
    count: int,
    keep: Seq<bool>,
    stack: Seq<(usize, usize)>,
    settled: Map<int, (int, int)>,
    cause: Map<int, (int, int)>,
    k: usize,
    answers: Seq<u64>,
)
    requires
        walk_state(distance, tolerance, count, keep, stack, settled, cause),
        stack.len() > 0,
        stack.last().0 < k < stack.last().1,
        chord_answers(distance, stack.last().0 as int, stack.last().1 as int, answers),
        first_furthest(tolerance, answers, k - stack.last().0 - 1),
    ensures
        ({
            let (start, end) = stack.last();
            let next = stack.drop_last().push((start, k)).push((k, end));
            &&& walk_state(
                distance,
                tolerance,
                count,
                keep.update(k as int, true),
                next,
                settled,
                cause.insert(k as int, (start as int, end as int)),
            )
            &&& pending_size(next) + 1 == pending_size(stack)
        }),
{
    let (start, end) = stack.last();
    let rest = stack.drop_last();
    let n = rest.len() as int;
    let next = rest.push((start, k)).push((k, end));
    let kept = keep.update(k as int, true);
    let cause2 = cause.insert(k as int, (start as int, end as int));
    lemma_pending_push(rest, (start, k));
    lemma_pending_push(rest.push((start, k)), (k, end));
    assert(stack =~= rest.push((start, end)));
    lemma_pending_push(rest, (start, end));
    assert(stack[n] == (start, end));
    assert(is_gap(keep, start as int, end as int));
    assert(split_at(distance, tolerance, k as int, start as int, end as int));
    assert forall|q: int| 0 <= q < next.len() implies is_gap(kept, #[trigger] next[q].0 as int, next[q].1 as int) by {
        if q < n {
            assert(next[q] == stack[q]);
            assert(is_gap(keep, stack[q].0 as int, stack[q].1 as int));
            assert(stack[q].1 <= stack[n].0 || stack[n].1 <= stack[q].0);
        }
    }
    assert forall|p: int, q: int|
        0 <= p < q < next.len() implies #[trigger] next[p].1 <= #[trigger] next[q].0 || next[q].1
        <= next[p].0 by {
        if q < n {
            assert(next[p] == stack[p]);
            assert(next[q] == stack[q]);
        } else if p < n {
            assert(next[p] == stack[p]);
            assert(stack[p].1 <= stack[n].0 || stack[n].1 <= stack[p].0);
        }
    }
    assert forall|i: int| #[trigger] settled.contains_key(i) implies {
        let (a, b) = settled[i];
        &&& is_gap(kept, a, b)
        &&& a < i < b
        &&& within_tolerance(distance, tolerance, i, a, b)
    } by {
        let (a, b) = settled[i];
        assert(is_gap(keep, a, b));
        assert(!(stack[n].0 < i < stack[n].1));
        if a < k < b {
            if a < start {
                assert(!keep[start as int]);
            }
            if start < a {
                assert(!keep[a]);
            }
            if b < end {
                assert(!keep[b]);
            }
            if end < b {
                assert(!keep[end as int]);
            }
        }
    }
    assert forall|i: int, q: int|
        #![trigger settled.contains_key(i), next[q]]
        settled.contains_key(i) && 0 <= q < next.len() implies !(next[q].0 < i < next[q].1) by {
        if q < n {
            assert(next[q] == stack[q]);
        } else {
            assert(!(stack[n].0 < i < stack[n].1));
        }
    }
    assert forall|i: int|
        0 <= i < count && !#[trigger] kept[i] && !settled.contains_key(i) implies exists|q: int|
        0 <= q < next.len() && #[trigger] next[q].0 < i < next[q].1 by {
        assert(!keep[i]);
        let q = choose|q: int| 0 <= q < stack.len() && #[trigger] stack[q].0 < i < stack[q].1;
        if q < n {
            assert(next[q] == stack[q]);
        } else if i < k {
            assert(next[n].0 < i < next[n].1);
        } else {
            assert(next[n + 1].0 < i < next[n + 1].1);
        }
    }
    assert forall|j: int| 0 < j < count - 1 && #[trigger] kept[j] implies cause2.contains_key(j) && {
        let (a, b) = cause2[j];
        &&& 0 <= a < j < b < count
        &&& kept_ends(kept, a, b)
        &&& split_at(distance, tolerance, j, a, b)
    } by {
        if j != k {
            assert(keep[j]);
            let (a, b) = cause[j];
            lemma_kept_ends_grow(keep, k as int, a, b);
        } else {
            lemma_kept_ends_intro(kept, start as int, end as int);
        }
    }
}

/// The dropped points of a chord none of whose interior exceeded the
/// tolerance, each settled by that chord.
spec fn settle(settled: Map<int, (int, int)>, start: int, end: int) -> Map<int, (int, int)> {
    Map::new(
        |i: int| settled.contains_key(i) || (start < i < end),
        |i: int|
            if start < i < end {
                (start, end)
            } else {
                settled[i]
            },
    )
}

/// Dropping the interior of a chord none of whose points exceeded the
/// tolerance keeps the state.
#[verifier::spinoff_prover]
proof fn lemma_walk_settle<D: Fn(usize, usize, usize) -> u64>(
    distance: D,
    tolerance: u64,
    count: int,
    keep: Seq<bool>,
    stack: Seq<(usize, usize)>,
    settled: Map<int, (int, int)>,
    cause: Map<int, (int, int)>,
)
    requires
        walk_state(distance, tolerance, count, keep, stack, settled, cause),
        stack.len() > 0,
        forall|i: int|
            stack.last().0 < i < stack.last().1 ==> #[trigger] within_tolerance(
                distance,
                tolerance,
                i,
                stack.last().0 as int,
                stack.last().1 as int,
            ),
    ensures
        walk_state(
            distance,
            tolerance,
            count,
            keep,
            stack.drop_last(),
            settle(settled, stack.last().0 as int, stack.last().1 as int),
            cause,
        ),
        pending_size(stack.drop_last()) < pending_size(stack) + 1,
{
    let (start, end) = stack.last();
    let rest = stack.drop_last();
    let n = rest.len() as int;
    let settled2 = settle(settled, start as int, end as int);
    assert(stack =~= rest.push((start, end)));
    lemma_pending_push(rest, (start, end));
    assert(stack[n] == (start, end));
    assert(is_gap(keep, start as int, end as int));
    assert forall|i: int| #[trigger] settled2.contains_key(i) implies {
        let (a, b) = settled2[i];
        &&& is_gap(keep, a, b)
        &&& a < i < b
        &&& within_tolerance(distance, tolerance, i, a, b)
    } by {
        if start < i < end {
            assert(within_tolerance(distance, tolerance, i, start as int, end as int));
        } else {
            assert(settled.contains_key(i));
        }
    }
    assert forall|i: int, q: int|
        #![trigger settled2.contains_key(i), rest[q]]
        settled2.contains_key(i) && 0 <= q < rest.len() implies !(rest[q].0 < i < rest[q].1) by {
        assert(rest[q] == stack[q]);
        if start < i < end {
            assert(stack[q].1 <= stack[n].0 || stack[n].1 <= stack[q].0);
        } else {
            assert(settled.contains_key(i));
        }
    }
    assert forall|i: int|
        0 <= i < count && !#[trigger] keep[i] && !settled2.contains_key(i) implies exists|q: int|
        0 <= q < rest.len() && #[trigger] rest[q].0 < i < rest[q].1 by {
        let q = choose|q: int| 0 <= q < stack.len() && #[trigger] stack[q].0 < i < stack[q].1;
        assert(q != n);
        assert(rest[q] == stack[q]);
    }
    assert forall|p: int, q: int|
        0 <= p < q < rest.len() implies #[trigger] rest[p].1 <= #[trigger] rest[q].0 || rest[q].1
        <= rest[p].0 by {
        assert(rest[p] == stack[p] && rest[q] == stack[q]);
    }
    assert forall|q: int| 0 <= q < rest.len() implies is_gap(keep, #[trigger] rest[q].0 as int, rest[q].1 as int) by {
        assert(rest[q] == stack[q]);
    }
}

/// When no chord is pending, the kept points listed in ascending order meet
/// the simplification's promise.
#[verifier::spinoff_prover]
proof fn lemma_walk_done<D: Fn(usize, usize, usize) -> u64>(
    distance: D,
    tolerance: u64,
    count: int,
    keep: Seq<bool>,
    settled: Map<int, (int, int)>,
    cause: Map<int, (int, int)>,
    r: Seq<usize>,
)
    requires
        walk_state(distance, tolerance, count, keep, Seq::empty(), settled, cause),
        count <= usize::MAX,
        strictly_ascending(r, count),
        forall|j: int| 0 <= j < r.len() ==> keep[#[trigger] r[j] as int],
        forall|k: usize| k < count && keep[k as int] ==> #[trigger] r.contains(k),
    ensures
        r.len() >= 2,
        r[0] == 0,
        r[r.len() - 1] == count - 1,
        forall|j: int, i: int|
            0 <= j < r.len() - 1 && r[j] < i < r[j + 1] ==> #[trigger] within_tolerance(
                distance,
                tolerance,
                i,
                r[j] as int,
                r[j + 1] as int,
            ),
        forall|j: int| 0 < j < r.len() - 1 ==> #[trigger] split_point(distance, tolerance, r, r[j] as int),
{
    assert(r.contains(0usize));
    assert(r.contains((count - 1) as usize));
    assert(0usize != (count - 1) as usize);
    let j0 = choose|j: int| 0 <= j < r.len() && r[j] == 0usize;
    let jl = choose|j: int| 0 <= j < r.len() && r[j] == (count - 1) as usize;
    assert(j0 != jl);
    let last = r.len() - 1;
    if j0 > 0 {
        assert(r[0] < r[j0]);
    }
    if jl < last {
        assert(r[jl] < r[last]);
    }
    assert forall|j: int, i: int|
        0 <= j < r.len() - 1 && r[j] < i < r[j + 1] implies #[trigger] within_tolerance(
        distance,
        tolerance,
        i,
        r[j] as int,
        r[j + 1] as int,
    ) by {
        assert(r[j + 1] < count);
        if keep[i] {
            assert(r.contains(i as usize));
            let p = choose|p: int| 0 <= p < r.len() && r[p] == i as usize;
            if p < j {
                assert(r[p] < r[j]);
            } else if p > j + 1 {
                assert(r[j + 1] < r[p]);
            }
        }
        assert(settled.contains_key(i));
        let (a, b) = settled[i];
        assert(is_gap(keep, a, b));
        assert(keep[r[j] as int]);
        assert(keep[r[j + 1] as int]);
        if a < (r[j] as int) {
            assert(!keep[r[j] as int]);
        }
        if (r[j] as int) < a {
            assert(r.contains(a as usize));
            let p = choose|p: int| 0 <= p < r.len() && r[p] == a as usize;
            if p <= j {
                if p < j {
                    assert(r[p] < r[j]);
                }
            } else if p > j + 1 {
                assert(r[j + 1] < r[p]);
            }
        }
        if b < (r[j + 1] as int) {
            assert(r.contains(b as usize));
            let p = choose|p: int| 0 <= p < r.len() && r[p] == b as usize;
            if p < j {
                assert(r[p] < r[j]);
            } else if p > j + 1 {
                assert(r[j + 1] < r[p]);
            }
        }
        if (r[j + 1] as int) < b {
            assert(!keep[r[j + 1] as int]);
        }
    }
    assert forall|j: int| 0 < j < r.len() - 1 implies #[trigger] split_point(distance, tolerance, r, r[j] as int) by {
        assert(r[0] < r[j] && r[j] < r[last]);
        assert(keep[r[j] as int]);
        let (a, b) = cause[r[j] as int];
        lemma_kept_ends_elim(keep, a, b);
        assert(r.contains(a as usize));
        assert(r.contains(b as usize));
        assert(split_at(distance, tolerance, r[j] as int, a, b));
    }
}

/// The Douglas-Peucker simplification of a run of `count` points, by index.
///
/// `distance(i, a, b)` measures point `i` against the chord from point `a`
/// to point `b`. Both ends are always kept. A chord whose interior holds a
/// point further than `tolerance` is split at the furthest one (the first of
/// equals), and both halves are examined in turn; a chord with no such point
/// drops its whole interior. Runs of at most two points are returned whole.
///
/// Whatever `distance` answers, the result lists ascending indices from the
/// first point to the last; every dropped point was measured within the
/// tolerance of the chord between the kept points either side of it; and
/// every kept interior point is where a chord between two kept points was
/// split: among the answers of that chord's scan, the first furthest, and
/// beyond the tolerance.
pub fn simplify_polyline_indices<D: Fn(usize, usize, usize) -> u64>(
    count: usize,
    tolerance: u64,
    distance: D,
) -> (result: Vec<usize>)
    requires
        forall|i: usize, a: usize, b: usize| a < i < b < count ==> #[trigger] distance.requires((i, a, b)),
    ensures
        count <= 2 ==> result@ == Seq::new(count as nat, |i: int| i as usize),
        count > 2 ==> {
            &&& result.len() >= 2
            &&& result@[0] == 0
            &&& result@[result.len() - 1] == count - 1
            &&& strictly_ascending(result@, count as int)
            &&& forall|j: int, i: int|
                0 <= j < result.len() - 1 && result@[j] < i < result@[j + 1] ==> #[trigger] within_tolerance(
                    distance,
                    tolerance,
                    i,
                    result@[j] as int,
                    result@[j + 1] as int,
                )
            &&& forall|j: int|
                0 < j < result.len() - 1 ==> #[trigger] split_point(
                    distance,
                    tolerance,
                    result@,
                    result@[j] as int,
                )
        },
{
    let mut result: Vec<usize> = Vec::new();
    if count <= 2 {
        let mut i: usize = 0;
        while i < count
            invariant
                i <= count,
                result@ == Seq::new(i as nat, |k: int| k as usize),
            decreases count - i,
        {
            result.push(i);
            i = i + 1;
            assert(result@ =~= Seq::new(i as nat, |k: int| k as usize));
        }
        return result;
    }
    let mut keep: Vec<bool> = Vec::new();
    let mut i: usize = 0;
    while i < count
        invariant
            i <= count,
            keep.len() == i,
            forall|k: int| 0 <= k < i ==> !#[trigger] keep@[k],
        decreases count - i,
    {
        keep.push(false);
        i = i + 1;
    }
    keep.set(0, true);
    keep.set(count - 1, true);
    let mut stack: Vec<(usize, usize)> = Vec::new();
    stack.push((0, count - 1));
    let ghost mut settled: Map<int, (int, int)> = Map::empty();
    let ghost mut cause: Map<int, (int, int)> = Map::empty();
    proof {
        assert(is_gap(keep@, 0, count - 1));
        assert(stack@[0] == (0usize, (count - 1) as usize));
        assert forall|i: int|
            0 <= i < count && !#[trigger] keep@[i] && !settled.contains_key(i) implies exists|q: int|
            0 <= q < stack@.len() && #[trigger] stack@[q].0 < i < stack@[q].1 by {
            assert(stack@[0].0 < i < stack@[0].1);
        }
    }
    while stack.len() > 0
        invariant
            walk_state(distance, tolerance, count as int, keep@, stack@, settled, cause),
            forall|i: usize, a: usize, b: usize| a < i < b < count ==> #[trigger] distance.requires((i, a, b)),
        decreases 2 * pending_size(stack@) + stack.len(),
    {
        let ghost before = stack@;
        let (start, end) = stack.pop().unwrap();
        assert(stack@ =~= before.drop_last());
        assert(is_gap(keep@, start as int, end as int)) by {
            assert(before[before.len() - 1] == (start, end));
        }
        if end - start < 2 {
            proof {
                lemma_walk_pop_short(distance, tolerance, count as int, keep@, before, settled, cause);
            }
            continue;
        }
        let mut worst: Option<usize> = None;
        let mut worst_distance: u64 = tolerance;
        let mut index: usize = start + 1;
        let ghost mut answers: Seq<u64> = Seq::empty();
        while index < end
            invariant
                start + 1 <= index <= end < count,
                forall|i: usize, a: usize, b: usize| a < i < b < count ==> #[trigger] distance.requires((i, a, b)),
                worst is None ==> worst_distance == tolerance && forall|i: int|
                    start < i < index ==> #[trigger] within_tolerance(distance, tolerance, i, start as int, end as int),
                answers.len() == index - start - 1,
                forall|j: int|
                    0 <= j < answers.len() ==> distance.ensures(
                        ((start + 1 + j) as usize, start as usize, end as usize),
                        #[trigger] answers[j],
                    ),
                worst is None ==> forall|j: int| 0 <= j < answers.len() ==> !ieee_lt(tolerance, #[trigger] answers[j]),
                worst is Some ==> {
                    let k = worst->0;
                    &&& start < k < index
                    &&& worst_distance == answers[k - start - 1]
                    &&& first_furthest(tolerance, answers, k - start - 1)
                },
            decreases end - index,
        {
            let measured = distance(index, start, end);
            let ghost previous = answers;
            proof {
                answers = answers.push(measured);
                assert forall|j: int| 0 <= j < answers.len() implies distance.ensures(
                    ((start + 1 + j) as usize, start as usize, end as usize),
                    #[trigger] answers[j],
                ) by {
                    if j < previous.len() {
                        assert(answers[j] == previous[j]);
                    }
                }
            }
            if float_bits::lt(worst_distance, measured) {
                proof {
                    let f = index - start - 1;
                    assert forall|j: int| 0 <= j < f implies !ieee_le(answers[f], #[trigger] answers[j]) by {
                        assert(answers[j] == previous[j]);
                    }
                }
                worst_distance = measured;
                worst = Some(index);
            } else {
                proof {
                    if worst is None {
                        assert(distance.ensures((index as usize, start as usize, end as usize), measured));
                    } else {
                        let f = worst->0 - start - 1;
                        assert(answers[f] == previous[f]);
                        assert forall|j: int| 0 <= j < f implies !ieee_le(answers[f], #[trigger] answers[j]) by {
                            assert(answers[j] == previous[j]);
                        }
                        assert forall|j: int| f < j < answers.len() implies !ieee_lt(answers[f], #[trigger] answers[j]) by {
                            if j < previous.len() {
                                assert(answers[j] == previous[j]);
                            }
                        }
                    }
                }
            }
            index = index + 1;
        }
        match worst {
            Some(k) => {
                proof {
                    lemma_walk_split(
                        distance,
                        tolerance,
                        count as int,
                        keep@,
                        before,
                        settled,
                        cause,
                        k,
                        answers,
                    );
                    cause = cause.insert(k as int, (start as int, end as int));
                }
                keep.set(k, true);
                stack.push((start, k));
                stack.push((k, end));
            },
            None => {
                proof {
                    lemma_walk_settle(distance, tolerance, count as int, keep@, before, settled, cause);
                    settled = settle(settled, start as int, end as int);
                }
            },
        }
    }
    let mut i: usize = 0;
    while i < count
        invariant
            i <= count,
            keep.len() == count,
            strictly_ascending(result@, i as int),
            forall|j: int| 0 <= j < result.len() ==> keep@[#[trigger] result@[j] as int],
            forall|k: usize| k < i && keep@[k as int] ==> #[trigger] result@.contains(k),
        decreases count - i,
    {
        if keep[i] {
            let ghost earlier = result@;
            result.push(i);
            proof {
                assert forall|k: usize| k < i + 1 && keep@[k as int] implies #[trigger] result@.contains(k) by {
                    if k == i {
                        assert(result@[result.len() - 1] == k);
                    } else {
                        assert(earlier.contains(k));
                        let j = choose|j: int| 0 <= j < earlier.len() && earlier[j] == k;
                        assert(result@[j] == k);
                    }
                }
                assert forall|j: int, k: int| 0 <= j < k < result.len() implies result@[j] < result@[k] && result@[k] < i + 1 by {
                    if k < result.len() - 1 {
                        assert(result@[k] == earlier[k] && result@[j] == earlier[j]);
                    } else {
                        assert(result@[j] == earlier[j]);
                        assert(earlier[j] < i) by {
                            if j + 1 < earlier.len() {
                            }
                        }
                    }
                }
            }
        }
        i = i + 1;
    }
    proof {
        lemma_walk_done(distance, tolerance, count as int, keep@, settled, cause, result@);
    }
    result
}

} // verus!

verus! {

/// The last position before `j` that `kept` keeps; 0 when none does.
pub open spec fn last_kept_before(kept: Seq<bool>, j: int) -> int
    decreases j,
{
    if j <= 0 {
        0
    } else if kept[j - 1] {
        j - 1
    } else {
        last_kept_before(kept, j - 1)
    }
}

/// The entries of `stations` among the first `count` positions that `kept`
/// keeps, in order.
pub open spec fn kept_entries(stations: Seq<usize>, kept: Seq<bool>, count: int) -> Seq<usize>
    decreases count,
{
    if count <= 0 {
        Seq::empty()
    } else {
        let earlier = kept_entries(stations, kept, count - 1);
        if kept[count - 1] {
            earlier.push(stations[count - 1])
        } else {
            earlier
        }
    }
}

/// Whether the conditioning of `stations` keeps exactly the positions
/// `kept` says, by the answers `apart` and `distinct` can give.
///
/// Of more than two stations, both ends are kept, and an interior station is
/// kept when `apart` says it stands apart from the first station, from the
/// last, and from the last station kept before it (asked in that order,
/// stopping at the first no). Of two or fewer, a station is kept when it is
/// the first or `distinct` says it is distinct from the last station kept
/// before it.
pub open spec fn conditioned_by<A: Fn(usize, usize) -> bool, B: Fn(usize, usize) -> bool>(
    stations: Seq<usize>,
    kept: Seq<bool>,
    apart: A,
    distinct: B,
) -> bool {
    let n = stations.len() as int;
    &&& kept.len() == n
    &&& n > 2 ==> {
        &&& kept[0]
        &&& kept[n - 1]
        &&& forall|j: int|
            0 < j < n - 1 ==> {
                let station = stations[j];
                let previous = stations[last_kept_before(kept, j)];
                if #[trigger] kept[j] {
                    &&& apart.ensures((station, stations[0]), true)
                    &&& apart.ensures((station, stations[n - 1]), true)
                    &&& apart.ensures((station, previous), true)
                } else {
                    ||| apart.ensures((station, stations[0]), false)
                    ||| apart.ensures((station, stations[0]), true) && apart.ensures(
                        (station, stations[n - 1]),
                        false,
                    )
                    ||| apart.ensures((station, stations[0]), true) && apart.ensures(
                        (station, stations[n - 1]),
                        true,
                    ) && apart.ensures((station, previous), false)
                }
            }
    }
    &&& n <= 2 ==> forall|j: int|
        0 <= j < n ==> if j == 0 {
            #[trigger] kept[j]
        } else {
            distinct.ensures((stations[j], stations[last_kept_before(kept, j)]), kept[j])
        }
}

/// Condition the simplified stations against near-duplicates: a station a
/// fraction of a step from its neighbour, or from either end, rings the
/// interpolant. `apart(i, j)` says whether stations `i` and `j` stand far
/// enough apart for a run of more than two stations; `distinct(i, j)` says
/// whether they are distinct for a shorter run.
pub fn condition_stations<A: Fn(usize, usize) -> bool, B: Fn(usize, usize) -> bool>(
    stations: &[usize],
    apart: A,
    distinct: B,
) -> (result: Vec<usize>)
    requires
        forall|i: usize, j: usize| apart.requires((i, j)),
        forall|i: usize, j: usize| distinct.requires((i, j)),
    ensures
        exists|kept: Seq<bool>|
            conditioned_by(stations@, kept, apart, distinct) && result@ == kept_entries(
                stations@,
                kept,
                stations@.len() as int,
            ),
{
    let n = stations.len();
    let mut result: Vec<usize> = Vec::new();
    let ghost mut kept: Seq<bool> = Seq::empty();
    if n > 2 {
        let first = stations[0];
        let last = stations[n - 1];
        result.push(first);
        proof {
            kept = kept.push(true);
            assert(kept_entries(stations@, kept, 0) =~= Seq::<usize>::empty());
            assert(result@ =~= kept_entries(stations@, kept, 1));
        }
        let mut j: usize = 1;
        while j < n - 1
            invariant
                2 < n,
                n == stations@.len(),
                first == stations@[0],
                last == stations@[n - 1],
                1 <= j <= n - 1,
                kept.len() == j,
                kept[0],
                forall|i: usize, k: usize| apart.requires((i, k)),
                result@ == kept_entries(stations@, kept, j as int),
                result.len() > 0,
                result@[result.len() - 1] == stations@[last_kept_before(kept, j as int)],
                forall|m: int|
                    0 < m < j ==> {
                        let station = stations@[m];
                        let previous = stations@[last_kept_before(kept, m)];
                        if #[trigger] kept[m] {
                            &&& apart.ensures((station, stations@[0]), true)
                            &&& apart.ensures((station, stations@[n - 1]), true)
                            &&& apart.ensures((station, previous), true)
                        } else {
                            ||| apart.ensures((station, stations@[0]), false)
                            ||| apart.ensures((station, stations@[0]), true) && apart.ensures(
                                (station, stations@[n - 1]),
                                false,
                            )
                            ||| apart.ensures((station, stations@[0]), true) && apart.ensures(
                                (station, stations@[n - 1]),
                                true,
                            ) && apart.ensures((station, previous), false)
                        }
                    },
            decreases n - 1 - j,
        {
            let station = stations[j];
            let previous = result[result.len() - 1];
            let keep = apart(station, first) && apart(station, last) && apart(station, previous);
            let ghost before = kept;
            if keep {
                result.push(station);
            }
            proof {
                kept = kept.push(keep);
                assert forall|p: int| 0 <= p < before.len() implies #[trigger] before[p] == kept[p] by {}
                assert forall|m: int| 0 < m <= j implies last_kept_before(kept, m) == last_kept_before(before, m) by {
                    lemma_last_kept_prefix(kept, before, m);
                }
                lemma_kept_entries_prefix(stations@, kept, before, j as int);
                lemma_last_kept_prefix(kept, before, j as int);
                assert(result@ == kept_entries(stations@, kept, j + 1));
            }
            j = j + 1;
        }
        result.push(last);
        proof {
            let before = kept;
            kept = kept.push(true);
            assert forall|p: int| 0 <= p < before.len() implies #[trigger] before[p] == kept[p] by {}
            assert forall|m: int| 0 < m <= n - 1 implies last_kept_before(kept, m) == last_kept_before(before, m) by {
                lemma_last_kept_prefix(kept, before, m);
            }
            lemma_kept_entries_prefix(stations@, kept, before, n - 1);
            assert(result@ == kept_entries(stations@, kept, n as int));
            assert(conditioned_by(stations@, kept, apart, distinct)) by {
                assert forall|m: int| 0 < m < n - 1 implies {
                    let station = stations@[m];
                    let previous = stations@[last_kept_before(kept, m)];
                    if #[trigger] kept[m] {
                        &&& apart.ensures((station, stations@[0]), true)
                        &&& apart.ensures((station, stations@[n - 1]), true)
                        &&& apart.ensures((station, previous), true)
                    } else {
                        ||| apart.ensures((station, stations@[0]), false)
                        ||| apart.ensures((station, stations@[0]), true) && apart.ensures(
                            (station, stations@[n - 1]),
                            false,
                        )
                        ||| apart.ensures((station, stations@[0]), true) && apart.ensures(
                            (station, stations@[n - 1]),
                            true,
                        ) && apart.ensures((station, previous), false)
                    }
                } by {
                    assert(kept[m] == before[m]);
                    lemma_last_kept_prefix(kept, before, m);
                }
            }
        }
    } else {
        let mut j: usize = 0;
        while j < n
            invariant
                n <= 2,
                n == stations@.len(),
                j <= n,
                kept.len() == j,
                j > 0 ==> kept[0],
                forall|i: usize, k: usize| distinct.requires((i, k)),
                result@ == kept_entries(stations@, kept, j as int),
                j > 0 ==> result.len() > 0 && result@[result.len() - 1] == stations@[last_kept_before(kept, j as int)],
                forall|m: int|
                    0 <= m < j ==> if m == 0 {
                        #[trigger] kept[m]
                    } else {
                        distinct.ensures((stations@[m], stations@[last_kept_before(kept, m)]), kept[m])
                    },
            decreases n - j,
        {
            let station = stations[j];
            let keep = if result.len() == 0 {
                true
            } else {
                distinct(station, result[result.len() - 1])
            };
            let ghost before = kept;
            if keep {
                result.push(station);
            }
            proof {
                kept = kept.push(keep);
                assert forall|p: int| 0 <= p < before.len() implies #[trigger] before[p] == kept[p] by {}
                assert forall|m: int| 0 < m <= j implies last_kept_before(kept, m) == last_kept_before(before, m) by {
                    lemma_last_kept_prefix(kept, before, m);
                }
                lemma_kept_entries_prefix(stations@, kept, before, j as int);
                lemma_last_kept_prefix(kept, before, j as int);
                assert(result@ == kept_entries(stations@, kept, j + 1));
            }
            j = j + 1;
        }
        proof {
            assert(conditioned_by(stations@, kept, apart, distinct));
        }
    }
    result
}

/// The kept entries of the first `m` positions begin the kept entries of
/// the first `count`.
proof fn lemma_kept_entries_grow(stations: Seq<usize>, kept: Seq<bool>, m: int, count: int)
    requires
        0 <= m <= count <= kept.len(),
    ensures
        kept_entries(stations, kept, m).len() <= kept_entries(stations, kept, count).len(),
        forall|i: int|
            0 <= i < kept_entries(stations, kept, m).len() ==> #[trigger] kept_entries(
                stations,
                kept,
                count,
            )[i] == kept_entries(stations, kept, m)[i],
    decreases count - m,
{
    if m < count {
        lemma_kept_entries_grow(stations, kept, m, count - 1);
    }
}

/// With the first position kept, the last of the kept entries before `m` is
/// the station at the last kept position before `m`.
proof fn lemma_kept_entries_last(stations: Seq<usize>, kept: Seq<bool>, m: int)
    requires
        0 < m <= kept.len(),
        kept[0],
    ensures
        kept_entries(stations, kept, m).len() > 0,
        kept_entries(stations, kept, m).last() == stations[last_kept_before(kept, m)],
    decreases m,
{
    if m > 1 && !kept[m - 1] {
        lemma_kept_entries_last(stations, kept, m - 1);
    }
}

/// Each entry `r` of the kept entries comes from a kept position `m` with
/// exactly `r` kept entries before it.
proof fn lemma_kept_entry_source(stations: Seq<usize>, kept: Seq<bool>, count: int, r: int)
    requires
        0 <= count <= kept.len(),
        0 <= r < kept_entries(stations, kept, count).len(),
    ensures
        exists|m: int|
            0 <= m < count && kept[m] && #[trigger] kept_entries(stations, kept, m).len() == r,
    decreases count,
{
    if r < kept_entries(stations, kept, count - 1).len() {
        lemma_kept_entry_source(stations, kept, count - 1, r);
    } else {
        assert(kept_entries(stations, kept, count - 1).len() == r);
    }
}

/// Of more than two stations, the conditioning judges each interior station
/// against the first station, the last, and the station the result holds
/// just before it (not the input station just before it): an interior entry
/// of the result was found apart from the first station, from the last and
/// from the entry before it in the result.
pub proof fn lemma_kept_apart_from_result_neighbour<A: Fn(usize, usize) -> bool, B: Fn(usize, usize) -> bool>(
    stations: Seq<usize>,
    kept: Seq<bool>,
    apart: A,
    distinct: B,
    r: int,
)
    requires
        conditioned_by(stations, kept, apart, distinct),
        stations.len() > 2,
        0 < r < kept_entries(stations, kept, stations.len() as int).len() - 1,
    ensures
        ({
            let result = kept_entries(stations, kept, stations.len() as int);
            &&& apart.ensures((result[r], stations[0]), true)
            &&& apart.ensures((result[r], stations[stations.len() - 1]), true)
            &&& apart.ensures((result[r], result[r - 1]), true)
        }),
{
    let n = stations.len() as int;
    let result = kept_entries(stations, kept, n);
    lemma_kept_entry_source(stations, kept, n, r);
    let m = choose|m: int| 0 <= m < n && kept[m] && #[trigger] kept_entries(stations, kept, m).len() == r;
    assert(kept[n - 1]);
    assert(kept_entries(stations, kept, n) == kept_entries(stations, kept, n - 1).push(stations[n - 1]));
    assert(m != n - 1);
    assert(m != 0);
    assert(kept_entries(stations, kept, m + 1) == kept_entries(stations, kept, m).push(stations[m]));
    lemma_kept_entries_grow(stations, kept, m + 1, n);
    lemma_kept_entries_grow(stations, kept, m, n);
    assert(result[r] == stations[m]);
    lemma_kept_entries_last(stations, kept, m);
    assert(result[r - 1] == kept_entries(stations, kept, m)[r - 1]);
    assert(result[r - 1] == stations[last_kept_before(kept, m)]);
    assert(kept[m]);
}

/// Of more than two stations, the conditioned stations begin with the first
/// station and end with the last.
pub proof fn lemma_conditioned_keeps_ends<A: Fn(usize, usize) -> bool, B: Fn(usize, usize) -> bool>(
    stations: Seq<usize>,
    kept: Seq<bool>,
    apart: A,
    distinct: B,
)
    requires
        conditioned_by(stations, kept, apart, distinct),
        stations.len() > 2,
    ensures
        kept_entries(stations, kept, stations.len() as int).len() >= 2,
        kept_entries(stations, kept, stations.len() as int)[0] == stations[0],
        kept_entries(stations, kept, stations.len() as int).last() == stations[stations.len() - 1],
{
    let n = stations.len() as int;
    assert(kept[0]);
    assert(kept[n - 1]);
    assert(kept_entries(stations, kept, 0) =~= Seq::<usize>::empty());
    assert(kept_entries(stations, kept, 1) =~= seq![stations[0]]);
    lemma_kept_entries_grow(stations, kept, 1, n - 1);
    assert(kept_entries(stations, kept, n) == kept_entries(stations, kept, n - 1).push(stations[n - 1]));
}

/// Of more than two stations, an interior station the conditioning drops
/// was found not apart from the first station, or from the last, or from
/// the last entry the result held when it was reached; so one found apart
/// from all three is kept.
pub proof fn lemma_dropped_not_apart<A: Fn(usize, usize) -> bool, B: Fn(usize, usize) -> bool>(
    stations: Seq<usize>,
    kept: Seq<bool>,
    apart: A,
    distinct: B,
    m: int,
)
    requires
        conditioned_by(stations, kept, apart, distinct),
        stations.len() > 2,
        0 < m < stations.len() - 1,
        !kept[m],
    ensures
        kept_entries(stations, kept, m).len() > 0,
        ({
            let station = stations[m];
            let previous = kept_entries(stations, kept, m).last();
            ||| apart.ensures((station, stations[0]), false)
            ||| apart.ensures((station, stations[stations.len() - 1]), false)
            ||| apart.ensures((station, previous), false)
        }),
{
    lemma_kept_entries_last(stations, kept, m);
    assert(!kept[m]);
}

/// The kept entries of a prefix are the same in the prefix and the whole.
proof fn lemma_kept_entries_prefix(stations: Seq<usize>, kept: Seq<bool>, prefix: Seq<bool>, count: int)
    requires
        prefix.len() <= kept.len(),
        forall|p: int| 0 <= p < prefix.len() ==> #[trigger] prefix[p] == kept[p],
        count <= prefix.len(),
    ensures
        kept_entries(stations, kept, count) == kept_entries(stations, prefix, count),
    decreases count,
{
    if count > 0 {
        assert(prefix[count - 1] == kept[count - 1]);
        lemma_kept_entries_prefix(stations, kept, prefix, count - 1);
    }
}

/// Positions before the end of a prefix see the same last kept position in
/// the prefix and in the whole.
proof fn lemma_last_kept_prefix(kept: Seq<bool>, prefix: Seq<bool>, m: int)
    requires
        prefix.len() <= kept.len(),
        forall|p: int| 0 <= p < prefix.len() ==> #[trigger] prefix[p] == kept[p],
        m <= prefix.len(),
    ensures
        last_kept_before(kept, m) == last_kept_before(prefix, m),
    decreases m,
{
    if m > 0 {
        assert(prefix[m - 1] == kept[m - 1]);
        lemma_last_kept_prefix(kept, prefix, m - 1);
    }
}

} // verus!
