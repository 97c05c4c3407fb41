//! Collapsing points that are the same point to one value.
//!
//! Trim polylines assembled from per-coedge evaluations name a shared vertex
//! twice, once from each side, and the two evaluations agree only to
//! rounding. The slit cancellation of a spherical region matches a segment
//! against its exact reverse, which two nearly equal values would defeat, so
//! points are first snapped onto one representative each.
//!
//! Points are bucketed into grid cells; each point looks through its own
//! cell and the 26 around it for a representative it is close to, and takes
//! the first one found. A point that finds none becomes the representative
//! of its cell, replacing any earlier one there. Which cell a point falls in
//! and whether two points are close are the caller's floating-point
//! arithmetic: the cells arrive with the points, and closeness is the
//! caller's `close` test.
use vstd::prelude::*;

use crate::spatial::Vec3;

verus! {

/// A grid cell, by its three integer coordinates.
pub type Cell = (i64, i64, i64);

/// The cell probe `k` of a point in cell `base` looks at: the offsets run
/// through `-1, 0, 1` on each axis, the first axis slowest.
pub open spec fn probe_cell(base: Cell, k: int) -> Cell {
    ((base.0 + k / 9 - 1) as i64, (base.1 + (k / 3) % 3 - 1) as i64, (base.2 + k % 3 - 1) as i64)
}

/// The first probe from `k` on whose cell holds a representative that
/// `answers` accepts for point `i`; 27 when none does.
pub open spec fn first_accept(
    table: Map<Cell, Vec3>,
    base: Cell,
    i: int,
    answers: Map<(int, int), bool>,
    k: int,
) -> int
    decreases 27 - k,
{
    if k >= 27 {
        27
    } else if table.contains_key(probe_cell(base, k)) && accepted(answers, i, k) {
        k
    } else {
        first_accept(table, base, i, answers, k + 1)
    }
}

/// The representatives when point `i` is reached: every earlier point that
/// found no representative became the one of its cell.
pub open spec fn table_before(
    cells: Seq<Cell>,
    points: Seq<Vec3>,
    answers: Map<(int, int), bool>,
    i: int,
) -> Map<Cell, Vec3>
    decreases i,
{
    if i <= 0 {
        Map::empty()
    } else {
        let table = table_before(cells, points, answers, i - 1);
        if first_accept(table, cells[i - 1], i - 1, answers, 0) < 27 {
            table
        } else {
            table.insert(cells[i - 1], points[i - 1])
        }
    }
}

/// Where point `i` ends up: on the first representative accepted for it, or
/// where it was.
pub open spec fn snapped_point(
    cells: Seq<Cell>,
    points: Seq<Vec3>,
    answers: Map<(int, int), bool>,
    i: int,
) -> Vec3 {
    let table = table_before(cells, points, answers, i);
    let k = first_accept(table, cells[i], i, answers, 0);
    if k < 27 {
        table[probe_cell(cells[i], k)]
    } else {
        points[i]
    }
}

/// Every answer the walk reads for the points before `count` (each probe
/// of each point up to the first accepted one, where the probed cell holds
/// a representative) is one that `close` can give for that representative
/// and that point.
pub open spec fn answers_possible_upto<C: Fn(Vec3, Vec3) -> bool>(
    close: C,
    cells: Seq<Cell>,
    points: Seq<Vec3>,
    answers: Map<(int, int), bool>,
    count: int,
) -> bool {
    forall|i: int, k: int|
        #![trigger table_before(cells, points, answers, i), accepted(answers, i, k)]
        0 <= i < count && 0 <= k < 27 && k <= first_accept(
            table_before(cells, points, answers, i),
            cells[i],
            i,
            answers,
            0,
        ) && table_before(cells, points, answers, i).contains_key(probe_cell(cells[i], k))
            ==> close.ensures(
            (table_before(cells, points, answers, i)[probe_cell(cells[i], k)], points[i]),
            accepted(answers, i, k),
        )
}

/// Every answer the whole walk reads is one `close` can give.
pub open spec fn answers_possible<C: Fn(Vec3, Vec3) -> bool>(
    close: C,
    cells: Seq<Cell>,
    points: Seq<Vec3>,
    answers: Map<(int, int), bool>,
) -> bool {
    answers_possible_upto(close, cells, points, answers, points.len() as int)
}

/// Whether `answers` records an acceptance for probe `k` of point `i`; an
/// unrecorded probe accepts nothing.
pub open spec fn accepted(answers: Map<(int, int), bool>, i: int, k: int) -> bool {
    answers.contains_key((i, k)) && answers[(i, k)]
}

/// Two answer records that agree on every probe of one point find the
/// same first accepted probe for it.
proof fn lemma_first_accept_agrees(
    table: Map<Cell, Vec3>,
    base: Cell,
    i: int,
    one: Map<(int, int), bool>,
    other: Map<(int, int), bool>,
    k: int,
)
    requires
        0 <= k,
        forall|j: int| 0 <= j < 27 ==> #[trigger] accepted(one, i, j) == accepted(other, i, j),
    ensures
        first_accept(table, base, i, one, k) == first_accept(table, base, i, other, k),
    decreases 27 - k,
{
    if k < 27 {
        assert(accepted(one, i, k) == accepted(other, i, k));
        lemma_first_accept_agrees(table, base, i, one, other, k + 1);
    }
}

/// The table before point `i` reads only the answers for earlier points.
proof fn lemma_table_before_agrees(
    cells: Seq<Cell>,
    points: Seq<Vec3>,
    one: Map<(int, int), bool>,
    other: Map<(int, int), bool>,
    i: int,
)
    requires
        forall|j: int, k: int| 0 <= j < i && 0 <= k < 27 ==> #[trigger] accepted(one, j, k) == accepted(other, j, k),
    ensures
        table_before(cells, points, one, i) == table_before(cells, points, other, i),
    decreases i,
{
    if i > 0 {
        lemma_table_before_agrees(cells, points, one, other, i - 1);
        let table = table_before(cells, points, one, i - 1);
        lemma_first_accept_agrees(table, cells[i - 1], i - 1, one, other, 0);
    }
}

/// Probes that accept nothing can be skipped.
proof fn lemma_first_accept_skips(
    table: Map<Cell, Vec3>,
    base: Cell,
    i: int,
    answers: Map<(int, int), bool>,
    from: int,
    to: int,
)
    requires
        0 <= from <= to <= 27,
        forall|k: int| from <= k < to ==> !(table.contains_key(probe_cell(base, k)) && #[trigger] accepted(answers, i, k)),
    ensures
        first_accept(table, base, i, answers, from) == first_accept(table, base, i, answers, to),
    decreases to - from,
{
    if from < to {
        lemma_first_accept_skips(table, base, i, answers, from + 1, to);
    }
}

/// The table holds exactly the representatives of `map`, one entry per
/// cell.
spec fn table_holds(table: Seq<(Cell, Vec3)>, map: Map<Cell, Vec3>) -> bool {
    &&& forall|j: int| 0 <= j < table.len() ==> #[trigger] map.contains_key(table[j].0) && map[table[j].0] == table[j].1
    &&& forall|c: Cell| #[trigger] map.contains_key(c) ==> exists|j: int| 0 <= j < table.len() && table[j].0 == c
    &&& forall|j: int, l: int| 0 <= j < l < table.len() ==> #[trigger] table[j].0 != #[trigger] table[l].0
}

/// The representative of `cell`, if it has one.
fn lookup(table: &Vec<(Cell, Vec3)>, cell: Cell, map: Ghost<Map<Cell, Vec3>>) -> (result: Option<Vec3>)
    requires
        table_holds(table@, map@),
    ensures
        result == if map@.contains_key(cell) {
            Some(map@[cell])
        } else {
            None::<Vec3>
        },
{
    let mut j: usize = 0;
    while j < table.len()
        invariant
            j <= table@.len(),
            table_holds(table@, map@),
            forall|l: int| 0 <= l < j ==> table@[l].0 != cell,
        decreases table@.len() - j,
    {
        let entry = table[j];
        if entry.0.0 == cell.0 && entry.0.1 == cell.1 && entry.0.2 == cell.2 {
            assert(entry.0 == cell);
            return Some(entry.1);
        }
        j = j + 1;
    }
    proof {
        if map@.contains_key(cell) {
            let l = choose|l: int| 0 <= l < table@.len() && table@[l].0 == cell;
            assert(table@[l].0 != cell);
        }
    }
    None
}

/// Make `point` the representative of `cell`, replacing any earlier one.
fn register(table: &mut Vec<(Cell, Vec3)>, cell: Cell, point: Vec3, map: Ghost<Map<Cell, Vec3>>)
    requires
        table_holds(old(table)@, map@),
    ensures
        table_holds(final(table)@, map@.insert(cell, point)),
{
    let ghost updated = map@.insert(cell, point);
    let mut j: usize = 0;
    while j < table.len()
        invariant
            j <= table@.len(),
            table@ == old(table)@,
            updated == map@.insert(cell, point),
            table_holds(table@, map@),
            forall|l: int| 0 <= l < j ==> table@[l].0 != cell,
        decreases table@.len() - j,
    {
        let entry = table[j];
        if entry.0.0 == cell.0 && entry.0.1 == cell.1 && entry.0.2 == cell.2 {
            assert(entry.0 == cell);
            let ghost before = table@;
            table.set(j, (cell, point));
            proof {
                assert forall|c: Cell| #[trigger] updated.contains_key(c) implies exists|l: int|
                    0 <= l < table@.len() && table@[l].0 == c by {
                    if c == cell {
                        assert(table@[j as int].0 == c);
                    } else {
                        assert(map@.contains_key(c));
                        let l = choose|l: int| 0 <= l < before.len() && before[l].0 == c;
                        assert(table@[l].0 == c);
                    }
                }
                assert forall|l: int| 0 <= l < table@.len() implies #[trigger] updated.contains_key(table@[l].0)
                    && updated[table@[l].0] == table@[l].1 by {
                    if l != j {
                        assert(table@[l] == before[l]);
                        assert(before[l].0 != before[j as int].0);
                    }
                }
                assert forall|a: int, b: int| 0 <= a < b < table@.len() implies #[trigger] table@[a].0
                    != #[trigger] table@[b].0 by {
                    assert(before[a].0 != before[b].0);
                }
            }
            return;
        }
        j = j + 1;
    }
    let ghost before = table@;
    table.push((cell, point));
    proof {
        assert forall|c: Cell| #[trigger] updated.contains_key(c) implies exists|l: int|
            0 <= l < table@.len() && table@[l].0 == c by {
            if c == cell {
                assert(table@[before.len() as int].0 == c);
            } else {
                assert(map@.contains_key(c));
                let l = choose|l: int| 0 <= l < before.len() && before[l].0 == c;
                assert(table@[l].0 == c);
            }
        }
        assert forall|m: int| 0 <= m < table@.len() implies #[trigger] updated.contains_key(table@[m].0)
            && updated[table@[m].0] == table@[m].1 by {
            if m < before.len() {
                assert(table@[m] == before[m]);
                assert(before[m].0 != cell);
                assert(map@.contains_key(before[m].0) && map@[before[m].0] == before[m].1);
            } else {
                assert(table@[m] == (cell, point));
            }
        }
        assert forall|a: int, b: int| 0 <= a < b < table@.len() implies #[trigger] table@[a].0
            != #[trigger] table@[b].0 by {
            if b < before.len() {
                assert(before[a].0 != before[b].0);
            } else {
                assert(table@[a] == before[a]);
            }
        }
    }
}

/// Answer records that agree on the points before `count` agree on
/// everything the walk reads for those points.
proof fn lemma_prefix_agrees<C: Fn(Vec3, Vec3) -> bool>(
    close: C,
    cells: Seq<Cell>,
    points: Seq<Vec3>,
    one: Map<(int, int), bool>,
    other: Map<(int, int), bool>,
    count: int,
)
    requires
        forall|j: int, k: int| 0 <= j < count && 0 <= k < 27 ==> #[trigger] accepted(one, j, k) == accepted(other, j, k),
        answers_possible_upto(close, cells, points, one, count),
    ensures
        answers_possible_upto(close, cells, points, other, count),
        forall|j: int|
            0 <= j < count ==> #[trigger] snapped_point(cells, points, one, j) == snapped_point(
                cells,
                points,
                other,
                j,
            ),
        table_before(cells, points, one, count) == table_before(cells, points, other, count),
{
    lemma_table_before_agrees(cells, points, one, other, count);
    assert forall|j: int|
        0 <= j < count implies #[trigger] snapped_point(cells, points, one, j) == snapped_point(
        cells,
        points,
        other,
        j,
    ) by {
        lemma_table_before_agrees(cells, points, one, other, j);
        lemma_first_accept_agrees(table_before(cells, points, one, j), cells[j], j, one, other, 0);
    }
    assert forall|j: int, k: int|
        0 <= j < count && 0 <= k < 27 && k <= first_accept(
            table_before(cells, points, other, j),
            cells[j],
            j,
            other,
            0,
        ) && table_before(cells, points, other, j).contains_key(probe_cell(cells[j], k)) implies close.ensures(
        (table_before(cells, points, other, j)[probe_cell(cells[j], k)], points[j]),
        accepted(other, j, k),
    ) by {
        lemma_table_before_agrees(cells, points, one, other, j);
        lemma_first_accept_agrees(table_before(cells, points, one, j), cells[j], j, one, other, 0);
        assert(accepted(one, j, k) == accepted(other, j, k));
        assert(table_before(cells, points, one, j) == table_before(cells, points, other, j));
        assert(close.ensures(
            (table_before(cells, points, one, j)[probe_cell(cells[j], k)], points[j]),
            accepted(one, j, k),
        ));
    }
}

/// Collapse points that are the same point to one value.
///
/// `cells[i]` is the grid cell of `points[i]`, and `close(representative,
/// point)` says whether a point is close enough to a representative to be
/// snapped onto it. Each point in turn takes the first representative, among
/// its own cell and the 26 around it, that `close` accepts; a point that
/// finds none becomes its cell's representative, replacing any earlier one.
/// Whatever `close` answers, the result is this walk under the answers it
/// gave.
pub fn canonicalize_points<C: Fn(Vec3, Vec3) -> bool>(points: &mut Vec<Vec3>, cells: &[Cell], close: C)
    requires
        cells@.len() == old(points)@.len(),
        forall|i: int|
            0 <= i < cells@.len() ==> i64::MIN < #[trigger] cells@[i].0 < i64::MAX && i64::MIN
                < cells@[i].1 < i64::MAX && i64::MIN < cells@[i].2 < i64::MAX,
        forall|a: Vec3, b: Vec3| close.requires((a, b)),
    ensures
        final(points)@.len() == old(points)@.len(),
        exists|answers: Map<(int, int), bool>|
            {
                &&& answers_possible(close, cells@, old(points)@, answers)
                &&& forall|i: int|
                    0 <= i < final(points)@.len() ==> #[trigger] final(points)@[i] == snapped_point(
                        cells@,
                        old(points)@,
                        answers,
                        i,
                    )
            },
{
    let ghost original = points@;
    let ghost mut asked: Map<(int, int), bool> = Map::empty();
    let mut table: Vec<(Cell, Vec3)> = Vec::new();
    let n = points.len();
    let mut i: usize = 0;
    while i < n
        invariant
            n == original.len(),
            cells@.len() == n,
            points@.len() == n,
            i <= n,
            forall|a: Vec3, b: Vec3| close.requires((a, b)),
            forall|j: int|
                0 <= j < cells@.len() ==> i64::MIN < #[trigger] cells@[j].0 < i64::MAX && i64::MIN
                    < cells@[j].1 < i64::MAX && i64::MIN < cells@[j].2 < i64::MAX,
            forall|j: int, k: int| #[trigger] asked.contains_key((j, k)) ==> 0 <= j < i,
            table_holds(table@, table_before(cells@, original, asked, i as int)),
            forall|j: int| i <= j < n ==> #[trigger] points@[j] == original[j],
            forall|j: int|
                0 <= j < i ==> #[trigger] points@[j] == snapped_point(
                    cells@,
                    original,
                    asked,
                    j,
                ),
            answers_possible_upto(close, cells@, original, asked, i as int),
        decreases n - i,
    {
        let ghost before_asked = asked;
        let ghost t = table_before(cells@, original, asked, i as int);
        let point = points[i];
        let base = cells[i];
        let mut found: Option<Vec3> = None;
        let mut searching = true;
        let mut k: usize = 0;
        while searching && k < 27
            invariant
                k <= 27,
                base == cells@[i as int],
                point == original[i as int],
                i < n,
                n == original.len(),
                cells@.len() == n,
                i64::MIN < base.0 < i64::MAX && i64::MIN < base.1 < i64::MAX && i64::MIN < base.2 < i64::MAX,
                forall|a: Vec3, b: Vec3| close.requires((a, b)),
                table_holds(table@, t),
                forall|j: int, l: int| #[trigger] asked.contains_key((j, l)) ==> 0 <= j <= i,
                forall|j: int, l: int|
                    j != i ==> #[trigger] accepted(asked, j, l) == accepted(before_asked, j, l),
                forall|l: int|
                    0 <= l < k ==> !(t.contains_key(probe_cell(base, l)) && #[trigger] accepted(
                        asked,
                        i as int,
                        l,
                    )),
                searching ==> found is None,
                !searching ==> {
                    &&& k < 27
                    &&& t.contains_key(probe_cell(base, k as int))
                    &&& accepted(asked, i as int, k as int)
                    &&& found == Some(t[probe_cell(base, k as int)])
                },
                forall|l: int|
                    #![trigger accepted(asked, i as int, l)]
                    0 <= l < 27 && (l < k || (l == k && !searching)) && t.contains_key(probe_cell(base, l))
                        ==> close.ensures((t[probe_cell(base, l)], point), accepted(asked, i as int, l)),
            decreases 27 - k + if searching { 1int } else { 0int },
        {
            let dx: i64 = (k / 9) as i64 - 1;
            let dy: i64 = ((k / 3) % 3) as i64 - 1;
            let dz: i64 = (k % 3) as i64 - 1;
            let probe: Cell = (base.0 + dx, base.1 + dy, base.2 + dz);
            assert(probe == probe_cell(base, k as int));
            let existing = lookup(&table, probe, Ghost(t));
            match existing {
                Some(candidate) => {
                    let answer = close(candidate, point);
                    proof {
                        let old_asked = asked;
                        asked = asked.insert((i as int, k as int), answer);
                        assert forall|j: int, l: int| (j, l) != (i as int, k as int) implies #[trigger] accepted(
                            asked,
                            j,
                            l,
                        ) == accepted(old_asked, j, l) by {}
                        assert forall|j: int, l: int| #[trigger] asked.contains_key((j, l)) implies 0 <= j <= i by {
                            if (j, l) != (i as int, k as int) {
                                assert(old_asked.contains_key((j, l)));
                            }
                        }
                        assert forall|j: int, l: int| j != i implies #[trigger] accepted(asked, j, l) == accepted(
                            before_asked,
                            j,
                            l,
                        ) by {
                            assert(accepted(old_asked, j, l) == accepted(before_asked, j, l));
                        }
                        assert forall|l: int| 0 <= l < k implies !(t.contains_key(probe_cell(base, l))
                            && #[trigger] accepted(asked, i as int, l)) by {
                            assert(accepted(asked, i as int, l) == accepted(old_asked, i as int, l));
                        }
                        assert forall|l: int|
                            #![trigger accepted(asked, i as int, l)]
                            0 <= l < 27 && l < k && t.contains_key(probe_cell(base, l)) implies close.ensures(
                            (t[probe_cell(base, l)], point),
                            accepted(asked, i as int, l),
                        ) by {
                            assert(accepted(asked, i as int, l) == accepted(old_asked, i as int, l));
                        }
                        assert(accepted(asked, i as int, k as int) == answer);
                        assert(close.ensures((candidate, point), answer));
                    }
                    if answer {
                        found = Some(candidate);
                        searching = false;
                    } else {
                        k = k + 1;
                    }
                },
                None => {
                    k = k + 1;
                },
            }
        }
        proof {
            let a0 = before_asked;
            let a1 = asked;
            lemma_prefix_agrees(close, cells@, original, a0, a1, i as int);
            let f = first_accept(t, base, i as int, a1, 0);
            if searching {
                lemma_first_accept_skips(t, base, i as int, a1, 0, 27);
                assert(f == 27);
            } else {
                lemma_first_accept_skips(t, base, i as int, a1, 0, k as int);
                assert(f == k);
            }
            assert(answers_possible_upto(close, cells@, original, a1, i + 1)) by {
                assert forall|j: int, l: int|
                    0 <= j < i + 1 && 0 <= l < 27 && l <= first_accept(
                        table_before(cells@, original, a1, j),
                        cells@[j],
                        j,
                        a1,
                        0,
                    ) && table_before(cells@, original, a1, j).contains_key(probe_cell(cells@[j], l))
                        implies close.ensures(
                    (table_before(cells@, original, a1, j)[probe_cell(cells@[j], l)], original[j]),
                    accepted(a1, j, l),
                ) by {
                    if j == i {
                        assert(table_before(cells@, original, a1, j) == t);
                    }
                }
            }
        }
        match found {
            Some(existing) => {
                points.set(i, existing);
            },
            None => {
                register(&mut table, base, point, Ghost(t));
            },
        }
        proof {
            let a1 = asked;
            assert(table_before(cells@, original, a1, i + 1) == if searching {
                t.insert(base, point)
            } else {
                t
            });
            assert(snapped_point(cells@, original, a1, i as int) == points@[i as int]);
        }
        i = i + 1;
    }
    proof {
        assert(answers_possible(close, cells@, original, asked));
    }
}

} // verus!
