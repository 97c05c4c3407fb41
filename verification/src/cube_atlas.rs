//! The combinatorics of the cube atlas of a sphere: six charts, one per cube
//! face, twelve cube edges each shared by two charts, eight corners each
//! shared by three edges.
//!
//! Chart `k` faces basis axis `k / 2`, towards `+` for even `k` and `-` for
//! odd; with `b = (axis + 1) % 3` and `c = (axis + 2) % 3` its point at chart
//! coordinates `(s, t)` has direction `sign·e_axis + sign·s·e_b + t·e_c`.
//! A cube edge is named by its varying axis and the signs of the other two
//! axes (in the order `(v + 1) % 3`, `(v + 2) % 3`); its parameter `q` runs
//! along the varying axis. A corner is named by its three axis signs.
//!
//! Signs are carried as booleans, `true` for `+1`.
use vstd::prelude::*;

use crate::float_bits::{self, ieee_le, ieee_lt, NEG_INFINITY, SIGN_BIT};
use crate::spatial::Vec3;

verus! {

/// Charts in the atlas: one per cube face.
pub const CHART_COUNT: usize = 6;

/// Cube edges, each shared by exactly two charts.
pub const CUBE_EDGE_COUNT: usize = 12;

/// Cube corners, each shared by exactly three charts and three cube edges.
pub const CUBE_CORNER_COUNT: usize = 8;

/// Which side of a chart square a cube edge is: the chart's other coordinate
/// runs along the edge.
#[derive(Clone, Copy, Debug, PartialEq, Eq, Structural)]
pub enum ChartSide {
    /// `s = +1`
    SPlus,
    /// `s = -1`
    SMinus,
    /// `t = +1`
    TPlus,
    /// `t = -1`
    TMinus,
}

/// `+1` or `-1` for a sign bit.
pub open spec fn sign_value(positive: bool) -> int {
    if positive {
        1
    } else {
        -1
    }
}

/// Canonical index of the cube edge with varying axis `varying` and the
/// other two axes pinned to the given signs.
pub open spec fn edge_index(varying: int, first: bool, second: bool) -> int {
    varying * 4 + (if first {
        2int
    } else {
        0int
    }) + (if second {
        1int
    } else {
        0int
    })
}

/// Canonical index of the corner with the given per-axis signs.
pub open spec fn corner_of(x: bool, y: bool, z: bool) -> int {
    (if x {
        1int
    } else {
        0int
    }) + (if y {
        2int
    } else {
        0int
    }) + (if z {
        4int
    } else {
        0int
    })
}

/// The sign of `corner` on `axis`.
pub open spec fn corner_sign(corner: int, axis: int) -> bool {
    if axis == 0 {
        corner % 2 == 1
    } else if axis == 1 {
        (corner / 2) % 2 == 1
    } else {
        (corner / 4) % 2 == 1
    }
}

/// The edge a chart side lies on and whether its parameter runs with the
/// chart's free coordinate (`q = f`) or against it (`q = -f`).
pub open spec fn side_edge(side: ChartSide, chart: int) -> (int, bool) {
    let axis = chart / 2;
    let sign = chart % 2 == 0;
    let b = (axis + 1) % 3;
    let c = (axis + 2) % 3;
    match side {
        ChartSide::SPlus => (edge_index(c, sign, sign), true),
        ChartSide::SMinus => (edge_index(c, sign, !sign), true),
        ChartSide::TPlus => (edge_index(b, true, sign), sign),
        ChartSide::TMinus => (edge_index(b, false, sign), sign),
    }
}

/// The chart coordinates `(s, t)` of the point at free coordinate `f` on a
/// side of the chart square.
pub open spec fn side_coordinates(side: ChartSide, f: int) -> (int, int) {
    match side {
        ChartSide::SPlus => (1, f),
        ChartSide::SMinus => (-1, f),
        ChartSide::TPlus => (f, 1),
        ChartSide::TMinus => (f, -1),
    }
}

/// Component `k` (in the atlas basis) of chart `chart`'s direction at
/// `(s, t)`: `sign` on the chart's axis, `sign·s` on the next, `t` on the
/// one after.
pub open spec fn chart_direction(chart: int, s: int, t: int, k: int) -> int {
    let axis = chart / 2;
    let sign = sign_value(chart % 2 == 0);
    if k == axis {
        sign
    } else if k == (axis + 1) % 3 {
        sign * s
    } else {
        t
    }
}

/// Component `k` of cube edge `edge`'s direction at parameter `q`: `q` on
/// the varying axis, the pinned signs on the other two.
pub open spec fn edge_direction(edge: int, q: int, k: int) -> int {
    let varying = edge / 4;
    let rest = edge % 4;
    if k == varying {
        q
    } else if k == (varying + 1) % 3 {
        sign_value(rest / 2 == 1)
    } else {
        sign_value(rest % 2 == 1)
    }
}

/// Canonical index of the cube edge whose varying axis is `varying` and
/// whose two other axes `(varying + 1) % 3` and `(varying + 2) % 3` are
/// pinned to the given signs. Twelve edges: three varying axes times four
/// sign pairs.
pub fn cube_edge_index(varying: usize, sign_first: bool, sign_second: bool) -> (result: usize)
    requires
        varying <= (usize::MAX - 3) / 4,
    ensures
        result == edge_index(varying as int, sign_first, sign_second),
{
    let first: usize = if sign_first {
        1
    } else {
        0
    };
    let second: usize = if sign_second {
        1
    } else {
        0
    };
    varying * 4 + first * 2 + second
}

/// Inverse of [`cube_edge_index`]: `(varying axis, sign of (v+1)%3, sign of
/// (v+2)%3)`.
pub fn cube_edge_parts(index: usize) -> (result: (usize, bool, bool))
    ensures
        result.0 == index / 4,
        result.1 == ((index % 4) / 2 == 1),
        result.2 == ((index % 4) % 2 == 1),
{
    let varying = index / 4;
    let rest = index % 4;
    (varying, rest / 2 == 1, rest % 2 == 1)
}

/// Canonical index of the cube corner with the given per-axis signs.
pub fn corner_index(signs: [bool; 3]) -> (result: usize)
    ensures
        result == corner_of(signs@[0], signs@[1], signs@[2]),
        result < CUBE_CORNER_COUNT,
{
    let x: usize = if signs[0] {
        1
    } else {
        0
    };
    let y: usize = if signs[1] {
        1
    } else {
        0
    };
    let z: usize = if signs[2] {
        1
    } else {
        0
    };
    x + y * 2 + z * 4
}

/// The corner at the `q = +1` (`positive_end`) or `q = -1` end of a cube
/// edge.
pub fn cube_edge_corner(edge: usize, positive_end: bool) -> (result: usize)
    requires
        edge < CUBE_EDGE_COUNT,
    ensures
        result < CUBE_CORNER_COUNT,
        forall|k: int|
            0 <= k < 3 ==> corner_sign(result as int, k) == (edge_direction(
                edge as int,
                sign_value(positive_end),
                k,
            ) == 1),
{
    let (varying, first, second) = cube_edge_parts(edge);
    let mut signs = [false; 3];
    signs[varying] = positive_end;
    signs[(varying + 1) % 3] = first;
    signs[(varying + 2) % 3] = second;
    corner_index(signs)
}

impl ChartSide {
    /// The cube edge this side of chart `chart` lies on, and whether the
    /// edge parameter runs with the chart's free coordinate `f` (`q = f`) or
    /// against it (`q = -f`).
    ///
    /// This is the single place the two charts meeting along a cube edge
    /// agree about its identity and its direction, so a subdivision computed
    /// once in `q` reaches both of them unchanged.
    pub fn edge(self, chart: usize) -> (result: (usize, bool))
        ensures
            result.0 == side_edge(self, chart as int).0,
            result.1 == side_edge(self, chart as int).1,
    {
        let axis = chart / 2;
        let sign = chart % 2 == 0;
        let b = (axis + 1) % 3;
        let c = (axis + 2) % 3;
        match self {
            ChartSide::SPlus => (cube_edge_index(c, sign, sign), true),
            ChartSide::SMinus => (cube_edge_index(c, sign, !sign), true),
            ChartSide::TPlus => (cube_edge_index(b, true, sign), sign),
            ChartSide::TMinus => (cube_edge_index(b, false, sign), sign),
        }
    }
}

/// [`cube_edge_parts`] inverts [`cube_edge_index`], and every edge index
/// below twelve is the index of its own parts.
pub proof fn lemma_edge_parts_invert_index(varying: int, first: bool, second: bool, edge: int)
    requires
        0 <= varying < 3,
        0 <= edge < 12,
    ensures
        edge_index(varying, first, second) / 4 == varying,
        (edge_index(varying, first, second) % 4 / 2 == 1) == first,
        (edge_index(varying, first, second) % 4 % 2 == 1) == second,
        0 <= edge_index(varying, first, second) < 12,
        edge_index(edge / 4, edge % 4 / 2 == 1, edge % 4 % 2 == 1) == edge,
{
}

/// Every side of every chart lies on one of the twelve cube edges.
pub proof fn lemma_sides_are_cube_edges(side: ChartSide, chart: int)
    requires
        0 <= chart < 6,
    ensures
        0 <= side_edge(side, chart).0 < 12,
{
}

/// The two charts meeting along a cube edge agree about it exactly: the
/// point at free coordinate `f` on a side of a chart square IS the point of
/// the edge that side names, at parameter `q = ±f` as the side says, in
/// every basis component.
pub proof fn lemma_side_agrees_with_edge(side: ChartSide, chart: int, f: int, k: int)
    requires
        0 <= chart < 6,
        0 <= k < 3,
    ensures
        ({
            let (s, t) = side_coordinates(side, f);
            let (edge, with) = side_edge(side, chart);
            chart_direction(chart, s, t, k) == edge_direction(edge, sign_value(with) * f, k)
        }),
{
}

/// The first chart that sees cube edge `edge`: the one facing its first
/// pinned axis, on the pinned sign.
pub open spec fn first_owner(edge: int) -> (int, ChartSide) {
    let first = edge % 4 / 2 == 1;
    let second = edge % 4 % 2 == 1;
    (2 * ((edge / 4 + 1) % 3) + if first {
        0int
    } else {
        1int
    }, if first == second {
        ChartSide::SPlus
    } else {
        ChartSide::SMinus
    })
}

/// The second chart that sees cube edge `edge`: the one facing its second
/// pinned axis, on the pinned sign.
pub open spec fn second_owner(edge: int) -> (int, ChartSide) {
    let first = edge % 4 / 2 == 1;
    let second = edge % 4 % 2 == 1;
    (2 * ((edge / 4 + 2) % 3) + if second {
        0int
    } else {
        1int
    }, if first {
        ChartSide::TPlus
    } else {
        ChartSide::TMinus
    })
}

/// A chart side lies on a cube edge only if it is one of the edge's two
/// owners.
proof fn lemma_side_owner(side: ChartSide, chart: int)
    requires
        0 <= chart < 6,
    ensures
        ({
            let edge = side_edge(side, chart).0;
            (chart, side) == first_owner(edge) || (chart, side) == second_owner(edge)
        }),
{
    if chart == 0 {
    } else if chart == 1 {
    } else if chart == 2 {
    } else if chart == 3 {
    } else if chart == 4 {
    } else {
    }
}

/// Both owners of cube edge `edge` see it, and they are different charts.
proof fn lemma_owners_see_edge(edge: int)
    requires
        0 <= edge < 12,
    ensures
        0 <= first_owner(edge).0 < 6,
        0 <= second_owner(edge).0 < 6,
        first_owner(edge).0 != second_owner(edge).0,
        side_edge(first_owner(edge).1, first_owner(edge).0).0 == edge,
        side_edge(second_owner(edge).1, second_owner(edge).0).0 == edge,
{
    if edge == 0 {
        assert(first_owner(0) == (3int, ChartSide::SPlus));
        assert(second_owner(0) == (5int, ChartSide::TMinus));
    } else if edge == 1 {
        assert(first_owner(1) == (3int, ChartSide::SMinus));
        assert(second_owner(1) == (4int, ChartSide::TMinus));
    } else if edge == 2 {
        assert(first_owner(2) == (2int, ChartSide::SMinus));
        assert(second_owner(2) == (5int, ChartSide::TPlus));
    } else if edge == 3 {
        assert(first_owner(3) == (2int, ChartSide::SPlus));
        assert(second_owner(3) == (4int, ChartSide::TPlus));
    } else if edge == 4 {
        assert(first_owner(4) == (5int, ChartSide::SPlus));
        assert(second_owner(4) == (1int, ChartSide::TMinus));
    } else if edge == 5 {
        assert(first_owner(5) == (5int, ChartSide::SMinus));
        assert(second_owner(5) == (0int, ChartSide::TMinus));
    } else if edge == 6 {
        assert(first_owner(6) == (4int, ChartSide::SMinus));
        assert(second_owner(6) == (1int, ChartSide::TPlus));
    } else if edge == 7 {
        assert(first_owner(7) == (4int, ChartSide::SPlus));
        assert(second_owner(7) == (0int, ChartSide::TPlus));
    } else if edge == 8 {
        assert(first_owner(8) == (1int, ChartSide::SPlus));
        assert(second_owner(8) == (3int, ChartSide::TMinus));
    } else if edge == 9 {
        assert(first_owner(9) == (1int, ChartSide::SMinus));
        assert(second_owner(9) == (2int, ChartSide::TMinus));
    } else if edge == 10 {
        assert(first_owner(10) == (0int, ChartSide::SMinus));
        assert(second_owner(10) == (3int, ChartSide::TPlus));
    } else {
        assert(first_owner(11) == (0int, ChartSide::SPlus));
        assert(second_owner(11) == (2int, ChartSide::TPlus));
    }
}

/// Each cube edge is shared by exactly two charts: its two owners see it,
/// they are different charts, and no other chart side lies on it.
pub proof fn lemma_edge_shared_by_two_charts(edge: int, side: ChartSide, chart: int)
    requires
        0 <= edge < 12,
        0 <= chart < 6,
    ensures
        0 <= first_owner(edge).0 < 6,
        0 <= second_owner(edge).0 < 6,
        first_owner(edge).0 != second_owner(edge).0,
        side_edge(first_owner(edge).1, first_owner(edge).0).0 == edge,
        side_edge(second_owner(edge).1, second_owner(edge).0).0 == edge,
        side_edge(side, chart).0 == edge ==> (chart, side) == first_owner(edge) || (chart, side)
            == second_owner(edge),
{
    lemma_side_owner(side, chart);
    lemma_owners_see_edge(edge);
}

/// The corner at either end of a cube edge is the corner whose signs are
/// the edge's pinned signs and the end's sign on the varying axis; so the
/// three edges meeting at a corner all name it by the same index.
pub proof fn lemma_corner_of_edge_end(corner: int, varying: int)
    requires
        0 <= corner < 8,
        0 <= varying < 3,
    ensures
        ({
            let edge = edge_index(
                varying,
                corner_sign(corner, (varying + 1) % 3),
                corner_sign(corner, (varying + 2) % 3),
            );
            &&& 0 <= edge < 12
            &&& forall|k: int|
                0 <= k < 3 ==> (edge_direction(
                    edge,
                    sign_value(corner_sign(corner, varying)),
                    k,
                ) == 1) == corner_sign(corner, k)
        }),
{
}


/// The two ends of a cube edge, as [`cube_edge_corner`] gives them, are
/// corners that differ in exactly the bit of the edge's varying axis `v`,
/// which the `q = +1` end has set and the `q = -1` end clear:
/// `c1 ^ c0 == 1 << v`.
pub proof fn lemma_edge_ends_differ_in_varying_bit(edge: usize, c0: usize, c1: usize)
    requires
        edge < CUBE_EDGE_COUNT,
        c0 < CUBE_CORNER_COUNT,
        c1 < CUBE_CORNER_COUNT,
        forall|k: int|
            0 <= k < 3 ==> corner_sign(c0 as int, k) == (edge_direction(
                edge as int,
                sign_value(false),
                k,
            ) == 1),
        forall|k: int|
            0 <= k < 3 ==> corner_sign(c1 as int, k) == (edge_direction(
                edge as int,
                sign_value(true),
                k,
            ) == 1),
    ensures
        c1 ^ c0 == 1usize << (edge / 4),
        c1 & (1usize << (edge / 4)) != 0,
        c0 & (1usize << (edge / 4)) == 0,
{
    assert(corner_sign(c0 as int, 0) == (edge_direction(edge as int, -1, 0) == 1));
    assert(corner_sign(c1 as int, 0) == (edge_direction(edge as int, 1, 0) == 1));
    assert(corner_sign(c0 as int, 1) == (edge_direction(edge as int, -1, 1) == 1));
    assert(corner_sign(c1 as int, 1) == (edge_direction(edge as int, 1, 1) == 1));
    assert(corner_sign(c0 as int, 2) == (edge_direction(edge as int, -1, 2) == 1));
    assert(corner_sign(c1 as int, 2) == (edge_direction(edge as int, 1, 2) == 1));
    let v = edge / 4;
    if v == 0 {
        assert(c1 ^ c0 == 1usize << v && c1 & (1usize << v) != 0 && c0 & (1usize << v) == 0) by (bit_vector)
            requires
                v == 0,
                c0 < 8,
                c1 < 8,
                c0 % 2 == 0,
                c1 % 2 == 1,
                (c0 / 2) % 2 == (c1 / 2) % 2,
                (c0 / 4) % 2 == (c1 / 4) % 2,
        ;
    } else if v == 1 {
        assert(c1 ^ c0 == 1usize << v && c1 & (1usize << v) != 0 && c0 & (1usize << v) == 0) by (bit_vector)
            requires
                v == 1,
                c0 < 8,
                c1 < 8,
                c0 % 2 == c1 % 2,
                (c0 / 2) % 2 == 0,
                (c1 / 2) % 2 == 1,
                (c0 / 4) % 2 == (c1 / 4) % 2,
        ;
    } else {
        assert(c1 ^ c0 == 1usize << v && c1 & (1usize << v) != 0 && c0 & (1usize << v) == 0) by (bit_vector)
            requires
                v == 2,
                c0 < 8,
                c1 < 8,
                c0 % 2 == c1 % 2,
                (c0 / 2) % 2 == (c1 / 2) % 2,
                (c0 / 4) % 2 == 0,
                (c1 / 4) % 2 == 1,
        ;
    }
}

/// The double with the other sign: the bit pattern with its sign bit
/// flipped, which is exactly what IEEE negation (and multiplying by `-1`)
/// does.
pub open spec fn negated(bits: u64) -> u64 {
    if bits >= SIGN_BIT {
        (bits - SIGN_BIT) as u64
    } else {
        (bits + SIGN_BIT) as u64
    }
}

/// How far a point with the given basis coordinates projects onto chart
/// `chart`'s face: its coordinate along the chart's axis, negated for a
/// chart facing the negative direction.
pub open spec fn face_value(coordinates: Seq<u64>, chart: int) -> u64 {
    if chart % 2 == 0 {
        coordinates[chart / 2]
    } else {
        negated(coordinates[chart / 2])
    }
}

/// Whether chart `chart` is the one a point with these basis coordinates is
/// located in: among the charts whose face value exceeds negative infinity,
/// one with the largest value, the lowest index breaking a tie. Where no
/// chart's value exceeds negative infinity, chart 0.
pub open spec fn located_chart(coordinates: Seq<u64>, chart: int) -> bool {
    if exists|d: int| 0 <= d < 6 && ieee_lt(NEG_INFINITY, #[trigger] face_value(coordinates, d)) {
        &&& 0 <= chart < 6
        &&& ieee_lt(NEG_INFINITY, face_value(coordinates, chart))
        &&& forall|d: int|
            0 <= d < 6 ==> !ieee_lt(face_value(coordinates, chart), #[trigger] face_value(coordinates, d))
        &&& forall|d: int|
            0 <= d < chart ==> !ieee_le(face_value(coordinates, chart), #[trigger] face_value(coordinates, d))
    } else {
        chart == 0
    }
}

/// The chart a point belongs to when only one answer is wanted, from the
/// point's three basis coordinates: the chart whose face the point projects
/// furthest onto, lowest index breaking a tie. Deterministic, so it can be
/// used as a key.
pub fn locate(coordinates: [u64; 3]) -> (result: usize)
    ensures
        result < CHART_COUNT,
        located_chart(coordinates@, result as int),
{
    let mut best: usize = 0;
    let mut best_value: u64 = NEG_INFINITY;
    let mut chart: usize = 0;
    while chart < CHART_COUNT
        invariant
            chart <= CHART_COUNT,
            best < CHART_COUNT,
            (exists|d: int| 0 <= d < chart && ieee_lt(NEG_INFINITY, #[trigger] face_value(coordinates@, d)))
                ==> {
                &&& best < chart
                &&& best_value == face_value(coordinates@, best as int)
                &&& ieee_lt(NEG_INFINITY, best_value)
                &&& forall|d: int| 0 <= d < chart ==> !ieee_lt(best_value, #[trigger] face_value(coordinates@, d))
                &&& forall|d: int| 0 <= d < best ==> !ieee_le(best_value, #[trigger] face_value(coordinates@, d))
            },
            !(exists|d: int| 0 <= d < chart && ieee_lt(NEG_INFINITY, #[trigger] face_value(coordinates@, d)))
                ==> best == 0 && best_value == NEG_INFINITY,
        decreases CHART_COUNT - chart,
    {
        let raw = coordinates[chart / 2];
        let value = if chart % 2 == 0 {
            raw
        } else if raw >= SIGN_BIT {
            raw - SIGN_BIT
        } else {
            raw + SIGN_BIT
        };
        assert(value == face_value(coordinates@, chart as int));
        if float_bits::lt(best_value, value) {
            best_value = value;
            best = chart;
        }
        proof {
            if exists|d: int| 0 <= d < chart + 1 && ieee_lt(NEG_INFINITY, #[trigger] face_value(coordinates@, d)) {
                assert(ieee_lt(NEG_INFINITY, best_value));
            }
        }
        chart = chart + 1;
    }
    proof {
        result_is_located(coordinates@, best as int);
    }
    best
}

proof fn result_is_located(coordinates: Seq<u64>, chart: int)
    requires
        0 <= chart < 6,
        (exists|d: int| 0 <= d < 6 && ieee_lt(NEG_INFINITY, #[trigger] face_value(coordinates, d))) ==> {
            &&& ieee_lt(NEG_INFINITY, face_value(coordinates, chart))
            &&& forall|d: int| 0 <= d < 6 ==> !ieee_lt(face_value(coordinates, chart), #[trigger] face_value(coordinates, d))
            &&& forall|d: int| 0 <= d < chart ==> !ieee_le(face_value(coordinates, chart), #[trigger] face_value(coordinates, d))
        },
        !(exists|d: int| 0 <= d < 6 && ieee_lt(NEG_INFINITY, #[trigger] face_value(coordinates, d))) ==> chart == 0,
    ensures
        located_chart(coordinates, chart),
{
}

/// Every chart for which `contains` answers yes, in ascending order, so the
/// answer does not depend on the order the charts were asked in: one chart
/// for a point in a chart interior, two on a cube edge, three at a corner.
pub fn charts_containing<C: Fn(usize) -> bool>(contains: C) -> (result: Vec<usize>)
    requires
        forall|chart: usize| chart < CHART_COUNT ==> contains.requires((chart,)),
    ensures
        forall|j: int, k: int| 0 <= j < k < result.len() ==> result@[j] < result@[k],
        forall|j: int| 0 <= j < result.len() ==> #[trigger] result@[j] < CHART_COUNT,
        forall|chart: usize|
            #![trigger result@.contains(chart)]
            chart < CHART_COUNT ==> (result@.contains(chart) ==> contains.ensures((chart,), true)) && (
            !result@.contains(chart) ==> contains.ensures((chart,), false)),
{
    let mut result: Vec<usize> = Vec::new();
    let mut chart: usize = 0;
    while chart < CHART_COUNT
        invariant
            chart <= CHART_COUNT,
            forall|c: usize| c < CHART_COUNT ==> contains.requires((c,)),
            forall|j: int, k: int| 0 <= j < k < result.len() ==> result@[j] < result@[k],
            forall|j: int| 0 <= j < result.len() ==> #[trigger] result@[j] < chart,
            forall|c: usize|
                #![trigger result@.contains(c)]
                c < chart ==> (result@.contains(c) ==> contains.ensures((c,), true)) && (
                !result@.contains(c) ==> contains.ensures((c,), false)),
        decreases CHART_COUNT - chart,
    {
        let inside = contains(chart);
        let ghost before = result@;
        if inside {
            result.push(chart);
        }
        proof {
            assert forall|c: usize| c < chart + 1 implies (#[trigger] result@.contains(c) ==> contains.ensures(
                (c,),
                true,
            )) && (!result@.contains(c) ==> contains.ensures((c,), false)) by {
                if c < chart {
                    if result@.contains(c) && !before.contains(c) {
                        let j = choose|j: int| 0 <= j < result.len() && result@[j] == c;
                        if j < before.len() {
                            assert(before[j] == c);
                        }
                    }
                    if before.contains(c) {
                        let j = choose|j: int| 0 <= j < before.len() && before[j] == c;
                        assert(result@[j] == c);
                    }
                } else {
                    if inside {
                        assert(result@[result.len() - 1] == c);
                    } else {
                        if result@.contains(c) {
                            let j = choose|j: int| 0 <= j < result.len() && result@[j] == c;
                            assert(before[j] < chart);
                        }
                    }
                }
            }
        }
        chart = chart + 1;
    }
    result
}

/// One piece of a trim polyline, already confined to a single chart.
#[derive(Clone, Copy, Debug)]
pub struct ChartSegment {
    pub start: Vec3,
    pub end: Vec3,
    pub chart: usize,
}

/// The `index`-th edge of the closed polyline through `points`: from point
/// `index` to the next, the last point joining back to the first.
pub open spec fn closing_edge(points: Seq<Vec3>, index: int) -> (Vec3, Vec3) {
    (points[index], points[(index + 1) % points.len() as int])
}

/// The pieces laid end to end.
pub open spec fn joined(pieces: Seq<Vec<ChartSegment>>) -> Seq<ChartSegment> {
    pieces.map_values(|piece: Vec<ChartSegment>| piece@).flatten()
}

/// Split a closed polyline on the sphere so that no segment crosses a chart
/// boundary: every edge of the closed polyline (the last point joins back to
/// the first) is split by `split_segment`, and the pieces are returned in
/// order. The first error stops the split and is returned as it came: every
/// earlier edge split without one.
pub fn split_polyline<S: Fn(Vec3, Vec3) -> Result<Vec<ChartSegment>, String>>(
    points: &[Vec3],
    split_segment: S,
) -> (result: Result<Vec<ChartSegment>, String>)
    requires
        forall|start: Vec3, end: Vec3| split_segment.requires((start, end)),
    ensures
        match result {
            Ok(segments) => exists|pieces: Seq<Vec<ChartSegment>>|
                {
                    &&& pieces.len() == points@.len()
                    &&& forall|index: int|
                        0 <= index < points@.len() ==> split_segment.ensures(
                            closing_edge(points@, index),
                            Ok(#[trigger] pieces[index]),
                        )
                    &&& segments@ == joined(pieces)
                },
            Err(e) => exists|index: int|
                {
                    &&& 0 <= index < points@.len()
                    &&& split_segment.ensures(#[trigger] closing_edge(points@, index), Err(e))
                    &&& forall|earlier: int|
                        0 <= earlier < index ==> exists|piece: Vec<ChartSegment>|
                            split_segment.ensures(#[trigger] closing_edge(points@, earlier), Ok(piece))
                },
        },
{
    let mut segments: Vec<ChartSegment> = Vec::new();
    let ghost mut pieces: Seq<Vec<ChartSegment>> = Seq::empty();
    let n = points.len();
    let mut index: usize = 0;
    assert(segments@ =~= joined(pieces));
    while index < n
        invariant
            n == points@.len(),
            index <= n,
            forall|start: Vec3, end: Vec3| split_segment.requires((start, end)),
            pieces.len() == index,
            forall|k: int|
                0 <= k < index ==> split_segment.ensures(closing_edge(points@, k), Ok(#[trigger] pieces[k])),
            segments@ == joined(pieces),
        decreases n - index,
    {
        let next = if index + 1 < n { index + 1 } else { 0 };
        assert(next as int == (index + 1) % (n as int)) by {
            if index + 1 == n {
                vstd::arithmetic::div_mod::lemma_mod_self_0(n as int);
            } else {
                vstd::arithmetic::div_mod::lemma_small_mod((index + 1) as nat, n as nat);
            }
        }
        let split = split_segment(points[index], points[next]);
        match split {
            Ok(piece) => {
                let mut piece = piece;
                proof {
                    let f = |p: Vec<ChartSegment>| p@;
                    assert(pieces.push(piece).map_values(f) =~= pieces.map_values(f).push(piece@));
                    pieces.map_values(f).lemma_flatten_push(piece@);
                    pieces = pieces.push(piece);
                }
                segments.append(&mut piece);
            },
            Err(e) => {
                proof {
                    assert(split_segment.ensures(closing_edge(points@, index as int), Err(e)));
                    assert forall|earlier: int| 0 <= earlier < index implies exists|piece: Vec<ChartSegment>|
                        split_segment.ensures(#[trigger] closing_edge(points@, earlier), Ok(piece)) by {
                        assert(split_segment.ensures(closing_edge(points@, earlier), Ok(pieces[earlier])));
                    }
                }
                return Err(e);
            },
        }
        index = index + 1;
    }
    Ok(segments)
}

} // verus!
