//! The refinement ladder of a polyline fit, and the choice between its two
//! interpolation lanes.
//!
//! A fit interpolates its stations at the caller's budget and measures the
//! result. While the measurement misses the floor, the budget doubles, up to
//! a ceiling, and the better rung is kept; a doubling that buys too little
//! stops the ladder as stalled. Where the lane the caller asked for ends
//! unmet, the other lane's ladder is run too and the better measured result
//! is returned. Fitting and measuring a rung is the caller's `fit`; whether a
//! new deviation improved too little on the old one is the caller's
//! `stalls`. Deviations are doubles held as bit patterns.
use vstd::prelude::*;

use crate::float_bits::{self, ieee_le, ieee_lt};
use crate::polyline_fit::PolylineFitExit;

verus! {

/// Absolute station ceiling, whatever the caller's budget.
pub const MAX_FIT_STATIONS: usize = 1024;

/// The ladder never spends more than this multiple of the caller's budget.
pub const LADDER_BUDGET_FACTOR: usize = 2;

/// What a ladder returns: the best rung's payload and deviation, the rungs
/// it spent, and why it stopped.
pub struct LadderClimb<T> {
    pub best: T,
    pub deviation: u64,
    pub rungs: usize,
    pub exit: PolylineFitExit,
}

/// A ladder's outcome and the lane it came from.
pub struct LaneChoice<T> {
    pub climb: LadderClimb<T>,
    /// Whether the returned fit came from the local interpolation lane.
    pub local_lane: bool,
    /// Whether that is the lane the caller did not ask for.
    pub lane_switched: bool,
}

/// The lane other than `lane`.
pub open spec fn other_lane(lane: bool) -> bool {
    !lane
}

/// The budget of the first rung: the caller's, but at least two stations.
pub open spec fn first_budget(maximum_points: int) -> int {
    if maximum_points > 2 {
        maximum_points
    } else {
        2
    }
}

/// `a * b`, or `usize::MAX` where that does not fit.
pub open spec fn saturating_product(a: int, b: int) -> int {
    if a * b > usize::MAX {
        usize::MAX as int
    } else {
        a * b
    }
}

/// The largest budget the ladder may reach: the input's station count, the
/// absolute ceiling, or the budget factor times the first budget, whichever
/// is smallest, but never below the first budget.
pub open spec fn ladder_ceiling(pool_len: int, maximum_points: int) -> int {
    let first = first_budget(maximum_points);
    let pool_or_cap = if pool_len < MAX_FIT_STATIONS { pool_len } else { MAX_FIT_STATIONS as int };
    let factor_cap = saturating_product(first, LADDER_BUDGET_FACTOR as int);
    let capped = if pool_or_cap < factor_cap { pool_or_cap } else { factor_cap };
    if capped > first {
        capped
    } else {
        first
    }
}

/// Why a ladder that reached its ceiling unmet stopped: the input had no
/// station left, or the ceiling bound first.
pub open spec fn ceiling_exit(pool_len: int, maximum_points: int) -> PolylineFitExit {
    if ladder_ceiling(pool_len, maximum_points) >= pool_len {
        PolylineFitExit::InputExhausted
    } else {
        PolylineFitExit::StationCeiling
    }
}

/// The outcome of a ladder that stopped after its first rung.
pub open spec fn one_rung<T>(
    pool_len: int,
    maximum_points: int,
    floor: u64,
    refine: bool,
    best: T,
    deviation: u64,
) -> LadderClimb<T> {
    let exit = if ieee_le(deviation, floor) {
        PolylineFitExit::Converged
    } else if refine && ieee_lt(floor, deviation) {
        ceiling_exit(pool_len, maximum_points)
    } else {
        PolylineFitExit::Unrefined
    };
    LadderClimb { best, deviation, rungs: 1, exit }
}

/// Whether the ladder climbs past its first rung: refining, the first rung
/// missed the floor, and the ceiling leaves room to double.
pub open spec fn climbs(
    pool_len: int,
    maximum_points: int,
    floor: u64,
    refine: bool,
    first_deviation: u64,
) -> bool {
    refine && ieee_lt(floor, first_deviation) && first_budget(maximum_points) < ladder_ceiling(
        pool_len,
        maximum_points,
    )
}

/// The outcome of a ladder that measured a second rung at the ceiling:
/// where the second rung stalled, the better of the two, exiting converged
/// or stalled; otherwise the second rung, which either met the floor or sits
/// at the ceiling.
pub open spec fn two_rungs<T>(
    pool_len: int,
    maximum_points: int,
    floor: u64,
    first: T,
    first_deviation: u64,
    second: T,
    second_deviation: u64,
    stalled: bool,
) -> LadderClimb<T> {
    if stalled {
        let improved = ieee_lt(second_deviation, first_deviation);
        let best = if improved { second } else { first };
        let deviation = if improved { second_deviation } else { first_deviation };
        let exit = if ieee_le(deviation, floor) {
            PolylineFitExit::Converged
        } else {
            PolylineFitExit::Stalled
        };
        LadderClimb { best, deviation, rungs: 2, exit }
    } else {
        let exit = if ieee_le(second_deviation, floor) {
            PolylineFitExit::Converged
        } else if ieee_lt(floor, second_deviation) {
            ceiling_exit(pool_len, maximum_points)
        } else {
            PolylineFitExit::Unrefined
        };
        LadderClimb { best: second, deviation: second_deviation, rungs: 2, exit }
    }
}

/// The ceiling never exceeds the budget factor times the first budget, so
/// a ladder that doubles once has reached it.
pub proof fn lemma_ceiling_within_one_doubling(pool_len: int, maximum_points: int)
    ensures
        first_budget(maximum_points) <= ladder_ceiling(pool_len, maximum_points),
        first_budget(maximum_points) < ladder_ceiling(pool_len, maximum_points) ==> {
            &&& ladder_ceiling(pool_len, maximum_points) <= 2 * first_budget(maximum_points)
            &&& ladder_ceiling(pool_len, maximum_points) <= MAX_FIT_STATIONS
        },
{
}

/// Fit at the caller's budget and refine while the measurement misses
/// `floor`: each further rung doubles the budget, up to the ladder ceiling,
/// and replaces the best rung; a rung that `stalls` against the one below
/// ends the ladder with the better of the two. The exit names what the
/// returned rung is, so it is `Converged` exactly when its deviation meets
/// the floor. Without `refine` only the first rung is fitted. An error from
/// `fit` is returned as it came.
pub fn climb_ladder<T, F: Fn(usize) -> Result<(T, u64), String>, S: Fn(u64, u64) -> bool>(
    pool_len: usize,
    maximum_points: usize,
    floor: u64,
    refine: bool,
    fit: F,
    stalls: S,
) -> (result: Result<LadderClimb<T>, String>)
    requires
        forall|budget: usize| fit.requires((budget,)),
        forall|new: u64, old: u64| stalls.requires((new, old)),
    ensures
        ({
            let first = first_budget(maximum_points as int);
            let ceiling = ladder_ceiling(pool_len as int, maximum_points as int);
            match result {
                Ok(climb) => exists|t0: T, d0: u64|
                    #[trigger] fit.ensures((first as usize,), Ok((t0, d0))) && if !climbs(
                        pool_len as int,
                        maximum_points as int,
                        floor,
                        refine,
                        d0,
                    ) {
                        climb == one_rung(pool_len as int, maximum_points as int, floor, refine, t0, d0)
                    } else {
                        exists|t1: T, d1: u64, s: bool|
                            #[trigger] fit.ensures((ceiling as usize,), Ok((t1, d1)))
                                && #[trigger] stalls.ensures((d1, d0), s) && climb == two_rungs(
                                pool_len as int,
                                maximum_points as int,
                                floor,
                                t0,
                                d0,
                                t1,
                                d1,
                                s,
                            )
                    },
                Err(e) => fit.ensures((first as usize,), Err(e)) || exists|t0: T, d0: u64|
                    #[trigger] fit.ensures((first as usize,), Ok((t0, d0))) && climbs(
                        pool_len as int,
                        maximum_points as int,
                        floor,
                        refine,
                        d0,
                    ) && fit.ensures((ceiling as usize,), Err(e)),
            }
        }),
        result matches Ok(climb) ==> (climb.exit == PolylineFitExit::Converged <==> ieee_le(
            climb.deviation,
            floor,
        )),
{
    proof {
        lemma_ceiling_within_one_doubling(pool_len as int, maximum_points as int);
    }
    let mut budget: usize = if maximum_points > 2 { maximum_points } else { 2 };
    let pool_or_cap: usize = if pool_len < MAX_FIT_STATIONS { pool_len } else { MAX_FIT_STATIONS };
    let factor_cap: usize = if budget > usize::MAX / LADDER_BUDGET_FACTOR {
        usize::MAX
    } else {
        budget * LADDER_BUDGET_FACTOR
    };
    let capped: usize = if pool_or_cap < factor_cap { pool_or_cap } else { factor_cap };
    let ceiling: usize = if capped > budget { capped } else { budget };
    assert(budget == first_budget(maximum_points as int));
    assert(ceiling == ladder_ceiling(pool_len as int, maximum_points as int));
    let first_result = fit(budget);
    let (mut best, mut deviation) = match first_result {
        Ok(rung) => rung,
        Err(e) => {
            return Err(e);
        },
    };
    let ghost t0 = best;
    let ghost d0 = deviation;
    let ghost mut t1 = best;
    let ghost mut d1 = deviation;
    assert(fit.ensures((budget,), Ok((t0, d0))));
    let mut rungs: usize = 1;
    let mut exit = if float_bits::le(deviation, floor) {
        PolylineFitExit::Converged
    } else {
        PolylineFitExit::Unrefined
    };
    while refine && float_bits::lt(floor, deviation)
        invariant
            forall|b: usize| fit.requires((b,)),
            forall|new: u64, old: u64| stalls.requires((new, old)),
            budget == first_budget(maximum_points as int) || budget == ceiling,
            ceiling == ladder_ceiling(pool_len as int, maximum_points as int),
            first_budget(maximum_points as int) <= ceiling,
            fit.ensures((first_budget(maximum_points as int) as usize,), Ok((t0, d0))),
            budget == first_budget(maximum_points as int) ==> {
                &&& rungs == 1
                &&& best == t0
                &&& deviation == d0
                &&& exit == if ieee_le(d0, floor) {
                    PolylineFitExit::Converged
                } else {
                    PolylineFitExit::Unrefined
                }
            },
            budget != first_budget(maximum_points as int) ==> {
                &&& rungs == 2
                &&& climbs(pool_len as int, maximum_points as int, floor, refine, d0)
                &&& fit.ensures((ceiling,), Ok((t1, d1)))
                &&& stalls.ensures((d1, d0), false)
                &&& best == t1
                &&& deviation == d1
                &&& exit == if ieee_le(d1, floor) {
                    PolylineFitExit::Converged
                } else {
                    PolylineFitExit::Unrefined
                }
            },
        decreases ceiling - budget + if budget == ceiling { 0int } else { 1int },
    {
        if budget >= ceiling {
            let exit = if ceiling >= pool_len {
                PolylineFitExit::InputExhausted
            } else {
                PolylineFitExit::StationCeiling
            };
            proof {
                if budget != first_budget(maximum_points as int) {
                    assert(stalls.ensures((d1, d0), false));
                    assert(fit.ensures((ceiling as usize,), Ok((t1, d1))));
                }
            }
            return Ok(LadderClimb { best, deviation, rungs, exit });
        }
        let doubled: usize = budget * 2;
        budget = if doubled < ceiling { doubled } else { ceiling };
        assert(budget == ceiling);
        let rung_result = fit(budget);
        let (candidate, measured) = match rung_result {
            Ok(rung) => rung,
            Err(e) => {
                proof {
                    assert(fit.ensures((ceiling as usize,), Err(e)));
                }
                return Err(e);
            },
        };
        rungs = rungs + 1;
        let stalled = stalls(measured, deviation);
        if stalled {
            proof {
                assert(stalls.ensures((measured, d0), true));
                assert(fit.ensures((ceiling as usize,), Ok((candidate, measured))));
            }
            if float_bits::lt(measured, deviation) {
                best = candidate;
                deviation = measured;
            }
            let exit = if float_bits::le(deviation, floor) {
                PolylineFitExit::Converged
            } else {
                PolylineFitExit::Stalled
            };
            return Ok(LadderClimb { best, deviation, rungs, exit });
        }
        proof {
            t1 = candidate;
            d1 = measured;
        }
        best = candidate;
        deviation = measured;
        if float_bits::le(deviation, floor) {
            exit = PolylineFitExit::Converged;
        }
    }
    proof {
        if budget != first_budget(maximum_points as int) {
            assert(stalls.ensures((d1, d0), false));
            assert(fit.ensures((ceiling as usize,), Ok((t1, d1))));
        }
    }
    Ok(LadderClimb { best, deviation, rungs, exit })
}

/// Run the ladder in the lane the caller asked for; where it ends unmet
/// while refining, run the other lane's ladder too and return whichever
/// measured better (the asked lane on a tie), charged with the rungs of
/// both. An error from either run is returned as it came.
pub fn choose_lane<T, R: Fn(bool) -> Result<LadderClimb<T>, String>>(
    local_interpolation: bool,
    refine: bool,
    floor: u64,
    run: R,
) -> (result: Result<LaneChoice<T>, String>)
    requires
        forall|lane: bool| run.requires((lane,)),
    ensures
        match result {
            Ok(choice) => exists|asked: LadderClimb<T>|
                #[trigger] run.ensures((local_interpolation,), Ok(asked)) && if ieee_le(
                    asked.deviation,
                    floor,
                ) || !refine {
                    choice == (LaneChoice { climb: asked, local_lane: local_interpolation, lane_switched: false })
                } else {
                    exists|other: LadderClimb<T>|
                        #[trigger] run.ensures((other_lane(local_interpolation),), Ok(other)) && {
                            let spent = if asked.rungs + other.rungs > usize::MAX {
                                usize::MAX as int
                            } else {
                                asked.rungs + other.rungs
                            };
                            if ieee_lt(other.deviation, asked.deviation) {
                                choice == (LaneChoice {
                                    climb: LadderClimb { rungs: spent as usize, ..other },
                                    local_lane: !local_interpolation,
                                    lane_switched: true,
                                })
                            } else {
                                choice == (LaneChoice {
                                    climb: LadderClimb { rungs: spent as usize, ..asked },
                                    local_lane: local_interpolation,
                                    lane_switched: false,
                                })
                            }
                        }
                },
            Err(e) => run.ensures((local_interpolation,), Err(e)) || exists|asked: LadderClimb<T>|
                #[trigger] run.ensures((local_interpolation,), Ok(asked)) && !ieee_le(asked.deviation, floor)
                    && refine && run.ensures((other_lane(local_interpolation),), Err(e)),
        },
{
    let asked = match run(local_interpolation) {
        Ok(climb) => climb,
        Err(e) => {
            return Err(e);
        },
    };
    if float_bits::le(asked.deviation, floor) || !refine {
        return Ok(LaneChoice { climb: asked, local_lane: local_interpolation, lane_switched: false });
    }
    let other = match run(!local_interpolation) {
        Ok(climb) => climb,
        Err(e) => {
            return Err(e);
        },
    };
    let spent = asked.rungs.saturating_add(other.rungs);
    let ghost asked_climb = asked;
    let ghost other_climb = other;
    assert(run.ensures((local_interpolation,), Ok(asked_climb)));
    assert(run.ensures((other_lane(local_interpolation),), Ok(other_climb)));
    assert(spent == if asked.rungs + other.rungs > usize::MAX {
        usize::MAX as int
    } else {
        asked.rungs + other.rungs
    });
    if float_bits::lt(other.deviation, asked.deviation) {
        let LadderClimb { best, deviation, rungs: _, exit } = other;
        Ok(LaneChoice {
            climb: LadderClimb { best, deviation, rungs: spent, exit },
            local_lane: !local_interpolation,
            lane_switched: true,
        })
    } else {
        let LadderClimb { best, deviation, rungs: _, exit } = asked;
        Ok(LaneChoice {
            climb: LadderClimb { best, deviation, rungs: spent, exit },
            local_lane: local_interpolation,
            lane_switched: false,
        })
    }
}

} // verus!
