use lib::fit_ladder::{choose_lane, climb_ladder, LadderClimb, MAX_FIT_STATIONS};
use lib::pcurve_fit::{
    PcurveFitExit, PcurveFitLedger, PcurveFitReport, PcurveFitScope, PcurveFitScopes,
};
use lib::polyline_fit::{
    PolylineFitExit, PolylineFitLedger, PolylineFitReport, PolylineFitScope, PolylineFitScopes,
};
use lib::stations::{condition_stations, decimate_stations, simplify_polyline_indices};
use std::cell::RefCell;

fn b(x: f64) -> u64 {
    x.to_bits()
}

fn polyline_report(deviation: f64, floor: f64, exit: PolylineFitExit) -> PolylineFitReport {
    PolylineFitReport {
        deviation: b(deviation),
        rms: b(deviation * 0.5),
        between_stations: b(deviation * 0.25),
        tolerance: b(floor),
        floor: b(floor),
        stations: 10,
        controls: 12,
        input_points: 40,
        pool_points: 20,
        dropped_band: b(floor * 0.1),
        rungs: 1,
        local_lane: false,
        lane_switched: false,
        exit,
    }
}

fn pcurve_report(residual: f64, floor: f64, exit: PcurveFitExit, raised: bool) -> PcurveFitReport {
    PcurveFitReport {
        residual: b(residual),
        floor: b(floor),
        samples: 33,
        exit,
        off_surface: b(residual * 0.1),
        raised,
    }
}

#[test]
fn polyline_report_predicates() {
    let met = polyline_report(1e-8, 1e-7, PolylineFitExit::Converged);
    assert!(met.met_tolerance());
    assert!(met.met_requested_tolerance());
    assert!(!met.saturated());
    let mut unmet = polyline_report(1e-6, 1e-7, PolylineFitExit::Stalled);
    assert!(!unmet.met_tolerance());
    unmet.stations = 20;
    assert!(unmet.saturated());
    let mut banded = polyline_report(2e-7, 3e-7, PolylineFitExit::Converged);
    banded.tolerance = b(1e-7);
    assert!(banded.met_tolerance());
    assert!(!banded.met_requested_tolerance());
    let nan = polyline_report(f64::NAN, 1e-7, PolylineFitExit::Unrefined);
    assert!(!nan.met_tolerance());
}

#[test]
fn polyline_ledger_records_by_exit() {
    let mut ledger = PolylineFitLedger::default();
    let mut ceiling = polyline_report(5e-6, 1e-7, PolylineFitExit::StationCeiling);
    ceiling.rungs = 2;
    ceiling.lane_switched = true;
    assert!(ledger.can_record(&ceiling));
    ledger.record(&ceiling);
    ledger.record(&polyline_report(1e-6, 1e-7, PolylineFitExit::Stalled));
    let mut saturated = polyline_report(1e-8, 1e-7, PolylineFitExit::Converged);
    saturated.stations = 20;
    ledger.record(&saturated);
    assert_eq!(ledger.fits, 3);
    assert_eq!(ledger.unmet, 2);
    assert_eq!(ledger.station_ceiling, 1);
    assert_eq!(ledger.stalled, 1);
    assert_eq!(ledger.input_exhausted, 0);
    assert_eq!(ledger.unrefined, 0);
    assert_eq!(ledger.refined, 1);
    assert_eq!(ledger.extra_rungs, 1);
    assert_eq!(ledger.lane_switched, 1);
    assert_eq!(ledger.met_at_pool, 1);
    assert_eq!(ledger.worst_unmet_deviation, b(5e-6));
    assert_eq!(ledger.worst_dropped_band, b(1e-7 * 0.1));
}

#[test]
fn polyline_ledger_fold_adds_counts_and_keeps_worst() {
    let mut parent = PolylineFitLedger::default();
    parent.record(&polyline_report(3e-6, 1e-7, PolylineFitExit::Unrefined));
    let mut child = PolylineFitLedger::default();
    child.record(&polyline_report(7e-6, 1e-7, PolylineFitExit::InputExhausted));
    child.record(&polyline_report(1e-9, 1e-7, PolylineFitExit::Converged));
    assert!(parent.can_fold(&child));
    parent.fold(&child);
    assert_eq!(parent.fits, 3);
    assert_eq!(parent.unmet, 2);
    assert_eq!(parent.unrefined, 1);
    assert_eq!(parent.input_exhausted, 1);
    assert_eq!(parent.worst_unmet_deviation, b(7e-6));
}

#[test]
fn polyline_ledger_refuses_to_overflow() {
    let mut ledger = PolylineFitLedger::default();
    ledger.fits = u64::MAX;
    assert!(!ledger.can_record(&polyline_report(1e-9, 1e-7, PolylineFitExit::Converged)));
    let mut other = PolylineFitLedger::default();
    other.fits = 1;
    assert!(!ledger.can_fold(&other));
    let mut no_rungs = polyline_report(1e-9, 1e-7, PolylineFitExit::Converged);
    no_rungs.rungs = 0;
    assert!(!PolylineFitLedger::default().can_record(&no_rungs));
}

#[test]
fn polyline_scopes_nest_and_fold_on_close() {
    let mut scopes = PolylineFitScopes::new();
    scopes.record(&polyline_report(1e-6, 1e-7, PolylineFitExit::Stalled));
    assert_eq!(scopes.depth(), 0);
    let outer = PolylineFitScope::open(&mut scopes);
    scopes.record(&polyline_report(1e-8, 1e-7, PolylineFitExit::Converged));
    let inner = PolylineFitScope::open(&mut scopes);
    assert_eq!(scopes.depth(), 2);
    scopes.record(&polyline_report(2e-6, 1e-7, PolylineFitExit::StationCeiling));
    assert!(scopes.can_close());
    let inner_tally = inner.close(&mut scopes);
    assert_eq!(inner_tally.fits, 1);
    assert_eq!(inner_tally.station_ceiling, 1);
    let outer_tally = outer.close(&mut scopes);
    assert_eq!(outer_tally.fits, 2);
    assert_eq!(outer_tally.unmet, 1);
    assert_eq!(outer_tally.worst_unmet_deviation, b(2e-6));
    assert_eq!(scopes.depth(), 0);
}

#[test]
fn discarded_polyline_scope_leaves_nothing_behind() {
    let mut scopes = PolylineFitScopes::new();
    let outer = PolylineFitScope::open(&mut scopes);
    let attempt = PolylineFitScope::open(&mut scopes);
    scopes.record(&polyline_report(4e-6, 1e-7, PolylineFitExit::Stalled));
    attempt.discard(&mut scopes);
    assert_eq!(scopes.depth(), 1);
    let tally = outer.close(&mut scopes);
    assert_eq!(tally.fits, 0);
    assert_eq!(tally.unmet, 0);
}

#[test]
fn pcurve_report_and_ledger() {
    let met = pcurve_report(1e-9, 1e-7, PcurveFitExit::Converged, false);
    assert!(met.met_floor());
    let ceiling = pcurve_report(1e-5, 1e-7, PcurveFitExit::SampleCeiling, false);
    assert!(!ceiling.met_floor());
    let mut ledger = PcurveFitLedger::default();
    ledger.record(&met);
    ledger.record(&ceiling);
    ledger.record(&pcurve_report(3e-6, 1e-7, PcurveFitExit::SpanFloor, true));
    ledger.record(&pcurve_report(2e-6, 1e-7, PcurveFitExit::RoundBudget, false));
    assert_eq!(ledger.fits, 4);
    assert_eq!(ledger.unmet, 3);
    assert_eq!(ledger.sample_ceiling, 1);
    assert_eq!(ledger.raise_declined, 1);
    assert_eq!(ledger.span_floor, 1);
    assert_eq!(ledger.round_budget, 1);
    assert_eq!(ledger.raised, 1);
    assert_eq!(ledger.worst_unmet_residual, b(1e-5));
    assert_eq!(ledger.worst_off_surface, b(1e-5 * 0.1));
}

#[test]
fn pcurve_scopes_open_record_close_discard() {
    let mut scopes = PcurveFitScopes::new();
    let outer = PcurveFitScope::open(&mut scopes);
    let inner = PcurveFitScope::open(&mut scopes);
    assert!(scopes.can_record());
    scopes.record(&pcurve_report(5e-6, 1e-7, PcurveFitExit::Stalled, false));
    let tally = inner.close(&mut scopes);
    assert_eq!(tally.stalled, 1);
    let dropped = PcurveFitScope::open(&mut scopes);
    scopes.record(&pcurve_report(9e-6, 1e-7, PcurveFitExit::Stalled, false));
    dropped.discard(&mut scopes);
    let outer_tally = outer.close(&mut scopes);
    assert_eq!(outer_tally.fits, 1);
    assert_eq!(outer_tally.worst_unmet_residual, b(5e-6));
    assert_eq!(scopes.depth(), 0);
}

#[test]
fn decimation_spreads_stations_and_keeps_both_ends() {
    let pool: Vec<usize> = (10..15).collect();
    assert_eq!(decimate_stations(&pool, 3), vec![10, 12, 14]);
    assert_eq!(decimate_stations(&pool, 5), pool);
    assert_eq!(decimate_stations(&pool, 9), pool);
    let seven: Vec<usize> = (0..7).collect();
    assert_eq!(decimate_stations(&seven, 4), vec![0, 2, 4, 6]);
    let ten: Vec<usize> = (0..10).map(|i| i * 3).collect();
    assert_eq!(decimate_stations(&ten, 4), vec![0, 9, 18, 27]);
    assert_eq!(decimate_stations(&ten, 2), vec![0, 27]);
    assert_eq!(decimate_stations(&ten, 1), vec![0]);
    assert_eq!(decimate_stations(&ten, 0), Vec::<usize>::new());
}

#[test]
fn decimation_agrees_with_the_float_rule_away_from_halves() {
    for n in 3..60usize {
        let pool: Vec<usize> = (0..n).map(|i| i * 7 + 1).collect();
        for m in 2..n {
            let step = (n - 1) as f64 / (m - 1) as f64;
            let expected: Vec<usize> = (0..m).map(|i| pool[(i as f64 * step).round() as usize]).collect();
            let got = decimate_stations(&pool, m);
            for i in 0..m {
                let exact = (i * (n - 1)) as f64 / (m - 1) as f64;
                if (exact - exact.floor() - 0.5).abs() > 1e-9 {
                    assert_eq!(got[i], expected[i], "n={n} m={m} i={i}");
                }
            }
            assert!(got.windows(2).all(|w| w[0] < w[1]));
        }
    }
}

type P = [f64; 3];

fn segment_distance(points: &[P], index: usize, from: usize, to: usize) -> u64 {
    let (p, a, c) = (points[index], points[from], points[to]);
    let d = [c[0] - a[0], c[1] - a[1], c[2] - a[2]];
    let length_squared = (d[0] * d[0] + d[1] * d[1] + d[2] * d[2]).max(1e-300);
    let w = [p[0] - a[0], p[1] - a[1], p[2] - a[2]];
    let fraction = ((w[0] * d[0] + w[1] * d[1] + w[2] * d[2]) / length_squared).clamp(0.0, 1.0);
    let e = [w[0] - d[0] * fraction, w[1] - d[1] * fraction, w[2] - d[2] * fraction];
    (e[0] * e[0] + e[1] * e[1] + e[2] * e[2]).sqrt().to_bits()
}

fn simplify(points: &[P], tolerance: f64) -> Vec<usize> {
    simplify_polyline_indices(points.len(), tolerance.to_bits(), |i: usize, a: usize, c: usize| {
        segment_distance(points, i, a, c)
    })
}

#[test]
fn short_runs_are_kept_whole() {
    assert_eq!(simplify(&[], 0.1), Vec::<usize>::new());
    assert_eq!(simplify(&[[0.0; 3]], 0.1), vec![0]);
    assert_eq!(simplify(&[[0.0; 3], [1.0, 0.0, 0.0]], 0.1), vec![0, 1]);
}

#[test]
fn collinear_points_collapse_to_the_ends() {
    let points: Vec<P> = (0..10).map(|i| [i as f64, 2.0 * i as f64, 0.0]).collect();
    assert_eq!(simplify(&points, 1e-9), vec![0, 9]);
}

#[test]
fn corners_are_kept() {
    let points: Vec<P> = vec![
        [0.0, 0.0, 0.0],
        [1.0, 0.0, 0.0],
        [2.0, 0.0, 0.0],
        [2.0, 1.0, 0.0],
        [2.0, 2.0, 0.0],
        [1.0, 2.0, 0.0],
    ];
    assert_eq!(simplify(&points, 0.1), vec![0, 2, 4, 5]);
}

#[test]
fn every_dropped_point_is_within_tolerance_of_its_chord() {
    let points: Vec<P> = (0..200)
        .map(|i| {
            let t = i as f64 * 0.05;
            [t.cos(), t.sin(), 0.1 * t]
        })
        .collect();
    let tolerance = 1e-2;
    let kept = simplify(&points, tolerance);
    assert_eq!(kept[0], 0);
    assert_eq!(*kept.last().unwrap(), 199);
    assert!(kept.windows(2).all(|w| w[0] < w[1]));
    assert!(kept.len() < points.len());
    for pair in kept.windows(2) {
        for i in pair[0] + 1..pair[1] {
            assert!(f64::from_bits(segment_distance(&points, i, pair[0], pair[1])) <= tolerance);
        }
    }
}

#[test]
fn tolerance_exceeding_the_bump_drops_it() {
    let points: Vec<P> = vec![[0.0, 0.0, 0.0], [1.0, 0.05, 0.0], [2.0, 0.0, 0.0]];
    assert_eq!(simplify(&points, 0.1), vec![0, 2]);
    assert_eq!(simplify(&points, 0.01), vec![0, 1, 2]);
}

fn stalls(new: u64, old: u64) -> bool {
    f64::from_bits(new) >= f64::from_bits(old) * 0.9
}

fn ladder(
    pool_len: usize,
    maximum_points: usize,
    floor: f64,
    refine: bool,
    deviations: &[(usize, f64)],
) -> (LadderClimb<usize>, Vec<usize>) {
    let asked = RefCell::new(Vec::new());
    let fit = |budget: usize| -> Result<(usize, u64), String> {
        asked.borrow_mut().push(budget);
        let deviation = deviations
            .iter()
            .find(|(at, _)| *at == budget)
            .map(|(_, d)| *d)
            .ok_or_else(|| format!("no rung at {budget}"))?;
        Ok((budget, deviation.to_bits()))
    };
    let climb = climb_ladder(pool_len, maximum_points, floor.to_bits(), refine, fit, stalls).unwrap();
    let budgets = asked.into_inner();
    (climb, budgets)
}

#[test]
fn ladder_met_at_first_rung() {
    let (climb, budgets) = ladder(500, 80, 1e-7, true, &[(80, 5e-8)]);
    assert_eq!(budgets, vec![80]);
    assert_eq!(climb.best, 80);
    assert_eq!(climb.rungs, 1);
    assert_eq!(climb.exit, PolylineFitExit::Converged);
}

#[test]
fn ladder_doubles_once_and_converges() {
    let (climb, budgets) = ladder(500, 80, 1e-7, true, &[(80, 1e-5), (160, 5e-8)]);
    assert_eq!(budgets, vec![80, 160]);
    assert_eq!(climb.best, 160);
    assert_eq!(climb.rungs, 2);
    assert_eq!(climb.exit, PolylineFitExit::Converged);
    assert_eq!(climb.deviation, 5e-8f64.to_bits());
}

#[test]
fn ladder_stops_at_the_station_ceiling() {
    let (climb, budgets) = ladder(500, 96, 1e-7, true, &[(96, 1e-4), (192, 1e-6)]);
    assert_eq!(budgets, vec![96, 192]);
    assert_eq!(climb.best, 192);
    assert_eq!(climb.exit, PolylineFitExit::StationCeiling);
}

#[test]
fn ladder_exhausts_a_small_pool() {
    let (climb, budgets) = ladder(120, 80, 1e-7, true, &[(80, 1e-4), (120, 1e-6)]);
    assert_eq!(budgets, vec![80, 120]);
    assert_eq!(climb.best, 120);
    assert_eq!(climb.exit, PolylineFitExit::InputExhausted);
    let (climb, budgets) = ladder(50, 80, 1e-7, true, &[(80, 1e-4)]);
    assert_eq!(budgets, vec![80]);
    assert_eq!(climb.rungs, 1);
    assert_eq!(climb.exit, PolylineFitExit::InputExhausted);
}

#[test]
fn ladder_stalls_and_keeps_the_better_rung() {
    let (climb, _) = ladder(500, 80, 1e-7, true, &[(80, 1e-5), (160, 9.5e-6)]);
    assert_eq!(climb.best, 160);
    assert_eq!(climb.exit, PolylineFitExit::Stalled);
    let (climb, _) = ladder(500, 80, 1e-7, true, &[(80, 1e-5), (160, 2e-5)]);
    assert_eq!(climb.best, 80);
    assert_eq!(climb.rungs, 2);
    assert_eq!(climb.deviation, 1e-5f64.to_bits());
    assert_eq!(climb.exit, PolylineFitExit::Stalled);
}

#[test]
fn ladder_without_refinement_fits_one_rung() {
    let (climb, budgets) = ladder(500, 80, 1e-7, false, &[(80, 1e-5)]);
    assert_eq!(budgets, vec![80]);
    assert_eq!(climb.exit, PolylineFitExit::Unrefined);
    let (climb, _) = ladder(500, 1, 1e-7, false, &[(2, 1e-9)]);
    assert_eq!(climb.best, 2);
    assert_eq!(climb.exit, PolylineFitExit::Converged);
}

#[test]
fn ladder_ceiling_is_capped_absolutely() {
    let (_, budgets) = ladder(5000, 900, 1e-7, true, &[(900, 1e-3), (MAX_FIT_STATIONS, 1e-4)]);
    assert_eq!(budgets, vec![900, MAX_FIT_STATIONS]);
}

#[test]
fn ladder_passes_errors_through() {
    let fit = |_budget: usize| -> Result<(usize, u64), String> { Err("degenerate".to_string()) };
    let result = climb_ladder(100, 10, 1e-7f64.to_bits(), true, fit, stalls);
    assert_eq!(result.err(), Some("degenerate".to_string()));
}

fn climb(deviation: f64, rungs: usize, exit: PolylineFitExit, best: u32) -> LadderClimb<u32> {
    LadderClimb { best, deviation: deviation.to_bits(), rungs, exit }
}

#[test]
fn lane_kept_when_met_or_not_refining() {
    let run = |lane: bool| -> Result<LadderClimb<u32>, String> {
        Ok(if lane {
            climb(1e-8, 1, PolylineFitExit::Converged, 1)
        } else {
            climb(1e-9, 1, PolylineFitExit::Converged, 2)
        })
    };
    let choice = choose_lane(true, true, 1e-7f64.to_bits(), run).unwrap();
    assert_eq!(choice.climb.best, 1);
    assert!(choice.local_lane);
    assert!(!choice.lane_switched);
    let unmet = |lane: bool| -> Result<LadderClimb<u32>, String> {
        Ok(if lane {
            climb(1e-5, 2, PolylineFitExit::Stalled, 1)
        } else {
            climb(1e-6, 2, PolylineFitExit::StationCeiling, 2)
        })
    };
    let choice = choose_lane(true, false, 1e-7f64.to_bits(), unmet).unwrap();
    assert_eq!(choice.climb.best, 1);
    assert_eq!(choice.climb.rungs, 2);
}

#[test]
fn lane_switches_to_the_better_measurement() {
    let run = |lane: bool| -> Result<LadderClimb<u32>, String> {
        Ok(if lane {
            climb(1e-5, 2, PolylineFitExit::Stalled, 1)
        } else {
            climb(1e-6, 2, PolylineFitExit::StationCeiling, 2)
        })
    };
    let choice = choose_lane(true, true, 1e-7f64.to_bits(), run).unwrap();
    assert_eq!(choice.climb.best, 2);
    assert!(!choice.local_lane);
    assert!(choice.lane_switched);
    assert_eq!(choice.climb.rungs, 4);
    assert_eq!(choice.climb.exit, PolylineFitExit::StationCeiling);
    let choice = choose_lane(false, true, 1e-7f64.to_bits(), run).unwrap();
    assert_eq!(choice.climb.best, 2);
    assert!(!choice.local_lane);
    assert!(!choice.lane_switched);
    assert_eq!(choice.climb.rungs, 4);
}

#[test]
fn lane_tie_keeps_the_asked_lane() {
    let run = |lane: bool| -> Result<LadderClimb<u32>, String> {
        Ok(climb(1e-5, 1, PolylineFitExit::Unrefined, if lane { 1 } else { 2 }))
    };
    let choice = choose_lane(false, true, 1e-7f64.to_bits(), run).unwrap();
    assert_eq!(choice.climb.best, 2);
    assert!(!choice.lane_switched);
    assert_eq!(choice.climb.rungs, 2);
}

#[test]
fn conditioning_drops_stations_crowding_a_kept_one() {
    let apart = |i: usize, j: usize| i.abs_diff(j) > 1;
    let distinct = |i: usize, j: usize| i != j;
    assert_eq!(condition_stations(&[0, 3, 4, 9, 12], apart, distinct), vec![0, 3, 9, 12]);
    assert_eq!(condition_stations(&[0, 1, 5, 11, 12], apart, distinct), vec![0, 5, 12]);
    assert_eq!(condition_stations(&[0, 6, 12], apart, distinct), vec![0, 6, 12]);
}

#[test]
fn conditioning_a_short_run_drops_repeats() {
    let apart = |_i: usize, _j: usize| true;
    let distinct = |i: usize, j: usize| i != j;
    assert_eq!(condition_stations(&[5, 5], apart, distinct), vec![5]);
    assert_eq!(condition_stations(&[5, 6], apart, distinct), vec![5, 6]);
    assert_eq!(condition_stations(&[7], apart, distinct), vec![7]);
    assert_eq!(condition_stations(&[], apart, distinct), Vec::<usize>::new());
}
