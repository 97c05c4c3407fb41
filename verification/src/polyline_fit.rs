//! Reports of polyline fits, and the nested per-operation tallies they are
//! recorded into.
//!
//! An operation opens a scope; every fit made while it is open is recorded
//! into the innermost open scope's ledger; closing a scope hands its ledger
//! back and folds it into the enclosing scope, while a scope discarded
//! without being closed leaves nothing behind. With no scope open, recording
//! does nothing. Deviations and tolerances are doubles held as bit patterns
//! (see [`crate::float_bits`]).
use vstd::prelude::*;

use crate::float_bits::{self, ieee_le, max_value};

verus! {

/// Why a polyline fit's refinement stopped. Only
/// [`PolylineFitExit::Converged`] means the tolerance was met; every other
/// variant is a budget exit whose deviation was measured on the curve
/// actually returned.
#[derive(Clone, Copy, Debug, PartialEq, Eq, Hash, Structural)]
pub enum PolylineFitExit {
    /// A measured rung came in at or under the tolerance.
    Converged,
    /// The station ceiling bound with the tolerance unmet and the input
    /// still holding stations the ladder never used.
    StationCeiling,
    /// Every station the input offers is an interpolation station and the
    /// tolerance is still unmet.
    InputExhausted,
    /// A doubling failed to improve the deviation enough, so the input rather
    /// than the station count is what binds.
    Stalled,
    /// No refinement was attempted.
    Unrefined,
}

/// What a polyline fit achieved against the tolerance it was given.
#[derive(Clone, Copy, Debug)]
pub struct PolylineFitReport {
    /// Largest distance from an input point to the returned curve.
    pub deviation: u64,
    /// Root mean square of the same sample set.
    pub rms: u64,
    /// Largest distance from the curve to the input polyline between the
    /// fit's own stations.
    pub between_stations: u64,
    /// The deviation the caller asked for.
    pub tolerance: u64,
    /// The deviation the ladder actually chased: the tolerance, or the
    /// input's own band where that is coarser.
    pub floor: u64,
    /// Interpolation stations in the returned curve.
    pub stations: usize,
    /// Control points in the returned curve.
    pub controls: usize,
    /// Points in the input run.
    pub input_points: usize,
    /// Stations the input offers after simplification and conditioning.
    pub pool_points: usize,
    /// Largest distance from a dropped input point to the polyline through
    /// the surviving stations.
    pub dropped_band: u64,
    /// Rungs the ladder spent.
    pub rungs: usize,
    /// Whether the returned curve came from the local interpolation lane.
    pub local_lane: bool,
    /// Whether that is the lane the caller did not ask for.
    pub lane_switched: bool,
    /// Why the ladder stopped.
    pub exit: PolylineFitExit,
}

/// Whether the deviation reached the floor.
pub open spec fn met_tolerance_spec(report: PolylineFitReport) -> bool {
    ieee_le(report.deviation, report.floor)
}

/// Whether every station the input offers is an interpolation station.
pub open spec fn saturated_spec(report: PolylineFitReport) -> bool {
    report.stations >= report.pool_points
}

impl PolylineFitReport {
    /// Whether the returned curve reaches the floor the fit chased.
    pub fn met_tolerance(&self) -> (result: bool)
        ensures
            result == met_tolerance_spec(*self),
    {
        float_bits::le(self.deviation, self.floor)
    }

    /// Whether the caller's own tolerance was reached, band or no band.
    pub fn met_requested_tolerance(&self) -> (result: bool)
        ensures
            result == ieee_le(self.deviation, self.tolerance),
    {
        float_bits::le(self.deviation, self.tolerance)
    }

    /// Whether every station the input offers is an interpolation station.
    pub fn saturated(&self) -> (result: bool)
        ensures
            result == saturated_spec(*self),
    {
        self.stations >= self.pool_points
    }
}

/// Per-operation tally of polyline fits and how many missed their
/// tolerance.
#[derive(Clone, Copy, Debug)]
pub struct PolylineFitLedger {
    /// Fits recorded, met ones included.
    pub fits: u64,
    /// Fits whose returned curve did not reach its tolerance.
    pub unmet: u64,
    /// Unmet fits that stopped at the station ceiling.
    pub station_ceiling: u64,
    /// Unmet fits that had already used every station the input offers.
    pub input_exhausted: u64,
    /// Unmet fits whose last doubling bought nothing.
    pub stalled: u64,
    /// Unmet fits that never refined.
    pub unrefined: u64,
    /// Fits that spent more than one rung, met or not.
    pub refined: u64,
    /// Fits that met their tolerance only with every station the input
    /// offers.
    pub met_at_pool: u64,
    /// Fits returned from the lane the caller did not ask for.
    pub lane_switched: u64,
    /// Extra rungs spent over every fit.
    pub extra_rungs: u64,
    /// Largest deviation among the unmet fits; zero when there are none.
    pub worst_unmet_deviation: u64,
    /// Largest dropped band over every fit.
    pub worst_dropped_band: u64,
}

/// The empty tally.
pub open spec fn empty_ledger() -> PolylineFitLedger {
    PolylineFitLedger {
        fits: 0,
        unmet: 0,
        station_ceiling: 0,
        input_exhausted: 0,
        stalled: 0,
        unrefined: 0,
        refined: 0,
        met_at_pool: 0,
        lane_switched: 0,
        extra_rungs: 0,
        worst_unmet_deviation: float_bits::ZERO,
        worst_dropped_band: float_bits::ZERO,
    }
}

/// One more for a counter when `flag` holds.
pub open spec fn bump(count: u64, flag: bool) -> u64 {
    if flag {
        (count + 1) as u64
    } else {
        count
    }
}

/// `ledger` after recording `report`.
pub open spec fn recorded(ledger: PolylineFitLedger, report: PolylineFitReport) -> PolylineFitLedger {
    let met = met_tolerance_spec(report);
    PolylineFitLedger {
        fits: (ledger.fits + 1) as u64,
        unmet: bump(ledger.unmet, !met),
        station_ceiling: bump(
            ledger.station_ceiling,
            !met && report.exit == PolylineFitExit::StationCeiling,
        ),
        input_exhausted: bump(
            ledger.input_exhausted,
            !met && report.exit == PolylineFitExit::InputExhausted,
        ),
        stalled: bump(ledger.stalled, !met && report.exit == PolylineFitExit::Stalled),
        unrefined: bump(ledger.unrefined, !met && report.exit == PolylineFitExit::Unrefined),
        refined: bump(ledger.refined, report.rungs > 1),
        met_at_pool: bump(ledger.met_at_pool, met && saturated_spec(report)),
        lane_switched: bump(ledger.lane_switched, report.lane_switched),
        extra_rungs: (ledger.extra_rungs + (report.rungs - 1)) as u64,
        worst_unmet_deviation: if met {
            ledger.worst_unmet_deviation
        } else {
            max_value(ledger.worst_unmet_deviation, report.deviation)
        },
        worst_dropped_band: max_value(ledger.worst_dropped_band, report.dropped_band),
    }
}

/// Recording `report` into `ledger` overflows no counter, and the report
/// spent at least one rung.
pub open spec fn can_record_spec(ledger: PolylineFitLedger, report: PolylineFitReport) -> bool {
    &&& report.rungs >= 1
    &&& ledger.fits < u64::MAX
    &&& ledger.unmet < u64::MAX
    &&& ledger.station_ceiling < u64::MAX
    &&& ledger.input_exhausted < u64::MAX
    &&& ledger.stalled < u64::MAX
    &&& ledger.unrefined < u64::MAX
    &&& ledger.refined < u64::MAX
    &&& ledger.met_at_pool < u64::MAX
    &&& ledger.lane_switched < u64::MAX
    &&& ledger.extra_rungs + (report.rungs - 1) <= u64::MAX
}

/// `parent` after folding `child` into it: counters added, worst values
/// maximized.
pub open spec fn folded(parent: PolylineFitLedger, child: PolylineFitLedger) -> PolylineFitLedger {
    PolylineFitLedger {
        fits: (parent.fits + child.fits) as u64,
        unmet: (parent.unmet + child.unmet) as u64,
        station_ceiling: (parent.station_ceiling + child.station_ceiling) as u64,
        input_exhausted: (parent.input_exhausted + child.input_exhausted) as u64,
        stalled: (parent.stalled + child.stalled) as u64,
        unrefined: (parent.unrefined + child.unrefined) as u64,
        refined: (parent.refined + child.refined) as u64,
        met_at_pool: (parent.met_at_pool + child.met_at_pool) as u64,
        lane_switched: (parent.lane_switched + child.lane_switched) as u64,
        extra_rungs: (parent.extra_rungs + child.extra_rungs) as u64,
        worst_unmet_deviation: max_value(parent.worst_unmet_deviation, child.worst_unmet_deviation),
        worst_dropped_band: max_value(parent.worst_dropped_band, child.worst_dropped_band),
    }
}

/// Folding `child` into `parent` overflows no counter.
pub open spec fn can_fold_spec(parent: PolylineFitLedger, child: PolylineFitLedger) -> bool {
    &&& parent.fits + child.fits <= u64::MAX
    &&& parent.unmet + child.unmet <= u64::MAX
    &&& parent.station_ceiling + child.station_ceiling <= u64::MAX
    &&& parent.input_exhausted + child.input_exhausted <= u64::MAX
    &&& parent.stalled + child.stalled <= u64::MAX
    &&& parent.unrefined + child.unrefined <= u64::MAX
    &&& parent.refined + child.refined <= u64::MAX
    &&& parent.met_at_pool + child.met_at_pool <= u64::MAX
    &&& parent.lane_switched + child.lane_switched <= u64::MAX
    &&& parent.extra_rungs + child.extra_rungs <= u64::MAX
}

impl Default for PolylineFitLedger {
    /// The empty tally.
    fn default() -> (result: Self)
        ensures
            result == empty_ledger(),
    {
        PolylineFitLedger {
            fits: 0,
            unmet: 0,
            station_ceiling: 0,
            input_exhausted: 0,
            stalled: 0,
            unrefined: 0,
            refined: 0,
            met_at_pool: 0,
            lane_switched: 0,
            extra_rungs: 0,
            worst_unmet_deviation: float_bits::ZERO,
            worst_dropped_band: float_bits::ZERO,
        }
    }
}

impl PolylineFitLedger {
    /// Whether recording `report` would overflow no counter.
    pub fn can_record(&self, report: &PolylineFitReport) -> (result: bool)
        ensures
            result == can_record_spec(*self, *report),
    {
        report.rungs >= 1 && self.fits < u64::MAX && self.unmet < u64::MAX && self.station_ceiling
            < u64::MAX && self.input_exhausted < u64::MAX && self.stalled < u64::MAX
            && self.unrefined < u64::MAX && self.refined < u64::MAX && self.met_at_pool < u64::MAX
            && self.lane_switched < u64::MAX && (report.rungs - 1) as u64 <= u64::MAX
            - self.extra_rungs
    }

    /// Tally one fit: always counted, with its extra rungs, its lane switch
    /// and its dropped band; a met fit counts as saturated when it used the
    /// whole pool, an unmet one by its exit and in the worst unmet
    /// deviation.
    pub fn record(&mut self, report: &PolylineFitReport)
        requires
            can_record_spec(*old(self), *report),
        ensures
            *final(self) == recorded(*old(self), *report),
    {
        self.fits = self.fits + 1;
        self.extra_rungs = self.extra_rungs + (report.rungs - 1) as u64;
        if report.rungs > 1 {
            self.refined = self.refined + 1;
        }
        self.worst_dropped_band = float_bits::max(self.worst_dropped_band, report.dropped_band);
        if report.lane_switched {
            self.lane_switched = self.lane_switched + 1;
        }
        if report.met_tolerance() {
            if report.saturated() {
                self.met_at_pool = self.met_at_pool + 1;
            }
            return;
        }
        self.unmet = self.unmet + 1;
        match report.exit {
            PolylineFitExit::Converged => {},
            PolylineFitExit::StationCeiling => self.station_ceiling = self.station_ceiling + 1,
            PolylineFitExit::InputExhausted => self.input_exhausted = self.input_exhausted + 1,
            PolylineFitExit::Stalled => self.stalled = self.stalled + 1,
            PolylineFitExit::Unrefined => self.unrefined = self.unrefined + 1,
        }
        self.worst_unmet_deviation = float_bits::max(self.worst_unmet_deviation, report.deviation);
    }

    /// Whether folding `child` in would overflow no counter.
    pub fn can_fold(&self, child: &PolylineFitLedger) -> (result: bool)
        ensures
            result == can_fold_spec(*self, *child),
    {
        self.fits <= u64::MAX - child.fits && self.unmet <= u64::MAX - child.unmet
            && self.station_ceiling <= u64::MAX - child.station_ceiling && self.input_exhausted
            <= u64::MAX - child.input_exhausted && self.stalled <= u64::MAX - child.stalled
            && self.unrefined <= u64::MAX - child.unrefined && self.refined <= u64::MAX
            - child.refined && self.met_at_pool <= u64::MAX - child.met_at_pool
            && self.lane_switched <= u64::MAX - child.lane_switched && self.extra_rungs <= u64::MAX
            - child.extra_rungs
    }

    /// Add a child scope's tally to this one.
    pub fn fold(&mut self, child: &PolylineFitLedger)
        requires
            can_fold_spec(*old(self), *child),
        ensures
            *final(self) == folded(*old(self), *child),
    {
        self.fits = self.fits + child.fits;
        self.unmet = self.unmet + child.unmet;
        self.station_ceiling = self.station_ceiling + child.station_ceiling;
        self.input_exhausted = self.input_exhausted + child.input_exhausted;
        self.stalled = self.stalled + child.stalled;
        self.unrefined = self.unrefined + child.unrefined;
        self.refined = self.refined + child.refined;
        self.met_at_pool = self.met_at_pool + child.met_at_pool;
        self.lane_switched = self.lane_switched + child.lane_switched;
        self.extra_rungs = self.extra_rungs + child.extra_rungs;
        self.worst_unmet_deviation = float_bits::max(
            self.worst_unmet_deviation,
            child.worst_unmet_deviation,
        );
        self.worst_dropped_band = float_bits::max(self.worst_dropped_band, child.worst_dropped_band);
    }
}

/// The open polyline-fit scopes of one thread, innermost last.
pub struct PolylineFitScopes {
    open: Vec<PolylineFitLedger>,
}

/// An open tally of the polyline fits made while it is open. Open it where
/// an operation starts and close it where the operation returns its
/// diagnostics; a scope discarded instead of closed drops its tally.
pub struct PolylineFitScope {
    sealed: (),
}

/// The stack after the innermost scope is closed: popped, and folded into
/// its parent if there is one.
pub open spec fn closed_stack(stack: Seq<PolylineFitLedger>) -> Seq<PolylineFitLedger> {
    if stack.len() == 0 {
        stack
    } else if stack.len() == 1 {
        Seq::empty()
    } else {
        stack.drop_last().update(
            stack.len() - 2,
            folded(stack[stack.len() - 2], stack.last()),
        )
    }
}

/// The tally the innermost scope hands back when closed; the empty tally
/// when no scope is open.
pub open spec fn closed_ledger(stack: Seq<PolylineFitLedger>) -> PolylineFitLedger {
    if stack.len() == 0 {
        empty_ledger()
    } else {
        stack.last()
    }
}

/// The stack after a fit is recorded: into the innermost scope, or nowhere
/// when none is open.
pub open spec fn recorded_stack(stack: Seq<PolylineFitLedger>, report: PolylineFitReport) -> Seq<
    PolylineFitLedger,
> {
    if stack.len() == 0 {
        stack
    } else {
        stack.update(stack.len() - 1, recorded(stack.last(), report))
    }
}

impl PolylineFitScopes {
    /// The open scopes' tallies, innermost last.
    pub closed spec fn ledgers(self) -> Seq<PolylineFitLedger> {
        self.open@
    }

    /// No scope open.
    pub fn new() -> (result: Self)
        ensures
            result.ledgers() == Seq::<PolylineFitLedger>::empty(),
    {
        PolylineFitScopes { open: Vec::new() }
    }

    /// Number of open scopes.
    pub fn depth(&self) -> (result: usize)
        ensures
            result == self.ledgers().len(),
    {
        self.open.len()
    }

    /// Whether recording `report` now would overflow no counter.
    pub fn can_record(&self, report: &PolylineFitReport) -> (result: bool)
        ensures
            result == (self.ledgers().len() == 0 || can_record_spec(self.ledgers().last(), *report)),
    {
        if self.open.len() == 0 {
            true
        } else {
            self.open[self.open.len() - 1].can_record(report)
        }
    }

    /// Whether closing the innermost scope now would overflow no counter of
    /// its parent.
    pub fn can_close(&self) -> (result: bool)
        ensures
            result == (self.ledgers().len() < 2 || can_fold_spec(
                self.ledgers()[self.ledgers().len() - 2],
                self.ledgers().last(),
            )),
    {
        let count = self.open.len();
        if count < 2 {
            true
        } else {
            self.open[count - 2].can_fold(&self.open[count - 1])
        }
    }

    /// Record a fit into the innermost open scope; with none open, nothing
    /// happens.
    pub fn record(&mut self, report: &PolylineFitReport)
        requires
            old(self).ledgers().len() == 0 || can_record_spec(old(self).ledgers().last(), *report),
        ensures
            final(self).ledgers() == recorded_stack(old(self).ledgers(), *report),
    {
        let count = self.open.len();
        if count > 0 {
            let mut top = self.open[count - 1];
            top.record(report);
            self.open.set(count - 1, top);
        }
    }
}

impl PolylineFitScope {
    /// Open a scope: a fresh empty tally becomes the innermost one.
    pub fn open(scopes: &mut PolylineFitScopes) -> (result: Self)
        ensures
            final(scopes).ledgers() == old(scopes).ledgers().push(empty_ledger()),
    {
        scopes.open.push(PolylineFitLedger::default());
        PolylineFitScope { sealed: () }
    }

    /// Take the innermost tally, folding it into the enclosing scope if
    /// there is one.
    pub fn close(self, scopes: &mut PolylineFitScopes) -> (result: PolylineFitLedger)
        requires
            old(scopes).ledgers().len() < 2 || can_fold_spec(
                old(scopes).ledgers()[old(scopes).ledgers().len() - 2],
                old(scopes).ledgers().last(),
            ),
        ensures
            result == closed_ledger(old(scopes).ledgers()),
            final(scopes).ledgers() == closed_stack(old(scopes).ledgers()),
    {
        match scopes.open.pop() {
            None => PolylineFitLedger::default(),
            Some(ledger) => {
                let count = scopes.open.len();
                if count > 0 {
                    let mut parent = scopes.open[count - 1];
                    parent.fold(&ledger);
                    scopes.open.set(count - 1, parent);
                }
                ledger
            },
        }
    }

    /// Drop the scope without closing it: its tally is discarded, not
    /// folded.
    pub fn discard(self, scopes: &mut PolylineFitScopes)
        ensures
            final(scopes).ledgers() == if old(scopes).ledgers().len() == 0 {
                old(scopes).ledgers()
            } else {
                old(scopes).ledgers().drop_last()
            },
    {
        let _ = scopes.open.pop();
    }
}

/// A scope opened, one fit recorded and the scope closed: the tally handed
/// back is exactly that fit, and the enclosing scopes are as they were
/// except that the innermost of them has that tally folded in.
pub proof fn lemma_open_record_close(stack: Seq<PolylineFitLedger>, report: PolylineFitReport)
    requires
        report.rungs >= 1,
    ensures
        ({
            let opened = stack.push(empty_ledger());
            let after = recorded_stack(opened, report);
            &&& closed_ledger(after) == recorded(empty_ledger(), report)
            &&& closed_stack(after) == if stack.len() == 0 {
                stack
            } else {
                stack.update(stack.len() - 1, folded(stack.last(), recorded(empty_ledger(), report)))
            }
        }),
{
    let opened = stack.push(empty_ledger());
    let after = recorded_stack(opened, report);
    assert(after.drop_last() =~= stack);
}

/// A scope opened and then discarded leaves every other scope untouched,
/// whatever was recorded in it.
pub proof fn lemma_open_record_discard(stack: Seq<PolylineFitLedger>, report: PolylineFitReport)
    ensures
        recorded_stack(stack.push(empty_ledger()), report).drop_last() == stack,
{
    assert(recorded_stack(stack.push(empty_ledger()), report).drop_last() =~= stack);
}

/// Every fit recorded is counted once, and an unmet fit is counted among
/// the unmet; folding adds the counts of both scopes.
pub proof fn lemma_counts(ledger: PolylineFitLedger, child: PolylineFitLedger, report: PolylineFitReport)
    requires
        can_record_spec(ledger, report),
        can_fold_spec(ledger, child),
    ensures
        recorded(ledger, report).fits == ledger.fits + 1,
        recorded(ledger, report).unmet == ledger.unmet + if met_tolerance_spec(report) {
            0int
        } else {
            1int
        },
        folded(ledger, child).fits == ledger.fits + child.fits,
        folded(ledger, child).unmet == ledger.unmet + child.unmet,
{
}


/// What one recorded fit adds to each count of the ledger, as the counts are
/// documented: every fit is one more fit and adds its extra rungs; a fit that
/// spent more than one rung is one more refined fit and a fit returned from
/// the other lane one more lane switch, met or not; a met fit that used the
/// whole pool is one more met-at-pool fit; an unmet fit is one more unmet
/// fit and one more in the count for its exit (a converged exit has none);
/// a met fit adds to no unmet count.
pub proof fn lemma_record_adds(ledger: PolylineFitLedger, report: PolylineFitReport)
    requires
        can_record_spec(ledger, report),
    ensures
        recorded(ledger, report).fits == ledger.fits + 1,
        recorded(ledger, report).extra_rungs == ledger.extra_rungs + report.rungs - 1,
        recorded(ledger, report).worst_dropped_band == max_value(
            ledger.worst_dropped_band,
            report.dropped_band,
        ),
        !met_tolerance_spec(report) ==> recorded(ledger, report).worst_unmet_deviation == max_value(
            ledger.worst_unmet_deviation,
            report.deviation,
        ),
        report.rungs > 1 ==> recorded(ledger, report).refined == ledger.refined + 1,
        report.rungs <= 1 ==> recorded(ledger, report).refined == ledger.refined,
        report.lane_switched ==> recorded(ledger, report).lane_switched == ledger.lane_switched + 1,
        !report.lane_switched ==> recorded(ledger, report).lane_switched == ledger.lane_switched,
        met_tolerance_spec(report) ==> {
            &&& recorded(ledger, report).unmet == ledger.unmet
            &&& recorded(ledger, report).station_ceiling == ledger.station_ceiling
            &&& recorded(ledger, report).input_exhausted == ledger.input_exhausted
            &&& recorded(ledger, report).stalled == ledger.stalled
            &&& recorded(ledger, report).unrefined == ledger.unrefined
            &&& recorded(ledger, report).worst_unmet_deviation == ledger.worst_unmet_deviation
            &&& recorded(ledger, report).met_at_pool == ledger.met_at_pool + if report.stations
                >= report.pool_points {
                1int
            } else {
                0int
            }
        },
        !met_tolerance_spec(report) ==> {
            &&& recorded(ledger, report).unmet == ledger.unmet + 1
            &&& recorded(ledger, report).met_at_pool == ledger.met_at_pool
            &&& recorded(ledger, report).station_ceiling == ledger.station_ceiling + if report.exit
                is StationCeiling {
                1int
            } else {
                0int
            }
            &&& recorded(ledger, report).input_exhausted == ledger.input_exhausted + if report.exit
                is InputExhausted {
                1int
            } else {
                0int
            }
            &&& recorded(ledger, report).stalled == ledger.stalled + if report.exit is Stalled {
                1int
            } else {
                0int
            }
            &&& recorded(ledger, report).unrefined == ledger.unrefined + if report.exit
                is Unrefined {
                1int
            } else {
                0int
            }
        },
{
}

/// The counts documented as "met or not" do not depend on whether the fit
/// met its tolerance: two reports that agree on their rungs, their lane
/// switch and their dropped band add the same to the fit, refined,
/// lane-switch and extra-rung counts and to the worst dropped band, whatever
/// their deviations and floors.
pub proof fn lemma_record_met_or_not(ledger: PolylineFitLedger, first: PolylineFitReport, second: PolylineFitReport)
    requires
        can_record_spec(ledger, first),
        can_record_spec(ledger, second),
        first.rungs == second.rungs,
        first.lane_switched == second.lane_switched,
        first.dropped_band == second.dropped_band,
    ensures
        recorded(ledger, first).fits == recorded(ledger, second).fits,
        recorded(ledger, first).refined == recorded(ledger, second).refined,
        recorded(ledger, first).lane_switched == recorded(ledger, second).lane_switched,
        recorded(ledger, first).extra_rungs == recorded(ledger, second).extra_rungs,
        recorded(ledger, first).worst_dropped_band == recorded(ledger, second).worst_dropped_band,
{
}

/// `ledger` after recording each of `reports` in turn.
pub open spec fn recorded_all(ledger: PolylineFitLedger, reports: Seq<PolylineFitReport>) -> PolylineFitLedger
    decreases reports.len(),
{
    if reports.len() == 0 {
        ledger
    } else {
        recorded(recorded_all(ledger, reports.drop_last()), reports.last())
    }
}

/// The scope stack after each of `reports` is recorded in turn.
pub open spec fn recorded_stack_all(stack: Seq<PolylineFitLedger>, reports: Seq<PolylineFitReport>) -> Seq<PolylineFitLedger>
    decreases reports.len(),
{
    if reports.len() == 0 {
        stack
    } else {
        recorded_stack(recorded_stack_all(stack, reports.drop_last()), reports.last())
    }
}

/// A worst value that is zero or positive, never NaN.
spec fn clean_worst(value: u64) -> bool {
    value == float_bits::ZERO || (!float_bits::is_nan(value) && float_bits::rank(value) > 0)
}

proof fn lemma_recorded_into_top(stack: Seq<PolylineFitLedger>, top: PolylineFitLedger, reports: Seq<PolylineFitReport>)
    ensures
        recorded_stack_all(stack.push(top), reports) == stack.push(recorded_all(top, reports)),
    decreases reports.len(),
{
    if reports.len() > 0 {
        lemma_recorded_into_top(stack, top, reports.drop_last());
        let before = stack.push(recorded_all(top, reports.drop_last()));
        assert(recorded_stack(before, reports.last()) =~= stack.push(recorded_all(top, reports)));
    }
}

proof fn lemma_recorded_all_clean(reports: Seq<PolylineFitReport>)
    requires
        reports.len() <= u64::MAX,
    ensures
        recorded_all(empty_ledger(), reports).fits == reports.len(),
        clean_worst(recorded_all(empty_ledger(), reports).worst_unmet_deviation),
        clean_worst(recorded_all(empty_ledger(), reports).worst_dropped_band),
    decreases reports.len(),
{
    if reports.len() > 0 {
        lemma_recorded_all_clean(reports.drop_last());
    }
}

/// A scope opened, any number of fits recorded and the scope closed: the
/// tally handed back is exactly those fits recorded in turn into an empty
/// tally, it counts every one of them, and closing it into an enclosing
/// scope that was still empty leaves that scope holding exactly the same
/// tally.
pub proof fn lemma_open_record_all_close(stack: Seq<PolylineFitLedger>, reports: Seq<PolylineFitReport>)
    requires
        reports.len() <= u64::MAX,
    ensures
        ({
            let tally = recorded_all(empty_ledger(), reports);
            let after = recorded_stack_all(stack.push(empty_ledger()), reports);
            &&& closed_ledger(after) == tally
            &&& tally.fits == reports.len()
            &&& closed_stack(after) == if stack.len() == 0 {
                stack
            } else {
                stack.update(stack.len() - 1, folded(stack.last(), tally))
            }
            &&& folded(empty_ledger(), tally) == tally
        }),
{
    let tally = recorded_all(empty_ledger(), reports);
    lemma_recorded_into_top(stack, empty_ledger(), reports);
    lemma_recorded_all_clean(reports);
    let after = stack.push(tally);
    assert(after.drop_last() =~= stack);
}

} // verus!
