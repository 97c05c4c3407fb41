//! Reports of pcurve fits, and the nested per-operation tallies they are
//! recorded into.
//!
//! The same shape as [`crate::polyline_fit`]: an operation opens a scope;
//! every fit made while it is open is recorded into the innermost open
//! scope's ledger; closing a scope hands its ledger back and folds it into
//! the enclosing scope, while a scope discarded without being closed leaves
//! nothing behind. With no scope open, recording does nothing.
use vstd::prelude::*;

use crate::float_bits::{self, ieee_le, max_value};

verus! {

/// Why a pcurve refinement stopped. Only [`PcurveFitExit::Converged`] means
/// the floor was met; every other variant is a budget exit, and the report's
/// residual was measured on the returned curve rather than assumed.
#[derive(Clone, Copy, Debug, PartialEq, Eq, Hash, Structural)]
pub enum PcurveFitExit {
    /// A probe round found every station within the floor.
    Converged,
    /// The sample ceiling bound before the floor was met.
    SampleCeiling,
    /// Every refinement round was spent and the last one still inserted
    /// samples.
    RoundBudget,
    /// A round found stations over the floor but could improve none of them.
    Stalled,
    /// The last probe round found every span it probed within the floor, but
    /// a sweep over the spans it skipped found the floor unmet.
    SpanFloor,
}

/// What a pcurve fit achieved.
#[derive(Clone, Copy, Debug)]
pub struct PcurveFitReport {
    /// Largest 3D distance between the returned pcurve's image on the
    /// surface and the edge curve.
    pub residual: u64,
    /// The residual the refinement was asked to reach.
    pub floor: u64,
    /// Interpolation samples in the returned curve.
    pub samples: usize,
    /// Why refinement stopped.
    pub exit: PcurveFitExit,
    /// Largest distance from the edge curve to the surface at every station
    /// the fit inverted.
    pub off_surface: u64,
    /// Whether the fit re-entered refinement with the raised sample budget.
    pub raised: bool,
}

/// Whether the residual reached the floor.
pub open spec fn met_floor_spec(report: PcurveFitReport) -> bool {
    ieee_le(report.residual, report.floor)
}

impl PcurveFitReport {
    /// Whether the returned curve reaches the floor it was asked for.
    pub fn met_floor(&self) -> (result: bool)
        ensures
            result == met_floor_spec(*self),
    {
        float_bits::le(self.residual, self.floor)
    }
}

/// Per-operation tally of pcurve fits and how many missed their floor.
#[derive(Clone, Copy, Debug)]
pub struct PcurveFitLedger {
    /// Fits recorded, exact affine ones included.
    pub fits: u64,
    /// Fits whose returned curve did not reach its floor.
    pub unmet: u64,
    /// Unmet fits that stopped at a sample ceiling.
    pub sample_ceiling: u64,
    /// Unmet fits that spent every refinement round.
    pub round_budget: u64,
    /// Unmet fits that could insert nothing.
    pub stalled: u64,
    /// Unmet fits whose remaining over-floor spans were all below the loop's
    /// span floor.
    pub span_floor: u64,
    /// Largest residual among the unmet fits; zero when there are none.
    pub worst_unmet_residual: u64,
    /// Fits that re-entered refinement with the raised budget, met or not.
    pub raised: u64,
    /// Unmet ceiling exits that were not raised.
    pub raise_declined: u64,
    /// Largest off-surface distance over every fit.
    pub worst_off_surface: u64,
}

/// The empty tally.
pub open spec fn empty_ledger() -> PcurveFitLedger {
    PcurveFitLedger {
        fits: 0,
        unmet: 0,
        sample_ceiling: 0,
        round_budget: 0,
        stalled: 0,
        span_floor: 0,
        worst_unmet_residual: float_bits::ZERO,
        raised: 0,
        raise_declined: 0,
        worst_off_surface: float_bits::ZERO,
    }
}

/// One more for a counter when `flag` holds.
pub open spec fn bump(count: u64, flag: bool) -> u64 {
    if flag {
        (count + 1) as u64
    } else {
        count
    }
}

/// `ledger` after recording `report`.
pub open spec fn recorded(ledger: PcurveFitLedger, report: PcurveFitReport) -> PcurveFitLedger {
    let met = met_floor_spec(report);
    PcurveFitLedger {
        fits: (ledger.fits + 1) as u64,
        unmet: bump(ledger.unmet, !met),
        sample_ceiling: bump(ledger.sample_ceiling, !met && report.exit == PcurveFitExit::SampleCeiling),
        round_budget: bump(ledger.round_budget, !met && report.exit == PcurveFitExit::RoundBudget),
        stalled: bump(ledger.stalled, !met && report.exit == PcurveFitExit::Stalled),
        span_floor: bump(ledger.span_floor, !met && report.exit == PcurveFitExit::SpanFloor),
        worst_unmet_residual: if met {
            ledger.worst_unmet_residual
        } else {
            max_value(ledger.worst_unmet_residual, report.residual)
        },
        raised: bump(ledger.raised, report.raised),
        raise_declined: bump(
            ledger.raise_declined,
            !met && report.exit == PcurveFitExit::SampleCeiling && !report.raised,
        ),
        worst_off_surface: max_value(ledger.worst_off_surface, report.off_surface),
    }
}

/// Recording a report into `ledger` overflows no counter.
pub open spec fn can_record_spec(ledger: PcurveFitLedger) -> bool {
    &&& ledger.fits < u64::MAX
    &&& ledger.unmet < u64::MAX
    &&& ledger.sample_ceiling < u64::MAX
    &&& ledger.round_budget < u64::MAX
    &&& ledger.stalled < u64::MAX
    &&& ledger.span_floor < u64::MAX
    &&& ledger.raised < u64::MAX
    &&& ledger.raise_declined < u64::MAX
}

/// `parent` after folding `child` into it: counters added, worst values
/// maximized.
pub open spec fn folded(parent: PcurveFitLedger, child: PcurveFitLedger) -> PcurveFitLedger {
    PcurveFitLedger {
        fits: (parent.fits + child.fits) as u64,
        unmet: (parent.unmet + child.unmet) as u64,
        sample_ceiling: (parent.sample_ceiling + child.sample_ceiling) as u64,
        round_budget: (parent.round_budget + child.round_budget) as u64,
        stalled: (parent.stalled + child.stalled) as u64,
        span_floor: (parent.span_floor + child.span_floor) as u64,
        worst_unmet_residual: max_value(parent.worst_unmet_residual, child.worst_unmet_residual),
        raised: (parent.raised + child.raised) as u64,
        raise_declined: (parent.raise_declined + child.raise_declined) as u64,
        worst_off_surface: max_value(parent.worst_off_surface, child.worst_off_surface),
    }
}

/// Folding `child` into `parent` overflows no counter.
pub open spec fn can_fold_spec(parent: PcurveFitLedger, child: PcurveFitLedger) -> bool {
    &&& parent.fits + child.fits <= u64::MAX
    &&& parent.unmet + child.unmet <= u64::MAX
    &&& parent.sample_ceiling + child.sample_ceiling <= u64::MAX
    &&& parent.round_budget + child.round_budget <= u64::MAX
    &&& parent.stalled + child.stalled <= u64::MAX
    &&& parent.span_floor + child.span_floor <= u64::MAX
    &&& parent.raised + child.raised <= u64::MAX
    &&& parent.raise_declined + child.raise_declined <= u64::MAX
}

impl Default for PcurveFitLedger {
    /// The empty tally.
    fn default() -> (result: Self)
        ensures
            result == empty_ledger(),
    {
        PcurveFitLedger {
            fits: 0,
            unmet: 0,
            sample_ceiling: 0,
            round_budget: 0,
            stalled: 0,
            span_floor: 0,
            worst_unmet_residual: float_bits::ZERO,
            raised: 0,
            raise_declined: 0,
            worst_off_surface: float_bits::ZERO,
        }
    }
}

impl PcurveFitLedger {
    /// Whether recording a report would overflow no counter.
    pub fn can_record(&self) -> (result: bool)
        ensures
            result == can_record_spec(*self),
    {
        self.fits < u64::MAX && self.unmet < u64::MAX && self.sample_ceiling < u64::MAX
            && self.round_budget < u64::MAX && self.stalled < u64::MAX && self.span_floor
            < u64::MAX && self.raised < u64::MAX && self.raise_declined < u64::MAX
    }

    /// Tally one fit: always counted, with its raise and its off-surface
    /// distance; an unmet one also by its exit (a ceiling exit that was not
    /// raised counts as a declined raise) and in the worst unmet residual.
    pub fn record(&mut self, report: &PcurveFitReport)
        requires
            can_record_spec(*old(self)),
        ensures
            *final(self) == recorded(*old(self), *report),
    {
        self.fits = self.fits + 1;
        if report.raised {
            self.raised = self.raised + 1;
        }
        self.worst_off_surface = float_bits::max(self.worst_off_surface, report.off_surface);
        if report.met_floor() {
            return;
        }
        self.unmet = self.unmet + 1;
        match report.exit {
            PcurveFitExit::Converged => {},
            PcurveFitExit::SampleCeiling => {
                self.sample_ceiling = self.sample_ceiling + 1;
                if !report.raised {
                    self.raise_declined = self.raise_declined + 1;
                }
            },
            PcurveFitExit::RoundBudget => self.round_budget = self.round_budget + 1,
            PcurveFitExit::Stalled => self.stalled = self.stalled + 1,
            PcurveFitExit::SpanFloor => self.span_floor = self.span_floor + 1,
        }
        self.worst_unmet_residual = float_bits::max(self.worst_unmet_residual, report.residual);
    }

    /// Whether folding `child` in would overflow no counter.
    pub fn can_fold(&self, child: &PcurveFitLedger) -> (result: bool)
        ensures
            result == can_fold_spec(*self, *child),
    {
        self.fits <= u64::MAX - child.fits && self.unmet <= u64::MAX - child.unmet
            && self.sample_ceiling <= u64::MAX - child.sample_ceiling && self.round_budget
            <= u64::MAX - child.round_budget && self.stalled <= u64::MAX - child.stalled
            && self.span_floor <= u64::MAX - child.span_floor && self.raised <= u64::MAX
            - child.raised && self.raise_declined <= u64::MAX - child.raise_declined
    }

    /// Add a child scope's tally to this one.
    pub fn fold(&mut self, child: &PcurveFitLedger)
        requires
            can_fold_spec(*old(self), *child),
        ensures
            *final(self) == folded(*old(self), *child),
    {
        self.fits = self.fits + child.fits;
        self.unmet = self.unmet + child.unmet;
        self.sample_ceiling = self.sample_ceiling + child.sample_ceiling;
        self.round_budget = self.round_budget + child.round_budget;
        self.stalled = self.stalled + child.stalled;
        self.span_floor = self.span_floor + child.span_floor;
        self.worst_unmet_residual = float_bits::max(
            self.worst_unmet_residual,
            child.worst_unmet_residual,
        );
        self.raised = self.raised + child.raised;
        self.raise_declined = self.raise_declined + child.raise_declined;
        self.worst_off_surface = float_bits::max(self.worst_off_surface, child.worst_off_surface);
    }
}

/// The open pcurve-fit scopes of one thread, innermost last.
pub struct PcurveFitScopes {
    open: Vec<PcurveFitLedger>,
}

/// An open tally of the pcurve fits made while it is open. Open it where an
/// operation starts and close it where the operation returns its
/// diagnostics; a scope discarded instead of closed drops its tally.
pub struct PcurveFitScope {
    sealed: (),
}

/// The stack after the innermost scope is closed: popped, and folded into
/// its parent if there is one.
pub open spec fn closed_stack(stack: Seq<PcurveFitLedger>) -> Seq<PcurveFitLedger> {
    if stack.len() == 0 {
        stack
    } else if stack.len() == 1 {
        Seq::empty()
    } else {
        stack.drop_last().update(
            stack.len() - 2,
            folded(stack[stack.len() - 2], stack.last()),
        )
    }
}

/// The tally the innermost scope hands back when closed; the empty tally
/// when no scope is open.
pub open spec fn closed_ledger(stack: Seq<PcurveFitLedger>) -> PcurveFitLedger {
    if stack.len() == 0 {
        empty_ledger()
    } else {
        stack.last()
    }
}

/// The stack after a fit is recorded: into the innermost scope, or nowhere
/// when none is open.
pub open spec fn recorded_stack(stack: Seq<PcurveFitLedger>, report: PcurveFitReport) -> Seq<
    PcurveFitLedger,
> {
    if stack.len() == 0 {
        stack
    } else {
        stack.update(stack.len() - 1, recorded(stack.last(), report))
    }
}

impl PcurveFitScopes {
    /// The open scopes' tallies, innermost last.
    pub closed spec fn ledgers(self) -> Seq<PcurveFitLedger> {
        self.open@
    }

    /// No scope open.
    pub fn new() -> (result: Self)
        ensures
            result.ledgers() == Seq::<PcurveFitLedger>::empty(),
    {
        PcurveFitScopes { open: Vec::new() }
    }

    /// Number of open scopes.
    pub fn depth(&self) -> (result: usize)
        ensures
            result == self.ledgers().len(),
    {
        self.open.len()
    }

    /// Whether recording a report now would overflow no counter.
    pub fn can_record(&self) -> (result: bool)
        ensures
            result == (self.ledgers().len() == 0 || can_record_spec(self.ledgers().last())),
    {
        if self.open.len() == 0 {
            true
        } else {
            self.open[self.open.len() - 1].can_record()
        }
    }

    /// Whether closing the innermost scope now would overflow no counter of
    /// its parent.
    pub fn can_close(&self) -> (result: bool)
        ensures
            result == (self.ledgers().len() < 2 || can_fold_spec(
                self.ledgers()[self.ledgers().len() - 2],
                self.ledgers().last(),
            )),
    {
        let count = self.open.len();
        if count < 2 {
            true
        } else {
            self.open[count - 2].can_fold(&self.open[count - 1])
        }
    }

    /// Record a fit into the innermost open scope; with none open, nothing
    /// happens.
    pub fn record(&mut self, report: &PcurveFitReport)
        requires
            old(self).ledgers().len() == 0 || can_record_spec(old(self).ledgers().last()),
        ensures
            final(self).ledgers() == recorded_stack(old(self).ledgers(), *report),
    {
        let count = self.open.len();
        if count > 0 {
            let mut top = self.open[count - 1];
            top.record(report);
            self.open.set(count - 1, top);
        }
    }
}

impl PcurveFitScope {
    /// Open a scope: a fresh empty tally becomes the innermost one.
    pub fn open(scopes: &mut PcurveFitScopes) -> (result: Self)
        ensures
            final(scopes).ledgers() == old(scopes).ledgers().push(empty_ledger()),
    {
        scopes.open.push(PcurveFitLedger::default());
        PcurveFitScope { sealed: () }
    }

    /// Take the innermost tally, folding it into the enclosing scope if
    /// there is one.
    pub fn close(self, scopes: &mut PcurveFitScopes) -> (result: PcurveFitLedger)
        requires
            old(scopes).ledgers().len() < 2 || can_fold_spec(
                old(scopes).ledgers()[old(scopes).ledgers().len() - 2],
                old(scopes).ledgers().last(),
            ),
        ensures
            result == closed_ledger(old(scopes).ledgers()),
            final(scopes).ledgers() == closed_stack(old(scopes).ledgers()),
    {
        match scopes.open.pop() {
            None => PcurveFitLedger::default(),
            Some(ledger) => {
                let count = scopes.open.len();
                if count > 0 {
                    let mut parent = scopes.open[count - 1];
                    parent.fold(&ledger);
                    scopes.open.set(count - 1, parent);
                }
                ledger
            },
        }
    }

    /// Drop the scope without closing it: its tally is discarded, not
    /// folded.
    pub fn discard(self, scopes: &mut PcurveFitScopes)
        ensures
            final(scopes).ledgers() == if old(scopes).ledgers().len() == 0 {
                old(scopes).ledgers()
            } else {
                old(scopes).ledgers().drop_last()
            },
    {
        let _ = scopes.open.pop();
    }
}

/// A scope opened, one fit recorded and the scope closed: the tally handed
/// back is exactly that fit, and the enclosing scopes are as they were
/// except that the innermost of them has that tally folded in.
pub proof fn lemma_open_record_close(stack: Seq<PcurveFitLedger>, report: PcurveFitReport)
    ensures
        ({
            let opened = stack.push(empty_ledger());
            let after = recorded_stack(opened, report);
            &&& closed_ledger(after) == recorded(empty_ledger(), report)
            &&& closed_stack(after) == if stack.len() == 0 {
                stack
            } else {
                stack.update(stack.len() - 1, folded(stack.last(), recorded(empty_ledger(), report)))
            }
        }),
{
    let opened = stack.push(empty_ledger());
    let after = recorded_stack(opened, report);
    assert(after.drop_last() =~= stack);
}

/// A scope opened and then discarded leaves every other scope untouched,
/// whatever was recorded in it.
pub proof fn lemma_open_record_discard(stack: Seq<PcurveFitLedger>, report: PcurveFitReport)
    ensures
        recorded_stack(stack.push(empty_ledger()), report).drop_last() == stack,
{
    assert(recorded_stack(stack.push(empty_ledger()), report).drop_last() =~= stack);
}

/// A ceiling exit that missed its floor is a declined raise exactly when it
/// was not raised; every unmet fit is counted among the unmet and folding
/// adds the counts of both scopes.
pub proof fn lemma_counts(ledger: PcurveFitLedger, child: PcurveFitLedger, report: PcurveFitReport)
    requires
        can_record_spec(ledger),
        can_fold_spec(ledger, child),
    ensures
        recorded(ledger, report).fits == ledger.fits + 1,
        recorded(ledger, report).unmet == ledger.unmet + if met_floor_spec(report) {
            0int
        } else {
            1int
        },
        recorded(ledger, report).raise_declined == ledger.raise_declined + if !met_floor_spec(
            report,
        ) && report.exit == PcurveFitExit::SampleCeiling && !report.raised {
            1int
        } else {
            0int
        },
        folded(ledger, child).fits == ledger.fits + child.fits,
        folded(ledger, child).unmet == ledger.unmet + child.unmet,
{
}


/// What one recorded fit adds to each count of the ledger, as the counts are
/// documented: every fit is one more fit, and a raised fit one more raised
/// fit, met or not; an unmet fit is one more unmet fit and one more in the
/// count for its exit (a converged exit has none), and an unmet ceiling
/// exit that was not raised is one more declined raise; a met fit adds to
/// no unmet count.
pub proof fn lemma_record_adds(ledger: PcurveFitLedger, report: PcurveFitReport)
    requires
        can_record_spec(ledger),
    ensures
        recorded(ledger, report).fits == ledger.fits + 1,
        recorded(ledger, report).worst_off_surface == max_value(
            ledger.worst_off_surface,
            report.off_surface,
        ),
        !met_floor_spec(report) ==> recorded(ledger, report).worst_unmet_residual == max_value(
            ledger.worst_unmet_residual,
            report.residual,
        ),
        !met_floor_spec(report) ==> recorded(ledger, report).raise_declined == ledger.raise_declined
            + if report.exit is SampleCeiling && !report.raised {
            1int
        } else {
            0int
        },
        report.raised ==> recorded(ledger, report).raised == ledger.raised + 1,
        !report.raised ==> recorded(ledger, report).raised == ledger.raised,
        met_floor_spec(report) ==> {
            &&& recorded(ledger, report).unmet == ledger.unmet
            &&& recorded(ledger, report).sample_ceiling == ledger.sample_ceiling
            &&& recorded(ledger, report).round_budget == ledger.round_budget
            &&& recorded(ledger, report).stalled == ledger.stalled
            &&& recorded(ledger, report).span_floor == ledger.span_floor
            &&& recorded(ledger, report).raise_declined == ledger.raise_declined
            &&& recorded(ledger, report).worst_unmet_residual == ledger.worst_unmet_residual
        },
        !met_floor_spec(report) ==> {
            &&& recorded(ledger, report).unmet == ledger.unmet + 1
            &&& recorded(ledger, report).sample_ceiling == ledger.sample_ceiling + if report.exit
                is SampleCeiling {
                1int
            } else {
                0int
            }
            &&& recorded(ledger, report).round_budget == ledger.round_budget + if report.exit
                is RoundBudget {
                1int
            } else {
                0int
            }
            &&& recorded(ledger, report).stalled == ledger.stalled + if report.exit is Stalled {
                1int
            } else {
                0int
            }
            &&& recorded(ledger, report).span_floor == ledger.span_floor + if report.exit
                is SpanFloor {
                1int
            } else {
                0int
            }
        },
{
}

/// The counts documented as "met or not" do not depend on whether the fit
/// met its floor: two reports that agree on whether they were raised and on
/// their distance off the surface add the same to the fit and raised counts
/// and to the worst off-surface distance, whatever their residuals and
/// floors.
pub proof fn lemma_record_met_or_not(ledger: PcurveFitLedger, first: PcurveFitReport, second: PcurveFitReport)
    requires
        can_record_spec(ledger),
        first.raised == second.raised,
        first.off_surface == second.off_surface,
    ensures
        recorded(ledger, first).fits == recorded(ledger, second).fits,
        recorded(ledger, first).raised == recorded(ledger, second).raised,
        recorded(ledger, first).worst_off_surface == recorded(ledger, second).worst_off_surface,
{
}

/// `ledger` after recording each of `reports` in turn.
pub open spec fn recorded_all(ledger: PcurveFitLedger, reports: Seq<PcurveFitReport>) -> PcurveFitLedger
    decreases reports.len(),
{
    if reports.len() == 0 {
        ledger
    } else {
        recorded(recorded_all(ledger, reports.drop_last()), reports.last())
    }
}

/// The scope stack after each of `reports` is recorded in turn.
pub open spec fn recorded_stack_all(stack: Seq<PcurveFitLedger>, reports: Seq<PcurveFitReport>) -> Seq<PcurveFitLedger>
    decreases reports.len(),
{
    if reports.len() == 0 {
        stack
    } else {
        recorded_stack(recorded_stack_all(stack, reports.drop_last()), reports.last())
    }
}

/// A worst value that is zero or positive, never NaN.
spec fn clean_worst(value: u64) -> bool {
    value == float_bits::ZERO || (!float_bits::is_nan(value) && float_bits::rank(value) > 0)
}

proof fn lemma_recorded_into_top(stack: Seq<PcurveFitLedger>, top: PcurveFitLedger, reports: Seq<PcurveFitReport>)
    ensures
        recorded_stack_all(stack.push(top), reports) == stack.push(recorded_all(top, reports)),
    decreases reports.len(),
{
    if reports.len() > 0 {
        lemma_recorded_into_top(stack, top, reports.drop_last());
        let before = stack.push(recorded_all(top, reports.drop_last()));
        assert(recorded_stack(before, reports.last()) =~= stack.push(recorded_all(top, reports)));
    }
}

proof fn lemma_recorded_all_clean(reports: Seq<PcurveFitReport>)
    requires
        reports.len() <= u64::MAX,
    ensures
        recorded_all(empty_ledger(), reports).fits == reports.len(),
        clean_worst(recorded_all(empty_ledger(), reports).worst_unmet_residual),
        clean_worst(recorded_all(empty_ledger(), reports).worst_off_surface),
    decreases reports.len(),
{
    if reports.len() > 0 {
        lemma_recorded_all_clean(reports.drop_last());
    }
}

/// A scope opened, any number of fits recorded and the scope closed: the
/// tally handed back is exactly those fits recorded in turn into an empty
/// tally, it counts every one of them, and closing it into an enclosing
/// scope that was still empty leaves that scope holding exactly the same
/// tally.
pub proof fn lemma_open_record_all_close(stack: Seq<PcurveFitLedger>, reports: Seq<PcurveFitReport>)
    requires
        reports.len() <= u64::MAX,
    ensures
        ({
            let tally = recorded_all(empty_ledger(), reports);
            let after = recorded_stack_all(stack.push(empty_ledger()), reports);
            &&& closed_ledger(after) == tally
            &&& tally.fits == reports.len()
            &&& closed_stack(after) == if stack.len() == 0 {
                stack
            } else {
                stack.update(stack.len() - 1, folded(stack.last(), tally))
            }
            &&& folded(empty_ledger(), tally) == tally
        }),
{
    let tally = recorded_all(empty_ledger(), reports);
    lemma_recorded_into_top(stack, empty_ledger(), reports);
    lemma_recorded_all_clean(reports);
    let after = stack.push(tally);
    assert(after.drop_last() =~= stack);
}

} // verus!
