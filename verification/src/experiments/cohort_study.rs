//! Run-class binning against arrival order on the same work: two runs that differ
//! in exactly one variable.
//!
//! Occupancy is a structural quantity here: it follows from how continuations
//! group, and says nothing of time.

use crate::experiments::dynamic_search;
use crate::experiments::dynamic_search::ControlKnobs;
use crate::executives::cpu_scalar::Child;
use crate::kernel;
use crate::kernel::{Call, Kernel, RuntimeError};
use crate::scheduler::{Accounting, PartialCohortPolicy, SchedulingMode};
use vstd::prelude::*;

verus! {

/// One configured run of the search.
#[derive(Clone, Copy, Debug, PartialEq, Eq, Structural)]
pub struct StudyRun {
    pub mode: SchedulingMode,
    pub cohort_width: u16,
    pub epochs: u32,
    pub accounting: Accounting,
}

impl StudyRun {
    /// Dispatches issued, the quantity that cohorting reduces.
    pub fn dispatches(&self) -> (n: u64)
        ensures
            n == self.accounting.cohorts,
    {
        self.accounting.cohorts
    }
}

/// The search ran, and what it dispatched was read behind it.
pub open spec fn ran_and_read(
    knobs: ControlKnobs,
    roots: Seq<Child>,
    before: Seq<Call>,
    between: Seq<Call>,
    ran: Seq<Call>,
    after: Seq<Call>,
    run: StudyRun,
) -> bool {
    &&& dynamic_search::built_and_ran(knobs, roots, before, between, ran, run.epochs)
    &&& after == ran.push(Call::Accounting { reply: run.accounting })
}

/// The search ran in a kernel that was configured first, and for this schedule,
/// or the kernel refused to build it.
pub open spec fn study_ran(
    knobs: ControlKnobs,
    mode: SchedulingMode,
    cohort_width: u16,
    partial: PartialCohortPolicy,
    before: Seq<Call>,
    after: Seq<Call>,
    result: Result<StudyRun, RuntimeError>,
) -> bool {
    let start = kernel::configured(before, mode, cohort_width, partial);
    match result {
        Ok(run) => {
            &&& run.mode == mode
            &&& run.cohort_width == cohort_width
            &&& exists|roots: Seq<Child>, between: Seq<Call>, ran: Seq<Call>| #[trigger]
                ran_and_read(knobs, roots, start, between, ran, after, run)
        },
        Err(error) => exists|roots: Seq<Child>| #[trigger]
            dynamic_search::is_built(knobs, roots, start, after, Err(error)),
    }
}

/// Configures `kernel`, runs the search in it, and reads what it dispatched.
pub fn run<K: Kernel>(
    kernel: &mut K,
    knobs: &ControlKnobs,
    mode: SchedulingMode,
    cohort_width: u16,
    partial_policy: PartialCohortPolicy,
) -> (result: Result<StudyRun, RuntimeError>)
    ensures
        study_ran(
            *knobs,
            mode,
            cohort_width,
            partial_policy,
            old(kernel).log(),
            final(kernel).log(),
            result,
        ),
{
    kernel.configure(mode, cohort_width, partial_policy);
    let ghost l0 = kernel::configured(old(kernel).log(), mode, cohort_width, partial_policy);
    assert(kernel.log() == l0);
    match dynamic_search::run(kernel, knobs) {
        Ok(epochs) => {
            let ghost ran = kernel.log();
            let accounting: Accounting = kernel.accounting();
            let result: Result<StudyRun, RuntimeError> = Ok(
                StudyRun { mode, cohort_width, epochs, accounting },
            );
            proof {
                let (roots, between) = choose|roots: Seq<Child>, between: Seq<Call>| #[trigger]
                    dynamic_search::built_and_ran(*knobs, roots, l0, between, ran, epochs);
                assert(ran_and_read(
                    *knobs,
                    roots,
                    l0,
                    between,
                    ran,
                    final(kernel).log(),
                    result->Ok_0,
                ));
                assert(study_ran(
                    *knobs,
                    mode,
                    cohort_width,
                    partial_policy,
                    old(kernel).log(),
                    final(kernel).log(),
                    result,
                ));
            }
            result
        },
        Err(error) => Err(error),
    }
}

/// Run-class cohorting against the persistent baseline on identical work.
#[derive(Clone, Copy, Debug, PartialEq, Eq, Structural)]
pub struct Comparison {
    pub fifo: StudyRun,
    pub cohorted: StudyRun,
}

/// The cohorted run's share of useful slots is at least one and a half times
/// that of the baseline, which has one.
pub open spec fn occupancy_is_met(fifo: Accounting, cohorted: Accounting) -> bool {
    &&& fifo.useful_lane_slots > 0
    &&& fifo.lane_slots > 0
    &&& cohorted.lane_slots > 0
    &&& 2 * (cohorted.useful_lane_slots * fifo.lane_slots) >= 3 * (fifo.useful_lane_slots
        * cohorted.lane_slots)
}

impl Comparison {
    /// Whether the useful-lane occupancy ratio is at least 1.5. An occupancy
    /// without slots counts as none.
    pub fn meets_occupancy_criterion(&self) -> (met: bool)
        ensures
            met == occupancy_is_met(self.fifo.accounting, self.cohorted.accounting),
    {
        let a = self.fifo.accounting;
        let b = self.cohorted.accounting;
        if a.useful_lane_slots == 0 || a.lane_slots == 0 || b.lane_slots == 0 {
            return false;
        }
        proof {
            let m = u64::MAX as int;
            assert(b.useful_lane_slots * a.lane_slots <= m * m) by (nonlinear_arith)
                requires
                    b.useful_lane_slots <= m,
                    a.lane_slots <= m,
                    0 <= m,
            ;
            assert(a.useful_lane_slots * b.lane_slots <= m * m) by (nonlinear_arith)
                requires
                    a.useful_lane_slots <= m,
                    b.lane_slots <= m,
                    0 <= m,
            ;
        }
        let ours: u128 = b.useful_lane_slots as u128 * a.lane_slots as u128;
        let theirs: u128 = a.useful_lane_slots as u128 * b.lane_slots as u128;
        // At least one and a half times: what is left over is at least half.
        ours >= theirs && ours - theirs >= theirs - theirs / 2
    }

    /// Both runs executed exactly the same work: only the binning differs.
    pub fn executed_identical_work(&self) -> (same: bool)
        ensures
            same == (self.fifo.accounting.steps == self.cohorted.accounting.steps
                && self.fifo.accounting.useful_lane_slots
                == self.cohorted.accounting.useful_lane_slots),
    {
        self.fifo.accounting.steps == self.cohorted.accounting.steps
            && self.fifo.accounting.useful_lane_slots == self.cohorted.accounting.useful_lane_slots
    }
}

/// Runs the search in two kernels that are configured alike but for the binning:
/// the one bins in arrival order and the other by run class. The first refusal
/// ends the comparison, and a refusal in the first kernel leaves the other alone.
pub fn compare<F: Kernel, C: Kernel>(
    fifo: &mut F,
    cohorted: &mut C,
    knobs: &ControlKnobs,
    cohort_width: u16,
) -> (result: Result<Comparison, RuntimeError>)
    ensures
        ({
            let partial = PartialCohortPolicy::RunPartial;
            let first = |reply: Result<StudyRun, RuntimeError>|
                study_ran(
                    *knobs,
                    SchedulingMode::PersistentFifo,
                    cohort_width,
                    partial,
                    old(fifo).log(),
                    final(fifo).log(),
                    reply,
                );
            let second = |reply: Result<StudyRun, RuntimeError>|
                study_ran(
                    *knobs,
                    SchedulingMode::RunClassBins,
                    cohort_width,
                    partial,
                    old(cohorted).log(),
                    final(cohorted).log(),
                    reply,
                );
            match result {
                Ok(comparison) => first(Ok(comparison.fifo)) && second(Ok(comparison.cohorted)),
                Err(error) => {
                    ||| first(Err(error)) && final(cohorted).log() == old(cohorted).log()
                    ||| second(Err(error)) && exists|run: StudyRun| #[trigger]
                        study_ran(
                            *knobs,
                            SchedulingMode::PersistentFifo,
                            cohort_width,
                            partial,
                            old(fifo).log(),
                            final(fifo).log(),
                            Ok(run),
                        )
                },
            }
        }),
{
    let partial = PartialCohortPolicy::RunPartial;
    let first: StudyRun = match run(
        fifo,
        knobs,
        SchedulingMode::PersistentFifo,
        cohort_width,
        partial,
    ) {
        Ok(run) => run,
        Err(error) => {
            return Err(error);
        },
    };
    match run(cohorted, knobs, SchedulingMode::RunClassBins, cohort_width, partial) {
        Ok(second) => Ok(Comparison { fifo: first, cohorted: second }),
        Err(error) => Err(error),
    }
}

/// On identical work the criterion is one of slots alone: the cohorted run
/// took at most two thirds of the baseline's.
pub proof fn law_identical_work_is_judged_by_slots(comparison: Comparison)
    requires
        comparison.fifo.accounting.useful_lane_slots
            == comparison.cohorted.accounting.useful_lane_slots,
        comparison.fifo.accounting.useful_lane_slots > 0,
        comparison.fifo.accounting.lane_slots > 0,
        comparison.cohorted.accounting.lane_slots > 0,
    ensures
        occupancy_is_met(comparison.fifo.accounting, comparison.cohorted.accounting) <==> 3
            * comparison.cohorted.accounting.lane_slots <= 2
            * comparison.fifo.accounting.lane_slots,
{
    let u = comparison.fifo.accounting.useful_lane_slots as int;
    let a = comparison.fifo.accounting.lane_slots as int;
    let b = comparison.cohorted.accounting.lane_slots as int;
    assert((2 * (u * a) >= 3 * (u * b)) <==> (3 * b <= 2 * a)) by (nonlinear_arith)
        requires
            u > 0,
    ;
}

} // verus!
