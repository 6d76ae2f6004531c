//! Repeated benchmarking of the discovery workload: what is repeated, in which
//! order, and what is read off the samples.

use crate::discovery::DiscoveryError;
use crate::experiments::discovery_search;
use crate::experiments::discovery_search::{
    DiscoveryKnobs, DUPLICATION_RATES, EVALUATOR_CLASSES, PRUNING_RATES,
};
use crate::samples;
use crate::samples::percentile;
use vstd::prelude::*;

verus! {

#[derive(Clone, Copy, Debug, PartialEq, Eq, Structural)]
pub struct BenchmarkProtocol {
    pub warmups: u32,
    pub repetitions: u32,
}

impl Default for BenchmarkProtocol {
    fn default() -> (protocol: Self)
        ensures
            protocol == (BenchmarkProtocol { warmups: 2, repetitions: 9 }),
    {
        BenchmarkProtocol { warmups: 2, repetitions: 9 }
    }
}

impl BenchmarkProtocol {
    /// A benchmark needs at least one repetition.
    pub fn validate(self) -> (result: Result<Self, DiscoveryError>)
        ensures
            match result {
                Ok(protocol) => self.repetitions > 0 && protocol == self,
                Err(error) => {
                    &&& self.repetitions == 0
                    &&& error is InvalidTrace
                    &&& error->InvalidTrace_0@
                        == "a discovery benchmark needs at least one repetition"@
                },
            },
    {
        if self.repetitions == 0 {
            return Err(
                DiscoveryError::InvalidTrace(
                    "a discovery benchmark needs at least one repetition",
                ),
            );
        }
        Ok(self)
    }

    /// How many pairs are executed, warm-ups and repetitions together.
    pub open spec fn pairs(self) -> int {
        self.warmups + self.repetitions
    }

    /// Whether the optimized replay goes first in pair `n` of the protocol.
    /// Taking turns limits the bias of a fixed order.
    pub fn optimized_first(self, n: u64) -> (first: bool)
        requires
            n < self.pairs(),
        ensures
            first == (n % 2 == 1),
    {
        n % 2 == 1
    }

    /// Whether pair `n` is measured.
    pub fn is_measured(self, n: u64) -> (measured: bool)
        requires
            n < self.pairs(),
        ensures
            measured == (n >= self.warmups),
    {
        n >= self.warmups as u64
    }
}

/// Samples in the order they were taken, in nanoseconds. They are the source of
/// every percentile and are kept for that.
#[derive(Debug)]
pub struct TimingDistribution {
    pub samples: Vec<u64>,
}

impl TimingDistribution {
    pub fn p10(&self) -> (nanos: u64)
        requires
            self.samples@.len() <= 0xffff_ffff_ffff,
        ensures
            nanos == samples::percentile_of(self.samples@, 10),
    {
        percentile(&self.samples, 10)
    }

    pub fn median(&self) -> (nanos: u64)
        requires
            self.samples@.len() <= 0xffff_ffff_ffff,
        ensures
            nanos == samples::percentile_of(self.samples@, 50),
    {
        percentile(&self.samples, 50)
    }

    pub fn p90(&self) -> (nanos: u64)
        requires
            self.samples@.len() <= 0xffff_ffff_ffff,
        ensures
            nanos == samples::percentile_of(self.samples@, 90),
    {
        percentile(&self.samples, 90)
    }
}

/// One regime, and how long both replays of it took.
#[derive(Debug)]
pub struct DiscoveryBenchmarkPoint {
    pub knobs: DiscoveryKnobs,
    pub naive: TimingDistribution,
    pub optimized: TimingDistribution,
}

#[derive(Debug)]
pub struct DiscoveryBenchmarkSweep {
    pub backend: String,
    pub protocol: BenchmarkProtocol,
    pub points: Vec<DiscoveryBenchmarkPoint>,
}

/// The smallest measured batch size at which a candidate cleared its margin in
/// one group of regimes. None means that it did at no measured size.
#[derive(Clone, Copy, Debug, PartialEq, Eq)]
pub struct MeasuredCrossover {
    pub duplicate_rate: u32,
    pub rejection_rate: u32,
    pub evaluator_classes: u32,
    pub elements_per_experiment: Option<u32>,
}

/// How many groups there are: one for each duplication rate, pruning rate and
/// number of classes.
pub const GROUPS: usize = 36;

pub open spec fn is_in_group(knobs: DiscoveryKnobs, g: int) -> bool {
    &&& knobs.duplicate_rate == discovery_search::DUPLICATION_RATES@[g / 9]
    &&& knobs.rejection_rate == discovery_search::PRUNING_RATES@[(g / 3) % 3]
    &&& knobs.evaluator_classes == discovery_search::EVALUATOR_CLASSES@[g % 3]
}

pub open spec fn knobs_of(points: Seq<DiscoveryBenchmarkPoint>) -> Seq<DiscoveryKnobs> {
    Seq::new(points.len(), |i: int| points[i].knobs)
}

/// The first batch size from point `from` on at which the margin was cleared in
/// group `g`.
pub open spec fn first_cleared(grid: Seq<DiscoveryKnobs>, cleared: Seq<bool>, g: int, from: int) -> Option<
    u32,
>
    decreases grid.len() - from,
{
    if from >= grid.len() {
        None
    } else if is_in_group(grid[from], g) && cleared[from] {
        Some(grid[from].elements_per_experiment)
    } else {
        first_cleared(grid, cleared, g, from + 1)
    }
}

/// What group `g` comes to.
pub open spec fn crossover_of(grid: Seq<DiscoveryKnobs>, cleared: Seq<bool>, g: int) -> MeasuredCrossover {
    MeasuredCrossover {
        duplicate_rate: discovery_search::DUPLICATION_RATES@[g / 9],
        rejection_rate: discovery_search::PRUNING_RATES@[(g / 3) % 3],
        evaluator_classes: discovery_search::EVALUATOR_CLASSES@[g % 3],
        elements_per_experiment: first_cleared(grid, cleared, g, 0),
    }
}

/// The crossover of each group, where `cleared` says of each point whether the
/// candidate cleared its margin there.
fn crossover_by(points: &Vec<DiscoveryBenchmarkPoint>, cleared: &Vec<bool>) -> (found: Vec<
    MeasuredCrossover,
>)
    requires
        cleared@.len() == points@.len(),
    ensures
        found@ == Seq::new(36, |g: int| crossover_of(knobs_of(points@), cleared@, g)),
{
    let ghost grid = knobs_of(points@);
    let mut found: Vec<MeasuredCrossover> = Vec::new();
    let mut g: usize = 0;
    while g < GROUPS
        invariant
            g <= GROUPS,
            grid == knobs_of(points@),
            cleared@.len() == points@.len(),
            found@ =~= Seq::new(g as nat, |h: int| crossover_of(grid, cleared@, h)),
        decreases GROUPS - g,
    {
        let duplicate_rate: u32 = DUPLICATION_RATES[g / 9];
        let rejection_rate: u32 = PRUNING_RATES[(g / 3) % 3];
        let evaluator_classes: u32 = EVALUATOR_CLASSES[g % 3];
        let mut crossing: Option<u32> = None;
        let mut i: usize = 0;
        while i < points.len() && crossing.is_none()
            invariant
                i <= points.len(),
                g < GROUPS,
                grid == knobs_of(points@),
                cleared@.len() == points@.len(),
                duplicate_rate == discovery_search::DUPLICATION_RATES@[g as int / 9],
                rejection_rate == discovery_search::PRUNING_RATES@[(g as int / 3) % 3],
                evaluator_classes == discovery_search::EVALUATOR_CLASSES@[g as int % 3],
                first_cleared(grid, cleared@, g as int, 0) == match crossing {
                    Some(size) => Some(size),
                    None => first_cleared(grid, cleared@, g as int, i as int),
                },
            decreases points.len() - i,
        {
            let knobs = points[i].knobs;
            assert(grid[i as int] == knobs);
            if knobs.duplicate_rate == duplicate_rate && knobs.rejection_rate == rejection_rate
                && knobs.evaluator_classes == evaluator_classes && cleared[i] {
                crossing = Some(knobs.elements_per_experiment);
            }
            i = i + 1;
        }
        found.push(
            MeasuredCrossover {
                duplicate_rate,
                rejection_rate,
                evaluator_classes,
                elements_per_experiment: crossing,
            },
        );
        g = g + 1;
    }
    found
}

/// The first measured batch size in each group at which the optimized replay
/// cleared its margin over the literal one.
pub fn policy_crossovers(sweep: &DiscoveryBenchmarkSweep, cleared: &Vec<bool>) -> (found: Vec<
    MeasuredCrossover,
>)
    requires
        cleared@.len() == sweep.points@.len(),
    ensures
        found@ == Seq::new(36, |g: int| crossover_of(knobs_of(sweep.points@), cleared@, g)),
{
    crossover_by(&sweep.points, cleared)
}

pub fn same_regime(a: &DiscoveryKnobs, b: &DiscoveryKnobs) -> (same: bool)
    ensures
        same == (*a == *b),
{
    *a == *b
}

/// The first measured batch size in each group at which the candidate backend
/// cleared its margin over the baseline. Sweeps over different regimes are
/// refused.
pub fn backend_crossovers(
    baseline: &DiscoveryBenchmarkSweep,
    candidate: &DiscoveryBenchmarkSweep,
    cleared: &Vec<bool>,
) -> (result: Result<Vec<MeasuredCrossover>, DiscoveryError>)
    requires
        cleared@.len() == baseline.points@.len(),
    ensures
        match result {
            Ok(found) => {
                &&& knobs_of(baseline.points@) == knobs_of(candidate.points@)
                &&& found@ == Seq::new(
                    36,
                    |g: int| crossover_of(knobs_of(baseline.points@), cleared@, g),
                )
            },
            Err(error) => {
                &&& knobs_of(baseline.points@) != knobs_of(candidate.points@)
                &&& error is InvalidTrace
                &&& error->InvalidTrace_0@
                    == "backend crossover sweeps use different regime grids"@
            },
        },
{
    let ghost ours = knobs_of(baseline.points@);
    let ghost theirs = knobs_of(candidate.points@);
    assert(ours.len() == baseline.points@.len() && theirs.len() == candidate.points@.len());
    let mut same: bool = baseline.points.len() == candidate.points.len();
    let mut i: usize = 0;
    while same && i < baseline.points.len()
        invariant
            i <= baseline.points.len(),
            ours == knobs_of(baseline.points@),
            theirs == knobs_of(candidate.points@),
            same ==> ours.len() == theirs.len() && forall|j: int|
                0 <= j < i ==> ours[j] == theirs[j],
            !same ==> ours != theirs,
        decreases baseline.points.len() - i,
    {
        same = same_regime(&baseline.points[i].knobs, &candidate.points[i].knobs);
        assert(ours[i as int] == baseline.points@[i as int].knobs);
        assert(theirs[i as int] == candidate.points@[i as int].knobs);
        i = i + 1;
    }
    if !same {
        return Err(
            DiscoveryError::InvalidTrace("backend crossover sweeps use different regime grids"),
        );
    }
    assert(ours =~= theirs);
    Ok(crossover_by(&baseline.points, cleared))
}

/// A crossover is a size that was measured: there is a point of its group at
/// which the margin was cleared, and it was at none of the group's points
/// before. Where there is no crossover, it was cleared nowhere in the group.
pub proof fn law_a_crossover_was_measured(
    grid: Seq<DiscoveryKnobs>,
    cleared: Seq<bool>,
    g: int,
    from: int,
)
    requires
        0 <= from <= grid.len(),
        cleared.len() == grid.len(),
    ensures
        match first_cleared(grid, cleared, g, from) {
            Some(size) => exists|i: int|
                {
                    &&& from <= i < grid.len()
                    &&& #[trigger] is_in_group(grid[i], g)
                    &&& cleared[i]
                    &&& size == grid[i].elements_per_experiment
                    &&& forall|j: int|
                        from <= j < i && #[trigger] is_in_group(grid[j], g) ==> !cleared[j]
                },
            None => forall|j: int|
                from <= j < grid.len() && #[trigger] is_in_group(grid[j], g) ==> !cleared[j],
        },
    decreases grid.len() - from,
{
    if from < grid.len() {
        if is_in_group(grid[from], g) && cleared[from] {
            assert(is_in_group(grid[from], g));
        } else {
            law_a_crossover_was_measured(grid, cleared, g, from + 1);
        }
    }
}

} // verus!
