//! The runtime's own configuration as a discovery target.
//!
//! Acquisition runs each physical configuration and keeps every sample exactly
//! once; replay then presents the samples as observations, with the work that
//! does not depend on the configuration as shared derivations. The clock is
//! outside this library: a schedule says what is measured and in which order,
//! and the measurements come back in that order.

use crate::discovery::ObjectDigest;
use crate::executives::batch::BackendError;
pub use crate::experiments::tuning_replay::{
    rankings, trace_from_capture, validate_capture, ConfigScore, WorkloadRanking,
};
use crate::ordered;
use crate::text;
use crate::text::{push_decimal, push_text};
use vstd::prelude::*;

verus! {

#[derive(Clone, Copy, Debug, PartialEq, Eq, PartialOrd, Ord, Structural)]
pub enum Placement {
    Cpu,
    NativeCpu,
    Metal,
}

#[derive(Clone, Copy, Debug, PartialEq, Eq)]
pub struct ExecutionConfig {
    pub id: u32,
    pub placement: Placement,
    pub batched_epoch: bool,
    pub cpu_threads: usize,
    pub threadgroup_width: Option<u64>,
    pub reuse_scratch_buffers: bool,
}

pub open spec fn grouping_of(batched_epoch: bool) -> Seq<char> {
    if batched_epoch {
        "epoch"@
    } else {
        "single"@
    }
}

/// What a configuration is called.
pub open spec fn label_of(config: ExecutionConfig) -> Seq<char> {
    match config.placement {
        Placement::Cpu => "cpu-reference/"@ + text::decimal(config.cpu_threads as nat) + "t/"@
            + grouping_of(config.batched_epoch),
        Placement::NativeCpu => "cpu-native/"@ + text::decimal(config.cpu_threads as nat) + "t/"@
            + grouping_of(config.batched_epoch),
        Placement::Metal => "metal/tg-"@ + (match config.threadgroup_width {
            Some(width) => text::decimal(width as nat),
            None => "auto"@,
        }) + "/"@ + (if config.reuse_scratch_buffers {
            "warm"@
        } else {
            "fresh"@
        }) + "-buffers/"@ + grouping_of(config.batched_epoch),
    }
}

impl ExecutionConfig {
    pub fn label(&self) -> (label: String)
        ensures
            label@ == label_of(*self),
    {
        let mut label: String = String::new();
        match self.placement {
            Placement::Cpu => {
                push_text(&mut label, "cpu-reference/");
                push_decimal(&mut label, self.cpu_threads as u64);
                push_text(&mut label, "t/");
            },
            Placement::NativeCpu => {
                push_text(&mut label, "cpu-native/");
                push_decimal(&mut label, self.cpu_threads as u64);
                push_text(&mut label, "t/");
            },
            Placement::Metal => {
                push_text(&mut label, "metal/tg-");
                match self.threadgroup_width {
                    Some(width) => push_decimal(&mut label, width),
                    None => push_text(&mut label, "auto"),
                }
                push_text(&mut label, "/");
                push_text(
                    &mut label,
                    if self.reuse_scratch_buffers {
                        "warm"
                    } else {
                        "fresh"
                    },
                );
                push_text(&mut label, "-buffers/");
            },
        }
        push_text(
            &mut label,
            if self.batched_epoch {
                "epoch"
            } else {
                "single"
            },
        );
        assert(label@ =~= label_of(*self));
        label
    }
}

#[derive(Clone, Copy, Debug, PartialEq, Eq, Structural)]
pub struct TuningWorkload {
    pub id: u32,
    pub alu_ops: u32,
    pub cohorts: u32,
    pub elements_per_cohort: u32,
}

#[derive(Clone, Debug, PartialEq, Eq)]
pub struct TuningStudy {
    pub workloads: Vec<TuningWorkload>,
    pub trials: u32,
}

impl Default for TuningStudy {
    fn default() -> (study: Self)
        ensures
            study.workloads@ == seq![
                TuningWorkload { id: 1, alu_ops: 8, cohorts: 1, elements_per_cohort: 1_024 },
                TuningWorkload { id: 2, alu_ops: 256, cohorts: 16, elements_per_cohort: 8_192 },
                TuningWorkload { id: 3, alu_ops: 2_048, cohorts: 8, elements_per_cohort: 131_072 },
            ],
            study.trials == 15,
    {
        let workloads: Vec<TuningWorkload> = vec![
            TuningWorkload { id: 1, alu_ops: 8, cohorts: 1, elements_per_cohort: 1_024 },
            TuningWorkload { id: 2, alu_ops: 256, cohorts: 16, elements_per_cohort: 8_192 },
            TuningWorkload { id: 3, alu_ops: 2_048, cohorts: 8, elements_per_cohort: 131_072 },
        ];
        assert(workloads@ =~= seq![
            TuningWorkload { id: 1, alu_ops: 8, cohorts: 1, elements_per_cohort: 1_024 },
            TuningWorkload { id: 2, alu_ops: 256, cohorts: 16, elements_per_cohort: 8_192 },
            TuningWorkload { id: 3, alu_ops: 2_048, cohorts: 8, elements_per_cohort: 131_072 },
        ]);
        TuningStudy { workloads, trials: 15 }
    }
}

#[derive(Clone, Copy, Debug, PartialEq, Eq)]
pub struct TimingObservation {
    pub workload_id: u32,
    pub config_id: u32,
    pub trial: u32,
    pub elapsed_nanos: u64,
    pub output_digest: ObjectDigest,
}

#[derive(Clone, Copy, Debug, PartialEq, Eq)]
pub struct PhysicalMeasurement {
    pub elapsed_nanos: u64,
    pub output_digest: ObjectDigest,
}

#[derive(Clone, Debug, PartialEq, Eq)]
pub struct CapturedStudy {
    pub study: TuningStudy,
    pub configs: Vec<ExecutionConfig>,
    pub observations: Vec<TimingObservation>,
}

// ---- configurations --------------------------------------------------------

pub open spec fn threads_at_least_one(n: usize) -> usize {
    if n > 1 {
        n
    } else {
        1
    }
}

/// `list` holds the thread counts, each once, in increasing order.
pub open spec fn is_thread_list(list: Seq<usize>, counts: Seq<usize>, n: int) -> bool {
    &&& forall|i: int, j: int| 0 <= i < j < list.len() ==> #[trigger] list[i] < #[trigger] list[j]
    &&& forall|v: usize| #[trigger]
        list.contains(v) <==> exists|i: int|
            0 <= i < n && threads_at_least_one(#[trigger] counts[i]) == v
}

pub open spec fn thread_list(counts: Seq<usize>) -> Seq<usize> {
    choose|list: Seq<usize>| is_thread_list(list, counts, counts.len() as int)
}

proof fn lemma_thread_list(list: Seq<usize>, counts: Seq<usize>)
    requires
        is_thread_list(list, counts, counts.len() as int),
    ensures
        thread_list(counts) == list,
{
    let other = thread_list(counts);
    let n = counts.len() as int;
    assert(is_thread_list(other, counts, n));
    let x = Seq::new(list.len(), |i: int| list[i] as int);
    let y = Seq::new(other.len(), |i: int| other[i] as int);
    assert forall|v: int| #[trigger] x.contains(v) <==> y.contains(v) by {
        if x.contains(v) {
            let i = choose|i: int| 0 <= i < x.len() && x[i] == v;
            assert(list.contains(list[i]));
            assert(other.contains(list[i]));
            let j = choose|j: int| 0 <= j < other.len() && other[j] == list[i];
            assert(y[j] == v);
        }
        if y.contains(v) {
            let i = choose|i: int| 0 <= i < y.len() && y[i] == v;
            assert(other.contains(other[i]));
            assert(list.contains(other[i]));
            let j = choose|j: int| 0 <= j < list.len() && list[j] == other[i];
            assert(x[j] == v);
        }
    }
    ordered::lemma_increasing_is_unique(x, y);
    assert(list.len() == x.len() && other.len() == y.len());
    assert forall|i: int| 0 <= i < list.len() implies list[i] == #[trigger] other[i] by {
        assert(x[i] == y[i]);
    }
    assert(other =~= list);
}

/// The distinct thread counts, each at least one, in increasing order.
fn ordered_threads(counts: &[usize]) -> (list: Vec<usize>)
    ensures
        list@ == thread_list(counts@),
        list@.len() <= counts@.len(),
{
    let mut list: Vec<usize> = Vec::new();
    let mut i: usize = 0;
    while i < counts.len()
        invariant
            i <= counts.len(),
            list@.len() <= i,
            is_thread_list(list@, counts@, i as int),
        decreases counts.len() - i,
    {
        let value: usize = if counts[i] > 1 {
            counts[i]
        } else {
            1
        };
        let ghost before = list@;
        let mut at: usize = list.len();
        while at > 0 && list[at - 1] >= value
            invariant
                at <= list.len(),
                list@ == before,
                forall|j: int| at <= j < before.len() ==> #[trigger] before[j] >= value,
            decreases at,
        {
            at = at - 1;
        }
        proof {
            assert forall|j: int| 0 <= j < at implies #[trigger] before[j] < value by {
                if j < at - 1 {
                    assert(before[j] < before[at - 1]);
                }
            }
        }
        if !(at < list.len() && list[at] == value) {
            list.insert(at, value);
            proof {
                assert(list@ =~= before.insert(at as int, value));
                assert forall|j: int| at <= j < before.len() implies #[trigger] before[j]
                    > value by {
                    if j > at {
                        assert(before[at as int] < before[j]);
                    }
                }
                lemma_inserted_list(before, at as int, value);
            }
        } else {
            assert(before[at as int] == value);
        }
        proof {
            assert forall|v: usize| #[trigger] list@.contains(v) <==> exists|j: int|
                0 <= j < i + 1 && threads_at_least_one(#[trigger] counts@[j]) == v by {
                assert(list@.contains(v) <==> before.contains(v) || v == value);
                if list@.contains(v) {
                    if v == value {
                        assert(threads_at_least_one(counts@[i as int]) == v);
                    } else {
                        let j = choose|j: int|
                            0 <= j < i && threads_at_least_one(#[trigger] counts@[j]) == v;
                        assert(threads_at_least_one(counts@[j]) == v);
                    }
                }
            }
        }
        i = i + 1;
    }
    proof {
        lemma_thread_list(list@, counts@);
    }
    list
}

proof fn lemma_inserted_list(before: Seq<usize>, at: int, value: usize)
    requires
        0 <= at <= before.len(),
        forall|i: int, j: int|
            0 <= i < j < before.len() ==> #[trigger] before[i] < #[trigger] before[j],
        forall|j: int| 0 <= j < at ==> #[trigger] before[j] < value,
        forall|j: int| at <= j < before.len() ==> #[trigger] before[j] > value,
    ensures
        forall|i: int, j: int|
            0 <= i < j < before.len() + 1 ==> #[trigger] before.insert(at, value)[i]
                < #[trigger] before.insert(at, value)[j],
        forall|v: usize| #[trigger]
            before.insert(at, value).contains(v) <==> before.contains(v) || v == value,
{
    let after = before.insert(at, value);
    assert forall|i: int, j: int| 0 <= i < j < after.len() implies #[trigger] after[i]
        < #[trigger] after[j] by {
        let x = if i < at {
            i
        } else {
            i - 1
        };
        let y = if j < at {
            j
        } else {
            j - 1
        };
        if i != at && j != at {
            assert(before[x] < before[y]);
        }
    }
    assert forall|v: usize| #[trigger] after.contains(v) <==> before.contains(v) || v == value by {
        if after.contains(v) {
            let i = choose|i: int| 0 <= i < after.len() && after[i] == v;
            if i < at {
                assert(before[i] == v);
            } else if i > at {
                assert(before[i - 1] == v);
            }
        }
        if before.contains(v) {
            let i = choose|i: int| 0 <= i < before.len() && before[i] == v;
            if i < at {
                assert(after[i] == v);
            } else {
                assert(after[i + 1] == v);
            }
        }
        assert(after[at] == value);
    }
}

/// One configuration for each thread count with cohorts one at a time, and one
/// with them together, numbered from `base`.
pub open spec fn configs_for(
    placement: Placement,
    threads: Seq<usize>,
    base: int,
) -> Seq<ExecutionConfig> {
    Seq::new(
        2 * threads.len(),
        |i: int|
            ExecutionConfig {
                id: (base + i + 1) as u32,
                placement,
                batched_epoch: i % 2 == 1,
                cpu_threads: threads[i / 2],
                threadgroup_width: None,
                reuse_scratch_buffers: true,
            },
    )
}

fn append_configurations(
    configs: &mut Vec<ExecutionConfig>,
    placement: Placement,
    thread_counts: &[usize],
)
    requires
        old(configs)@.len() + 2 * thread_counts@.len() <= u32::MAX,
    ensures
        final(configs)@ == old(configs)@ + configs_for(
            placement,
            thread_list(thread_counts@),
            old(configs)@.len() as int,
        ),
        final(configs)@.len() <= old(configs)@.len() + 2 * thread_counts@.len(),
{
    let ghost start = configs@;
    let threads: Vec<usize> = ordered_threads(thread_counts);
    let ghost all = configs_for(placement, threads@, start.len() as int);
    let mut i: usize = 0;
    assert(start =~= start + all.take(0));
    while i < threads.len()
        invariant
            i <= threads.len(),
            start.len() + 2 * threads@.len() <= u32::MAX,
            all == configs_for(placement, threads@, start.len() as int),
            configs@ == start + all.take(2 * i),
            configs@.len() == start.len() + 2 * i,
        decreases threads.len() - i,
    {
        let count: u32 = configs.len() as u32;
        configs.push(
            ExecutionConfig {
                id: count + 1,
                placement,
                batched_epoch: false,
                cpu_threads: threads[i],
                threadgroup_width: None,
                reuse_scratch_buffers: true,
            },
        );
        configs.push(
            ExecutionConfig {
                id: count + 2,
                placement,
                batched_epoch: true,
                cpu_threads: threads[i],
                threadgroup_width: None,
                reuse_scratch_buffers: true,
            },
        );
        assert(configs@ =~= start + all.take(2 * (i + 1)));
        i = i + 1;
    }
    assert(all.take(2 * i) =~= all);
}

/// The configurations of the reference backend.
pub fn cpu_configurations(thread_counts: &[usize]) -> (configs: Vec<ExecutionConfig>)
    requires
        2 * thread_counts@.len() <= u32::MAX,
    ensures
        configs@ == configs_for(Placement::Cpu, thread_list(thread_counts@), 0),
        configs@.len() <= 2 * thread_counts@.len(),
{
    let mut configs: Vec<ExecutionConfig> = Vec::new();
    append_configurations(&mut configs, Placement::Cpu, thread_counts);
    assert(configs@ =~= configs_for(Placement::Cpu, thread_list(thread_counts@), 0));
    configs
}

/// The configurations of the native backend behind those of the reference.
pub fn append_native_configurations(configs: &mut Vec<ExecutionConfig>, thread_counts: &[usize])
    requires
        old(configs)@.len() + 2 * thread_counts@.len() <= u32::MAX,
    ensures
        final(configs)@ == old(configs)@ + configs_for(
            Placement::NativeCpu,
            thread_list(thread_counts@),
            old(configs)@.len() as int,
        ),
        final(configs)@.len() <= old(configs)@.len() + 2 * thread_counts@.len(),
{
    append_configurations(configs, Placement::NativeCpu, thread_counts);
}

pub open spec fn metal_config(
    id: int,
    batched_epoch: bool,
    threadgroup_width: Option<u64>,
    reuse_scratch_buffers: bool,
) -> ExecutionConfig {
    ExecutionConfig {
        id: id as u32,
        placement: Placement::Metal,
        batched_epoch,
        cpu_threads: 1,
        threadgroup_width,
        reuse_scratch_buffers,
    }
}

/// The device's candidates: grouping and buffer reuse alone at the default
/// width, then widths with both at their defaults. The device's own width is
/// one of the candidates.
pub open spec fn metal_configs(base: int) -> Seq<ExecutionConfig> {
    seq![
        metal_config(base + 1, false, None, true),
        metal_config(base + 2, true, None, false),
        metal_config(base + 3, true, None, true),
        metal_config(base + 4, true, Some(32), true),
        metal_config(base + 5, true, Some(64), true),
        metal_config(base + 6, true, Some(128), true),
        metal_config(base + 7, true, Some(256), true),
    ]
}

fn push_metal(
    configs: &mut Vec<ExecutionConfig>,
    batched_epoch: bool,
    threadgroup_width: Option<u64>,
    reuse_scratch_buffers: bool,
)
    requires
        old(configs)@.len() < u32::MAX,
    ensures
        final(configs)@ == old(configs)@.push(
            metal_config(
                old(configs)@.len() as int + 1,
                batched_epoch,
                threadgroup_width,
                reuse_scratch_buffers,
            ),
        ),
{
    let id: u32 = configs.len() as u32 + 1;
    configs.push(
        ExecutionConfig {
            id,
            placement: Placement::Metal,
            batched_epoch,
            cpu_threads: 1,
            threadgroup_width,
            reuse_scratch_buffers,
        },
    );
}

/// Every configuration there is on a machine with a device.
pub fn hardware_configurations(thread_counts: &[usize]) -> (configs: Vec<ExecutionConfig>)
    requires
        4 * thread_counts@.len() + 7 <= u32::MAX,
    ensures
        ({
            let threads = thread_list(thread_counts@);
            let n = 2 * threads.len() as int;
            configs@ == configs_for(Placement::Cpu, threads, 0) + configs_for(
                Placement::NativeCpu,
                threads,
                n,
            ) + metal_configs(2 * n)
        }),
{
    let mut configs: Vec<ExecutionConfig> = cpu_configurations(thread_counts);
    append_native_configurations(&mut configs, thread_counts);
    let ghost base = configs@.len() as int;
    let ghost before = configs@;
    push_metal(&mut configs, false, None, true);
    push_metal(&mut configs, true, None, false);
    push_metal(&mut configs, true, None, true);
    push_metal(&mut configs, true, Some(32), true);
    push_metal(&mut configs, true, Some(64), true);
    push_metal(&mut configs, true, Some(128), true);
    push_metal(&mut configs, true, Some(256), true);
    assert(configs@ =~= before + metal_configs(base));
    configs
}

/// Configurations are numbered from one, so that no two share an id.
pub proof fn law_configurations_are_numbered(thread_counts: Seq<usize>, i: int)
    requires
        4 * thread_list(thread_counts).len() + 7 <= u32::MAX,
        0 <= i < 4 * thread_list(thread_counts).len() + 7,
    ensures
        ({
            let threads = thread_list(thread_counts);
            let n = 2 * threads.len() as int;
            (configs_for(Placement::Cpu, threads, 0) + configs_for(
                Placement::NativeCpu,
                threads,
                n,
            ) + metal_configs(2 * n))[i].id == i + 1
        }),
{
}

// ---- acquisition -----------------------------------------------------------

/// One measurement of a schedule: which workload under which configuration, and
/// as which trial. A warm-up is no trial.
#[derive(Clone, Copy, Debug, PartialEq, Eq)]
pub struct CaptureSlot {
    pub workload: usize,
    pub config: usize,
    pub trial: Option<u32>,
}

pub open spec fn warm_slots(workload: int, n: nat) -> Seq<CaptureSlot> {
    Seq::new(
        n,
        |i: int| CaptureSlot { workload: workload as usize, config: i as usize, trial: None },
    )
}

/// The configuration in a position of a trial: each trial starts one further.
pub open spec fn rotated(n: int, trial: int, position: int) -> int {
    (position + trial % n) % n
}

pub open spec fn trial_slots(workload: int, n: nat, trial: int) -> Seq<CaptureSlot> {
    Seq::new(
        n,
        |p: int|
            CaptureSlot {
                workload: workload as usize,
                config: rotated(n as int, trial, p) as usize,
                trial: Some(trial as u32),
            },
    )
}

pub open spec fn trials_slots(workload: int, n: nat, trials: int) -> Seq<CaptureSlot>
    decreases trials,
{
    if trials <= 0 {
        Seq::empty()
    } else {
        trials_slots(workload, n, trials - 1) + trial_slots(workload, n, trials - 1)
    }
}

/// The schedule of the first `workloads` workloads: each is warmed up under
/// every configuration, and then measured trial by trial.
pub open spec fn schedule_of(workloads: int, n: nat, trials: int) -> Seq<CaptureSlot>
    decreases workloads,
{
    if workloads <= 0 {
        Seq::empty()
    } else {
        schedule_of(workloads - 1, n, trials) + warm_slots(workloads - 1, n) + trials_slots(
            workloads - 1,
            n,
            trials,
        )
    }
}

/// Over a full cycle of trials every configuration takes every position: there
/// is a trial in which configuration `c` is measured at `position`.
pub proof fn law_every_position_is_taken(n: int, c: int, position: int)
    requires
        0 <= c < n,
        0 <= position < n,
    ensures
        exists|trial: int| 0 <= trial < n && #[trigger] rotated(n, trial, position) == c,
{
    let trial = if c >= position {
        c - position
    } else {
        c - position + n
    };
    assert(trial % n == trial) by (nonlinear_arith)
        requires
            0 <= trial < n,
    ;
    if c >= position {
        assert((position + trial) % n == c) by (nonlinear_arith)
            requires
                position + trial == c,
                0 <= c < n,
        ;
    } else {
        assert((position + trial) % n == c) by (nonlinear_arith)
            requires
                position + trial == c + n,
                0 <= c < n,
        ;
    }
    assert(rotated(n, trial, position) == c);
}

pub open spec fn study_is_empty(study: TuningStudy, configs: int) -> bool {
    configs == 0 || study.workloads@.len() == 0 || study.trials == 0
}

fn push_trial(slots: &mut Vec<CaptureSlot>, workload: usize, n: usize, trial: u32)
    requires
        n >= 1,
        n <= u32::MAX,
    ensures
        final(slots)@ == old(slots)@ + trial_slots(workload as int, n as nat, trial as int),
{
    let ghost start = slots@;
    let ghost all = trial_slots(workload as int, n as nat, trial as int);
    let offset: u64 = trial as u64 % n as u64;
    let mut p: usize = 0;
    assert(start =~= start + all.take(0));
    while p < n
        invariant
            p <= n,
            1 <= n <= u32::MAX,
            offset == trial as int % (n as int),
            offset < n,
            all == trial_slots(workload as int, n as nat, trial as int),
            slots@ == start + all.take(p as int),
        decreases n - p,
    {
        let config: u64 = (p as u64 + offset) % n as u64;
        slots.push(CaptureSlot { workload, config: config as usize, trial: Some(trial) });
        assert(slots@ =~= start + all.take(p + 1));
        p = p + 1;
    }
    assert(all.take(p as int) =~= all);
}

/// What is measured, in the order in which it is. A study without workloads,
/// trials or configurations is refused.
pub fn capture_schedule(study: &TuningStudy, configs: &Vec<ExecutionConfig>) -> (schedule: Result<
    Vec<CaptureSlot>,
    BackendError,
>)
    requires
        configs@.len() <= u32::MAX,
    ensures
        match schedule {
            Ok(slots) => {
                &&& !study_is_empty(*study, configs@.len() as int)
                &&& slots@ == schedule_of(
                    study.workloads@.len() as int,
                    configs@.len(),
                    study.trials as int,
                )
            },
            Err(error) => {
                &&& study_is_empty(*study, configs@.len() as int)
                &&& error == BackendError::InvalidInput
            },
        },
{
    if configs.len() == 0 || study.workloads.len() == 0 || study.trials == 0 {
        return Err(BackendError::InvalidInput);
    }
    let n: usize = configs.len();
    let mut slots: Vec<CaptureSlot> = Vec::new();
    let mut w: usize = 0;
    assert(slots@ =~= schedule_of(0, n as nat, study.trials as int));
    while w < study.workloads.len()
        invariant
            w <= study.workloads.len(),
            1 <= n <= u32::MAX,
            slots@ == schedule_of(w as int, n as nat, study.trials as int),
        decreases study.workloads.len() - w,
    {
        let ghost start = slots@;
        let ghost warm = warm_slots(w as int, n as nat);
        let mut i: usize = 0;
        assert(start =~= start + warm.take(0));
        while i < n
            invariant
                i <= n,
                warm == warm_slots(w as int, n as nat),
                slots@ == start + warm.take(i as int),
            decreases n - i,
        {
            slots.push(CaptureSlot { workload: w, config: i, trial: None });
            assert(slots@ =~= start + warm.take(i + 1));
            i = i + 1;
        }
        assert(warm.take(i as int) =~= warm);
        let ghost warmed = slots@;
        let mut trial: u32 = 0;
        assert(warmed =~= warmed + trials_slots(w as int, n as nat, 0));
        while trial < study.trials
            invariant
                trial <= study.trials,
                1 <= n <= u32::MAX,
                slots@ == warmed + trials_slots(w as int, n as nat, trial as int),
            decreases study.trials - trial,
        {
            push_trial(&mut slots, w, n, trial);
            assert(slots@ =~= warmed + trials_slots(w as int, n as nat, trial + 1));
            trial = trial + 1;
        }
        w = w + 1;
    }
    Ok(slots)
}

/// The observations of the first `k` measurements.
pub open spec fn observed(
    study: TuningStudy,
    configs: Seq<ExecutionConfig>,
    slots: Seq<CaptureSlot>,
    measured: Seq<Result<PhysicalMeasurement, BackendError>>,
    k: int,
) -> Seq<TimingObservation>
    decreases k,
{
    if k <= 0 {
        Seq::empty()
    } else {
        let before = observed(study, configs, slots, measured, k - 1);
        let slot = slots[k - 1];
        match slot.trial {
            Some(trial) => before.push(
                TimingObservation {
                    workload_id: study.workloads@[slot.workload as int].id,
                    config_id: configs[slot.config as int].id,
                    trial,
                    elapsed_nanos: measured[k - 1]->Ok_0.elapsed_nanos,
                    output_digest: measured[k - 1]->Ok_0.output_digest,
                },
            ),
            None => before,
        }
    }
}

/// The measurements cover the schedule, or stop at the first that failed.
pub open spec fn covers(
    measured: Seq<Result<PhysicalMeasurement, BackendError>>,
    slots: int,
) -> bool {
    &&& measured.len() <= slots
    &&& forall|i: int| 0 <= i < measured.len() - 1 ==> (#[trigger] measured[i]) is Ok
    &&& measured.len() < slots ==> measured.len() > 0 && measured.last() is Err
}

proof fn lemma_slots_are_inside(workloads: int, n: nat, trials: int, i: int)
    requires
        0 <= workloads <= usize::MAX,
        1 <= n <= u32::MAX,
        0 <= i < schedule_of(workloads, n, trials).len(),
    ensures
        (schedule_of(workloads, n, trials)[i].workload as int) < workloads,
        (schedule_of(workloads, n, trials)[i].config as int) < n,
    decreases workloads,
{
    let before = schedule_of(workloads - 1, n, trials);
    let w = workloads - 1;
    if i < before.len() {
        lemma_slots_are_inside(w, n, trials, i);
    } else if i < before.len() + n {
        assert(schedule_of(workloads, n, trials)[i] == warm_slots(w, n)[i - before.len()]);
    } else {
        let j = i - before.len() - n;
        assert(schedule_of(workloads, n, trials)[i] == trials_slots(w, n, trials)[j]);
        lemma_trials_are_inside(w, n, trials, j);
    }
}

proof fn lemma_trials_are_inside(w: int, n: nat, trials: int, j: int)
    requires
        0 <= w <= usize::MAX,
        1 <= n <= u32::MAX,
        0 <= j < trials_slots(w, n, trials).len(),
    ensures
        trials_slots(w, n, trials)[j].workload == w,
        (trials_slots(w, n, trials)[j].config as int) < n,
    decreases trials,
{
    let before = trials_slots(w, n, trials - 1);
    if j < before.len() {
        lemma_trials_are_inside(w, n, trials - 1, j);
    } else {
        let p = j - before.len();
        assert(trials_slots(w, n, trials)[j] == trial_slots(w, n, trials - 1)[p]);
        let r = rotated(n as int, trials - 1, p);
        assert(0 <= r < n) by (nonlinear_arith)
            requires
                r == (p + (trials - 1) % (n as int)) % (n as int),
                n >= 1,
        ;
    }
}

/// What the measurements of a schedule come to: the error of the one that
/// failed, or every sample exactly once.
pub fn capture_with(
    study: &TuningStudy,
    configs: &Vec<ExecutionConfig>,
    measured: &Vec<Result<PhysicalMeasurement, BackendError>>,
) -> (captured: Result<CapturedStudy, BackendError>)
    requires
        configs@.len() <= u32::MAX,
        !study_is_empty(*study, configs@.len() as int) ==> covers(
            measured@,
            schedule_of(
                study.workloads@.len() as int,
                configs@.len(),
                study.trials as int,
            ).len() as int,
        ),
    ensures
        match captured {
            Ok(captured) => {
                &&& !study_is_empty(*study, configs@.len() as int)
                &&& forall|i: int| 0 <= i < measured@.len() ==> (#[trigger] measured@[i]) is Ok
                &&& captured.study.workloads@ == study.workloads@
                &&& captured.study.trials == study.trials
                &&& captured.configs@ == configs@
                &&& captured.observations@ == observed(
                    *study,
                    configs@,
                    schedule_of(
                        study.workloads@.len() as int,
                        configs@.len(),
                        study.trials as int,
                    ),
                    measured@,
                    measured@.len() as int,
                )
            },
            Err(error) => if study_is_empty(*study, configs@.len() as int) {
                error == BackendError::InvalidInput
            } else {
                measured@.len() > 0 && measured@.last() == Err::<PhysicalMeasurement, _>(error)
            },
        },
{
    let slots: Vec<CaptureSlot> = match capture_schedule(study, configs) {
        Ok(slots) => slots,
        Err(error) => {
            return Err(error);
        },
    };
    let mut observations: Vec<TimingObservation> = Vec::new();
    let mut k: usize = 0;
    while k < measured.len()
        invariant
            k <= measured.len() <= slots.len(),
            1 <= configs@.len() <= u32::MAX,
            covers(measured@, slots@.len() as int),
            !study_is_empty(*study, configs@.len() as int),
            slots@ == schedule_of(
                study.workloads@.len() as int,
                configs@.len(),
                study.trials as int,
            ),
            forall|i: int| 0 <= i < k ==> (#[trigger] measured@[i]) is Ok,
            observations@ == observed(*study, configs@, slots@, measured@, k as int),
        decreases measured.len() - k,
    {
        let count: usize = study.workloads.len();
        proof {
            assert(study.workloads@.len() == count);
            lemma_slots_are_inside(
                study.workloads@.len() as int,
                configs@.len(),
                study.trials as int,
                k as int,
            );
        }
        let slot: CaptureSlot = slots[k];
        match measured[k] {
            Ok(sample) => {
                if let Some(trial) = slot.trial {
                    observations.push(
                        TimingObservation {
                            workload_id: study.workloads[slot.workload].id,
                            config_id: configs[slot.config].id,
                            trial,
                            elapsed_nanos: sample.elapsed_nanos,
                            output_digest: sample.output_digest,
                        },
                    );
                }
            },
            Err(error) => {
                assert(k == measured@.len() - 1) by {
                    if k < measured@.len() - 1 {
                        assert(measured@[k as int] is Ok);
                    }
                }
                return Err(error);
            },
        }
        k = k + 1;
    }
    Ok(
        CapturedStudy {
            study: TuningStudy {
                workloads: vstd::slice::slice_to_vec(study.workloads.as_slice()),
                trials: study.trials,
            },
            configs: vstd::slice::slice_to_vec(configs.as_slice()),
            observations,
        },
    )
}

} // verus!
