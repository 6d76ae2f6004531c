//! Replay of a captured study: whether it is complete, which configuration was
//! fastest, and the trace that it is replayed as.

use crate::bytes;
use crate::compiler::body;
use crate::compiler::body::{
    ArraysView, ElementLayout, EvaluatorProgram, FieldWidth, Op, ProgramView, Store,
};
use crate::compiler::frame;
use crate::discovery::{
    DiscoveryError, DiscoveryEvent, DiscoveryNode, DiscoveryTrace, EvaluationSpec, EvaluationView,
    EventView, FusionClass, ModuleDigest, NodeView, ObjectDigest,
};
use crate::experiments::self_tuning;
use crate::experiments::self_tuning::{
    CapturedStudy, ExecutionConfig, TimingObservation, TuningWorkload,
};
use crate::executives::native;
use crate::samples;
use crate::samples::sorted;
use vstd::prelude::*;
use vstd::string::StringExecFns;

verus! {

pub const REPLAY_EVALUATOR: u32 = 20_000;

// ---- whether a capture is complete -----------------------------------------

/// What is wrong with a captured study.
#[derive(Clone, Copy, Debug, PartialEq, Eq, Structural)]
pub enum CaptureFault {
    EmptyStudy,
    CountMismatch,
    DuplicateIdentity,
    Unobserved,
    OutputMismatch,
    IdentityMismatch,
}

pub open spec fn fault_text(fault: CaptureFault) -> Seq<char> {
    match fault {
        CaptureFault::EmptyStudy => "empty self-tuning study"@,
        CaptureFault::CountMismatch => "self-tuning observation count mismatch"@,
        CaptureFault::DuplicateIdentity => "duplicate self-tuning identity"@,
        CaptureFault::Unobserved => "self-tuning workload has no observations"@,
        CaptureFault::OutputMismatch => "self-tuning configuration output mismatch"@,
        CaptureFault::IdentityMismatch => "self-tuning observation identity mismatch"@,
    }
}

impl CaptureFault {
    pub fn text(self) -> (text: &'static str)
        ensures
            text@ == fault_text(self),
    {
        match self {
            CaptureFault::EmptyStudy => "empty self-tuning study",
            CaptureFault::CountMismatch => "self-tuning observation count mismatch",
            CaptureFault::DuplicateIdentity => "duplicate self-tuning identity",
            CaptureFault::Unobserved => "self-tuning workload has no observations",
            CaptureFault::OutputMismatch => "self-tuning configuration output mismatch",
            CaptureFault::IdentityMismatch => "self-tuning observation identity mismatch",
        }
    }
}

/// How many of the first `n` observations are of this workload,
/// configuration and trial.
pub open spec fn count_of(
    observations: Seq<TimingObservation>,
    workload: u32,
    config: u32,
    trial: u32,
    n: int,
) -> int
    decreases n,
{
    if n <= 0 {
        0
    } else {
        let o = observations[n - 1];
        count_of(observations, workload, config, trial, n - 1) + if o.workload_id == workload
            && o.config_id == config && o.trial == trial {
            1int
        } else {
            0
        }
    }
}

/// How many of the first `n` observations are of this workload.
pub open spec fn seen_of(observations: Seq<TimingObservation>, workload: u32, n: int) -> int
    decreases n,
{
    if n <= 0 {
        0
    } else {
        seen_of(observations, workload, n - 1) + if observations[n - 1].workload_id == workload {
            1int
        } else {
            0
        }
    }
}

/// Every observation of the workload has the output of every other.
pub open spec fn outputs_agree(observations: Seq<TimingObservation>, workload: u32) -> bool {
    forall|i: int, j: int|
        0 <= i < observations.len() && 0 <= j < observations.len() && (
        #[trigger] observations[i]).workload_id == workload && (
        #[trigger] observations[j]).workload_id == workload
            ==> observations[i].output_digest.bytes@ == observations[j].output_digest.bytes@
}

/// Every configuration has one observation of the workload in every trial.
pub open spec fn is_observed_once(c: CapturedStudy, workload: u32, config: u32, trial: u32) -> bool {
    count_of(c.observations@, workload, config, trial, c.observations@.len() as int) == 1
}

pub open spec fn is_complete(c: CapturedStudy, workload: u32) -> bool {
    forall|i: int, trial: u32|
        0 <= i < c.configs@.len() && trial < c.study.trials ==> #[trigger] is_observed_once(
            c,
            workload,
            c.configs@[i].id,
            trial,
        )
}

pub open spec fn workload_fault(c: CapturedStudy, workload: u32) -> Option<CaptureFault> {
    if seen_of(c.observations@, workload, c.observations@.len() as int) == 0 {
        Some(CaptureFault::Unobserved)
    } else if !outputs_agree(c.observations@, workload) {
        Some(CaptureFault::OutputMismatch)
    } else if !is_complete(c, workload) {
        Some(CaptureFault::IdentityMismatch)
    } else {
        None
    }
}

/// The first fault among the workloads from `i` on.
pub open spec fn fault_from(c: CapturedStudy, i: int) -> Option<CaptureFault>
    decreases c.study.workloads@.len() - i,
{
    if i >= c.study.workloads@.len() {
        None
    } else if workload_fault(c, c.study.workloads@[i].id) is Some {
        workload_fault(c, c.study.workloads@[i].id)
    } else {
        fault_from(c, i + 1)
    }
}

pub open spec fn config_ids_differ(configs: Seq<ExecutionConfig>) -> bool {
    forall|i: int, j: int|
        0 <= i < j < configs.len() ==> (#[trigger] configs[i]).id != (#[trigger] configs[j]).id
}

pub open spec fn workload_ids_differ(workloads: Seq<TuningWorkload>) -> bool {
    forall|i: int, j: int|
        0 <= i < j < workloads.len() ==> (#[trigger] workloads[i]).id != (
        #[trigger] workloads[j]).id
}

pub open spec fn expected_count(c: CapturedStudy) -> int {
    c.configs@.len() * c.study.workloads@.len() * c.study.trials
}

pub open spec fn capture_fault(c: CapturedStudy) -> Option<CaptureFault> {
    if self_tuning::study_is_empty(c.study, c.configs@.len() as int) {
        Some(CaptureFault::EmptyStudy)
    } else if c.observations@.len() != expected_count(c) {
        Some(CaptureFault::CountMismatch)
    } else if !config_ids_differ(c.configs@) || !workload_ids_differ(c.study.workloads@) {
        Some(CaptureFault::DuplicateIdentity)
    } else {
        fault_from(c, 0)
    }
}

fn same_digest(a: &ObjectDigest, b: &ObjectDigest) -> (same: bool)
    ensures
        same == (a.bytes@ == b.bytes@),
{
    let mut i: usize = 0;
    while i < 32
        invariant
            i <= 32,
            forall|j: int| 0 <= j < i ==> a.bytes@[j] == b.bytes@[j],
        decreases 32 - i,
    {
        if a.bytes[i] != b.bytes[i] {
            return false;
        }
        i = i + 1;
    }
    assert(a.bytes@ =~= b.bytes@);
    true
}

fn ids_differ(captured: &CapturedStudy) -> (differ: bool)
    ensures
        differ == (config_ids_differ(captured.configs@) && workload_ids_differ(
            captured.study.workloads@,
        )),
{
    let configs: &Vec<ExecutionConfig> = &captured.configs;
    let mut i: usize = 0;
    while i < configs.len()
        invariant
            i <= configs.len(),
            configs@ == captured.configs@,
            forall|a: int, b: int|
                0 <= a < b < i ==> (#[trigger] configs@[a]).id != (#[trigger] configs@[b]).id,
        decreases configs.len() - i,
    {
        let mut j: usize = 0;
        while j < i
            invariant
                j <= i < configs.len(),
                configs@ == captured.configs@,
                forall|a: int|
                    0 <= a < j ==> (#[trigger] configs@[a]).id != configs@[i as int].id,
            decreases i - j,
        {
            if configs[j].id == configs[i].id {
                assert(captured.configs@[j as int].id == captured.configs@[i as int].id);
                return false;
            }
            j = j + 1;
        }
        i = i + 1;
    }
    let workloads: &Vec<TuningWorkload> = &captured.study.workloads;
    let mut i: usize = 0;
    while i < workloads.len()
        invariant
            i <= workloads.len(),
            workloads@ == captured.study.workloads@,
            forall|a: int, b: int|
                0 <= a < b < i ==> (#[trigger] workloads@[a]).id != (#[trigger] workloads@[b]).id,
        decreases workloads.len() - i,
    {
        let mut j: usize = 0;
        while j < i
            invariant
                j <= i < workloads.len(),
                workloads@ == captured.study.workloads@,
                forall|a: int|
                    0 <= a < j ==> (#[trigger] workloads@[a]).id != workloads@[i as int].id,
            decreases i - j,
        {
            if workloads[j].id == workloads[i].id {
                assert(captured.study.workloads@[j as int].id
                    == captured.study.workloads@[i as int].id);
                return false;
            }
            j = j + 1;
        }
        i = i + 1;
    }
    true
}

fn agree(observations: &Vec<TimingObservation>, workload: u32) -> (out: (usize, bool))
    ensures
        out.0 == seen_of(observations@, workload, observations@.len() as int),
        out.1 == outputs_agree(observations@, workload),
{
    let mut seen: usize = 0;
    let mut first: usize = 0;
    let mut same: bool = true;
    let mut i: usize = 0;
    while i < observations.len()
        invariant
            i <= observations.len(),
            seen <= i,
            seen == seen_of(observations@, workload, i as int),
            seen == 0 ==> forall|j: int|
                0 <= j < i ==> (#[trigger] observations@[j]).workload_id != workload,
            seen > 0 ==> first < i && observations@[first as int].workload_id == workload,
            same ==> forall|j: int|
                0 <= j < i && (#[trigger] observations@[j]).workload_id == workload
                    ==> observations@[j].output_digest.bytes@
                    == observations@[first as int].output_digest.bytes@,
            !same ==> !outputs_agree(observations@, workload),
        decreases observations.len() - i,
    {
        if observations[i].workload_id == workload {
            if seen == 0 {
                first = i;
            } else if !same_digest(
                &observations[i].output_digest,
                &observations[first].output_digest,
            ) {
                same = false;
                assert(observations@[i as int].output_digest.bytes@
                    != observations@[first as int].output_digest.bytes@);
            }
            seen = seen + 1;
        }
        i = i + 1;
    }
    proof {
        if same {
            assert forall|a: int, b: int|
                0 <= a < observations@.len() && 0 <= b < observations@.len() && (
                #[trigger] observations@[a]).workload_id == workload && (
                #[trigger] observations@[b]).workload_id
                    == workload implies observations@[a].output_digest.bytes@
                == observations@[b].output_digest.bytes@ by {}
        }
    }
    (seen, same)
}

fn complete(captured: &CapturedStudy, workload: u32) -> (complete: bool)
    ensures
        complete == is_complete(*captured, workload),
{
    let mut i: usize = 0;
    while i < captured.configs.len()
        invariant
            i <= captured.configs.len(),
            forall|j: int, trial: u32|
                0 <= j < i && trial < captured.study.trials ==> #[trigger] is_observed_once(
                    *captured,
                    workload,
                    captured.configs@[j].id,
                    trial,
                ),
        decreases captured.configs.len() - i,
    {
        let config: u32 = captured.configs[i].id;
        let mut trial: u32 = 0;
        while trial < captured.study.trials
            invariant
                i < captured.configs.len(),
                trial <= captured.study.trials,
                config == captured.configs@[i as int].id,
                forall|t: u32|
                    t < trial ==> #[trigger] is_observed_once(*captured, workload, config, t),
            decreases captured.study.trials - trial,
        {
            let mut n: usize = 0;
            let mut k: usize = 0;
            while k < captured.observations.len()
                invariant
                    k <= captured.observations.len(),
                    n <= k,
                    n == count_of(captured.observations@, workload, config, trial, k as int),
                decreases captured.observations.len() - k,
            {
                let o: TimingObservation = captured.observations[k];
                if o.workload_id == workload && o.config_id == config && o.trial == trial {
                    n = n + 1;
                }
                k = k + 1;
            }
            if n != 1 {
                assert(!is_observed_once(
                    *captured,
                    workload,
                    captured.configs@[i as int].id,
                    trial,
                ));
                return false;
            }
            trial = trial + 1;
        }
        i = i + 1;
    }
    true
}

fn find_fault(captured: &CapturedStudy) -> (fault: Option<CaptureFault>)
    requires
        captured.configs@.len() * captured.study.workloads@.len() <= usize::MAX,
        expected_count(*captured) <= usize::MAX,
    ensures
        fault == capture_fault(*captured),
{
    if captured.configs.len() == 0 || captured.study.workloads.len() == 0
        || captured.study.trials == 0 {
        return Some(CaptureFault::EmptyStudy);
    }
    let pairs: usize = captured.configs.len() * captured.study.workloads.len();
    let expected: usize = pairs * captured.study.trials as usize;
    if captured.observations.len() != expected {
        return Some(CaptureFault::CountMismatch);
    }
    if !ids_differ(captured) {
        return Some(CaptureFault::DuplicateIdentity);
    }
    let mut i: usize = 0;
    while i < captured.study.workloads.len()
        invariant
            i <= captured.study.workloads.len(),
            !self_tuning::study_is_empty(captured.study, captured.configs@.len() as int),
            captured.observations@.len() == expected_count(*captured),
            config_ids_differ(captured.configs@),
            workload_ids_differ(captured.study.workloads@),
            fault_from(*captured, 0) == fault_from(*captured, i as int),
        decreases captured.study.workloads.len() - i,
    {
        let workload: u32 = captured.study.workloads[i].id;
        let (seen, same) = agree(&captured.observations, workload);
        if seen == 0 {
            return Some(CaptureFault::Unobserved);
        }
        if !same {
            return Some(CaptureFault::OutputMismatch);
        }
        if !complete(captured, workload) {
            return Some(CaptureFault::IdentityMismatch);
        }
        i = i + 1;
    }
    None
}

/// Whether a captured study holds every sample that it should, exactly once,
/// and every configuration computed the same outputs.
pub fn validate_capture(captured: &CapturedStudy) -> (result: Result<(), DiscoveryError>)
    requires
        captured.configs@.len() * captured.study.workloads@.len() <= usize::MAX,
        expected_count(*captured) <= usize::MAX,
    ensures
        match result {
            Ok(_) => capture_fault(*captured) is None,
            Err(error) => {
                &&& capture_fault(*captured) is Some
                &&& error is InvalidTrace
                &&& error->InvalidTrace_0@ == fault_text(capture_fault(*captured)->Some_0)
            },
        },
{
    match find_fault(captured) {
        None => Ok(()),
        Some(fault) => Err(DiscoveryError::InvalidTrace(fault.text())),
    }
}

// ---- rankings --------------------------------------------------------------

#[derive(Clone, Copy, Debug, PartialEq, Eq, Structural)]
pub struct ConfigScore {
    pub config_id: u32,
    pub minimum_nanos: u64,
    pub median_nanos: u64,
    pub maximum_nanos: u64,
}

#[derive(Debug)]
pub struct WorkloadRanking {
    pub workload_id: u32,
    pub configs: Vec<ConfigScore>,
}

/// The samples of a workload under a configuration, among the first `n`
/// observations.
pub open spec fn samples_of(
    observations: Seq<TimingObservation>,
    workload: u32,
    config: u32,
    n: int,
) -> Seq<u64>
    decreases n,
{
    if n <= 0 {
        Seq::empty()
    } else {
        let before = samples_of(observations, workload, config, n - 1);
        let o = observations[n - 1];
        if o.workload_id == workload && o.config_id == config {
            before.push(o.elapsed_nanos)
        } else {
            before
        }
    }
}

pub open spec fn all_samples(c: CapturedStudy, workload: u32, config: u32) -> Seq<u64> {
    samples_of(c.observations@, workload, config, c.observations@.len() as int)
}

pub open spec fn score_of(c: CapturedStudy, workload: u32, config: u32) -> ConfigScore {
    let ordered = samples::in_order(all_samples(c, workload, config));
    ConfigScore {
        config_id: config,
        minimum_nanos: ordered[0],
        median_nanos: ordered[(ordered.len() / 2) as int],
        maximum_nanos: ordered[ordered.len() - 1],
    }
}

/// The order of a ranking: the faster median first, and the smaller id where
/// medians are equal. Scores of one id are equal, so the rest never decides.
pub open spec fn ranks_before(a: ConfigScore, b: ConfigScore) -> bool {
    if a.median_nanos != b.median_nanos {
        a.median_nanos < b.median_nanos
    } else if a.config_id != b.config_id {
        a.config_id < b.config_id
    } else if a.minimum_nanos != b.minimum_nanos {
        a.minimum_nanos < b.minimum_nanos
    } else {
        a.maximum_nanos <= b.maximum_nanos
    }
}

pub open spec fn ranking_order() -> spec_fn(ConfigScore, ConfigScore) -> bool {
    |a: ConfigScore, b: ConfigScore| ranks_before(a, b)
}

pub open spec fn scores_of(c: CapturedStudy, workload: u32) -> Seq<ConfigScore> {
    Seq::new(c.configs@.len(), |i: int| score_of(c, workload, c.configs@[i].id))
}

pub open spec fn ranking_of(c: CapturedStudy, workload: u32) -> Seq<ConfigScore> {
    scores_of(c, workload).sort_by(ranking_order())
}

proof fn lemma_ranking_is_total()
    ensures
        vstd::relations::total_ordering(ranking_order()),
{
}

fn goes_before(a: &ConfigScore, b: &ConfigScore) -> (before: bool)
    ensures
        before == ranks_before(*a, *b),
{
    if a.median_nanos != b.median_nanos {
        a.median_nanos < b.median_nanos
    } else if a.config_id != b.config_id {
        a.config_id < b.config_id
    } else if a.minimum_nanos != b.minimum_nanos {
        a.minimum_nanos < b.minimum_nanos
    } else {
        a.maximum_nanos <= b.maximum_nanos
    }
}

fn rank(scores: &Vec<ConfigScore>) -> (out: Vec<ConfigScore>)
    ensures
        out@ == scores@.sort_by(ranking_order()),
{
    let mut out: Vec<ConfigScore> = Vec::new();
    let mut i: usize = 0;
    assert(scores@.take(0) =~= out@);
    while i < scores.len()
        invariant
            i <= scores.len(),
            out@.len() == i,
            vstd::relations::sorted_by(out@, ranking_order()),
            out@.to_multiset() == scores@.take(i as int).to_multiset(),
        decreases scores.len() - i,
    {
        let score: ConfigScore = scores[i];
        let ghost before = out@;
        let mut at: usize = out.len();
        while at > 0 && !goes_before(&out[at - 1], &score)
            invariant
                at <= out@.len(),
                out@ == before,
                forall|j: int| at <= j < before.len() ==> ranks_before(score, #[trigger] before[j]),
            decreases at,
        {
            at = at - 1;
        }
        proof {
            assert forall|j: int| 0 <= j < at implies ranks_before(
                #[trigger] before[j],
                score,
            ) by {
                if j < at - 1 {
                    assert(ranking_order()(before[j], before[at - 1]));
                }
            }
        }
        out.insert(at, score);
        proof {
            vstd::seq_lib::to_multiset_insert(before, at as int, score);
            assert(scores@.take(i + 1) =~= scores@.take(i as int).push(score));
            vstd::seq_lib::to_multiset_build(scores@.take(i as int), score);
            assert(out@ =~= before.insert(at as int, score));
            assert forall|a: int, b: int| 0 <= a < b < out@.len() implies #[trigger] ranking_order()(
                out@[a],
                out@[b],
            ) by {
                let x = if a < at {
                    a
                } else {
                    a - 1
                };
                let y = if b < at {
                    b
                } else {
                    b - 1
                };
                if a != at && b != at {
                    assert(ranking_order()(before[x], before[y]));
                }
            }
        }
        i = i + 1;
    }
    proof {
        assert(scores@.take(i as int) =~= scores@);
        lemma_ranking_is_total();
        scores@.lemma_sort_by_ensures(ranking_order());
        vstd::seq_lib::lemma_sorted_unique(
            out@,
            scores@.sort_by(ranking_order()),
            ranking_order(),
        );
    }
    out
}

fn score(captured: &CapturedStudy, workload: u32, config: u32) -> (score: ConfigScore)
    requires
        all_samples(*captured, workload, config).len() > 0,
    ensures
        score == score_of(*captured, workload, config),
{
    let mut taken: Vec<u64> = Vec::new();
    let mut i: usize = 0;
    while i < captured.observations.len()
        invariant
            i <= captured.observations.len(),
            taken@ == samples_of(captured.observations@, workload, config, i as int),
        decreases captured.observations.len() - i,
    {
        let o: TimingObservation = captured.observations[i];
        if o.workload_id == workload && o.config_id == config {
            taken.push(o.elapsed_nanos);
        }
        i = i + 1;
    }
    let ordered: Vec<u64> = sorted(&taken);
    ConfigScore {
        config_id: config,
        minimum_nanos: ordered[0],
        median_nanos: ordered[ordered.len() / 2],
        maximum_nanos: ordered[ordered.len() - 1],
    }
}

/// For each workload its configurations, fastest median first.
pub fn rankings(captured: &CapturedStudy) -> (rankings: Vec<WorkloadRanking>)
    requires
        forall|w: int, c: int|
            0 <= w < captured.study.workloads@.len() && 0 <= c < captured.configs@.len()
                ==> all_samples(
                *captured,
                (#[trigger] captured.study.workloads@[w]).id,
                (#[trigger] captured.configs@[c]).id,
            ).len() > 0,
    ensures
        rankings@.len() == captured.study.workloads@.len(),
        forall|w: int|
            0 <= w < rankings@.len() ==> (#[trigger] rankings@[w]).workload_id
                == captured.study.workloads@[w].id && rankings@[w].configs@ == ranking_of(
                *captured,
                captured.study.workloads@[w].id,
            ),
{
    let mut rankings: Vec<WorkloadRanking> = Vec::new();
    let mut w: usize = 0;
    while w < captured.study.workloads.len()
        invariant
            w <= captured.study.workloads.len(),
            forall|w: int, c: int|
                0 <= w < captured.study.workloads@.len() && 0 <= c < captured.configs@.len()
                    ==> all_samples(
                    *captured,
                    (#[trigger] captured.study.workloads@[w]).id,
                    (#[trigger] captured.configs@[c]).id,
                ).len() > 0,
            rankings@.len() == w,
            forall|w: int|
                0 <= w < rankings@.len() ==> (#[trigger] rankings@[w]).workload_id
                    == captured.study.workloads@[w].id && rankings@[w].configs@ == ranking_of(
                    *captured,
                    captured.study.workloads@[w].id,
                ),
        decreases captured.study.workloads.len() - w,
    {
        let workload: u32 = captured.study.workloads[w].id;
        let mut scores: Vec<ConfigScore> = Vec::new();
        let mut c: usize = 0;
        while c < captured.configs.len()
            invariant
                c <= captured.configs.len(),
                w < captured.study.workloads.len(),
                workload == captured.study.workloads@[w as int].id,
                forall|w: int, c: int|
                    0 <= w < captured.study.workloads@.len() && 0 <= c < captured.configs@.len()
                        ==> all_samples(
                        *captured,
                        (#[trigger] captured.study.workloads@[w]).id,
                        (#[trigger] captured.configs@[c]).id,
                    ).len() > 0,
                scores@ =~= scores_of(*captured, workload).take(c as int),
            decreases captured.configs.len() - c,
        {
            let config: u32 = captured.configs[c].id;
            assert(captured.study.workloads@[w as int].id == workload);
            assert(captured.configs@[c as int].id == config);
            scores.push(score(captured, workload, config));
            c = c + 1;
        }
        assert(scores_of(*captured, workload).take(c as int) =~= scores_of(*captured, workload));
        let configs: Vec<ConfigScore> = rank(&scores);
        rankings.push(WorkloadRanking { workload_id: workload, configs });
        w = w + 1;
    }
    rankings
}

proof fn lemma_counted_samples(c: CapturedStudy, workload: u32, config: u32, trial: u32, n: int)
    requires
        0 <= n <= c.observations@.len(),
    ensures
        count_of(c.observations@, workload, config, trial, n) <= samples_of(
            c.observations@,
            workload,
            config,
            n,
        ).len(),
    decreases n,
{
    if n > 0 {
        lemma_counted_samples(c, workload, config, trial, n - 1);
    }
}

/// A capture that is complete has a sample of every workload under every
/// configuration, so that it can be ranked.
pub proof fn law_a_complete_capture_can_be_ranked(c: CapturedStudy, w: int, i: int)
    requires
        capture_fault(c) is None,
        0 <= w < c.study.workloads@.len(),
        0 <= i < c.configs@.len(),
    ensures
        all_samples(c, c.study.workloads@[w].id, c.configs@[i].id).len() > 0,
{
    lemma_no_fault_before(c, 0, w);
    let workload = c.study.workloads@[w].id;
    assert(is_observed_once(c, workload, c.configs@[i].id, 0));
    lemma_counted_samples(
        c,
        workload,
        c.configs@[i].id,
        0,
        c.observations@.len() as int,
    );
}

proof fn lemma_no_fault_before(c: CapturedStudy, from: int, w: int)
    requires
        fault_from(c, from) is None,
        0 <= from <= w < c.study.workloads@.len(),
    ensures
        workload_fault(c, c.study.workloads@[w].id) is None,
    decreases w - from,
{
    if from < w {
        lemma_no_fault_before(c, from + 1, w);
    }
}

/// A ranking holds every configuration's score, the fastest median first.
pub proof fn law_a_ranking_is_in_order(c: CapturedStudy, workload: u32, i: int, j: int)
    requires
        0 <= i < j < c.configs@.len(),
    ensures
        ranking_of(c, workload).to_multiset() == scores_of(c, workload).to_multiset(),
        ranking_of(c, workload)[i].median_nanos <= ranking_of(c, workload)[j].median_nanos,
{
    lemma_ranking_is_total();
    let scores = scores_of(c, workload);
    scores.lemma_sort_by_ensures(ranking_order());
    scores.to_multiset_ensures();
    ranking_of(c, workload).to_multiset_ensures();
    assert(ranking_order()(ranking_of(c, workload)[i], ranking_of(c, workload)[j]));
}

// ---- the trace that a study is replayed as ---------------------------------

/// The body that gives back its four words.
pub open spec fn replay_view() -> ProgramView {
    ProgramView {
        id: REPLAY_EVALUATOR,
        layout: seq![FieldWidth::U64, FieldWidth::U64, FieldWidth::U64, FieldWidth::U64],
        aux: None,
        ops: seq![Op::Load(0), Op::Load(1), Op::Load(2), Op::Load(3)],
        stores: seq![
            Store { field: 0, value: 0 },
            Store { field: 1, value: 1 },
            Store { field: 2, value: 2 },
            Store { field: 3, value: 3 },
        ],
    }
}

proof fn lemma_replay_is_valid()
    ensures
        replay_view().is_valid(),
        replay_view().stride() == 32,
        native::is_straight(replay_view()),
{
    let p = replay_view();
    body::lemma_even_offsets(p.layout, FieldWidth::U64, 4);
    body::lemma_plain_is_valid(p);
}

pub fn replay_program() -> (program: EvaluatorProgram)
    ensures
        program@ == replay_view(),
        program.well_formed(),
{
    let widths: Vec<FieldWidth> = vec![
        FieldWidth::U64,
        FieldWidth::U64,
        FieldWidth::U64,
        FieldWidth::U64,
    ];
    let ops: Vec<Op> = vec![Op::Load(0), Op::Load(1), Op::Load(2), Op::Load(3)];
    let stores: Vec<Store> = vec![
        Store { field: 0, value: 0 },
        Store { field: 1, value: 1 },
        Store { field: 2, value: 2 },
        Store { field: 3, value: 3 },
    ];
    proof {
        lemma_replay_is_valid();
        let p = replay_view();
        assert(widths@ =~= p.layout);
        assert(ops@ =~= p.ops);
        assert(stores@ =~= p.stores);
    }
    EvaluatorProgram::new(
        REPLAY_EVALUATOR,
        String::from_str("self_tuning_replay"),
        ElementLayout::new(widths),
        ops,
        stores,
    ).unwrap()
}

/// Replay gives back what was observed: the body leaves every element as it is.
pub proof fn law_replay_keeps_its_element(a: ArraysView, index: u32)
    requires
        index < a.count,
        a.count * 32 <= a.input.len(),
    ensures
        ({
            let element = a.input.subrange(index * 32, index * 32 + 32);
            replay_view().evaluated(a, index, element) == element
        }),
{
    let p = replay_view();
    let element = a.input.subrange(index * 32, index * 32 + 32);
    lemma_replay_is_valid();
    body::lemma_element_fits(index as int, a.count as int, 32);
    native::lemma_straight_is_ran(p, a, index, 0);
    let values = p.values_for(a, index);
    body::lemma_even_offsets(p.layout, FieldWidth::U64, 1);
    body::lemma_even_offsets(p.layout, FieldWidth::U64, 2);
    body::lemma_even_offsets(p.layout, FieldWidth::U64, 3);
    body::lemma_even_offsets(p.layout, FieldWidth::U64, 4);
    reveal_with_fuel(native::straight, 5);
    bytes::lemma_radix_values();
    assert forall|f: int| 0 <= f < 4 implies #[trigger] bytes::le_bytes(values[f] as nat, 8)
        == element.subrange(8 * f, 8 * f + 8) by {
        body::lemma_even_offsets(p.layout, FieldWidth::U64, f);
        let at = index * 32 + 8 * f;
        let word = a.input.subrange(at, at + 8);
        assert(values[f] == body::field_value(a.input, p.layout, index as int, f));
        bytes::lemma_le_bytes_of_value(word);
        assert(word =~= element.subrange(8 * f, 8 * f + 8));
    }
    reveal_with_fuel(ProgramView::stored, 5);
    let s0 = p.stored(values, element, 1);
    let s1 = p.stored(values, element, 2);
    let s2 = p.stored(values, element, 3);
    let s3 = p.stored(values, element, 4);
    assert(s0 == bytes::spliced(element, 0, bytes::le_bytes(values[0] as nat, 8)));
    assert(s0 =~= element);
    assert(s1 == bytes::spliced(s0, 8, bytes::le_bytes(values[1] as nat, 8)));
    assert(s1 =~= element);
    assert(s2 == bytes::spliced(s1, 16, bytes::le_bytes(values[2] as nat, 8)));
    assert(s2 =~= element);
    assert(s3 == bytes::spliced(s2, 24, bytes::le_bytes(values[3] as nat, 8)));
    assert(s3 =~= element);
}

pub open spec fn four_words(a: u64, b: u64, c: u64, d: u64) -> Seq<u8> {
    frame::packed(
        seq![(a as nat, 8nat), (b as nat, 8nat), (c as nat, 8nat), (d as nat, 8nat)],
    )
}

pub open spec fn replayed(operation: Seq<char>, inputs: Seq<u8>, contract: Seq<u8>) -> EvaluationView {
    EvaluationView {
        operation,
        module: "soma.self-tuning.replay.v1"@,
        evaluator: REPLAY_EVALUATOR,
        inputs,
        element_count: 1,
        element_stride: 32,
        fusion: FusionClass::Pointwise,
        contract,
    }
}

fn replay_spec(operation: &str, a: u64, b: u64, c: u64, d: u64) -> (spec: EvaluationSpec)
    ensures
        spec@ == replayed(operation@, four_words(a, b, c, d), Seq::empty()),
{
    let words: Vec<(u64, usize)> = vec![(a, 8), (b, 8), (c, 8), (d, 8)];
    let mut inputs: Vec<u8> = Vec::new();
    frame::put_words(&mut inputs, &words);
    proof {
        assert(frame::words_of(words@) =~= seq![
            (a as nat, 8nat),
            (b as nat, 8nat),
            (c as nat, 8nat),
            (d as nat, 8nat),
        ]);
        assert(inputs@ =~= four_words(a, b, c, d));
    }
    EvaluationSpec::new(
        String::from_str(operation),
        ModuleDigest { source: String::from_str("soma.self-tuning.replay.v1") },
        REPLAY_EVALUATOR,
        inputs,
        1,
        32,
        FusionClass::Pointwise,
    )
}

/// What sets preparations apart: nothing where they are shared, and the
/// configuration's number where they are not.
pub open spec fn preparation_contract(share: bool, config: u32) -> Seq<u8> {
    if share {
        Seq::empty()
    } else {
        bytes::le_bytes(config as nat, 4)
    }
}

pub open spec fn generated_node(w: TuningWorkload, share: bool, config: u32) -> NodeView {
    NodeView::Derivation(
        replayed(
            "generate-evaluator"@,
            four_words(w.id as u64, w.alu_ops as u64, 0, 0),
            preparation_contract(share, config),
        ),
    )
}

pub open spec fn prepared_node(w: TuningWorkload, share: bool, config: u32) -> NodeView {
    NodeView::Derivation(
        replayed(
            "prepare-input"@,
            four_words(w.id as u64, w.cohorts as u64, w.elements_per_cohort as u64, 8),
            preparation_contract(share, config),
        ),
    )
}

/// An observation: what was measured, under its configuration's name and with
/// the digest of what was computed.
pub open spec fn observation_node(
    o: TimingObservation,
    config: ExecutionConfig,
    request: u64,
) -> NodeView {
    NodeView::Observation {
        sample: request,
        evaluation: replayed(
            "wall-clock-observation"@,
            four_words(
                o.workload_id as u64,
                o.config_id as u64,
                o.trial as u64,
                o.elapsed_nanos,
            ),
            vstd::utf8::encode_utf8(self_tuning::label_of(config)) + o.output_digest.bytes@,
        ),
    }
}

/// The first configuration from `i` on with an id.
pub open spec fn first_with(configs: Seq<ExecutionConfig>, id: u32, i: int) -> int
    decreases configs.len() - i,
{
    if i >= configs.len() || configs[i].id == id {
        i
    } else {
        first_with(configs, id, i + 1)
    }
}

/// The last of the first `n` configurations with an id.
pub open spec fn last_with(configs: Seq<ExecutionConfig>, id: u32, n: int) -> int
    decreases n,
{
    if n <= 0 || configs[n - 1].id == id {
        n - 1
    } else {
        last_with(configs, id, n - 1)
    }
}

pub open spec fn created(configs: Seq<ExecutionConfig>, n: int) -> Seq<EventView>
    decreases n,
{
    if n <= 0 {
        Seq::empty()
    } else {
        created(configs, n - 1).push(
            EventView::HypothesisCreated { id: configs[n - 1].id as u64, parent: None },
        )
    }
}

pub open spec fn accepted(configs: Seq<ExecutionConfig>, n: int) -> Seq<EventView>
    decreases n,
{
    if n <= 0 {
        Seq::empty()
    } else {
        accepted(configs, n - 1).push(
            EventView::HypothesisAccepted { id: configs[n - 1].id as u64 },
        )
    }
}

/// The preparations of a workload for the first `n` configurations, requested
/// from `base` on: two for each.
pub open spec fn preparations(
    configs: Seq<ExecutionConfig>,
    w: TuningWorkload,
    share: bool,
    base: int,
    n: int,
) -> Seq<EventView>
    decreases n,
{
    if n <= 0 {
        Seq::empty()
    } else {
        let id = configs[n - 1].id;
        preparations(configs, w, share, base, n - 1).push(
            EventView::NodeRequested {
                request: (base + 2 * (n - 1)) as u64,
                hypothesis: id as u64,
                node: generated_node(w, share, id),
            },
        ).push(
            EventView::NodeRequested {
                request: (base + 2 * (n - 1) + 1) as u64,
                hypothesis: id as u64,
                node: prepared_node(w, share, id),
            },
        )
    }
}

/// The observations of a workload among the first `n`: each depends on both
/// preparations of its configuration.
pub open spec fn observations(c: CapturedStudy, w: TuningWorkload, base: int, n: int) -> Seq<EventView>
    decreases n,
{
    if n <= 0 {
        Seq::empty()
    } else {
        let before = observations(c, w, base, n - 1);
        let o = c.observations@[n - 1];
        let configs = c.configs@;
        if o.workload_id != w.id {
            before
        } else {
            let config = configs[first_with(configs, o.config_id, 0)];
            let request = base + 2 * configs.len() + seen_of(c.observations@, w.id, n - 1);
            let at = last_with(configs, config.id, configs.len() as int);
            before.push(
                EventView::NodeRequested {
                    request: request as u64,
                    hypothesis: config.id as u64,
                    node: observation_node(o, config, request as u64),
                },
            ).push(
                EventView::DependencyAdded {
                    node: request as u64,
                    depends_on: (base + 2 * at) as u64,
                },
            ).push(
                EventView::DependencyAdded {
                    node: request as u64,
                    depends_on: (base + 2 * at + 1) as u64,
                },
            )
        }
    }
}

/// The first request of workload `w`.
pub open spec fn base_of(c: CapturedStudy, w: int) -> int
    decreases w,
{
    if w <= 0 {
        1
    } else {
        base_of(c, w - 1) + 2 * c.configs@.len() + seen_of(
            c.observations@,
            c.study.workloads@[w - 1].id,
            c.observations@.len() as int,
        )
    }
}

pub open spec fn workload_events(c: CapturedStudy, share: bool, w: int) -> Seq<EventView> {
    let workload = c.study.workloads@[w];
    let base = base_of(c, w);
    (preparations(c.configs@, workload, share, base, c.configs@.len() as int) + observations(
        c,
        workload,
        base,
        c.observations@.len() as int,
    )).push(EventView::EvidencePublished)
}

pub open spec fn workloads_events(c: CapturedStudy, share: bool, n: int) -> Seq<EventView>
    decreases n,
{
    if n <= 0 {
        Seq::empty()
    } else {
        workloads_events(c, share, n - 1) + workload_events(c, share, n - 1)
    }
}

/// The whole trace: a hypothesis for each configuration, the workloads one
/// after the other, and every configuration accepted.
pub open spec fn replay_of(c: CapturedStudy, share: bool) -> Seq<EventView> {
    created(c.configs@, c.configs@.len() as int) + workloads_events(
        c,
        share,
        c.study.workloads@.len() as int,
    ) + accepted(c.configs@, c.configs@.len() as int)
}

/// Every observation of a workload of the study names one of its
/// configurations.
pub open spec fn names_are_known(c: CapturedStudy) -> bool {
    forall|i: int, w: int|
        0 <= i < c.observations@.len() && 0 <= w < c.study.workloads@.len() && (
        #[trigger] c.observations@[i]).workload_id == (#[trigger] c.study.workloads@[w]).id
            ==> first_with(c.configs@, c.observations@[i].config_id, 0) < c.configs@.len()
}

proof fn lemma_seen(observations: Seq<TimingObservation>, workload: u32, n: int)
    requires
        0 <= n,
    ensures
        0 <= seen_of(observations, workload, n) <= n,
    decreases n,
{
    if n > 0 {
        lemma_seen(observations, workload, n - 1);
    }
}

proof fn lemma_base(c: CapturedStudy, w: int, per: int)
    requires
        0 <= w,
        per == 2 * c.configs@.len() + c.observations@.len(),
    ensures
        1 <= base_of(c, w) <= 1 + w * per,
    decreases w,
{
    if w > 0 {
        lemma_base(c, w - 1, per);
        lemma_seen(
            c.observations@,
            c.study.workloads@[w - 1].id,
            c.observations@.len() as int,
        );
        assert((w - 1) * per + per == w * per) by (nonlinear_arith);
    } else {
        assert(0 * per == 0);
    }
}

fn first_config(configs: &Vec<ExecutionConfig>, id: u32) -> (at: usize)
    ensures
        at == first_with(configs@, id, 0),
        at <= configs@.len(),
{
    let mut at: usize = 0;
    while at < configs.len() && configs[at].id != id
        invariant
            at <= configs.len(),
            first_with(configs@, id, 0) == first_with(configs@, id, at as int),
        decreases configs.len() - at,
    {
        at = at + 1;
    }
    at
}

proof fn lemma_first_has(configs: Seq<ExecutionConfig>, id: u32, i: int)
    requires
        0 <= i <= configs.len(),
    ensures
        i <= first_with(configs, id, i) <= configs.len(),
        first_with(configs, id, i) < configs.len() ==> configs[first_with(configs, id, i)].id == id,
    decreases configs.len() - i,
{
    if i < configs.len() && configs[i].id != id {
        lemma_first_has(configs, id, i + 1);
    }
}

proof fn lemma_last_has(configs: Seq<ExecutionConfig>, id: u32, at: int, n: int)
    requires
        0 <= at < n <= configs.len(),
        configs[at].id == id,
    ensures
        at <= last_with(configs, id, n) < n,
    decreases n,
{
    if configs[n - 1].id != id {
        lemma_last_has(configs, id, at, n - 1);
    }
}

fn last_config(configs: &Vec<ExecutionConfig>, id: u32) -> (at: usize)
    requires
        0 <= last_with(configs@, id, configs@.len() as int) < configs@.len(),
    ensures
        at == last_with(configs@, id, configs@.len() as int),
{
    let mut n: usize = configs.len();
    while n > 0 && configs[n - 1].id != id
        invariant
            n <= configs.len(),
            0 <= last_with(configs@, id, configs@.len() as int),
            last_with(configs@, id, configs@.len() as int) == last_with(configs@, id, n as int),
        decreases n,
    {
        n = n - 1;
    }
    n - 1
}

fn preparation(
    operation: &str,
    a: u64,
    b: u64,
    c: u64,
    d: u64,
    share: bool,
    config: u32,
) -> (node: DiscoveryNode)
    ensures
        node@ == NodeView::Derivation(
            replayed(operation@, four_words(a, b, c, d), preparation_contract(share, config)),
        ),
{
    let mut spec: EvaluationSpec = replay_spec(operation, a, b, c, d);
    if !share {
        bytes::put_le(&mut spec.contract, config as u64, 4);
    }
    assert(spec@ =~= replayed(
        operation@,
        four_words(a, b, c, d),
        preparation_contract(share, config),
    ));
    DiscoveryNode::Derivation(spec)
}

fn observation(o: &TimingObservation, config: &ExecutionConfig, request: u64) -> (node:
    DiscoveryNode)
    ensures
        node@ == observation_node(*o, *config, request),
{
    let mut spec: EvaluationSpec = replay_spec(
        "wall-clock-observation",
        o.workload_id as u64,
        o.config_id as u64,
        o.trial as u64,
        o.elapsed_nanos,
    );
    let label: String = config.label();
    let mut contract: Vec<u8> = vstd::slice::slice_to_vec(label.as_str().as_bytes());
    let ghost start = contract@;
    let mut i: usize = 0;
    assert(start =~= start + o.output_digest.bytes@.take(0));
    while i < 32
        invariant
            i <= 32,
            contract@ == start + o.output_digest.bytes@.take(i as int),
        decreases 32 - i,
    {
        contract.push(o.output_digest.bytes[i]);
        assert(contract@ =~= start + o.output_digest.bytes@.take(i + 1));
        i = i + 1;
    }
    assert(o.output_digest.bytes@.take(32) =~= o.output_digest.bytes@);
    spec.contract = contract;
    let node = DiscoveryNode::Observation { sample: request, evaluation: spec };
    assert(spec@ =~= observation_node(*o, *config, request)->evaluation);
    node
}

fn push_preparations(
    trace: &mut DiscoveryTrace,
    configs: &Vec<ExecutionConfig>,
    w: &TuningWorkload,
    share: bool,
    base: u64,
)
    requires
        base + 2 * configs@.len() <= u64::MAX,
    ensures
        final(trace)@ == old(trace)@ + preparations(
            configs@,
            *w,
            share,
            base as int,
            configs@.len() as int,
        ),
{
    let ghost start = trace@;
    let mut i: usize = 0;
    assert(start =~= start + preparations(configs@, *w, share, base as int, 0));
    while i < configs.len()
        invariant
            i <= configs.len(),
            base + 2 * configs@.len() <= u64::MAX,
            trace@ == start + preparations(configs@, *w, share, base as int, i as int),
        decreases configs.len() - i,
    {
        let id: u32 = configs[i].id;
        let request: u64 = base + 2 * i as u64;
        trace.push(
            DiscoveryEvent::NodeRequested {
                request,
                hypothesis: id as u64,
                node: preparation(
                    "generate-evaluator",
                    w.id as u64,
                    w.alu_ops as u64,
                    0,
                    0,
                    share,
                    id,
                ),
            },
        );
        trace.push(
            DiscoveryEvent::NodeRequested {
                request: request + 1,
                hypothesis: id as u64,
                node: preparation(
                    "prepare-input",
                    w.id as u64,
                    w.cohorts as u64,
                    w.elements_per_cohort as u64,
                    8,
                    share,
                    id,
                ),
            },
        );
        assert(trace@ =~= start + preparations(configs@, *w, share, base as int, i + 1));
        i = i + 1;
    }
}

fn push_observations(
    trace: &mut DiscoveryTrace,
    captured: &CapturedStudy,
    w: &TuningWorkload,
    base: u64,
    place: Ghost<int>,
) -> (next: u64)
    requires
        names_are_known(*captured),
        0 <= place@ < captured.study.workloads@.len(),
        captured.study.workloads@[place@] == *w,
        base + 2 * captured.configs@.len() + captured.observations@.len() <= u64::MAX,
    ensures
        final(trace)@ == old(trace)@ + observations(
            *captured,
            *w,
            base as int,
            captured.observations@.len() as int,
        ),
        next == base + 2 * captured.configs@.len() + seen_of(
            captured.observations@,
            w.id,
            captured.observations@.len() as int,
        ),
{
    let ghost start = trace@;
    let configs: &Vec<ExecutionConfig> = &captured.configs;
    let mut request: u64 = base + 2 * configs.len() as u64;
    let mut i: usize = 0;
    assert(start =~= start + observations(*captured, *w, base as int, 0));
    while i < captured.observations.len()
        invariant
            i <= captured.observations.len(),
            names_are_known(*captured),
            0 <= place@ < captured.study.workloads@.len(),
            captured.study.workloads@[place@] == *w,
            configs@ == captured.configs@,
            base + 2 * captured.configs@.len() + captured.observations@.len() <= u64::MAX,
            request == base + 2 * configs@.len() + seen_of(
                captured.observations@,
                w.id,
                i as int,
            ),
            request <= base + 2 * configs@.len() + i,
            trace@ == start + observations(*captured, *w, base as int, i as int),
        decreases captured.observations.len() - i,
    {
        let o: TimingObservation = captured.observations[i];
        if o.workload_id == w.id {
            let first: usize = first_config(configs, o.config_id);
            proof {
                assert(captured.observations@[i as int].workload_id
                    == captured.study.workloads@[place@].id);
                lemma_first_has(configs@, o.config_id, 0);
            }
            let config: ExecutionConfig = configs[first];
            proof {
                lemma_last_has(configs@, config.id, first as int, configs@.len() as int);
            }
            let at: usize = last_config(configs, config.id);
            trace.push(
                DiscoveryEvent::NodeRequested {
                    request,
                    hypothesis: config.id as u64,
                    node: observation(&o, &config, request),
                },
            );
            trace.push(
                DiscoveryEvent::DependencyAdded { node: request, depends_on: base + 2 * at as u64 },
            );
            trace.push(
                DiscoveryEvent::DependencyAdded {
                    node: request,
                    depends_on: base + 2 * at as u64 + 1,
                },
            );
            request = request + 1;
        }
        assert(trace@ =~= start + observations(*captured, *w, base as int, i + 1));
        i = i + 1;
    }
    request
}

/// The trace that a captured study is replayed as.
pub fn trace_from_capture(captured: &CapturedStudy, share_preparation: bool) -> (trace:
    DiscoveryTrace)
    requires
        names_are_known(*captured),
        1 + captured.study.workloads@.len() * (2 * captured.configs@.len()
            + captured.observations@.len()) <= u64::MAX,
    ensures
        trace@ == replay_of(*captured, share_preparation),
{
    let mut trace = DiscoveryTrace::new();
    let configs: &Vec<ExecutionConfig> = &captured.configs;
    let mut i: usize = 0;
    assert(trace@ =~= created(configs@, 0));
    while i < configs.len()
        invariant
            i <= configs.len(),
            configs@ == captured.configs@,
            trace@ == created(configs@, i as int),
        decreases configs.len() - i,
    {
        trace.push(
            DiscoveryEvent::HypothesisCreated { id: configs[i].id as u64, parent: None },
        );
        i = i + 1;
    }
    let ghost start = trace@;
    let ghost per = 2 * captured.configs@.len() + captured.observations@.len();
    let mut request: u64 = 1;
    let mut w: usize = 0;
    assert(start =~= start + workloads_events(*captured, share_preparation, 0));
    while w < captured.study.workloads.len()
        invariant
            w <= captured.study.workloads.len(),
            names_are_known(*captured),
            configs@ == captured.configs@,
            per == 2 * captured.configs@.len() + captured.observations@.len(),
            1 + captured.study.workloads@.len() * per <= u64::MAX,
            request == base_of(*captured, w as int),
            trace@ == start + workloads_events(*captured, share_preparation, w as int),
        decreases captured.study.workloads.len() - w,
    {
        let workload: TuningWorkload = captured.study.workloads[w];
        let ghost before = trace@;
        proof {
            lemma_base(*captured, w as int, per as int);
            let count = captured.study.workloads@.len() as int;
            let wi = w as int;
            let p = per as int;
            assert(wi * p + p <= count * p) by (nonlinear_arith)
                requires
                    wi + 1 <= count,
                    0 <= p,
            ;
        }
        push_preparations(&mut trace, configs, &workload, share_preparation, request);
        request = push_observations(
            &mut trace,
            captured,
            &workload,
            request,
            Ghost(w as int),
        );
        trace.push(DiscoveryEvent::EvidencePublished);
        proof {
            assert(trace@ =~= before + workload_events(*captured, share_preparation, w as int));
            assert(trace@ =~= start + workloads_events(*captured, share_preparation, w + 1));
        }
        w = w + 1;
    }
    let ghost middle = trace@;
    let mut i: usize = 0;
    assert(middle =~= middle + accepted(configs@, 0));
    while i < configs.len()
        invariant
            i <= configs.len(),
            configs@ == captured.configs@,
            trace@ == middle + accepted(configs@, i as int),
        decreases configs.len() - i,
    {
        trace.push(DiscoveryEvent::HypothesisAccepted { id: configs[i].id as u64 });
        assert(trace@ =~= middle + accepted(configs@, i + 1));
        i = i + 1;
    }
    assert(trace@ =~= replay_of(*captured, share_preparation));
    trace
}

/// Shared preparations are the same evaluation under every configuration, and
/// preparations that are not shared differ between any two.
pub proof fn law_sharing_decides_which_preparations_are_one(
    w: TuningWorkload,
    a: u32,
    b: u32,
)
    requires
        a != b,
    ensures
        generated_node(w, true, a) == generated_node(w, true, b),
        prepared_node(w, true, a) == prepared_node(w, true, b),
        generated_node(w, false, a) != generated_node(w, false, b),
        prepared_node(w, false, a) != prepared_node(w, false, b),
{
    bytes::lemma_radix_values();
    bytes::lemma_le_round_trip(a as nat, 4);
    bytes::lemma_le_round_trip(b as nat, 4);
    assert(preparation_contract(false, a) != preparation_contract(false, b));
    assert(generated_node(w, false, a)->Derivation_0.contract == preparation_contract(false, a));
    assert(generated_node(w, false, b)->Derivation_0.contract == preparation_contract(false, b));
    assert(prepared_node(w, false, a)->Derivation_0.contract == preparation_contract(false, a));
    assert(prepared_node(w, false, b)->Derivation_0.contract == preparation_contract(false, b));
}

} // verus!
