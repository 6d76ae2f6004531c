//! What a tuning study measures, how it is judged, and what it is replayed as.

use crate::bytes;
use crate::compiler::frame;
use crate::discovery::{EventView, NodeView};
use crate::executives::batch::BackendError;
use crate::experiments::self_tuning;
use crate::experiments::self_tuning::{
    CaptureSlot, CapturedStudy, ExecutionConfig, PhysicalMeasurement, Placement, TimingObservation,
    TuningStudy, TuningWorkload,
};
use crate::experiments::tuning_replay;
use crate::experiments::tuning_replay::CaptureFault;
use crate::samples;
use vstd::prelude::*;

verus! {

// ---- what is measured ------------------------------------------------------

/// Every configuration is warmed up once, in order, before a workload's trials, and a
/// warm-up is no trial.
pub proof fn law_every_configuration_is_warmed_up(workloads: int, n: nat, trials: int, c: int)
    requires
        1 <= workloads <= usize::MAX,
        0 <= c < n <= usize::MAX,
    ensures
        ({
            let before = self_tuning::schedule_of(workloads - 1, n, trials);
            let all = self_tuning::schedule_of(workloads, n, trials);
            let slot = all[before.len() + c];
            &&& all.len() == before.len() + n + self_tuning::trials_slots(
                workloads - 1,
                n,
                trials,
            ).len()
            &&& slot.workload == workloads - 1
            &&& slot.config == c
            &&& slot.trial is None
            &&& all.take(before.len() as int) == before
        }),
{
    let before = self_tuning::schedule_of(workloads - 1, n, trials);
    let all = self_tuning::schedule_of(workloads, n, trials);
    assert(all[before.len() + c] == self_tuning::warm_slots(workloads - 1, n)[c]);
    assert(all.take(before.len() as int) =~= before);
}

/// In each trial every configuration is measured exactly once: each has one position, and
/// no two have the same. Each trial starts with the configuration behind the one that the
/// last trial started with.
pub proof fn law_a_trial_measures_each_configuration_once(
    workload: int,
    n: nat,
    trial: int,
    a: int,
    b: int,
)
    requires
        1 <= n <= usize::MAX,
        0 <= workload <= usize::MAX,
        0 <= trial <= u32::MAX,
        0 <= a < b < n,
    ensures
        ({
            let slots = self_tuning::trial_slots(workload, n, trial);
            &&& slots.len() == n
            &&& slots[a].config != slots[b].config
            &&& slots[a].config < n
            &&& slots[a].workload == workload
            &&& slots[a].trial == Some(trial as u32)
            &&& slots[0].config == trial % (n as int)
            &&& slots[a + 1].config == if slots[a].config + 1 < n {
                slots[a].config + 1
            } else {
                0
            }
        }),
{
    let m = n as int;
    let t = trial % m;
    assert(0 <= t < m) by (nonlinear_arith)
        requires
            t == trial % m,
            m >= 1,
    ;
    lemma_wrap(0, t, m);
    lemma_wrap(a, t, m);
    lemma_wrap(a + 1, t, m);
    lemma_wrap(b, t, m);
}

proof fn lemma_wrap(p: int, t: int, m: int)
    requires
        0 <= p < m,
        0 <= t < m,
    ensures
        (p + t) % m == if p + t < m {
            p + t
        } else {
            p + t - m
        },
{
    if p + t < m {
        vstd::arithmetic::div_mod::lemma_small_mod((p + t) as nat, m as nat);
    } else {
        vstd::arithmetic::div_mod::lemma_fundamental_div_mod_converse(p + t, m, 1, p + t - m);
    }
}

/// A workload is measured in all its trials, one behind the other.
pub proof fn law_all_trials_are_measured(workload: int, n: nat, trials: int)
    requires
        trials >= 0,
    ensures
        self_tuning::trials_slots(workload, n, 0).len() == 0,
        self_tuning::trials_slots(workload, n, trials + 1) == self_tuning::trials_slots(
            workload,
            n,
            trials,
        ) + self_tuning::trial_slots(workload, n, trials),
        self_tuning::trials_slots(workload, n, trials).len() == trials * n,
    decreases trials,
{
    if trials > 0 {
        law_all_trials_are_measured(workload, n, trials - 1);
        assert((trials - 1) * n + n == trials * n) by (nonlinear_arith);
    } else {
        assert(0 * n == 0) by (nonlinear_arith);
    }
}

/// A measurement of a trial is observed under its workload's and its configuration's id,
/// with its trial, its time and the digest of its output. A warm-up is not observed.
pub proof fn law_what_is_measured_is_observed(
    study: TuningStudy,
    configs: Seq<ExecutionConfig>,
    slots: Seq<CaptureSlot>,
    measured: Seq<Result<PhysicalMeasurement, BackendError>>,
    k: int,
)
    requires
        0 <= k < slots.len(),
        k < measured.len(),
        measured[k] is Ok,
    ensures
        ({
            let before = self_tuning::observed(study, configs, slots, measured, k);
            let after = self_tuning::observed(study, configs, slots, measured, k + 1);
            match slots[k].trial {
                None => after == before,
                Some(trial) => {
                    &&& after.len() == before.len() + 1
                    &&& after.take(before.len() as int) == before
                    &&& after.last().workload_id == study.workloads@[slots[k].workload as int].id
                    &&& after.last().config_id == configs[slots[k].config as int].id
                    &&& after.last().trial == trial
                    &&& after.last().elapsed_nanos == measured[k]->Ok_0.elapsed_nanos
                    &&& after.last().output_digest == measured[k]->Ok_0.output_digest
                },
            }
        }),
{
    let before = self_tuning::observed(study, configs, slots, measured, k);
    let after = self_tuning::observed(study, configs, slots, measured, k + 1);
    assert(after.take(before.len() as int) =~= before) by {
        if slots[k].trial is None {
            assert(before.take(before.len() as int) =~= before);
        }
    }
}

/// There are two configurations for each thread count, one with cohorts one at a time and
/// one with them together, on the processor that was asked for.
pub proof fn law_each_thread_count_is_tried_both_ways(
    placement: Placement,
    threads: Seq<usize>,
    base: int,
    i: int,
)
    requires
        0 <= i < threads.len(),
        0 <= base,
        base + 2 * threads.len() < u32::MAX,
    ensures
        ({
            let configs = self_tuning::configs_for(placement, threads, base);
            let single = configs[2 * i];
            let epoch = configs[2 * i + 1];
            &&& configs.len() == 2 * threads.len()
            &&& single.cpu_threads == threads[i] && epoch.cpu_threads == threads[i]
            &&& single.placement == placement && epoch.placement == placement
            &&& !single.batched_epoch && epoch.batched_epoch
            &&& single.id == base + 2 * i + 1 && epoch.id == base + 2 * i + 2
        }),
{
}

// ---- how it is judged ------------------------------------------------------

/// A capture without fault has something in it and is whole: as many observations as
/// there are trials of every workload under every configuration, ids that differ, one
/// observation for each of them, and one output for each workload.
pub proof fn law_a_sound_capture_is_whole(c: CapturedStudy, w: int, i: int, trial: u32, a: int, b: int)
    requires
        tuning_replay::capture_fault(c) is None,
        0 <= w < c.study.workloads@.len(),
        0 <= i < c.configs@.len(),
        trial < c.study.trials,
        0 <= a < c.observations@.len(),
        0 <= b < c.observations@.len(),
        c.observations@[a].workload_id == c.study.workloads@[w].id,
        c.observations@[b].workload_id == c.study.workloads@[w].id,
    ensures
        c.observations@.len() == c.configs@.len() * c.study.workloads@.len() * c.study.trials,
        tuning_replay::count_of(
            c.observations@,
            c.study.workloads@[w].id,
            c.configs@[i].id,
            trial,
            c.observations@.len() as int,
        ) == 1,
        c.observations@[a].output_digest.bytes@ == c.observations@[b].output_digest.bytes@,
        forall|x: int, y: int|
            0 <= x < y < c.configs@.len() ==> (#[trigger] c.configs@[x]).id != (
            #[trigger] c.configs@[y]).id,
        forall|x: int, y: int|
            0 <= x < y < c.study.workloads@.len() ==> (#[trigger] c.study.workloads@[x]).id != (
            #[trigger] c.study.workloads@[y]).id,
{
    lemma_no_fault(c, 0, w);
    let workload = c.study.workloads@[w].id;
    assert(tuning_replay::is_observed_once(c, workload, c.configs@[i].id, trial));
}

proof fn lemma_no_fault(c: CapturedStudy, from: int, w: int)
    requires
        tuning_replay::fault_from(c, from) is None,
        0 <= from <= w < c.study.workloads@.len(),
    ensures
        tuning_replay::workload_fault(c, c.study.workloads@[w].id) is None,
    decreases w - from,
{
    if from < w {
        lemma_no_fault(c, from + 1, w);
    }
}

/// What is wrong with a capture is said in this order: that it is empty, that its count is
/// off, that ids repeat, and then of its first faulty workload that it was not seen, that
/// its outputs differ, or that a measurement is missing or doubled.
pub proof fn law_faults_are_named_in_order(c: CapturedStudy)
    ensures
        ({
            let fault = tuning_replay::capture_fault(c);
            let empty = c.configs@.len() == 0 || c.study.workloads@.len() == 0 || c.study.trials
                == 0;
            let counts = c.observations@.len() == c.configs@.len() * c.study.workloads@.len()
                * c.study.trials;
            &&& empty ==> fault == Some(CaptureFault::EmptyStudy)
            &&& !empty && !counts ==> fault == Some(CaptureFault::CountMismatch)
            &&& !empty && counts && (exists|x: int, y: int|
                0 <= x < y < c.configs@.len() && (#[trigger] c.configs@[x]).id == (
                #[trigger] c.configs@[y]).id) ==> fault == Some(CaptureFault::DuplicateIdentity)
        }),
{
}

proof fn lemma_sample_is_observed(
    observations: Seq<TimingObservation>,
    workload: u32,
    config: u32,
    n: int,
    k: int,
)
    requires
        0 <= k < n <= observations.len(),
        observations[k].workload_id == workload,
        observations[k].config_id == config,
    ensures
        tuning_replay::samples_of(observations, workload, config, n).contains(
            observations[k].elapsed_nanos,
        ),
    decreases n,
{
    let before = tuning_replay::samples_of(observations, workload, config, n - 1);
    let all = tuning_replay::samples_of(observations, workload, config, n);
    if k < n - 1 {
        lemma_sample_is_observed(observations, workload, config, n - 1, k);
        let i = choose|i: int| 0 <= i < before.len() && before[i] == observations[k].elapsed_nanos;
        assert(all[i] == observations[k].elapsed_nanos);
    } else {
        assert(all[all.len() - 1] == observations[k].elapsed_nanos);
    }
}

/// A score lies around its samples: no sample of the workload under the configuration is
/// below its minimum or above its maximum, and its median lies between them.
pub proof fn law_a_score_spans_its_samples(c: CapturedStudy, workload: u32, config: u32, k: int)
    requires
        0 <= k < c.observations@.len(),
        c.observations@[k].workload_id == workload,
        c.observations@[k].config_id == config,
    ensures
        ({
            let score = tuning_replay::score_of(c, workload, config);
            let sample = c.observations@[k].elapsed_nanos;
            &&& score.config_id == config
            &&& score.minimum_nanos <= sample <= score.maximum_nanos
            &&& score.minimum_nanos <= score.median_nanos <= score.maximum_nanos
        }),
{
    let all = tuning_replay::all_samples(c, workload, config);
    let ordered = samples::in_order(all);
    lemma_sample_is_observed(c.observations@, workload, config, c.observations@.len() as int, k);
    samples::lemma_in_order(all);
    let sample = c.observations@[k].elapsed_nanos;
    assert(all.contains(sample));
    all.to_multiset_ensures();
    ordered.to_multiset_ensures();
    assert(all.to_multiset().count(sample) > 0);
    assert(ordered.contains(sample));
    let i = choose|i: int| 0 <= i < ordered.len() && ordered[i] == sample;
    let mid = (ordered.len() / 2) as int;
    assert(ordered[0] <= ordered[i] && ordered[i] <= ordered[ordered.len() - 1]);
    assert(ordered[0] <= ordered[mid] && ordered[mid] <= ordered[ordered.len() - 1]);
}

/// Of two configurations in a ranking the earlier has the smaller median, or as small a
/// median and no larger an id.
pub proof fn law_ties_are_broken_by_id(c: CapturedStudy, workload: u32, i: int, j: int)
    requires
        0 <= i < j < c.configs@.len(),
    ensures
        ({
            let ranking = tuning_replay::ranking_of(c, workload);
            &&& ranking.len() == c.configs@.len()
            &&& ranking[i].median_nanos < ranking[j].median_nanos || (ranking[i].median_nanos
                == ranking[j].median_nanos && ranking[i].config_id <= ranking[j].config_id)
        }),
{
    let scores = tuning_replay::scores_of(c, workload);
    let order = tuning_replay::ranking_order();
    assert(vstd::relations::total_ordering(order));
    scores.lemma_sort_by_ensures(order);
    scores.to_multiset_ensures();
    tuning_replay::ranking_of(c, workload).to_multiset_ensures();
    assert(order(
        tuning_replay::ranking_of(c, workload)[i],
        tuning_replay::ranking_of(c, workload)[j],
    ));
}

// ---- what it is replayed as ------------------------------------------------

/// Four numbers are four words, one behind the other.
pub proof fn law_four_words_read_back(a: u64, b: u64, c: u64, d: u64)
    ensures
        ({
            let s = tuning_replay::four_words(a, b, c, d);
            &&& s.len() == 32
            &&& bytes::word_at(s, 0, 8) == a as nat
            &&& bytes::word_at(s, 8, 8) == b as nat
            &&& bytes::word_at(s, 16, 8) == c as nat
            &&& bytes::word_at(s, 24, 8) == d as nat
        }),
{
    let w = seq![(a as nat, 8nat), (b as nat, 8nat), (c as nat, 8nat), (d as nat, 8nat)];
    bytes::lemma_radix_values();
    reveal_with_fuel(frame::word_offset, 5);
    frame::lemma_packed_len(w);
    frame::lemma_packed_word(w, 0);
    frame::lemma_packed_word(w, 1);
    frame::lemma_packed_word(w, 2);
    frame::lemma_packed_word(w, 3);
}

proof fn lemma_last_with(configs: Seq<ExecutionConfig>, id: u32, n: int, k: int)
    requires
        0 <= k < n <= configs.len(),
        configs[k].id == id,
    ensures
        ({
            let at = tuning_replay::last_with(configs, id, n);
            k <= at < n && configs[at].id == id
        }),
    decreases n,
{
    if configs[n - 1].id != id {
        lemma_last_with(configs, id, n - 1, k);
    }
}

proof fn lemma_first_with(configs: Seq<ExecutionConfig>, id: u32, i: int)
    requires
        0 <= i <= configs.len(),
    ensures
        ({
            let at = tuning_replay::first_with(configs, id, i);
            i <= at <= configs.len() && (at < configs.len() ==> configs[at].id == id)
        }),
    decreases configs.len() - i,
{
    if i < configs.len() && configs[i].id != id {
        lemma_first_with(configs, id, i + 1);
    }
}

proof fn lemma_preparations(
    configs: Seq<ExecutionConfig>,
    w: TuningWorkload,
    share: bool,
    base: int,
    n: int,
)
    requires
        0 <= n <= configs.len(),
    ensures
        ({
            let made = tuning_replay::preparations(configs, w, share, base, n);
            &&& made.len() == 2 * n
            &&& forall|i: int|
                0 <= i < n ==> {
                    &&& #[trigger] made[2 * i] == (EventView::NodeRequested {
                        request: (base + 2 * i) as u64,
                        hypothesis: configs[i].id as u64,
                        node: tuning_replay::generated_node(w, share, configs[i].id),
                    })
                    &&& made[2 * i + 1] == (EventView::NodeRequested {
                        request: (base + 2 * i + 1) as u64,
                        hypothesis: configs[i].id as u64,
                        node: tuning_replay::prepared_node(w, share, configs[i].id),
                    })
                }
        }),
    decreases n,
{
    if n > 0 {
        lemma_preparations(configs, w, share, base, n - 1);
        let before = tuning_replay::preparations(configs, w, share, base, n - 1);
        let made = tuning_replay::preparations(configs, w, share, base, n);
        assert forall|i: int| 0 <= i < n implies {
            &&& #[trigger] made[2 * i] == (EventView::NodeRequested {
                request: (base + 2 * i) as u64,
                hypothesis: configs[i].id as u64,
                node: tuning_replay::generated_node(w, share, configs[i].id),
            })
            &&& made[2 * i + 1] == (EventView::NodeRequested {
                request: (base + 2 * i + 1) as u64,
                hypothesis: configs[i].id as u64,
                node: tuning_replay::prepared_node(w, share, configs[i].id),
            })
        } by {
            if i < n - 1 {
                assert(made[2 * i] == before[2 * i]);
                assert(made[2 * i + 1] == before[2 * i + 1]);
            }
        }
    }
}

/// `e` is request `number` for configuration `id`.
pub open spec fn asks(e: EventView, number: int, id: u32) -> bool {
    &&& e matches EventView::NodeRequested { request, hypothesis, .. }
    &&& request == number
    &&& hypothesis == id
}

/// Each observation of a workload is replayed as a request of its own, for its
/// configuration, on the numbers that were observed. It depends on the two preparations
/// of that configuration, which were requested before it.
pub proof fn law_an_observation_depends_on_its_preparations(
    c: CapturedStudy,
    w: TuningWorkload,
    share: bool,
    base: int,
    k: int,
)
    requires
        0 <= k < c.observations@.len(),
        c.observations@[k].workload_id == w.id,
        tuning_replay::first_with(c.configs@, c.observations@[k].config_id, 0) < c.configs@.len(),
        1 <= base,
        base + 2 * c.configs@.len() + c.observations@.len() < u64::MAX,
    ensures
        ({
            let o = c.observations@[k];
            let made = tuning_replay::preparations(
                c.configs@,
                w,
                share,
                base,
                c.configs@.len() as int,
            );
            let before = tuning_replay::observations(c, w, base, k);
            let after = tuning_replay::observations(c, w, base, k + 1);
            let n = before.len() as int;
            exists|at: int|
                {
                    &&& 0 <= at < c.configs@.len()
                    &&& #[trigger] c.configs@[at].id == o.config_id
                    &&& asks(made[2 * at], base + 2 * at, o.config_id)
                    &&& asks(made[2 * at + 1], base + 2 * at + 1, o.config_id)
                    &&& after.len() == n + 3
                    &&& after.take(n) == before
                    &&& after[n] matches EventView::NodeRequested { request, hypothesis, node }
                    &&& hypothesis == o.config_id
                    &&& request >= base + 2 * c.configs@.len()
                    &&& after[n + 1] == (EventView::DependencyAdded {
                        node: request,
                        depends_on: (base + 2 * at) as u64,
                    })
                    &&& after[n + 2] == (EventView::DependencyAdded {
                        node: request,
                        depends_on: (base + 2 * at + 1) as u64,
                    })
                    &&& node matches NodeView::Observation { sample, evaluation }
                    &&& sample == request
                    &&& evaluation.inputs.len() == 32
                    &&& bytes::word_at(evaluation.inputs, 0, 8) == o.workload_id as nat
                    &&& bytes::word_at(evaluation.inputs, 8, 8) == o.config_id as nat
                    &&& bytes::word_at(evaluation.inputs, 16, 8) == o.trial as nat
                    &&& bytes::word_at(evaluation.inputs, 24, 8) == o.elapsed_nanos as nat
                }
        }),
{
    let o = c.observations@[k];
    let configs = c.configs@;
    let first = tuning_replay::first_with(configs, o.config_id, 0);
    lemma_first_with(configs, o.config_id, 0);
    let config = configs[first];
    let at = tuning_replay::last_with(configs, config.id, configs.len() as int);
    lemma_last_with(configs, config.id, configs.len() as int, first);
    lemma_preparations(configs, w, share, base, configs.len() as int);
    law_four_words_read_back(
        o.workload_id as u64,
        o.config_id as u64,
        o.trial as u64,
        o.elapsed_nanos,
    );
    lemma_seen(c.observations@, w.id, k);
    let before = tuning_replay::observations(c, w, base, k);
    let after = tuning_replay::observations(c, w, base, k + 1);
    let n = before.len() as int;
    assert(after.take(n) =~= before);
    let made = tuning_replay::preparations(configs, w, share, base, configs.len() as int);
    assert(made[2 * at] is NodeRequested);
    assert(configs[at].id == o.config_id);
}

proof fn lemma_seen(observations: Seq<TimingObservation>, workload: u32, n: int)
    requires
        0 <= n,
    ensures
        0 <= tuning_replay::seen_of(observations, workload, n) <= n,
    decreases n,
{
    if n > 0 {
        lemma_seen(observations, workload, n - 1);
    }
}

/// A replay makes a hypothesis of every configuration, in order, and accepts them all at
/// its end.
pub proof fn law_every_configuration_is_a_hypothesis(configs: Seq<ExecutionConfig>, n: int, i: int)
    requires
        0 <= i < n <= configs.len(),
    ensures
        ({
            let made = tuning_replay::created(configs, n);
            let kept = tuning_replay::accepted(configs, n);
            &&& made.len() == n
            &&& kept.len() == n
            &&& made[i] == (EventView::HypothesisCreated {
                id: configs[i].id as u64,
                parent: None,
            })
            &&& kept[i] == (EventView::HypothesisAccepted { id: configs[i].id as u64 })
        }),
    decreases n,
{
    if n > 1 {
        law_every_configuration_is_a_hypothesis(
            configs,
            n - 1,
            if i < n - 1 {
                i
            } else {
                0
            },
        );
    } else {
        reveal_with_fuel(tuning_replay::created, 2);
        reveal_with_fuel(tuning_replay::accepted, 2);
    }
}

/// What is prepared is the workload's own: its evaluator by its arithmetic, and its input
/// by its cohorts and their elements of eight bytes.
pub proof fn law_preparations_name_their_workload(w: TuningWorkload, share: bool, config: u32)
    ensures
        ({
            let g = tuning_replay::generated_node(w, share, config)->Derivation_0;
            let p = tuning_replay::prepared_node(w, share, config)->Derivation_0;
            &&& bytes::word_at(g.inputs, 0, 8) == w.id as nat
            &&& bytes::word_at(g.inputs, 8, 8) == w.alu_ops as nat
            &&& bytes::word_at(p.inputs, 0, 8) == w.id as nat
            &&& bytes::word_at(p.inputs, 8, 8) == w.cohorts as nat
            &&& bytes::word_at(p.inputs, 16, 8) == w.elements_per_cohort as nat
            &&& bytes::word_at(p.inputs, 24, 8) == 8
        }),
{
    law_four_words_read_back(w.id as u64, w.alu_ops as u64, 0, 0);
    law_four_words_read_back(w.id as u64, w.cohorts as u64, w.elements_per_cohort as u64, 8);
}

} // verus!
