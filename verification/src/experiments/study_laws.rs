//! What the studies run and report.

use crate::discovery::EventView;
use crate::executives::cpu_scalar;
use crate::executives::cpu_scalar::Child;
use crate::experiments::ant_build::{AntColony, AntHandle};
use crate::experiments::ant_colony::{ColonyKnobs, FoodSource};
use crate::experiments::ant_observe;
use crate::experiments::ant_observe::{
    AntView, Bite, ColonyRun, Glimpse, ModeRun, PredatorOutcome, PredatorStrike,
};
use crate::experiments::ant_trace;
use crate::experiments::backend_bench;
use crate::experiments::backend_bench::{SampleAction, SampleRun};
use crate::experiments::cohort_setup;
use crate::experiments::cohort_setup::CohortShape;
use crate::experiments::cohort_study;
use crate::experiments::cohort_study::StudyRun;
use crate::experiments::discovery_search;
use crate::experiments::dynamic_search;
use crate::experiments::dynamic_search::ControlKnobs;
use crate::experiments::export_run;
use crate::experiments::self_tuning::CapturedStudy;
use crate::experiments::supervision_tree;
use crate::experiments::supervision_tree::{Tree, TreeKnobs, TreeRun};
use crate::experiments::tuning_replay;
use crate::kernel;
use crate::kernel::{Call, EventKind, ProcessState, Ref64, RuntimeError, TraceEvent};
use crate::scheduler::{PartialCohortPolicy, SchedulingMode};
use crate::text;
use vstd::prelude::*;

verus! {

// ---- colonies --------------------------------------------------------------

/// Looking at an ant asks for its continuation, and for that continuation's frame as the
/// ant's process where there is one.
pub proof fn law_an_ant_is_looked_at_as_itself(ant: AntHandle, g: Glimpse)
    ensures
        ({
            let k = ant_observe::glimpse_calls(ant, g);
            &&& k[0] == (Call::Continuation { continuation: ant.continuation, reply: g.info })
            &&& g.info is None ==> k.len() == 1
            &&& g.info matches Some(info) ==> k.len() == 2 && k[1] == (Call::ObjectBytes {
                actor: ant.process,
                object: info.frame,
                reply: g.frame,
            })
        }),
{
}

/// Every ant that can be seen is seen, in order.
pub proof fn law_every_ant_that_can_be_seen_is(
    ants: Seq<AntHandle>,
    g: Seq<Glimpse>,
    n: int,
)
    requires
        0 <= n < g.len(),
        n < ants.len(),
    ensures
        ant_observe::all_glimpsed(g, 0).len() == 0,
        ant_observe::glimpsed(g[n]) is None ==> ant_observe::all_glimpsed(g, n + 1)
            == ant_observe::all_glimpsed(g, n),
        ant_observe::glimpsed(g[n]) matches Some(view) ==> ant_observe::all_glimpsed(g, n + 1)
            == ant_observe::all_glimpsed(g, n).push(view),
        ant_observe::all_glimpse_calls(ants, g, n + 1) == ant_observe::all_glimpse_calls(ants, g, n)
            + ant_observe::glimpse_calls(ants[n], g[n]),
{
}

/// Victims are bitten one after the other, all of them, and those whose frames were opened
/// are reported.
pub proof fn law_victims_are_bitten_in_order(
    ants: Seq<AntHandle>,
    b: Seq<Bite>,
    k: Seq<Call>,
    struck: Seq<Ref64>,
    n: int,
)
    requires
        ant_observe::bitten(ants, b, k, struck),
        0 <= n < ants.len(),
    ensures
        b.len() == ants.len(),
        k == ant_observe::all_bite_calls(ants, b, ants.len() as int),
        ant_observe::all_bite_calls(ants, b, n + 1) == ant_observe::all_bite_calls(ants, b, n)
            + ant_observe::bite_calls(ants[n], b[n]),
        ant_observe::all_bite_calls(ants, b, 0).len() == 0,
        struck == ant_observe::all_struck(ants, b, ants.len() as int),
{
}

/// The aftermath of a strike tells who was struck, who lives in that colony and elsewhere,
/// whether the colony and the world are alive, and the notices and failures, each as the
/// kernel gives it.
pub proof fn law_an_aftermath_is_what_was_asked_for(
    colony: AntColony,
    strike: PredatorStrike,
    struck: Seq<Ref64>,
    k: Seq<Call>,
    split: int,
    g: Seq<Glimpse>,
    views: Seq<AntView>,
    outcome: PredatorOutcome,
)
    requires
        ant_observe::outcome_is(colony, strike, struck, k, split, g, views, outcome),
        strike.colony < colony.colonies@.len(),
    ensures
        ({
            let n = views.len() as int;
            let process = colony.colonies@[strike.colony as int].process;
            let rest = k.skip(split);
            &&& outcome.struck@ == struck
            &&& outcome.survivors == ant_observe::living(views, strike.colony, true, n)
            &&& outcome.bystanders == ant_observe::living(views, strike.colony, false, n)
            &&& rest.len() == 4
            &&& rest[0] == (Call::Notices { process, reply: outcome.notices })
            &&& rest[1] == (Call::IsAlive { process, reply: outcome.colony_alive })
            &&& rest[2] == (Call::IsAlive { process: colony.world, reply: outcome.world_alive })
            &&& rest[3] == (Call::Failures { reply: outcome.failures })
        }),
{
    assert(k.skip(split) =~= ant_observe::aftermath_calls(colony, strike, outcome));
}

/// A run is configured as it was asked for before anything else, and reports that
/// configuration. What it reports of the world is what its last looks showed.
pub proof fn law_a_run_reports_what_it_saw(
    knobs: ColonyKnobs,
    mode: SchedulingMode,
    cohort_width: u16,
    before: Seq<Call>,
    after: Seq<Call>,
    run: ColonyRun,
)
    requires
        ant_observe::schedule_ran(knobs, mode, cohort_width, before, after, Ok(run)),
    ensures
        run.mode == mode,
        run.cohort_width == cohort_width,
        exists|m: ModeRun|
            {
                &&& #[trigger] ant_observe::mode_ran(
                    knobs,
                    m,
                    before.push(
                        Call::Configure {
                            mode,
                            cohort_width,
                            partial: PartialCohortPolicy::RunPartial,
                        },
                    ),
                    after,
                    run,
                )
                &&& run.delivered == ant_observe::delivered_by(m.views, m.views.len() as int)
                &&& run.population == ant_observe::digest_of(m.views, m.views.len() as int)
                &&& after.last() == (Call::Accounting { reply: run.accounting })
                &&& ant_observe::totals_read(
                    m.colony,
                    run.epochs,
                    m.read.last(),
                    run.food_trail,
                    run.home_trail,
                )
            },
{
    let start = kernel::configured(before, mode, cohort_width, PartialCohortPolicy::RunPartial);
    let m = choose|m: ModeRun| #[trigger] ant_observe::mode_ran(knobs, m, start, after, run);
    assert(ant_observe::mode_ran(knobs, m, start, after, run));
}

/// A digest adds up a word for each ant, modulo 2^64.
pub proof fn law_a_digest_adds_up_words(ants: Seq<AntView>, n: int)
    requires
        0 <= n < ants.len(),
    ensures
        ant_observe::digest_of(ants, 0) == 0,
        ant_observe::digest_of(ants, n + 1) as int == (ant_observe::digest_of(ants, n)
            + ant_observe::digest_word(ants[n])) % 0x1_0000_0000_0000_0000,
{
}

/// An ant's word holds its id, place and class in fields of their own, and its deliveries
/// and its load over them, turned by its id.
pub proof fn law_a_digest_word_holds_an_ant(ant: AntView)
    ensures
        ({
            let placed = ((ant.id as u64) << 40u64) | ((ant.x as u64) << 24u64) | ((ant.y as u64)
                << 8u64) | (ant.run_class as u64 & 0xFF);
            let load = if ant.carrying {
                1u64 << 63u64
            } else {
                0
            };
            ant_observe::digest_word(ant) == ant_observe::rotated(
                placed ^ ((ant.delivered as u64) << 16u64) ^ load,
                (ant.id % 61) as u64,
            )
        }),
{
}

// ---- searches --------------------------------------------------------------

/// Children are up until the first that is not.
pub proof fn law_children_are_up_until_one_is_not(children: Seq<Child>, limit: nat, n: int, i: int)
    requires
        0 <= n <= limit,
        limit <= children.len(),
    ensures
        ({
            let up = cpu_scalar::up_before(children, limit, n);
            &&& n <= up <= limit
            &&& n <= i < up ==> children[i].process is Ok && children[i].continuation is Ok
            &&& up < limit ==> children[up].process is Err || children[up].continuation is Err
        }),
    decreases limit - n,
{
    if n < limit && cpu_scalar::child_is_up(children[n]) {
        law_children_are_up_until_one_is_not(children, limit, n + 1, i);
    }
}

/// Roots are started up to the first that is refused, and its refusal is the outcome. Where
/// none is, all are started.
pub proof fn law_a_refused_root_ends_the_build(
    knobs: ControlKnobs,
    roots: Seq<Child>,
    before: Seq<Call>,
    after: Seq<Call>,
    result: Result<(), RuntimeError>,
)
    requires
        dynamic_search::is_built(knobs, roots, before, after, result),
    ensures
        ({
            let count = knobs.process_count as nat;
            let up = cpu_scalar::up_before(roots, count, 0);
            &&& up >= count ==> result is Ok && after == before + dynamic_search::roots_calls(
                knobs,
                roots,
                up,
            )
            &&& up < count ==> after == before + dynamic_search::roots_calls(knobs, roots, up + 1)
            &&& up < count && roots[up].process is Err ==> result == Err::<(), RuntimeError>(
                roots[up].process->Err_0,
            )
            &&& up < count && roots[up].process is Ok ==> result == Err::<(), RuntimeError>(
                roots[up].continuation->Err_0,
            )
        }),
{
}

/// A study is configured as it was asked for, runs its search to the end, and reads the
/// account last.
pub proof fn law_a_study_reads_the_account_last(
    knobs: ControlKnobs,
    mode: SchedulingMode,
    cohort_width: u16,
    partial: PartialCohortPolicy,
    before: Seq<Call>,
    after: Seq<Call>,
    run: StudyRun,
)
    requires
        cohort_study::study_ran(knobs, mode, cohort_width, partial, before, after, Ok(run)),
    ensures
        run.mode == mode,
        run.cohort_width == cohort_width,
        after.last() == (Call::Accounting { reply: run.accounting }),
        exists|roots: Seq<Child>, between: Seq<Call>, ran: Seq<Call>| #[trigger]
            cohort_study::ran_and_read(
                knobs,
                roots,
                before.push(Call::Configure { mode, cohort_width, partial }),
                between,
                ran,
                after,
                run,
            ),
{
    let start = kernel::configured(before, mode, cohort_width, partial);
    let (roots, between, ran) = choose|roots: Seq<Child>, between: Seq<Call>, ran: Seq<Call>|
        #[trigger] cohort_study::ran_and_read(knobs, roots, start, between, ran, after, run);
    assert(cohort_study::ran_and_read(knobs, roots, start, between, ran, after, run));
}

// ---- trees and cohorts -----------------------------------------------------

/// A tree is built, and then looked at, and its restarts are the restarts in its trace.
pub proof fn law_a_tree_s_restarts_are_counted(
    knobs: TreeKnobs,
    t: Tree,
    left: Ref64,
    right: Ref64,
    events: Seq<TraceEvent>,
    before: Seq<Call>,
    after: Seq<Call>,
    run: TreeRun,
)
    requires
        supervision_tree::ran_tree(knobs, t, left, right, events, before, after, run),
    ensures
        after == before + supervision_tree::tree_calls(knobs, t, left, right)
            + supervision_tree::look_calls(t, run, events),
        run.outcome.restarts == kernel::events_of(
            events,
            EventKind::ProcessRestarted,
            events.len() as int,
        ),
{
}

/// Cohorts are prepared in number: inputs first, then batches.
pub proof fn law_cohorts_are_prepared_in_number(
    owner: Ref64,
    shape: CohortShape,
    content: Seq<u8>,
    cohorts: u32,
    inputs: Seq<Ref64>,
    collectives: Seq<Ref64>,
    before: Seq<Call>,
    after: Seq<Call>,
)
    requires
        cohort_setup::are_prepared(
            owner,
            shape,
            content,
            cohorts,
            inputs,
            collectives,
            before,
            after,
        ),
    ensures
        inputs.len() == cohorts,
        collectives.len() == cohorts,
        after == before + cohort_setup::input_calls(owner, content, inputs, cohorts as int)
            + cohort_setup::batch_calls(owner, shape, inputs, collectives, cohorts as int),
{
}

/// Outputs are gathered from all of their cohorts, in order.
pub proof fn law_outputs_are_gathered_in_order(
    owner: Ref64,
    outputs: Seq<Ref64>,
    lists: Seq<Seq<u8>>,
    before: Seq<Call>,
    after: Seq<Call>,
    content: Seq<u8>,
)
    requires
        cohort_setup::are_gathered(owner, outputs, lists, before, after, content),
    ensures
        lists.len() == outputs.len(),
        content == cohort_setup::strung(lists, outputs.len() as int),
        after == before + cohort_setup::output_calls(owner, outputs, lists, outputs.len() as int),
{
}

// ---- replays ---------------------------------------------------------------

/// Hypotheses are numbered from one, and each but the first names its parent: the children
/// of one follow each other.
pub proof fn law_hypotheses_are_numbered_from_one(b: int, count: nat, i: int)
    requires
        b >= 1,
        0 <= i < count,
        count < 0x1_0000_0000,
    ensures
        ({
            let tree = discovery_search::tree_of(b, count);
            &&& tree.len() == count
            &&& tree[i].0 == i + 1
            &&& i == 0 ==> tree[i].1 is None
            &&& i > 0 ==> (tree[i].1 matches Some(p) && 1 <= p <= i && b * (p - 1) + 1 <= i < b
                * (p - 1) + 1 + b)
        }),
{
    if i > 0 {
        let q = (i - 1) / b;
        assert(0 <= q && b * q <= i - 1 < b * q + b && q < i) by (nonlinear_arith)
            requires
                q == (i - 1) / b,
                b >= 1,
                i > 0,
        ;
    }
}

/// A replay makes every configuration a hypothesis, goes through the workloads in order,
/// and accepts every configuration at the end. A workload's preparations come before its
/// observations, and its evidence is published after them.
pub proof fn law_a_replay_goes_workload_by_workload(c: CapturedStudy, share: bool, w: int)
    requires
        0 <= w < c.study.workloads@.len(),
    ensures
        ({
            let n = c.configs@.len() as int;
            let base = tuning_replay::base_of(c, w);
            let here = tuning_replay::workload_events(c, share, w);
            &&& tuning_replay::replay_of(c, share) == tuning_replay::created(c.configs@, n)
                + tuning_replay::workloads_events(c, share, c.study.workloads@.len() as int)
                + tuning_replay::accepted(c.configs@, n)
            &&& tuning_replay::workloads_events(c, share, 0).len() == 0
            &&& tuning_replay::workloads_events(c, share, w + 1)
                == tuning_replay::workloads_events(c, share, w) + here
            &&& here.last() == EventView::EvidencePublished
            &&& here.drop_last() == tuning_replay::preparations(
                c.configs@,
                c.study.workloads@[w],
                share,
                base,
                n,
            ) + tuning_replay::observations(
                c,
                c.study.workloads@[w],
                base,
                c.observations@.len() as int,
            )
        }),
{
    let here = tuning_replay::workload_events(c, share, w);
    let n = c.configs@.len() as int;
    let base = tuning_replay::base_of(c, w);
    assert(here.drop_last() =~= tuning_replay::preparations(
        c.configs@,
        c.study.workloads@[w],
        share,
        base,
        n,
    ) + tuning_replay::observations(
        c,
        c.study.workloads@[w],
        base,
        c.observations@.len() as int,
    ));
}

/// Requests are numbered from one, through all workloads: two for each configuration and one
/// for each observation.
pub proof fn law_replayed_requests_are_numbered_through(c: CapturedStudy, w: int)
    requires
        0 <= w < c.study.workloads@.len(),
    ensures
        tuning_replay::base_of(c, 0) == 1,
        tuning_replay::base_of(c, w + 1) == tuning_replay::base_of(c, w) + 2 * c.configs@.len()
            + tuning_replay::seen_of(
            c.observations@,
            c.study.workloads@[w].id,
            c.observations@.len() as int,
        ),
{
}

// ---- texts -----------------------------------------------------------------

/// States, scheduling modes and classes have these names.
pub proof fn law_names_of_states_and_classes()
    ensures
        kernel::state_name(ProcessState::Active) == "Active"@,
        kernel::state_name(ProcessState::Completed) == "Completed"@,
        kernel::state_name(ProcessState::Failed) == "Failed"@,
        ant_trace::mode_text(SchedulingMode::RunClassBins) == "run-class"@,
        ant_trace::mode_text(SchedulingMode::PersistentFifo) == "persistent-fifo"@,
        ant_trace::class_text(20) == "explore"@,
        ant_trace::class_text(21) == "follow-trail"@,
        ant_trace::class_text(22) == "carry-food"@,
        ant_trace::class_text(23) == "return-home"@,
        ant_trace::class_text(24) == "avoid-obstacle"@,
        ant_trace::class_text(25) == "wait"@,
        ant_trace::class_text(26) == "colony-aggregate"@,
        ant_trace::class_text(27) == "world-step"@,
        text::truth(true) == "true"@,
        text::truth(false) == "false"@,
{
}

/// A field's line shows both trails, each scaled by its own strongest cell, which it names.
pub proof fn law_a_field_line_shows_both_trails(epoch: u32, field: Seq<u8>, cells: int)
    ensures
        ant_trace::field_text(epoch, field, cells) == ant_trace::all_pairs(
            seq![
                ("{\"kind\":\"field\",\"epoch\":", epoch as u64),
                (",\"food_max\":", ant_trace::strongest(field, cells, 0, cells) as u64),
                (",\"home_max\":", ant_trace::strongest(field, cells, 1, cells) as u64),
            ],
        ) + ",\"food\":\""@ + ant_trace::base64_of(ant_trace::scaled(field, cells, 0))
            + "\",\"home\":\""@ + ant_trace::base64_of(ant_trace::scaled(field, cells, 1))
            + "\"}\n"@,
{
}

/// A header lists nests with their place and how many ants they have, and food with its
/// place and radius.
pub proof fn law_a_header_lists_nests_and_food(
    colony: AntColony,
    food: Seq<FoodSource>,
    i: int,
    j: int,
)
    requires
        0 <= i < colony.colonies@.len(),
        0 <= j < food.len(),
    ensures
        export_run::nest_rows(colony).len() == colony.colonies@.len(),
        export_run::nest_rows(colony)[i] == seq![
            colony.colonies@[i].nest.0 as u64,
            colony.colonies@[i].nest.1 as u64,
            colony.colonies@[i].ants@.len() as u64,
        ],
        export_run::food_rows(food).len() == food.len(),
        export_run::food_rows(food)[j] == seq![food[j].0 as u64, food[j].1 as u64, food[j].2 as u64],
{
}

// ---- benchmarks ------------------------------------------------------------

/// Warm-ups come first, then measurements, then nothing.
pub proof fn law_warm_ups_come_first(run: SampleRun)
    ensures
        run.warmed < run.warmups ==> run.next_action() == SampleAction::Warm,
        run.warmed >= run.warmups && run.samples@.len() < run.measurements ==> run.next_action()
            == SampleAction::Measure,
        run.warmed >= run.warmups && run.samples@.len() >= run.measurements ==> run.next_action()
            == SampleAction::Done,
{
}

/// Synthetic input is drawn from a shift register: shifted over itself left by thirteen,
/// right by seven and left by seventeen.
pub proof fn law_synthetic_input_is_a_shift_register(state: u64, n: nat)
    ensures
        ({
            let a = state ^ (state << 13u64);
            let b = a ^ (a >> 7u64);
            backend_bench::shifted(state) == b ^ (b << 17u64)
        }),
        backend_bench::shifted_times(0) == 0x2545_F491_4F6C_DD1D,
        backend_bench::shifted_times(n + 1) == backend_bench::shifted(
            backend_bench::shifted_times(n),
        ),
        backend_bench::synthetic_byte(n as int) == (backend_bench::shifted_times(n + 1)
            >> 33u64) as u8,
{
}

} // verus!
