//! What the studies start, see and compare.

use crate::compiler::run_classes;
use crate::compiler::state_machine_lowering;
use crate::compiler::state_machine_lowering::SearchFrame;
use crate::executives::cpu_scalar::Child;
use crate::executives::scalar_laws;
use crate::experiments::ant_build::{AntColony, AntHandle};
use crate::experiments::ant_colony::AntFrame;
use crate::experiments::ant_observe;
use crate::experiments::ant_observe::{
    AntView, Bite, ColonyComparison, Glimpse, PredatorStrike,
};
use crate::experiments::bulk_frontier;
use crate::experiments::cohort_setup;
use crate::experiments::cohort_setup::CohortShape;
use crate::experiments::discovery_bench;
use crate::experiments::discovery_search;
use crate::experiments::discovery_search::DiscoveryKnobs;
use crate::experiments::dynamic_search;
use crate::experiments::dynamic_search::ControlKnobs;
use crate::experiments::policies;
use crate::experiments::supervision_tree;
use crate::experiments::supervision_tree::{Tree, TreeKnobs, TreeRun};
use crate::kernel;
use crate::kernel::{
    Call, EventKind, ObjectKind, ProcessMode, Ref64, StateAccess, SupervisionPolicy, TraceEvent,
};
use crate::scheduler;
use vstd::prelude::*;

verus! {

// ---- looking at a colony ---------------------------------------------------

/// What is seen of an ant is what its frame holds and how its continuation stands. Nothing
/// is seen of one whose continuation or frame is not there, or whose frame is too short.
pub proof fn law_an_ant_is_seen_as_its_frame_holds_it(g: Glimpse)
    ensures
        match ant_observe::glimpsed(g) {
            Some(view) => {
                &&& g.info matches Some(info) && view.run_class == info.run_class && view.alive
                    == info.alive
                &&& g.frame matches Ok(content) && content.len() >= 68 && {
                    let ant = AntFrame::read(content);
                    &&& view.id == ant.id
                    &&& view.colony == ant.colony
                    &&& view.x == ant.x
                    &&& view.y == ant.y
                    &&& view.carrying <==> ant.carrying == 1
                    &&& view.delivered == ant.delivered
                }
            },
            None => g.info is None || g.frame is Err || g.frame->Ok_0.len() < 68,
        },
{
}

/// Every ant of every colony is looked at, colony by colony and in order.
pub proof fn law_all_ants_are_looked_at(colonies: Seq<crate::experiments::ant_build::ColonyHandle>, n: int)
    requires
        0 <= n < colonies.len(),
    ensures
        ant_observe::all_ants(colonies, 0).len() == 0,
        ant_observe::all_ants(colonies, n + 1) == ant_observe::all_ants(colonies, n)
            + colonies[n].ants@,
{
}

/// A strike takes the first ants of its colony, as many as it says or as there are, and
/// none of any other colony. One at a colony that is not there takes none.
pub proof fn law_a_strike_takes_the_first_of_its_colony(colony: AntColony, strike: PredatorStrike, i: int)
    requires
        0 <= i < ant_observe::victims_of(colony, strike).len(),
    ensures
        ({
            let victims = ant_observe::victims_of(colony, strike);
            let ants = colony.colonies@[strike.colony as int].ants@;
            &&& strike.colony < colony.colonies@.len()
            &&& victims[i] == ants[i]
            &&& victims.len() <= strike.victims
            &&& victims.len() <= ants.len()
            &&& victims.len() == strike.victims || victims.len() == ants.len()
        }),
{
}

/// A victim's frame is left as long as it was, with nothing but zeros in it. Of a victim
/// that is not there nothing is touched.
pub proof fn law_a_bite_leaves_zeros(ant: AntHandle, b: Bite)
    ensures
        ({
            let calls = ant_observe::bite_calls(ant, b);
            &&& calls[0] == (Call::Continuation { continuation: ant.continuation, reply: b.info })
            &&& b.info is None ==> calls.len() == 1
            &&& b.info matches Some(info) ==> {
                &&& calls.len() == 2
                &&& calls[1] matches Call::Edit { actor, object, growable, reply }
                &&& actor == kernel::system_principal()
                &&& object == info.frame
                &&& !growable
                &&& b.edit matches Ok(held) ==> (reply matches Ok((was, left)) && was == held
                    && left.len() == held.len() && forall|i: int|
                    0 <= i < left.len() ==> #[trigger] left[i] == 0)
            }
        }),
{
}

/// A victim counts as struck exactly where its frame could be opened.
pub proof fn law_struck_are_those_whose_frame_was_opened(ants: Seq<AntHandle>, b: Seq<Bite>, n: int)
    requires
        0 <= n < ants.len(),
        n < b.len(),
    ensures
        ant_observe::all_struck(ants, b, 0).len() == 0,
        ant_observe::all_struck(ants, b, n + 1) == if b[n].info is Some && b[n].edit is Ok {
            ant_observe::all_struck(ants, b, n).push(ants[n].process)
        } else {
            ant_observe::all_struck(ants, b, n)
        },
{
}

/// How many of the first `n` views are alive.
pub open spec fn alive(views: Seq<AntView>, n: int) -> int
    decreases n,
{
    if n <= 0 {
        0
    } else {
        alive(views, n - 1) + if views[n - 1].alive {
            1int
        } else {
            0
        }
    }
}

/// Survivors and bystanders are all that live, and an ant counts with its own colony.
pub proof fn law_survivors_and_bystanders_are_the_living(views: Seq<AntView>, colony: u16, n: int)
    requires
        0 <= n <= views.len(),
    ensures
        ant_observe::living(views, colony, true, n) + ant_observe::living(views, colony, false, n)
            == alive(views, n),
        n > 0 && views[n - 1].alive && views[n - 1].colony == colony ==> ant_observe::living(
            views,
            colony,
            true,
            n,
        ) == ant_observe::living(views, colony, true, n - 1) + 1,
        n > 0 && views[n - 1].alive && views[n - 1].colony != colony ==> ant_observe::living(
            views,
            colony,
            false,
            n,
        ) == ant_observe::living(views, colony, false, n - 1) + 1,
    decreases n,
{
    if n > 0 {
        law_survivors_and_bystanders_are_the_living(views, colony, n - 1);
    }
}

/// Trail totals and deliveries are sums over all cells and all ants.
pub proof fn law_totals_are_sums(field: Seq<u8>, cells: int, trail: int, views: Seq<AntView>, n: int)
    requires
        n >= 0,
    ensures
        ant_observe::trail_sum(field, cells, trail, 0) == 0,
        ant_observe::trail_sum(field, cells, trail, n + 1) == ant_observe::trail_sum(
            field,
            cells,
            trail,
            n,
        ) + crate::experiments::ant_colony::trail_at(field, cells, trail, n),
        ant_observe::delivered_by(views, 0) == 0,
        n < views.len() ==> ant_observe::delivered_by(views, n + 1) == ant_observe::delivered_by(
            views,
            n,
        ) + views[n].delivered,
{
}

/// The field that is totalled is the one that ants read in that epoch: food first, home
/// second.
pub proof fn law_totals_are_of_the_readable_field(
    colony: AntColony,
    epoch: u32,
    call: Call,
    food: u64,
    home: u64,
)
    requires
        ant_observe::totals_read(colony, epoch, call, food, home),
    ensures
        ({
            let cells = colony.knobs.width * colony.knobs.height;
            &&& call matches Call::ObjectBytes { actor, object, reply }
            &&& actor == colony.world
            &&& object == if epoch as int % 2 == 0 {
                colony.field_a
            } else {
                colony.field_b
            }
            &&& reply matches Ok(field) ==> food == ant_observe::trail_sum(field, cells, 0, cells)
                && home == ant_observe::trail_sum(field, cells, 1, cells)
            &&& reply is Err ==> food == 0 && home == 0
        }),
{
}

/// Two runs simulated the same world exactly where they agree in steps, useful lanes,
/// epochs, deliveries, both trails and the population.
pub proof fn law_one_difference_is_another_world(c: ColonyComparison)
    ensures
        c.same_world() <==> {
            &&& c.fifo.accounting.steps == c.cohorted.accounting.steps
            &&& c.fifo.accounting.useful_lane_slots == c.cohorted.accounting.useful_lane_slots
            &&& c.fifo.epochs == c.cohorted.epochs
            &&& c.fifo.delivered == c.cohorted.delivered
            &&& c.fifo.food_trail == c.cohorted.food_trail
            &&& c.fifo.home_trail == c.cohorted.home_trail
            &&& c.fifo.population == c.cohorted.population
        },
{
}

/// A run takes an epoch as long as something is pending, and no more than its limit. It
/// ends at the limit, or where nothing is pending.
pub proof fn law_a_run_ends_when_quiet_or_at_its_limit(k: Seq<Call>, limit: u32, epochs: u32, i: int)
    requires
        ant_observe::runs(k, limit, epochs),
        0 <= i < epochs,
    ensures
        epochs <= limit,
        k[2 * i] matches Call::Pending { reply } && reply > 0,
        k[2 * i + 1] == Call::RunEpoch,
        epochs < limit ==> k.len() == 2 * epochs + 1 && k[2 * epochs as int] == (Call::Pending {
            reply: 0,
        }),
        epochs == limit ==> k.len() == 2 * epochs,
{
    assert(k[2 * i] is Pending);
}

// ---- a search --------------------------------------------------------------

/// A search starts as many roots as the knobs have processes, each a process of its own,
/// with the knobs' depth, branching and work, and values that count from one.
pub proof fn law_a_root_starts_with_the_knobs(knobs: ControlKnobs, root: int, c: Child)
    requires
        0 <= root < knobs.process_count,
        c.process is Ok,
    ensures
        ({
            let calls = dynamic_search::root_calls(knobs, root, c);
            &&& calls.len() == 2
            &&& calls[0] == (Call::CreateProcess {
                actor: kernel::system_principal(),
                mode: ProcessMode::Serial,
                reply: c.process,
            })
            &&& calls[1] matches Call::CreateContinuation { actor, process, spec, reply }
            &&& actor == kernel::system_principal()
            &&& process == c.process->Ok_0
            &&& reply == c.continuation
            &&& spec.access == StateAccess::ReadOnly
            &&& spec.max_steps == 64
            &&& spec.frame.len() == 24
            &&& SearchFrame::read(spec.frame) == (SearchFrame {
                value: (root + 1) as u64,
                depth: knobs.depth,
                branching: knobs.branching_factor,
                work_iters: knobs.arithmetic_ops,
                class_count: knobs.class_count,
            })
            &&& spec.run_class as int == 10 + (root + 1) % spread(knobs.class_count)
        }),
{
    state_machine_lowering::law_search_frame_reads_back(dynamic_search::root_of(knobs, root));
}

/// How many classes values are spread over.
pub open spec fn spread(count: u32) -> int {
    if count < 1 {
        1
    } else if count > 8 {
        8
    } else {
        count as int
    }
}

/// Roots are started one behind the other.
pub proof fn law_roots_start_in_order(knobs: ControlKnobs, roots: Seq<Child>, n: int)
    requires
        n >= 0,
    ensures
        dynamic_search::roots_calls(knobs, roots, 0).len() == 0,
        dynamic_search::roots_calls(knobs, roots, n + 1) == dynamic_search::roots_calls(
            knobs,
            roots,
            n,
        ) + dynamic_search::root_calls(knobs, n, roots[n]),
{
}

proof fn lemma_expanded(knobs: ControlKnobs, frontier: Seq<u64>, m: int, n: int, i: int)
    requires
        0 <= n < m <= frontier.len(),
        0 <= i < knobs.branching_factor,
    ensures
        ({
            let next = bulk_frontier::expanded(knobs, frontier, m);
            let b = knobs.branching_factor as int;
            &&& next.len() == m * b
            &&& 0 <= n * b + i < next.len()
            &&& next[n * b + i] == bulk_frontier::worked(knobs, frontier[n]).wrapping_add(i as u64)
        }),
    decreases m,
{
    let b = knobs.branching_factor as int;
    let before = bulk_frontier::expanded(knobs, frontier, m - 1);
    assert((m - 1) * b + b == m * b && 0 <= n * b) by (nonlinear_arith)
        requires
            n >= 0,
            b >= 0,
    ;
    if m == 1 {
        assert(before.len() == 0);
        assert(0 * b == 0) by (nonlinear_arith);
    } else {
        lemma_expanded(
            knobs,
            frontier,
            m - 1,
            if n < m - 1 {
                n
            } else {
                0
            },
            i,
        );
    }
    if n < m - 1 {
        assert(n * b + i < (m - 1) * b) by (nonlinear_arith)
            requires
                n + 1 <= m - 1,
                0 <= i < b,
        ;
    }
}

/// The frontier goes through the tree that the search goes through: its first level is the
/// roots, and the children of its node `n` are those that a search node of the same value
/// starts, in the same order.
pub proof fn law_the_frontier_expands_as_the_search_does(knobs: ControlKnobs, level: nat, n: int, i: int)
    requires
        level < knobs.depth,
        0 <= n < bulk_frontier::frontier_at(knobs, level).len(),
        0 <= i < knobs.branching_factor,
    ensures
        ({
            let here = bulk_frontier::frontier_at(knobs, level);
            let next = bulk_frontier::frontier_at(knobs, level + 1);
            let value = here[n] as int;
            let worked = scalar_laws::worked(
                value,
                knobs.arithmetic_ops as nat,
                (value % spread(knobs.class_count)) as u32,
            );
            &&& next.len() == here.len() * knobs.branching_factor
            &&& next[n * knobs.branching_factor + i] as int == (worked + i)
                % 0x1_0000_0000_0000_0000
        }),
        bulk_frontier::frontier_at(knobs, 0).len() == knobs.process_count,
        forall|r: int|
            0 <= r < knobs.process_count ==> #[trigger] bulk_frontier::frontier_at(knobs, 0)[r] == r
                + 1,
{
    let here = bulk_frontier::frontier_at(knobs, level);
    let value = here[n];
    lemma_expanded(knobs, here, here.len() as int, n, i);
    let class = run_classes::class_of_value(value, knobs.class_count);
    let m = spread(knobs.class_count);
    assert(0 <= value as int % m < m) by (nonlinear_arith)
        requires
            m >= 1,
    ;
    scalar_laws::law_a_node_works_as_its_class_says(
        value,
        knobs.arithmetic_ops as nat,
        (class - 10) as u32,
    );
}

/// A level costs what its classes cost: cut into groups in order, or class by class where
/// it is sorted. The levels' costs are added.
pub proof fn law_levels_cost_what_their_classes_cost(knobs: ControlKnobs, width: u16, level: nat, i: int)
    requires
        0 <= i < bulk_frontier::frontier_at(knobs, level).len(),
    ensures
        ({
            let classes = bulk_frontier::classes_at(knobs, level);
            let w = if width < 1 {
                1
            } else {
                width as int
            };
            &&& classes.len() == bulk_frontier::frontier_at(knobs, level).len()
            &&& classes[i] as int == 10 + bulk_frontier::frontier_at(knobs, level)[i] as int
                % spread(knobs.class_count)
            &&& bulk_frontier::level_cost(knobs, width, false, level) == scheduler::cost_from(
                classes,
                w,
                0,
            )
            &&& bulk_frontier::level_cost(knobs, width, true, level) == policies::segment_cost(
                classes,
                w,
            )
        }),
{
}

// ---- a supervision tree ----------------------------------------------------

/// A tree has a root with two branches under it and one worker under each branch, all
/// serial. The left worker has no steps where its failure is injected, and otherwise as
/// many as the right one.
pub proof fn law_a_tree_has_two_branches_of_one_worker(
    knobs: TreeKnobs,
    t: Tree,
    left: Ref64,
    right: Ref64,
)
    requires
        knobs.worker_policy != SupervisionPolicy::Restart,
    ensures
        ({
            let k = supervision_tree::tree_calls(knobs, t, left, right);
            &&& k.len() == 7
            &&& k[0] == (Call::CreateProcess {
                actor: kernel::system_principal(),
                mode: ProcessMode::Serial,
                reply: Ok(t.root),
            })
            &&& k[1] == (Call::Supervise {
                supervisor: t.root,
                mode: ProcessMode::Serial,
                reply: Ok(t.left_branch),
            })
            &&& k[2] == (Call::Supervise {
                supervisor: t.root,
                mode: ProcessMode::Serial,
                reply: Ok(t.right_branch),
            })
            &&& k[3] == (Call::CreateWorker {
                supervisor: t.left_branch,
                mode: ProcessMode::Serial,
                policy: knobs.worker_policy,
                reply: Ok(t.left_worker),
            })
            &&& k[5] == (Call::CreateWorker {
                supervisor: t.right_branch,
                mode: ProcessMode::Serial,
                policy: knobs.worker_policy,
                reply: Ok(t.right_worker),
            })
            &&& works(
                k[4],
                t.left_worker,
                if knobs.inject_left_failure {
                    0
                } else {
                    64
                },
            )
            &&& works(k[6], t.right_worker, 64)
        }),
{
    let leaf = SearchFrame { value: 1, depth: 0, branching: 0, work_iters: 0, class_count: 1 };
    state_machine_lowering::law_search_frame_reads_back(leaf);
}

/// The call gives a worker one leaf to run, in so many steps.
pub open spec fn works(call: Call, worker: Ref64, steps: u32) -> bool {
    &&& call matches Call::CreateContinuation { actor, process, spec, .. }
    &&& actor == worker
    &&& process == worker
    &&& spec.run_class == 10
    &&& spec.max_steps == steps
    &&& spec.frame.len() == 24
    &&& SearchFrame::read(spec.frame).depth == 0
    &&& SearchFrame::read(spec.frame).value == 1
}

/// Under the restart policy a worker is made with its leaf, and may be restarted once.
pub proof fn law_a_restarted_worker_is_restarted_once(
    knobs: TreeKnobs,
    t: Tree,
    left: Ref64,
    right: Ref64,
)
    requires
        knobs.worker_policy == SupervisionPolicy::Restart,
    ensures
        ({
            let k = supervision_tree::tree_calls(knobs, t, left, right);
            &&& k.len() == 5
            &&& k[3] matches Call::CreateRestartable { supervisor, restarts, spec, reply, .. }
            &&& supervisor == t.left_branch
            &&& restarts == 1
            &&& reply == Ok::<Ref64, kernel::RuntimeError>(t.left_worker)
            &&& spec.max_steps == if knobs.inject_left_failure {
                0u32
            } else {
                64
            }
            &&& k[4] matches Call::CreateRestartable {
                supervisor: other,
                restarts: times,
                spec: whole,
                reply: made,
                ..
            }
            &&& other == t.right_branch
            &&& times == 1
            &&& made == Ok::<Ref64, kernel::RuntimeError>(t.right_worker)
            &&& whole.max_steps == 64
        }),
{
}

/// After one epoch each process's state and each branch's notices are reported as the
/// kernel gives them for that process.
pub proof fn law_a_tree_s_outcome_is_what_was_asked_for(t: Tree, run: TreeRun, events: Seq<TraceEvent>)
    ensures
        ({
            let k = supervision_tree::look_calls(t, run, events);
            let o = run.outcome;
            &&& k[0] == Call::RunEpoch
            &&& k.contains(Call::ProcessState { process: t.root, reply: Ok(o.root) })
            &&& k.contains(Call::ProcessState { process: t.left_branch, reply: Ok(o.left_branch) })
            &&& k.contains(
                Call::ProcessState { process: t.right_branch, reply: Ok(o.right_branch) },
            )
            &&& k.contains(Call::ProcessState { process: t.left_worker, reply: Ok(o.left_worker) })
            &&& k.contains(
                Call::ProcessState { process: t.right_worker, reply: Ok(o.right_worker) },
            )
            &&& k.contains(Call::Notices { process: t.root, reply: o.root_notices })
            &&& k.contains(Call::Notices { process: t.left_branch, reply: o.left_branch_notices })
            &&& k.contains(
                Call::Notices { process: t.right_branch, reply: o.right_branch_notices },
            )
        }),
{
    let k = supervision_tree::look_calls(t, run, events);
    assert(k[1] == Call::ProcessState { process: t.root, reply: Ok(run.outcome.root) });
    assert(k[2] == Call::ProcessState {
        process: t.left_branch,
        reply: Ok(run.outcome.left_branch),
    });
    assert(k[3] == Call::ProcessState {
        process: t.right_branch,
        reply: Ok(run.outcome.right_branch),
    });
    assert(k[4] == Call::ProcessState {
        process: t.left_worker,
        reply: Ok(run.outcome.left_worker),
    });
    assert(k[5] == Call::ProcessState {
        process: t.right_worker,
        reply: Ok(run.outcome.right_worker),
    });
    assert(k[6] == Call::Notices { process: t.root, reply: run.outcome.root_notices });
    assert(k[7] == Call::Notices {
        process: t.left_branch,
        reply: run.outcome.left_branch_notices,
    });
    assert(k[8] == Call::Notices {
        process: t.right_branch,
        reply: run.outcome.right_branch_notices,
    });
}

/// Events of a kind are counted one by one.
pub proof fn law_events_are_counted_by_kind(events: Seq<TraceEvent>, kind: EventKind, n: int)
    requires
        0 <= n < events.len(),
    ensures
        kernel::events_of(events, kind, 0) == 0,
        kernel::events_of(events, kind, n + 1) == kernel::events_of(events, kind, n) + if events[n].kind
            == kind {
            1int
        } else {
            0
        },
{
}

// ---- cohorts and benchmarks ------------------------------------------------

/// Each cohort gets a frozen input of its own, all of the same bytes, and a batch over it
/// with the shape that was asked for.
pub proof fn law_each_cohort_has_its_own_input(
    owner: Ref64,
    shape: CohortShape,
    content: Seq<u8>,
    inputs: Seq<Ref64>,
    collectives: Seq<Ref64>,
    n: int,
    i: int,
)
    requires
        0 <= i < n,
        n <= inputs.len(),
        n <= collectives.len(),
    ensures
        ({
            let made = cohort_setup::input_calls(owner, content, inputs, n);
            let batches = cohort_setup::batch_calls(owner, shape, inputs, collectives, n);
            &&& made.len() == 2 * n
            &&& batches.len() == n
            &&& made[2 * i] == (Call::CreateObject {
                actor: owner,
                kind: ObjectKind::FrozenArray,
                bytes: content,
                reply: inputs[i],
            })
            &&& made[2 * i + 1] == (Call::Freeze { actor: owner, object: inputs[i], reply: Ok(()) })
            &&& batches[i] == (Call::CreateBatch {
                owner,
                evaluator: shape.evaluator,
                input: inputs[i],
                element_count: shape.element_count,
                element_stride: shape.element_stride,
                reply: Ok(collectives[i]),
            })
        }),
    decreases n,
{
    if n > 1 {
        law_each_cohort_has_its_own_input(
            owner,
            shape,
            content,
            inputs,
            collectives,
            n - 1,
            if i < n - 1 {
                i
            } else {
                0
            },
        );
    } else {
        reveal_with_fuel(cohort_setup::input_calls, 2);
        reveal_with_fuel(cohort_setup::batch_calls, 2);
    }
}

/// Outputs are read and strung together in the order of their cohorts.
pub proof fn law_outputs_are_strung_in_order(
    owner: Ref64,
    outputs: Seq<Ref64>,
    lists: Seq<Seq<u8>>,
    n: int,
)
    requires
        n >= 0,
    ensures
        cohort_setup::strung(lists, 0).len() == 0,
        cohort_setup::strung(lists, n + 1) == cohort_setup::strung(lists, n) + lists[n],
        cohort_setup::output_calls(owner, outputs, lists, n + 1) == cohort_setup::output_calls(
            owner,
            outputs,
            lists,
            n,
        ).push(Call::ObjectBytes { actor: owner, object: outputs[n], reply: Ok(lists[n]) }),
{
}

/// The groups of a sweep are told apart by duplication, pruning and classes alone: every
/// combination of theirs is one group, and regimes that differ only in batch size are in
/// the same one.
pub proof fn law_regimes_are_grouped_by_all_but_size(base: DiscoveryKnobs, i: int)
    requires
        0 <= i < 108,
    ensures
        ({
            let k = discovery_search::regime(base, i);
            let g = i / 3;
            &&& 0 <= g < 36
            &&& discovery_bench::is_in_group(k, g)
            &&& k.duplicate_rate == discovery_search::DUPLICATION_RATES@[i / 27]
            &&& k.elements_per_experiment == discovery_search::BATCH_SIZES@[i % 3]
            &&& k.branching_factor == base.branching_factor
            &&& k.depth == base.depth
            &&& k.shared_prefix_rate == base.shared_prefix_rate
            &&& k.rejection_depth == base.rejection_depth
            &&& k.arrival_skew == base.arrival_skew
            &&& k.observation_rate == base.observation_rate
        }),
{
    assert((i / 3) / 9 == i / 27 && ((i / 3) / 3) % 3 == (i / 9) % 3) by (nonlinear_arith)
        requires
            0 <= i < 108,
    ;
}

} // verus!
