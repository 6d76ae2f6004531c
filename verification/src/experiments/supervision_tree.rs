//! A controlled actor tree for supervision.
//!
//! The tree has a root, two branch supervisors, and a worker under each branch.
//! The left worker may fault; the right one always completes, so that it is the
//! control.

use crate::compiler::run_classes::{DEFAULT_MAX_STEPS, SEARCH_BRANCH};
use crate::compiler::state_machine_lowering::SearchFrame;
use crate::kernel;
use crate::kernel::{
    count_events, state_text, Call, ContinuationSpec, EventKind, Kernel, ProcessMode, ProcessState,
    Ref64, RuntimeError, SpecView, StateAccess, SupervisionPolicy, TraceEvent, TraceSnapshotRow,
};
use crate::text;
use crate::text::{push_decimal, push_text};
use vstd::prelude::*;

verus! {

#[derive(Clone, Copy, Debug, PartialEq, Eq, Structural)]
pub struct TreeKnobs {
    pub worker_policy: SupervisionPolicy,
    pub inject_left_failure: bool,
}

impl Default for TreeKnobs {
    fn default() -> (knobs: Self)
        ensures
            knobs == (TreeKnobs {
                worker_policy: SupervisionPolicy::Notify,
                inject_left_failure: true,
            }),
    {
        TreeKnobs { worker_policy: SupervisionPolicy::Notify, inject_left_failure: true }
    }
}

#[derive(Clone, Copy, Debug, PartialEq, Eq, Structural)]
pub struct TreeOutcome {
    pub root: ProcessState,
    pub left_branch: ProcessState,
    pub right_branch: ProcessState,
    pub left_worker: ProcessState,
    pub right_worker: ProcessState,
    pub root_notices: u64,
    pub left_branch_notices: u64,
    pub right_branch_notices: u64,
    pub restarts: u64,
}

#[derive(Clone, Debug, PartialEq, Eq)]
pub struct TreeRun {
    pub outcome: TreeOutcome,
    pub trace: Vec<TraceSnapshotRow>,
    /// Whether the kernel's own invariants held behind the run.
    pub legal: bool,
}

/// The processes of a tree.
#[derive(Clone, Copy, Debug, PartialEq, Eq, Structural)]
pub struct Tree {
    pub root: Ref64,
    pub left_branch: Ref64,
    pub right_branch: Ref64,
    pub left_worker: Ref64,
    pub right_worker: Ref64,
}

/// A worker's one continuation: a leaf, with as many steps as its budget. A
/// budget of none faults it.
pub open spec fn worker_view(budget: u32) -> SpecView {
    SpecView {
        access: StateAccess::ReadOnly,
        run_class: SEARCH_BRANCH,
        priority: 0,
        frame: SearchFrame {
            value: 1,
            depth: 0,
            branching: 0,
            work_iters: 0,
            class_count: 1,
        }.encoded(),
        max_steps: budget,
    }
}

pub open spec fn left_budget(knobs: TreeKnobs) -> u32 {
    if knobs.inject_left_failure {
        0
    } else {
        DEFAULT_MAX_STEPS
    }
}

pub(crate) fn worker_spec(budget: u32) -> (spec: ContinuationSpec)
    ensures
        spec@ == worker_view(budget),
{
    let leaf = SearchFrame::leaf(1, 0);
    let mut content: Vec<u8> = Vec::new();
    leaf.encode(&mut content);
    assert(content@ =~= leaf.encoded());
    ContinuationSpec::new(StateAccess::ReadOnly, SEARCH_BRANCH, 0, content, budget)
}

/// The calls that start a worker which came up.
pub open spec fn worker_calls(
    supervisor: Ref64,
    policy: SupervisionPolicy,
    budget: u32,
    process: Ref64,
    continuation: Ref64,
) -> Seq<Call> {
    if policy == SupervisionPolicy::Restart {
        seq![
            Call::CreateRestartable {
                supervisor,
                mode: ProcessMode::Serial,
                restarts: 1,
                spec: worker_view(budget),
                reply: Ok(process),
            },
        ]
    } else {
        seq![
            Call::CreateWorker {
                supervisor,
                mode: ProcessMode::Serial,
                policy,
                reply: Ok(process),
            },
            Call::CreateContinuation {
                actor: process,
                process,
                spec: worker_view(budget),
                reply: Ok(continuation),
            },
        ]
    }
}

/// The calls that build the tree.
pub open spec fn tree_calls(knobs: TreeKnobs, t: Tree, left: Ref64, right: Ref64) -> Seq<Call> {
    seq![
        Call::CreateProcess {
            actor: kernel::system_principal(),
            mode: ProcessMode::Serial,
            reply: Ok(t.root),
        },
        Call::Supervise {
            supervisor: t.root,
            mode: ProcessMode::Serial,
            reply: Ok(t.left_branch),
        },
        Call::Supervise {
            supervisor: t.root,
            mode: ProcessMode::Serial,
            reply: Ok(t.right_branch),
        },
    ] + worker_calls(
        t.left_branch,
        knobs.worker_policy,
        left_budget(knobs),
        t.left_worker,
        left,
    ) + worker_calls(
        t.right_branch,
        knobs.worker_policy,
        DEFAULT_MAX_STEPS,
        t.right_worker,
        right,
    )
}

/// The calls that run one epoch and look at what came of it, `events` being what
/// the trace holds.
pub open spec fn look_calls(t: Tree, run: TreeRun, events: Seq<TraceEvent>) -> Seq<Call> {
    let o = run.outcome;
    seq![
        Call::RunEpoch,
        Call::ProcessState { process: t.root, reply: Ok(o.root) },
        Call::ProcessState { process: t.left_branch, reply: Ok(o.left_branch) },
        Call::ProcessState { process: t.right_branch, reply: Ok(o.right_branch) },
        Call::ProcessState { process: t.left_worker, reply: Ok(o.left_worker) },
        Call::ProcessState { process: t.right_worker, reply: Ok(o.right_worker) },
        Call::Notices { process: t.root, reply: o.root_notices },
        Call::Notices { process: t.left_branch, reply: o.left_branch_notices },
        Call::Notices { process: t.right_branch, reply: o.right_branch_notices },
        Call::TraceEvents { reply: events },
        Call::TraceSnapshot { reply: run.trace@ },
        Call::IsLegal { reply: run.legal },
    ]
}

/// The tree was built, run and looked at. Its restarts are those that the trace
/// holds.
pub open spec fn ran_tree(
    knobs: TreeKnobs,
    t: Tree,
    left: Ref64,
    right: Ref64,
    events: Seq<TraceEvent>,
    before: Seq<Call>,
    after: Seq<Call>,
    run: TreeRun,
) -> bool {
    &&& after == before + tree_calls(knobs, t, left, right) + look_calls(t, run, events)
    &&& run.outcome.restarts == kernel::events_of(
        events,
        EventKind::ProcessRestarted,
        events.len() as int,
    )
}

/// The error that a call was refused with.
pub open spec fn refused(call: Call) -> Option<RuntimeError> {
    match call {
        Call::CreateProcess { reply: Err(error), .. } => Some(error),
        Call::Supervise { reply: Err(error), .. } => Some(error),
        Call::CreateRestartable { reply: Err(error), .. } => Some(error),
        Call::CreateWorker { reply: Err(error), .. } => Some(error),
        Call::CreateContinuation { reply: Err(error), .. } => Some(error),
        Call::ProcessState { reply: Err(error), .. } => Some(error),
        _ => None,
    }
}

/// The log ends with a refusal, and nothing was asked for behind it.
pub open spec fn ends_refused(before: Seq<Call>, after: Seq<Call>, error: RuntimeError) -> bool {
    &&& before.len() < after.len()
    &&& after.take(before.len() as int) == before
    &&& refused(after.last()) == Some(error)
}

fn worker<K: Kernel>(
    kernel: &mut K,
    supervisor: Ref64,
    policy: SupervisionPolicy,
    budget: u32,
) -> (result: Result<(Ref64, Ref64), RuntimeError>)
    ensures
        match result {
            Ok((process, continuation)) => final(kernel).log() == old(kernel).log() + worker_calls(
                supervisor,
                policy,
                budget,
                process,
                continuation,
            ),
            Err(error) => ends_refused(old(kernel).log(), final(kernel).log(), error),
        },
{
    let ghost l0 = kernel.log();
    if policy == SupervisionPolicy::Restart {
        match kernel.create_restartable_process(
            supervisor,
            ProcessMode::Serial,
            1,
            worker_spec(budget),
        ) {
            Ok(process) => {
                assert(kernel.log() =~= l0 + worker_calls(
                    supervisor,
                    policy,
                    budget,
                    process,
                    process,
                ));
                Ok((process, process))
            },
            Err(error) => {
                assert(kernel.log().take(l0.len() as int) =~= l0);
                Err(error)
            },
        }
    } else {
        let process: Ref64 = match kernel.create_worker_process(
            supervisor,
            ProcessMode::Serial,
            policy,
        ) {
            Ok(process) => process,
            Err(error) => {
                assert(kernel.log().take(l0.len() as int) =~= l0);
                return Err(error);
            },
        };
        match kernel.create_continuation(process, process, worker_spec(budget)) {
            Ok(continuation) => {
                assert(kernel.log() =~= l0 + worker_calls(
                    supervisor,
                    policy,
                    budget,
                    process,
                    continuation,
                ));
                Ok((process, continuation))
            },
            Err(error) => {
                assert(kernel.log().take(l0.len() as int) =~= l0);
                Err(error)
            },
        }
    }
}

proof fn lemma_longer(a: Seq<Call>, b: Seq<Call>, c: Seq<Call>)
    requires
        a.len() <= b.len() <= c.len(),
        b.take(a.len() as int) == a,
        c.take(b.len() as int) == b,
    ensures
        c.take(a.len() as int) == a,
{
    assert(c.take(a.len() as int) =~= c.take(b.len() as int).take(a.len() as int));
}

/// Builds the tree. The error is the refusal that the kernel's log ends with.
fn build<K: Kernel>(kernel: &mut K, knobs: &TreeKnobs) -> (result: Result<
    (Tree, Ghost<(Ref64, Ref64)>),
    RuntimeError,
>)
    ensures
        match result {
            Ok((tree, ends)) => final(kernel).log() == old(kernel).log() + tree_calls(
                *knobs,
                tree,
                ends@.0,
                ends@.1,
            ),
            Err(error) => ends_refused(old(kernel).log(), final(kernel).log(), error),
        },
{
    let ghost l0 = kernel.log();
    let root: Ref64 = match kernel.create_process(kernel::system(), ProcessMode::Serial) {
        Ok(root) => root,
        Err(error) => {
            assert(kernel.log().take(l0.len() as int) =~= l0);
            return Err(error);
        },
    };
    let left_branch: Ref64 = match kernel.create_supervised_process(root, ProcessMode::Serial) {
        Ok(branch) => branch,
        Err(error) => {
            assert(kernel.log().take(l0.len() as int) =~= l0);
            return Err(error);
        },
    };
    let right_branch: Ref64 = match kernel.create_supervised_process(root, ProcessMode::Serial) {
        Ok(branch) => branch,
        Err(error) => {
            assert(kernel.log().take(l0.len() as int) =~= l0);
            return Err(error);
        },
    };
    let ghost l1 = kernel.log();
    assert(l1.take(l0.len() as int) =~= l0);
    let budget: u32 = if knobs.inject_left_failure {
        0
    } else {
        DEFAULT_MAX_STEPS
    };
    let (left_worker, left) = match worker(kernel, left_branch, knobs.worker_policy, budget) {
        Ok(worker) => worker,
        Err(error) => {
            proof {
                lemma_longer(l0, l1, kernel.log());
            }
            return Err(error);
        },
    };
    let ghost l2 = kernel.log();
    assert(l2.take(l1.len() as int) =~= l1);
    let (right_worker, right) = match worker(
        kernel,
        right_branch,
        knobs.worker_policy,
        DEFAULT_MAX_STEPS,
    ) {
        Ok(worker) => worker,
        Err(error) => {
            proof {
                lemma_longer(l0, l1, l2);
                lemma_longer(l0, l2, kernel.log());
            }
            return Err(error);
        },
    };
    let tree = Tree { root, left_branch, right_branch, left_worker, right_worker };
    assert(kernel.log() =~= l0 + tree_calls(*knobs, tree, left, right));
    Ok((tree, Ghost((left, right))))
}

fn state_of<K: Kernel>(kernel: &mut K, process: Ref64) -> (result: Result<
    ProcessState,
    RuntimeError,
>)
    ensures
        match result {
            Ok(state) => final(kernel).log() == old(kernel).log().push(
                Call::ProcessState { process, reply: Ok(state) },
            ),
            Err(error) => ends_refused(old(kernel).log(), final(kernel).log(), error),
        },
{
    let ghost l0 = kernel.log();
    let reply = kernel.process_state(process);
    assert(kernel.log().take(l0.len() as int) =~= l0);
    reply
}

/// Builds the tree, runs one epoch, and reads what became of every process. The
/// error is the refusal that the kernel's log ends with.
#[verifier::rlimit(60)]
pub fn run<K: Kernel>(kernel: &mut K, knobs: &TreeKnobs) -> (result: Result<TreeRun, RuntimeError>)
    ensures
        match result {
            Ok(run) => exists|t: Tree, left: Ref64, right: Ref64, events: Seq<TraceEvent>| #[trigger]
                ran_tree(
                    *knobs,
                    t,
                    left,
                    right,
                    events,
                    old(kernel).log(),
                    final(kernel).log(),
                    run,
                ),
            Err(error) => ends_refused(old(kernel).log(), final(kernel).log(), error),
        },
{
    let ghost l0 = kernel.log();
    let (tree, Ghost(ends)) = match build(kernel, knobs) {
        Ok(built) => built,
        Err(error) => {
            return Err(error);
        },
    };
    kernel.run_epoch();
    let ghost l1 = kernel.log();
    assert(l1.take(l0.len() as int) =~= l0);
    let root: ProcessState = match state_of(kernel, tree.root) {
        Ok(state) => state,
        Err(error) => {
            proof {
                lemma_longer(l0, l1, kernel.log());
            }
            return Err(error);
        },
    };
    let ghost l2 = kernel.log();
    assert(l2.take(l0.len() as int) =~= l0);
    let left_branch: ProcessState = match state_of(kernel, tree.left_branch) {
        Ok(state) => state,
        Err(error) => {
            proof {
                lemma_longer(l0, l2, kernel.log());
            }
            return Err(error);
        },
    };
    let ghost l3 = kernel.log();
    assert(l3.take(l0.len() as int) =~= l0);
    let right_branch: ProcessState = match state_of(kernel, tree.right_branch) {
        Ok(state) => state,
        Err(error) => {
            proof {
                lemma_longer(l0, l3, kernel.log());
            }
            return Err(error);
        },
    };
    let ghost l4 = kernel.log();
    assert(l4.take(l0.len() as int) =~= l0);
    let left_worker: ProcessState = match state_of(kernel, tree.left_worker) {
        Ok(state) => state,
        Err(error) => {
            proof {
                lemma_longer(l0, l4, kernel.log());
            }
            return Err(error);
        },
    };
    let ghost l5 = kernel.log();
    assert(l5.take(l0.len() as int) =~= l0);
    let right_worker: ProcessState = match state_of(kernel, tree.right_worker) {
        Ok(state) => state,
        Err(error) => {
            proof {
                lemma_longer(l0, l5, kernel.log());
            }
            return Err(error);
        },
    };
    let root_notices: u64 = kernel.pending_supervision_notices(tree.root);
    let left_branch_notices: u64 = kernel.pending_supervision_notices(tree.left_branch);
    let right_branch_notices: u64 = kernel.pending_supervision_notices(tree.right_branch);
    let events: Vec<TraceEvent> = kernel.trace_events();
    let restarts: u64 = count_events(&events, EventKind::ProcessRestarted);
    let trace: Vec<TraceSnapshotRow> = kernel.trace_snapshot();
    let legal: bool = kernel.is_legal();
    let outcome = TreeOutcome {
        root,
        left_branch,
        right_branch,
        left_worker,
        right_worker,
        root_notices,
        left_branch_notices,
        right_branch_notices,
        restarts,
    };
    let run = TreeRun { outcome, trace, legal };
    proof {
        let after = kernel.log();
        assert(after =~= l0 + tree_calls(*knobs, tree, ends.0, ends.1) + look_calls(
            tree,
            run,
            events@,
        ));
        assert(ran_tree(*knobs, tree, ends.0, ends.1, events@, l0, after, run));
    }
    let result: Result<TreeRun, RuntimeError> = Ok(run);
    assert(ran_tree(
        *knobs,
        tree,
        ends.0,
        ends.1,
        events@,
        old(kernel).log(),
        final(kernel).log(),
        result->Ok_0,
    ));
    result
}

/// The two workers differ in their budgets alone, and not at all where no
/// failure is injected: the right branch is the control.
pub proof fn law_the_right_branch_is_the_control(knobs: TreeKnobs, s: Ref64, p: Ref64, c: Ref64)
    requires
        !knobs.inject_left_failure,
    ensures
        worker_calls(s, knobs.worker_policy, left_budget(knobs), p, c) == worker_calls(
            s,
            knobs.worker_policy,
            DEFAULT_MAX_STEPS,
            p,
            c,
        ),
{
}

/// One line of a report, under a name of ten characters.
pub open spec fn case_line(name: Seq<char>, o: TreeOutcome) -> Seq<char> {
    name + " "@ + kernel::state_name(o.left_worker) + " "@ + kernel::state_name(o.left_branch)
        + " "@ + kernel::state_name(o.right_worker) + " "@ + kernel::state_name(o.right_branch)
        + " "@ + kernel::state_name(o.root) + " "@ + text::decimal(o.root_notices as nat) + " "@
        + text::decimal(o.restarts as nat) + "\n"@
}

#[verifier::rlimit(80)]
fn push_case(out: &mut String, name: &str, o: &TreeOutcome)
    ensures
        final(out)@ == old(out)@ + case_line(name@, *o),
{
    let ghost start = out@;
    push_text(out, name);
    push_text(out, " ");
    push_text(out, state_text(o.left_worker));
    push_text(out, " ");
    push_text(out, state_text(o.left_branch));
    push_text(out, " ");
    push_text(out, state_text(o.right_worker));
    push_text(out, " ");
    push_text(out, state_text(o.right_branch));
    push_text(out, " ");
    push_text(out, state_text(o.root));
    push_text(out, " ");
    push_decimal(out, o.root_notices);
    push_text(out, " ");
    push_decimal(out, o.restarts);
    push_text(out, "\n");
    assert(out@ =~= start + case_line(name@, *o));
}

/// The four cases that a report compares: no failure, and a failure under each
/// policy.
pub open spec fn case_of(policy: SupervisionPolicy, inject_left_failure: bool) -> TreeKnobs {
    TreeKnobs { worker_policy: policy, inject_left_failure }
}

pub fn report_cases() -> (cases: [TreeKnobs; 4])
    ensures
        cases@ == seq![
            case_of(SupervisionPolicy::Notify, false),
            case_of(SupervisionPolicy::Notify, true),
            case_of(SupervisionPolicy::Escalate, true),
            case_of(SupervisionPolicy::Restart, true),
        ],
{
    let cases = [
        TreeKnobs { worker_policy: SupervisionPolicy::Notify, inject_left_failure: false },
        TreeKnobs { worker_policy: SupervisionPolicy::Notify, inject_left_failure: true },
        TreeKnobs { worker_policy: SupervisionPolicy::Escalate, inject_left_failure: true },
        TreeKnobs { worker_policy: SupervisionPolicy::Restart, inject_left_failure: true },
    ];
    assert(cases@ =~= seq![
        case_of(SupervisionPolicy::Notify, false),
        case_of(SupervisionPolicy::Notify, true),
        case_of(SupervisionPolicy::Escalate, true),
        case_of(SupervisionPolicy::Restart, true),
    ]);
    cases
}

/// What the outcomes of [`report_cases`] read as.
pub fn report(outcomes: &[TreeOutcome; 4]) -> (out: String)
    ensures
        out@
            == "case       left-worker left-branch right-worker right-branch root root-notices restarts\n"@
            + case_line("control   "@, outcomes@[0]) + case_line("notify    "@, outcomes@[1])
            + case_line("escalate  "@, outcomes@[2]) + case_line("restart   "@, outcomes@[3]),
{
    let mut out: String = String::new();
    push_text(
        &mut out,
        "case       left-worker left-branch right-worker right-branch root root-notices restarts\n",
    );
    push_case(&mut out, "control   ", &outcomes[0]);
    push_case(&mut out, "notify    ", &outcomes[1]);
    push_case(&mut out, "escalate  ", &outcomes[2]);
    push_case(&mut out, "restart   ", &outcomes[3]);
    out
}

} // verus!
