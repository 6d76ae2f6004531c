//! The scalar executive: one step of a continuation, chosen by its run class.
//!
//! Every handler works through its lane alone. What it does is a function of
//! what the kernel replied: a script of calls, and the result of the step.

use crate::bytes;
pub use crate::compiler::run_classes;
use crate::compiler::run_classes::{
    ant_class_index, search_class_index, COLONY_AGGREGATE, DEFAULT_MAX_STEPS, EXPAND_RESUME_0,
    EXPAND_RESUME_1, EXPAND_RESUME_2, JOIN_AWAIT, JOIN_RESUME, POLL_ACT, POLL_FUTURE,
    SEARCH_BRANCH, SEARCH_HEURISTIC, WORLD_STEP,
};
use crate::compiler::state_machine_lowering;
use crate::compiler::state_machine_lowering::{
    search_step, ExpandFrame, ExpandView, HeuristicFrame, JoinFrame, SearchFrame,
};
use crate::executives::ant_colony;
use crate::executives::ant_colony::{AntReplies, ColonyReplies, WorldReplies};
use crate::executives::lane;
use crate::executives::lane::LaneView;
use crate::executives::step;
use crate::executives::step::{frame_bytes, store_bytes, StepResult};
use crate::kernel;
use crate::kernel::{
    AwaitOutcome, Call, ContinuationSpec, Kernel, MessageDescriptor, ObjectKind, ProcessMode,
    Ref64, RuntimeError, SpecView, StateAccess,
};
use vstd::prelude::*;

verus! {

/// What a message receive yields.
pub type ReceivedMessage = MessageDescriptor;

/// A child that was started: a process, and its one continuation.
pub ghost struct Child {
    pub process: Result<Ref64, RuntimeError>,
    pub recording: bool,
    pub continuation: Result<Ref64, RuntimeError>,
}

/// What the kernel replied during a step, as far as it was asked.
pub ghost struct Replies {
    pub frame: Result<Seq<u8>, RuntimeError>,
    pub message: Result<Option<MessageDescriptor>, RuntimeError>,
    pub request: Option<u64>,
    pub future: Ref64,
    pub recording: bool,
    pub continuation: Result<Ref64, RuntimeError>,
    pub observed: Result<Option<Ref64>, RuntimeError>,
    pub value: Option<u64>,
    pub children: Seq<Child>,
    pub object_recording: bool,
    pub object: Ref64,
    pub settled: Result<(), RuntimeError>,
    pub awaited: Result<AwaitOutcome, RuntimeError>,
    pub stored: Result<Seq<u8>, RuntimeError>,
}

/// What a step does: its calls in order, and its result.
pub ghost struct Script {
    pub calls: Seq<Call>,
    pub result: StepResult,
}

/// The step that took the log from `before` to `after` followed the script.
pub open spec fn followed(s: Script, before: Seq<Call>, after: Seq<Call>, result: StepResult) -> bool {
    after == before + s.calls && result == s.result
}

pub open spec fn no_replies() -> Replies {
    Replies {
        frame: Err(RuntimeError::Unavailable),
        message: Err(RuntimeError::Unavailable),
        request: None,
        future: Ref64::of(0),
        recording: false,
        continuation: Err(RuntimeError::Unavailable),
        observed: Err(RuntimeError::Unavailable),
        value: None,
        children: Seq::empty(),
        object_recording: false,
        object: Ref64::of(0),
        settled: Err(RuntimeError::Unavailable),
        awaited: Err(RuntimeError::Unavailable),
        stored: Err(RuntimeError::Unavailable),
    }
}

pub open spec fn worth(value: Option<u64>) -> u64 {
    match value {
        Some(value) => value,
        None => 0,
    }
}

// ---- waiting for a request -------------------------------------------------

/// A read-only continuation of `run_class` with `frame`.
pub open spec fn reader(run_class: u32, frame: Seq<u8>) -> SpecView {
    SpecView {
        access: StateAccess::ReadOnly,
        run_class,
        priority: 0,
        frame,
        max_steps: DEFAULT_MAX_STEPS,
    }
}

/// The result of waiting for `future`.
pub open spec fn awaiting(
    process: Ref64,
    future: Ref64,
    reply: Result<AwaitOutcome, RuntimeError>,
    next: u32,
    fault: u32,
) -> StepResult {
    match reply {
        Ok(AwaitOutcome::Registered) => StepResult::Await { on: future, next },
        Ok(AwaitOutcome::AlreadySettled(_)) => StepResult::Yield { next },
        Err(_) => StepResult::Fault { process, run_class: fault },
    }
}

/// Receives a request, starts its heuristic, and waits for the future that the
/// heuristic resolves. A kernel that refuses a process its own continuation
/// faults the step.
pub open spec fn expand_0(frame: Ref64, cont: Ref64, process: Ref64, r: Replies) -> Script {
    let receiving = lane::receive_calls(process, cont, r.message);
    let fault = StepResult::Fault { process, run_class: EXPAND_RESUME_0 };
    match r.message {
        Err(_) => Script { calls: receiving, result: fault },
        Ok(None) => Script {
            calls: receiving,
            result: StepResult::Await { on: process, next: EXPAND_RESUME_0 },
        },
        Ok(Some(message)) => {
            let input = worth(r.request);
            let started = receiving + lane::read_u64_calls(process, message.payload, r.request)
                + lane::future_calls(process, r.future) + lane::continuation_calls(
                process,
                process,
                reader(
                    SEARCH_HEURISTIC,
                    HeuristicFrame { future: r.future, input }.encoded(),
                ),
                r.recording,
                r.continuation,
            );
            if r.continuation is Err {
                Script { calls: started, result: fault }
            } else {
                let held = ExpandView {
                    heuristic_future: r.future,
                    ..ExpandView::initial(input, message.sender)
                };
                Script {
                    calls: started + step::store_calls(frame, process, held.encoded(), r.stored)
                        + lane::await_calls(process, cont, r.future, EXPAND_RESUME_1, r.awaited),
                    result: awaiting(
                        process,
                        r.future,
                        r.awaited,
                        EXPAND_RESUME_1,
                        EXPAND_RESUME_0,
                    ),
                }
            }
        },
    }
}

fn expand_resume_0<K: Kernel>(lane: &mut LaneView<K>, cont: Ref64, process: Ref64) -> (result:
    StepResult)
    ensures
        exists|r: Replies|
            followed(
                #[trigger] expand_0(old(lane).frame, cont, process, r),
                old(lane).log(),
                final(lane).log(),
                result,
            ),
        final(lane).same_place(old(lane)),
{
    let ghost l0 = lane.log();
    let ghost f = lane.frame;
    let fault = StepResult::Fault { process, run_class: EXPAND_RESUME_0 };
    let received = lane.receive_message(process, cont);
    let ghost r1 = Replies { message: received, ..no_replies() };
    match received {
        Err(_) => {
            assert(followed(expand_0(f, cont, process, r1), l0, lane.log(), fault));
            fault
        },
        Ok(None) => {
            let result = StepResult::Await { on: process, next: EXPAND_RESUME_0 };
            assert(followed(expand_0(f, cont, process, r1), l0, lane.log(), result));
            result
        },
        Ok(Some(message)) => {
            let ghost l1 = lane.log();
            let request: Option<u64> = lane.read_u64_object(process, message.payload);
            let ghost l2 = lane.log();
            let input: u64 = match request {
                Some(value) => value,
                None => 0,
            };
            let mut held = ExpandFrame::initial(input, message.sender);
            let future: Ref64 = lane.create_future(process);
            let ghost l3 = lane.log();
            held.heuristic_future = future;
            let heuristic = HeuristicFrame { future, input };
            let mut content: Vec<u8> = Vec::new();
            heuristic.encode(&mut content);
            assert(content@ =~= heuristic.encoded());
            let spec = ContinuationSpec::new(
                StateAccess::ReadOnly,
                SEARCH_HEURISTIC,
                0,
                content,
                DEFAULT_MAX_STEPS,
            );
            let ghost wanted = spec@;
            let made = lane.create_continuation(process, process, spec);
            let ghost l4 = lane.log();
            let ghost recording = choose|recording: bool|
                l4 == l3 + #[trigger] lane::continuation_calls(
                    process,
                    process,
                    wanted,
                    recording,
                    made,
                );
            let ghost r2 = Replies { request, future, recording, continuation: made, ..r1 };
            let ghost started = lane::receive_calls(process, cont, received)
                + lane::read_u64_calls(process, message.payload, request) + lane::future_calls(
                process,
                future,
            ) + lane::continuation_calls(process, process, wanted, recording, made);
            assert(l4 =~= l0 + started);
            if made.is_err() {
                assert(followed(expand_0(f, cont, process, r2), l0, l4, fault));
                return fault;
            }
            let mut kept: Vec<u8> = Vec::new();
            held.encode(&mut kept);
            let ghost view = held@;
            assert(kept@ =~= view.encoded());
            store_bytes(lane, process, kept);
            let ghost l5 = lane.log();
            let ghost stored = choose|stored: Result<Seq<u8>, RuntimeError>|
                l5 == l4 + #[trigger] step::store_calls(f, process, kept@, stored);
            let awaited = lane.await_future(process, cont, future, EXPAND_RESUME_1);
            let result = match awaited {
                Ok(AwaitOutcome::Registered) => StepResult::Await {
                    on: future,
                    next: EXPAND_RESUME_1,
                },
                Ok(AwaitOutcome::AlreadySettled(_)) => StepResult::Yield { next: EXPAND_RESUME_1 },
                Err(_) => fault,
            };
            proof {
                let r = Replies { stored, awaited, ..r2 };
                let s = expand_0(f, cont, process, r);
                assert(view =~= (ExpandView {
                    heuristic_future: future,
                    ..ExpandView::initial(input, message.sender)
                }));
                assert(lane.log() =~= l0 + s.calls);
                assert(followed(s, l0, lane.log(), result));
            }
            result
        },
    }
}

// ---- generating moves ------------------------------------------------------

/// The expansion that the frame held, or an empty one that replies to the
/// process itself.
pub open spec fn loaded_expand(reply: Result<Seq<u8>, RuntimeError>, process: Ref64) -> ExpandView {
    match reply {
        Ok(content) => match ExpandView::read(content) {
            Some(held) => held,
            None => ExpandView::initial(0, process),
        },
        Err(_) => ExpandView::initial(0, process),
    }
}

/// The calls that look at `future`: a null one is not looked at.
pub open spec fn look_calls(
    process: Ref64,
    future: Ref64,
    reply: Result<Option<Ref64>, RuntimeError>,
) -> Seq<Call> {
    if future.raw == 0 {
        Seq::empty()
    } else {
        lane::observe_calls(process, future, reply)
    }
}

/// The multiples of a request that its moves go to.
pub open spec fn moves_of(request: u64) -> Seq<u64> {
    seq![request, request.wrapping_mul(2), request.wrapping_mul(3)]
}

/// Loads the heuristic's result, where the future has one, and generates the
/// moves. A refused look faults: that is not the same as a value to come.
pub open spec fn expand_1(frame: Ref64, process: Ref64, r: Replies) -> Script {
    let held = loaded_expand(r.frame, process);
    let future = held.heuristic_future;
    let looked = lane::read_calls(process, frame, r.frame) + look_calls(
        process,
        future,
        r.observed,
    );
    if future.raw != 0 && r.observed is Err {
        Script {
            calls: looked,
            result: StepResult::Fault { process, run_class: EXPAND_RESUME_1 },
        }
    } else {
        let seen = if future.raw != 0 {
            r.observed->Ok_0
        } else {
            None
        };
        let next = ExpandView {
            heuristic_result: match seen {
                Some(_) => worth(r.value),
                None => held.heuristic_result,
            },
            moves: moves_of(held.request_value),
            ..held
        };
        Script {
            calls: looked + (match seen {
                Some(object) => lane::read_u64_calls(process, object, r.value),
                None => Seq::empty(),
            }) + step::store_calls(frame, process, next.encoded(), r.stored),
            result: StepResult::Yield { next: EXPAND_RESUME_2 },
        }
    }
}

fn load_expand<K: Kernel>(lane: &mut LaneView<K>, process: Ref64) -> (out: (
    Ghost<Result<Seq<u8>, RuntimeError>>,
    ExpandFrame,
))
    ensures
        final(lane).log() == old(lane).log() + lane::read_calls(
            process,
            old(lane).frame,
            out.0@,
        ),
        out.1@ == loaded_expand(out.0@, process),
        out.1@.moves.len() <= u32::MAX,
        final(lane).same_place(old(lane)),
{
    let reply = frame_bytes(lane, process);
    let ghost seen = kernel::replied_bytes(reply);
    if let Ok(content) = reply {
        if let Some(held) = ExpandFrame::decode(content.as_slice()) {
            proof {
                ant_colony::lemma_list_is_short(content@, 44);
            }
            return (Ghost(seen), held);
        }
    }
    (Ghost(seen), ExpandFrame::initial(0, process))
}

fn store_expand<K: Kernel>(lane: &mut LaneView<K>, process: Ref64, held: &ExpandFrame)
    requires
        held@.moves.len() <= u32::MAX,
    ensures
        exists|stored: Result<Seq<u8>, RuntimeError>|
            final(lane).log() == old(lane).log() + #[trigger] step::store_calls(
                old(lane).frame,
                process,
                held@.encoded(),
                stored,
            ),
        final(lane).same_place(old(lane)),
{
    let mut content: Vec<u8> = Vec::new();
    held.encode(&mut content);
    assert(content@ =~= held@.encoded());
    store_bytes(lane, process, content);
}

fn expand_resume_1<K: Kernel>(lane: &mut LaneView<K>, process: Ref64) -> (result: StepResult)
    ensures
        exists|r: Replies|
            followed(
                #[trigger] expand_1(old(lane).frame, process, r),
                old(lane).log(),
                final(lane).log(),
                result,
            ),
        final(lane).same_place(old(lane)),
{
    let ghost l0 = lane.log();
    let ghost f = lane.frame;
    let (Ghost(seen), mut held) = load_expand(lane, process);
    let ghost view = held@;
    let ghost mut r = Replies { frame: seen, ..no_replies() };
    let ghost l1 = lane.log();
    let mut object: Option<Ref64> = None;
    if !held.heuristic_future.is_null() {
        let observed = lane.future_value(process, held.heuristic_future);
        proof {
            r = Replies { observed, ..r };
        }
        match observed {
            Ok(seen) => {
                object = seen;
            },
            Err(_) => {
                let result = StepResult::Fault { process, run_class: EXPAND_RESUME_1 };
                proof {
                    let s = expand_1(f, process, r);
                    assert(lane.log() =~= l0 + s.calls);
                    assert(followed(s, l0, lane.log(), result));
                }
                return result;
            },
        }
    }
    let ghost l2 = lane.log();
    assert(l2 =~= l1 + look_calls(process, view.heuristic_future, r.observed));
    if let Some(object) = object {
        let value: Option<u64> = lane.read_u64_object(process, object);
        proof {
            r = Replies { value, ..r };
        }
        held.heuristic_result = match value {
            Some(value) => value,
            None => 0,
        };
    }
    let ghost l3 = lane.log();
    let request: u64 = held.request_value;
    held.moves = vec![request, request.wrapping_mul(2), request.wrapping_mul(3)];
    store_expand(lane, process, &held);
    let result = StepResult::Yield { next: EXPAND_RESUME_2 };
    proof {
        let stored = choose|stored: Result<Seq<u8>, RuntimeError>|
            lane.log() == l3 + #[trigger] step::store_calls(f, process, held@.encoded(), stored);
        r = Replies { stored, ..r };
        let next = ExpandView {
            heuristic_result: held@.heuristic_result,
            moves: moves_of(view.request_value),
            ..view
        };
        assert(held@ =~= next);
        let s = expand_1(f, process, r);
        assert(lane.log() =~= l0 + s.calls);
        assert(followed(s, l0, lane.log(), result));
    }
    result
}

// ---- starting children -----------------------------------------------------

pub open spec fn child_is_up(c: Child) -> bool {
    c.process is Ok && c.continuation is Ok
}

/// The calls that start a child for search node `node`.
pub open spec fn child_calls(process: Ref64, node: SearchFrame, run_class: u32, c: Child) -> Seq<Call> {
    let made = lane::process_calls(process, ProcessMode::Serial, c.process);
    match c.process {
        Ok(child) => made + lane::continuation_calls(
            process,
            child,
            reader(run_class, node.encoded()),
            c.recording,
            c.continuation,
        ),
        Err(_) => made,
    }
}

/// The calls that start the first `n` children, one for each node.
pub open spec fn children_calls(
    process: Ref64,
    nodes: Seq<(SearchFrame, u32)>,
    children: Seq<Child>,
    n: int,
) -> Seq<Call>
    decreases n,
{
    if n <= 0 {
        Seq::empty()
    } else {
        children_calls(process, nodes, children, n - 1) + child_calls(
            process,
            nodes[n - 1].0,
            nodes[n - 1].1,
            children[n - 1],
        )
    }
}

/// How many of `limit` children come up before one does not.
pub open spec fn up_before(children: Seq<Child>, limit: nat, n: int) -> int
    decreases limit - n,
{
    if n >= limit || !child_is_up(children[n]) {
        n
    } else {
        up_before(children, limit, n + 1)
    }
}

pub open spec fn tries(children: Seq<Child>, limit: nat) -> int {
    let up = up_before(children, limit, 0);
    if up < limit {
        up + 1
    } else {
        up
    }
}

pub proof fn lemma_up(children: Seq<Child>, limit: nat, n: int, from: int)
    requires
        0 <= from <= n <= limit,
        forall|i: int| 0 <= i < n ==> child_is_up(#[trigger] children[i]),
    ensures
        n == limit ==> up_before(children, limit, from) == limit,
        n < limit && !child_is_up(children[n]) ==> up_before(children, limit, from) == n,
    decreases n - from,
{
    if from < n {
        lemma_up(children, limit, n, from + 1);
    } else if n == limit {
    } else {
        reveal_with_fuel(up_before, 2);
    }
}

proof fn lemma_children_extend(
    process: Ref64,
    nodes: Seq<(SearchFrame, u32)>,
    a: Seq<Child>,
    b: Seq<Child>,
    n: int,
)
    requires
        forall|i: int| 0 <= i < n ==> a[i] == b[i],
    ensures
        children_calls(process, nodes, a, n) == children_calls(process, nodes, b, n),
    decreases n,
{
    if n > 0 {
        lemma_children_extend(process, nodes, a, b, n - 1);
    }
}

fn start_child<K: Kernel>(lane: &mut LaneView<K>, process: Ref64, node: &SearchFrame, run_class: u32) -> (out: (
    bool,
    Ghost<Child>,
))
    ensures
        final(lane).log() == old(lane).log() + child_calls(process, *node, run_class, out.1@),
        out.0 == child_is_up(out.1@),
        final(lane).same_place(old(lane)),
{
    let ghost l0 = lane.log();
    let made = lane.create_process(process, ProcessMode::Serial);
    let ghost l1 = lane.log();
    let child: Ref64 = match made {
        Ok(child) => child,
        Err(_) => {
            return (
                false,
                Ghost(Child { process: made, recording: false, continuation: made }),
            );
        },
    };
    let mut content: Vec<u8> = Vec::new();
    node.encode(&mut content);
    assert(content@ =~= node.encoded());
    let spec = ContinuationSpec::new(
        StateAccess::ReadOnly,
        run_class,
        0,
        content,
        DEFAULT_MAX_STEPS,
    );
    let ghost wanted = spec@;
    let reply = lane.create_continuation(process, child, spec);
    let ghost recording = choose|recording: bool|
        lane.log() == l1 + #[trigger] lane::continuation_calls(
            process,
            child,
            wanted,
            recording,
            reply,
        );
    let ghost c = Child { process: made, recording, continuation: reply };
    assert(lane.log() =~= l0 + child_calls(process, *node, run_class, c));
    (reply.is_ok(), Ghost(c))
}

/// The leaves that the moves still to be made go to.
pub open spec fn leaves_of(held: ExpandView) -> Seq<(SearchFrame, u32)> {
    Seq::new(
        if held.move_index < held.moves.len() {
            (held.moves.len() - held.move_index) as nat
        } else {
            0
        },
        |i: int|
            (
                SearchFrame {
                    value: held.moves[held.move_index + i],
                    depth: 0,
                    branching: 0,
                    work_iters: 0,
                    class_count: 1,
                },
                SEARCH_BRANCH,
            ),
    )
}

/// The result of sending a reply.
pub open spec fn sent(
    process: Ref64,
    receiver: Ref64,
    reply: Result<(), RuntimeError>,
) -> StepResult {
    match reply {
        Ok(_) => StepResult::Complete,
        Err(RuntimeError::MailboxFull) => StepResult::Await {
            on: receiver,
            next: EXPAND_RESUME_2,
        },
        Err(_) => StepResult::Fault { process, run_class: EXPAND_RESUME_2 },
    }
}

/// Starts a child for each move, then sends the reply. Children and payload are
/// recorded in the frame as they come to be, so that a step that is taken again
/// goes on where it left off. A child that does not come up faults the step.
pub open spec fn expand_2(frame: Ref64, cont: Ref64, process: Ref64, r: Replies) -> Script {
    let held = loaded_expand(r.frame, process);
    let leaves = leaves_of(held);
    let up = up_before(r.children, leaves.len(), 0);
    let spawned = lane::read_calls(process, frame, r.frame) + children_calls(
        process,
        leaves,
        r.children,
        tries(r.children, leaves.len()),
    );
    let moved = ExpandView { move_index: (held.move_index + up) as u32, ..held };
    if up < leaves.len() {
        Script {
            calls: spawned + step::store_calls(frame, process, moved.encoded(), r.stored),
            result: StepResult::Fault { process, run_class: 0 },
        }
    } else {
        let fresh = held.reply_payload.raw == 0;
        let ready = if fresh {
            ExpandView { reply_payload: r.object, ..moved }
        } else {
            moved
        };
        Script {
            calls: spawned + (if fresh {
                lane::object_calls(
                    process,
                    ObjectKind::MessagePayload,
                    bytes::le_bytes(held.heuristic_result as nat, 8),
                    r.object_recording,
                    r.object,
                )
            } else {
                Seq::empty()
            }) + step::store_calls(frame, process, ready.encoded(), r.stored)
                + lane::enqueue_calls(
                process,
                held.reply_receiver,
                ready.reply_payload,
                cont,
                r.settled,
            ),
            result: sent(process, held.reply_receiver, r.settled),
        }
    }
}

fn eight_bytes(value: u64) -> (content: Vec<u8>)
    ensures
        content@ == bytes::le_bytes(value as nat, 8),
{
    let mut content: Vec<u8> = Vec::new();
    bytes::put_le(&mut content, value, 8);
    assert(content@ =~= bytes::le_bytes(value as nat, 8));
    content
}

fn expand_resume_2<K: Kernel>(lane: &mut LaneView<K>, cont: Ref64, process: Ref64) -> (result:
    StepResult)
    ensures
        exists|r: Replies|
            followed(
                #[trigger] expand_2(old(lane).frame, cont, process, r),
                old(lane).log(),
                final(lane).log(),
                result,
            ),
        final(lane).same_place(old(lane)),
{
    let ghost l0 = lane.log();
    let ghost f = lane.frame;
    let (Ghost(seen), mut held) = load_expand(lane, process);
    let ghost view = held@;
    let ghost l1 = lane.log();
    let ghost leaves = leaves_of(view);
    let ghost mut children: Seq<Child> = Seq::empty();
    assert(l1 + children_calls(process, leaves, children, 0) =~= l1);
    while (held.move_index as usize) < held.moves.len()
        invariant
            lane.same_place(old(lane)),
            f == old(lane).frame,
            l0 == old(lane).log(),
            l1 == l0 + lane::read_calls(process, f, seen),
            view == loaded_expand(seen, process),
            view.moves.len() <= u32::MAX,
            leaves == leaves_of(view),
            held@ == (ExpandView {
                move_index: (view.move_index + children.len()) as u32,
                ..view
            }),
            children.len() <= leaves.len(),
            forall|i: int| 0 <= i < children.len() ==> child_is_up(#[trigger] children[i]),
            lane.log() == l1 + children_calls(process, leaves, children, children.len() as int),
        decreases leaves.len() - children.len(),
    {
        let node = SearchFrame::leaf(held.moves[held.move_index as usize], 0);
        let ghost before = lane.log();
        let ghost n = children.len() as int;
        let (up, Ghost(child)) = start_child(lane, process, &node, SEARCH_BRANCH);
        proof {
            assert(leaves[n] == (node, SEARCH_BRANCH));
            let more = children.push(child);
            lemma_children_extend(process, leaves, children, more, n);
            assert(lane.log() =~= l1 + children_calls(process, leaves, more, n + 1));
            lemma_up(more, leaves.len(), n, 0);
            children = more;
        }
        if !up {
            let ghost l2 = lane.log();
            store_expand(lane, process, &held);
            let result = StepResult::Fault { process, run_class: 0 };
            proof {
                let stored = choose|stored: Result<Seq<u8>, RuntimeError>|
                    lane.log() == l2 + #[trigger] step::store_calls(
                        f,
                        process,
                        held@.encoded(),
                        stored,
                    );
                let r = Replies { frame: seen, children, stored, ..no_replies() };
                let s = expand_2(f, cont, process, r);
                assert(lane.log() =~= l0 + s.calls);
                assert(followed(s, l0, lane.log(), result));
            }
            return result;
        }
        held.move_index = held.move_index + 1;
        assert(held@ =~= (ExpandView {
            move_index: (view.move_index + children.len()) as u32,
            ..view
        }));
    }
    proof {
        assert(children.len() == leaves.len());
        lemma_up(children, leaves.len(), leaves.len() as int, 0);
    }
    let ghost moved = held@;
    let ghost l2 = lane.log();
    let ghost mut r = Replies { frame: seen, children, ..no_replies() };
    if held.reply_payload.is_null() {
        let content: Vec<u8> = eight_bytes(held.heuristic_result);
        let ghost payload = content@;
        let object: Ref64 = lane.create_object(process, ObjectKind::MessagePayload, content);
        proof {
            let object_recording = choose|recording: bool|
                lane.log() == l2 + #[trigger] lane::object_calls(
                    process,
                    ObjectKind::MessagePayload,
                    payload,
                    recording,
                    object,
                );
            r = Replies { object, object_recording, ..r };
        }
        held.reply_payload = object;
    }
    let ghost l3 = lane.log();
    store_expand(lane, process, &held);
    let ghost l4 = lane.log();
    let reply = lane.enqueue_message(process, held.reply_receiver, held.reply_payload, cont);
    let result = match reply {
        Ok(_) => StepResult::Complete,
        Err(RuntimeError::MailboxFull) => StepResult::Await {
            on: held.reply_receiver,
            next: EXPAND_RESUME_2,
        },
        Err(_) => StepResult::Fault { process, run_class: EXPAND_RESUME_2 },
    };
    proof {
        let stored = choose|stored: Result<Seq<u8>, RuntimeError>|
            l4 == l3 + #[trigger] step::store_calls(f, process, held@.encoded(), stored);
        r = Replies { stored, settled: reply, ..r };
        let ready = if view.reply_payload.raw == 0 {
            ExpandView { reply_payload: r.object, ..moved }
        } else {
            moved
        };
        assert(held@ =~= ready);
        let s = expand_2(f, cont, process, r);
        assert(lane.log() =~= l0 + s.calls);
        assert(followed(s, l0, lane.log(), result));
    }
    result
}

// ---- resolving a heuristic -------------------------------------------------

pub open spec fn loaded_heuristic(reply: Result<Seq<u8>, RuntimeError>) -> HeuristicFrame {
    let none = HeuristicFrame { future: Ref64::of(0), input: 0 };
    match reply {
        Ok(content) => match HeuristicFrame::read(content) {
            Some(held) => held,
            None => none,
        },
        Err(_) => none,
    }
}

/// Publishes twice the input and one more into the future.
pub open spec fn heuristic_script(frame: Ref64, process: Ref64, r: Replies) -> Script {
    let held = loaded_heuristic(r.frame);
    let value = held.input.wrapping_mul(2).wrapping_add(1);
    Script {
        calls: lane::read_calls(process, frame, r.frame) + lane::object_calls(
            process,
            ObjectKind::FutureValue,
            bytes::le_bytes(value as nat, 8),
            r.object_recording,
            r.object,
        ) + lane::resolve_calls(process, held.future, r.object, r.settled),
        result: match r.settled {
            Ok(_) => StepResult::Complete,
            Err(_) => StepResult::Fault { process, run_class: SEARCH_HEURISTIC },
        },
    }
}

fn heuristic<K: Kernel>(lane: &mut LaneView<K>, process: Ref64) -> (result: StepResult)
    ensures
        exists|r: Replies|
            followed(
                #[trigger] heuristic_script(old(lane).frame, process, r),
                old(lane).log(),
                final(lane).log(),
                result,
            ),
        final(lane).same_place(old(lane)),
{
    let ghost l0 = lane.log();
    let ghost f = lane.frame;
    let reply = frame_bytes(lane, process);
    let ghost seen = kernel::replied_bytes(reply);
    let ghost l1 = lane.log();
    let mut held = HeuristicFrame { future: Ref64::null(), input: 0 };
    if let Ok(content) = reply {
        if let Some(decoded) = HeuristicFrame::decode(content.as_slice()) {
            held = decoded;
        }
    }
    assert(held == loaded_heuristic(seen));
    let content: Vec<u8> = eight_bytes(held.input.wrapping_mul(2).wrapping_add(1));
    let ghost payload = content@;
    let object: Ref64 = lane.create_object(process, ObjectKind::FutureValue, content);
    let ghost l2 = lane.log();
    let settled = lane.resolve_future(process, held.future, object);
    let result = match settled {
        Ok(_) => StepResult::Complete,
        Err(_) => StepResult::Fault { process, run_class: SEARCH_HEURISTIC },
    };
    proof {
        let object_recording = choose|recording: bool|
            l2 == l1 + #[trigger] lane::object_calls(
                process,
                ObjectKind::FutureValue,
                payload,
                recording,
                object,
            );
        let r = Replies { frame: seen, object, object_recording, settled, ..no_replies() };
        let s = heuristic_script(f, process, r);
        assert(lane.log() =~= l0 + s.calls);
        assert(followed(s, l0, lane.log(), result));
    }
    result
}

// ---- joining and polling ---------------------------------------------------

pub open spec fn loaded_join(reply: Result<Seq<u8>, RuntimeError>) -> JoinFrame {
    let none = JoinFrame { future: Ref64::of(0), observed: Ref64::of(0) };
    match reply {
        Ok(content) => match JoinFrame::read(content) {
            Some(held) => held,
            None => none,
        },
        Err(_) => none,
    }
}

fn load_join<K: Kernel>(lane: &mut LaneView<K>, process: Ref64) -> (out: (
    Ghost<Result<Seq<u8>, RuntimeError>>,
    JoinFrame,
))
    ensures
        final(lane).log() == old(lane).log() + lane::read_calls(
            process,
            old(lane).frame,
            out.0@,
        ),
        out.1 == loaded_join(out.0@),
        final(lane).same_place(old(lane)),
{
    let reply = frame_bytes(lane, process);
    let ghost seen = kernel::replied_bytes(reply);
    if let Ok(content) = reply {
        if let Some(decoded) = JoinFrame::decode(content.as_slice()) {
            return (Ghost(seen), decoded);
        }
    }
    (Ghost(seen), JoinFrame { future: Ref64::null(), observed: Ref64::null() })
}

/// Waits for a future that this continuation did not create. A future that is
/// settled already wakes nobody, so the step goes on at once.
pub open spec fn join_script(frame: Ref64, cont: Ref64, process: Ref64, r: Replies) -> Script {
    let held = loaded_join(r.frame);
    Script {
        calls: lane::read_calls(process, frame, r.frame) + lane::await_calls(
            process,
            cont,
            held.future,
            JOIN_RESUME,
            r.awaited,
        ),
        result: awaiting(process, held.future, r.awaited, JOIN_RESUME, JOIN_AWAIT),
    }
}

fn join_await<K: Kernel>(lane: &mut LaneView<K>, cont: Ref64, process: Ref64) -> (result:
    StepResult)
    ensures
        exists|r: Replies|
            followed(
                #[trigger] join_script(old(lane).frame, cont, process, r),
                old(lane).log(),
                final(lane).log(),
                result,
            ),
        final(lane).same_place(old(lane)),
{
    let ghost l0 = lane.log();
    let ghost f = lane.frame;
    let (Ghost(seen), held) = load_join(lane, process);
    let awaited = lane.await_future(process, cont, held.future, JOIN_RESUME);
    let result = match awaited {
        Ok(AwaitOutcome::Registered) => StepResult::Await { on: held.future, next: JOIN_RESUME },
        Ok(AwaitOutcome::AlreadySettled(_)) => StepResult::Yield { next: JOIN_RESUME },
        Err(_) => StepResult::Fault { process, run_class: JOIN_AWAIT },
    };
    proof {
        let r = Replies { frame: seen, awaited, ..no_replies() };
        let s = join_script(f, cont, process, r);
        assert(lane.log() =~= l0 + s.calls);
        assert(followed(s, l0, lane.log(), result));
    }
    result
}

/// Keeps in the frame what the future was seen to hold, then goes on as
/// `after`. A refused look faults as `class`.
pub open spec fn look_script(
    frame: Ref64,
    process: Ref64,
    class: u32,
    after: StepResult,
    r: Replies,
) -> Script {
    let held = loaded_join(r.frame);
    let looked = lane::read_calls(process, frame, r.frame) + look_calls(
        process,
        held.future,
        r.observed,
    );
    if held.future.raw != 0 && r.observed is Err {
        Script { calls: looked, result: StepResult::Fault { process, run_class: class } }
    } else {
        let next = JoinFrame {
            observed: if held.future.raw == 0 {
                held.observed
            } else {
                match r.observed->Ok_0 {
                    Some(object) => object,
                    None => Ref64::of(0),
                }
            },
            ..held
        };
        Script {
            calls: looked + step::store_calls(frame, process, next.encoded(), r.stored),
            result: after,
        }
    }
}

fn look<K: Kernel>(lane: &mut LaneView<K>, process: Ref64, class: u32, after: StepResult) -> (result:
    StepResult)
    ensures
        exists|r: Replies|
            followed(
                #[trigger] look_script(old(lane).frame, process, class, after, r),
                old(lane).log(),
                final(lane).log(),
                result,
            ),
        final(lane).same_place(old(lane)),
{
    let ghost l0 = lane.log();
    let ghost f = lane.frame;
    let (Ghost(seen), mut held) = load_join(lane, process);
    let ghost view = held;
    let ghost l1 = lane.log();
    let ghost mut r = Replies { frame: seen, ..no_replies() };
    if !held.future.is_null() {
        let observed = lane.future_value(process, held.future);
        proof {
            r = Replies { observed, ..r };
        }
        match observed {
            Ok(Some(object)) => {
                held.observed = object;
            },
            Ok(None) => {
                held.observed = Ref64::null();
            },
            Err(_) => {
                let result = StepResult::Fault { process, run_class: class };
                proof {
                    let s = look_script(f, process, class, after, r);
                    assert(lane.log() =~= l0 + s.calls);
                    assert(followed(s, l0, lane.log(), result));
                }
                return result;
            },
        }
    }
    let ghost l2 = lane.log();
    assert(l2 =~= l1 + look_calls(process, view.future, r.observed));
    let mut content: Vec<u8> = Vec::new();
    held.encode(&mut content);
    assert(content@ =~= held.encoded());
    store_bytes(lane, process, content);
    proof {
        let stored = choose|stored: Result<Seq<u8>, RuntimeError>|
            lane.log() == l2 + #[trigger] step::store_calls(f, process, content@, stored);
        r = Replies { stored, ..r };
        let s = look_script(f, process, class, after, r);
        assert(lane.log() =~= l0 + s.calls);
        assert(followed(s, l0, lane.log(), after));
    }
    after
}

/// Acts on what a poll saw: a message to the process's own mailbox, where the
/// poll saw a value.
pub open spec fn act_script(frame: Ref64, cont: Ref64, process: Ref64, r: Replies) -> Script {
    let held = loaded_join(r.frame);
    let loading = lane::read_calls(process, frame, r.frame);
    if held.observed.raw == 0 {
        Script { calls: loading, result: StepResult::Complete }
    } else {
        Script {
            calls: loading + lane::object_calls(
                process,
                ObjectKind::MessagePayload,
                bytes::le_bytes(held.observed.place() as nat, 4),
                r.object_recording,
                r.object,
            ) + lane::enqueue_calls(process, process, r.object, cont, r.settled),
            result: match r.settled {
                Ok(_) => StepResult::Complete,
                Err(_) => StepResult::Fault { process, run_class: POLL_ACT },
            },
        }
    }
}

fn poll_act<K: Kernel>(lane: &mut LaneView<K>, cont: Ref64, process: Ref64) -> (result: StepResult)
    ensures
        exists|r: Replies|
            followed(
                #[trigger] act_script(old(lane).frame, cont, process, r),
                old(lane).log(),
                final(lane).log(),
                result,
            ),
        final(lane).same_place(old(lane)),
{
    let ghost l0 = lane.log();
    let ghost f = lane.frame;
    let (Ghost(seen), held) = load_join(lane, process);
    let ghost l1 = lane.log();
    if held.observed.is_null() {
        let result = StepResult::Complete;
        proof {
            let s = act_script(f, cont, process, Replies { frame: seen, ..no_replies() });
            assert(followed(s, l0, lane.log(), result));
        }
        return result;
    }
    let mut content: Vec<u8> = Vec::new();
    bytes::put_le(&mut content, held.observed.slot() as u64, 4);
    let ghost payload = content@;
    assert(payload =~= bytes::le_bytes(held.observed.place() as nat, 4));
    let object: Ref64 = lane.create_object(process, ObjectKind::MessagePayload, content);
    let ghost l2 = lane.log();
    let settled = lane.enqueue_message(process, process, object, cont);
    let result = match settled {
        Ok(_) => StepResult::Complete,
        Err(_) => StepResult::Fault { process, run_class: POLL_ACT },
    };
    proof {
        let object_recording = choose|recording: bool|
            l2 == l1 + #[trigger] lane::object_calls(
                process,
                ObjectKind::MessagePayload,
                payload,
                recording,
                object,
            );
        let r = Replies { frame: seen, object, object_recording, settled, ..no_replies() };
        let s = act_script(f, cont, process, r);
        assert(lane.log() =~= l0 + s.calls);
        assert(followed(s, l0, lane.log(), result));
    }
    result
}

// ---- search nodes ----------------------------------------------------------

pub open spec fn loaded_search(reply: Result<Seq<u8>, RuntimeError>) -> SearchFrame {
    match reply {
        Ok(content) => if content.len() >= 24 {
            SearchFrame::read(content)
        } else {
            SearchFrame { value: 0, depth: 0, branching: 0, work_iters: 0, class_count: 1 }
        },
        Err(_) => SearchFrame { value: 0, depth: 0, branching: 0, work_iters: 0, class_count: 1 },
    }
}

/// The `i`th child of a node: one less deep, with its own value.
pub open spec fn nth_child(node: SearchFrame, i: int) -> SearchFrame {
    SearchFrame {
        value: node.value.wrapping_add(i as u64),
        depth: (node.depth - 1) as u32,
        ..node
    }
}

pub open spec fn children_of(node: SearchFrame) -> Seq<(SearchFrame, u32)> {
    Seq::new(
        node.branching as nat,
        |i: int| (nth_child(node, i), nth_child(node, i).class()),
    )
}

/// One node of class `index`: its arithmetic, then a child for each branch, or
/// the end of a leaf. A child that does not come up faults the node.
pub open spec fn search_script(frame: Ref64, process: Ref64, index: u32, r: Replies) -> Script {
    let held = loaded_search(r.frame);
    let node = SearchFrame {
        value: state_machine_lowering::searched(held.value, held.work_iters as nat, index),
        ..held
    };
    let loading = lane::read_calls(process, frame, r.frame);
    if node.depth == 0 {
        Script {
            calls: loading + step::store_calls(frame, process, node.encoded(), r.stored),
            result: StepResult::Complete,
        }
    } else {
        let nodes = children_of(node);
        let spawned = loading + children_calls(
            process,
            nodes,
            r.children,
            tries(r.children, nodes.len()),
        );
        if up_before(r.children, nodes.len(), 0) < nodes.len() {
            Script {
                calls: spawned + step::store_calls(frame, process, node.encoded(), r.stored),
                result: StepResult::Fault { process, run_class: 0 },
            }
        } else {
            Script { calls: spawned, result: StepResult::Spawn { process, run_class: 0 } }
        }
    }
}

fn search_branch<K: Kernel>(lane: &mut LaneView<K>, process: Ref64, index: u32) -> (result:
    StepResult)
    ensures
        exists|r: Replies|
            followed(
                #[trigger] search_script(old(lane).frame, process, index, r),
                old(lane).log(),
                final(lane).log(),
                result,
            ),
        final(lane).same_place(old(lane)),
{
    let ghost l0 = lane.log();
    let ghost f = lane.frame;
    let reply = frame_bytes(lane, process);
    let ghost seen = kernel::replied_bytes(reply);
    let ghost l1 = lane.log();
    let mut node = SearchFrame {
        value: 0,
        depth: 0,
        branching: 0,
        work_iters: 0,
        class_count: 1,
    };
    if let Ok(content) = reply {
        if let Some(decoded) = SearchFrame::decode(content.as_slice()) {
            node = decoded;
        }
    }
    assert(node == loaded_search(seen));
    node.value = search_step(node.value, node.work_iters, index);
    let mut kept: Vec<u8> = Vec::new();
    node.encode(&mut kept);
    assert(kept@ =~= node.encoded());
    if node.depth == 0 {
        store_bytes(lane, process, kept);
        let result = StepResult::Complete;
        proof {
            let stored = choose|stored: Result<Seq<u8>, RuntimeError>|
                lane.log() == l1 + #[trigger] step::store_calls(f, process, kept@, stored);
            let r = Replies { frame: seen, stored, ..no_replies() };
            let s = search_script(f, process, index, r);
            assert(lane.log() =~= l0 + s.calls);
            assert(followed(s, l0, lane.log(), result));
        }
        return result;
    }
    let ghost nodes = children_of(node);
    let ghost mut children: Seq<Child> = Seq::empty();
    assert(l1 + children_calls(process, nodes, children, 0) =~= l1);
    let mut i: u32 = 0;
    while i < node.branching
        invariant
            i <= node.branching,
            node.depth > 0,
            lane.same_place(old(lane)),
            f == old(lane).frame,
            l0 == old(lane).log(),
            l1 == l0 + lane::read_calls(process, f, seen),
            node == (SearchFrame {
                value: state_machine_lowering::searched(
                    loaded_search(seen).value,
                    loaded_search(seen).work_iters as nat,
                    index,
                ),
                ..loaded_search(seen)
            }),
            kept@ == node.encoded(),
            nodes == children_of(node),
            children.len() == i,
            forall|i: int| 0 <= i < children.len() ==> child_is_up(#[trigger] children[i]),
            lane.log() == l1 + children_calls(process, nodes, children, i as int),
        decreases node.branching - i,
    {
        let child_node = SearchFrame {
            value: node.value.wrapping_add(i as u64),
            depth: node.depth - 1,
            branching: node.branching,
            work_iters: node.work_iters,
            class_count: node.class_count,
        };
        let run_class: u32 = child_node.run_class();
        let ghost before = lane.log();
        let (up, Ghost(child)) = start_child(lane, process, &child_node, run_class);
        proof {
            let n = i as int;
            assert(nodes[n] == (child_node, run_class));
            let more = children.push(child);
            lemma_children_extend(process, nodes, children, more, n);
            assert(lane.log() =~= l1 + children_calls(process, nodes, more, n + 1));
            lemma_up(more, nodes.len(), n, 0);
            children = more;
        }
        if !up {
            let ghost l2 = lane.log();
            store_bytes(lane, process, kept);
            let result = StepResult::Fault { process, run_class: 0 };
            proof {
                let stored = choose|stored: Result<Seq<u8>, RuntimeError>|
                    lane.log() == l2 + #[trigger] step::store_calls(f, process, kept@, stored);
                let r = Replies { frame: seen, children, stored, ..no_replies() };
                let s = search_script(f, process, index, r);
                assert(lane.log() =~= l0 + s.calls);
                assert(followed(s, l0, lane.log(), result));
            }
            return result;
        }
        i = i + 1;
    }
    let result = StepResult::Spawn { process, run_class: 0 };
    proof {
        lemma_up(children, nodes.len(), nodes.len() as int, 0);
        let r = Replies { frame: seen, children, ..no_replies() };
        let s = search_script(f, process, index, r);
        assert(lane.log() =~= l0 + s.calls);
        assert(followed(s, l0, lane.log(), result));
    }
    result
}

// ---- the switch ------------------------------------------------------------

/// The script of a run class that the executive handles itself.
pub open spec fn script_of(frame: Ref64, cont: Ref64, process: Ref64, rc: u32, r: Replies) -> Script {
    if rc == EXPAND_RESUME_0 {
        expand_0(frame, cont, process, r)
    } else if rc == EXPAND_RESUME_1 {
        expand_1(frame, process, r)
    } else if rc == EXPAND_RESUME_2 {
        expand_2(frame, cont, process, r)
    } else if rc == SEARCH_HEURISTIC {
        heuristic_script(frame, process, r)
    } else if rc == JOIN_AWAIT {
        join_script(frame, cont, process, r)
    } else if rc == JOIN_RESUME {
        look_script(frame, process, JOIN_RESUME, StepResult::Complete, r)
    } else if rc == POLL_FUTURE {
        look_script(frame, process, POLL_FUTURE, StepResult::Yield { next: POLL_ACT }, r)
    } else if rc == POLL_ACT {
        act_script(frame, cont, process, r)
    } else {
        match run_classes::search_index(rc) {
            Some(index) => search_script(frame, process, index, r),
            None => Script {
                calls: Seq::empty(),
                result: StepResult::Fault { process, run_class: rc },
            },
        }
    }
}

/// One step of a continuation of run class `rc`: the class decides what is
/// done, and a class that nobody handles faults.
pub fn dispatch<K: Kernel>(lane: &mut LaneView<K>, cont: Ref64, process: Ref64, rc: u32) -> (result:
    StepResult)
    ensures
        rc == COLONY_AGGREGATE ==> exists|r: ColonyReplies| #[trigger]
            ant_colony::colony_stepped(
                old(lane).frame,
                process,
                old(lane).kernel.epoch(),
                r,
                old(lane).log(),
                final(lane).log(),
                result,
            ),
        rc == WORLD_STEP ==> exists|r: WorldReplies| #[trigger]
            ant_colony::world_stepped(
                old(lane).frame,
                process,
                old(lane).kernel.epoch(),
                r,
                old(lane).log(),
                final(lane).log(),
                result,
            ),
        run_classes::ant_index(rc) is Some ==> exists|r: AntReplies| #[trigger]
            ant_colony::ant_stepped(
                old(lane).frame,
                process,
                old(lane).kernel.epoch(),
                rc as int,
                r,
                old(lane).log(),
                final(lane).log(),
                result,
            ),
        rc != COLONY_AGGREGATE && rc != WORLD_STEP && run_classes::ant_index(rc) is None ==> exists|
            r: Replies,
        |
            followed(
                #[trigger] script_of(old(lane).frame, cont, process, rc, r),
                old(lane).log(),
                final(lane).log(),
                result,
            ),
        final(lane).same_place(old(lane)),
{
    let ghost f = lane.frame;
    let ghost l0 = lane.log();
    let result = if rc == EXPAND_RESUME_0 {
        expand_resume_0(lane, cont, process)
    } else if rc == EXPAND_RESUME_1 {
        expand_resume_1(lane, process)
    } else if rc == EXPAND_RESUME_2 {
        expand_resume_2(lane, cont, process)
    } else if rc == SEARCH_HEURISTIC {
        heuristic(lane, process)
    } else if rc == JOIN_AWAIT {
        join_await(lane, cont, process)
    } else if rc == JOIN_RESUME {
        look(lane, process, JOIN_RESUME, StepResult::Complete)
    } else if rc == POLL_FUTURE {
        look(lane, process, POLL_FUTURE, StepResult::Yield { next: POLL_ACT })
    } else if rc == POLL_ACT {
        poll_act(lane, cont, process)
    } else if rc == COLONY_AGGREGATE {
        return ant_colony::colony_aggregate(lane, process);
    } else if rc == WORLD_STEP {
        return ant_colony::world_step(lane, process);
    } else {
        match search_class_index(rc) {
            Some(index) => search_branch(lane, process, index),
            None => match ant_class_index(rc) {
                Some(behaviour) => {
                    return ant_colony::ant_step(lane, process, behaviour);
                },
                None => {
                    let result = StepResult::Fault { process, run_class: rc };
                    proof {
                        let s = script_of(f, cont, process, rc, no_replies());
                        assert(lane.log() =~= l0 + s.calls);
                        assert(followed(s, l0, lane.log(), result));
                    }
                    result
                },
            },
        }
    };
    proof {
        let r = if rc == EXPAND_RESUME_0 {
            choose|r: Replies|
                followed(#[trigger] expand_0(f, cont, process, r), l0, lane.log(), result)
        } else if rc == EXPAND_RESUME_1 {
            choose|r: Replies| followed(#[trigger] expand_1(f, process, r), l0, lane.log(), result)
        } else if rc == EXPAND_RESUME_2 {
            choose|r: Replies|
                followed(#[trigger] expand_2(f, cont, process, r), l0, lane.log(), result)
        } else if rc == SEARCH_HEURISTIC {
            choose|r: Replies|
                followed(#[trigger] heuristic_script(f, process, r), l0, lane.log(), result)
        } else if rc == JOIN_AWAIT {
            choose|r: Replies|
                followed(#[trigger] join_script(f, cont, process, r), l0, lane.log(), result)
        } else if rc == JOIN_RESUME {
            choose|r: Replies|
                followed(
                    #[trigger] look_script(f, process, JOIN_RESUME, StepResult::Complete, r),
                    l0,
                    lane.log(),
                    result,
                )
        } else if rc == POLL_FUTURE {
            choose|r: Replies|
                followed(
                    #[trigger] look_script(
                        f,
                        process,
                        POLL_FUTURE,
                        StepResult::Yield { next: POLL_ACT },
                        r,
                    ),
                    l0,
                    lane.log(),
                    result,
                )
        } else if rc == POLL_ACT {
            choose|r: Replies|
                followed(#[trigger] act_script(f, cont, process, r), l0, lane.log(), result)
        } else if run_classes::search_index(rc) is Some {
            choose|r: Replies|
                followed(
                    #[trigger] search_script(
                        f,
                        process,
                        run_classes::search_index(rc)->Some_0,
                        r,
                    ),
                    l0,
                    lane.log(),
                    result,
                )
        } else {
            no_replies()
        };
        assert(followed(script_of(f, cont, process, rc, r), l0, lane.log(), result));
    }
    result
}

/// An expansion that is taken up again starts no child twice: what a step that
/// faulted on a child kept leaves the moves from that child on.
pub proof fn law_no_child_is_started_twice(frame: Ref64, cont: Ref64, process: Ref64, r: Replies)
    requires
        loaded_expand(r.frame, process).moves.len() <= u32::MAX,
        up_before(r.children, leaves_of(loaded_expand(r.frame, process)).len(), 0) < leaves_of(
            loaded_expand(r.frame, process),
        ).len(),
    ensures
        ({
            let held = loaded_expand(r.frame, process);
            let up = up_before(r.children, leaves_of(held).len(), 0);
            let kept = ExpandView { move_index: (held.move_index + up) as u32, ..held };
            &&& expand_2(frame, cont, process, r).calls == lane::read_calls(
                process,
                frame,
                r.frame,
            ) + children_calls(process, leaves_of(held), r.children, up + 1) + step::store_calls(
                frame,
                process,
                kept.encoded(),
                r.stored,
            )
            &&& leaves_of(kept) == leaves_of(held).skip(up)
        }),
{
    let held = loaded_expand(r.frame, process);
    let up = up_before(r.children, leaves_of(held).len(), 0);
    lemma_up_bounds(r.children, leaves_of(held).len(), 0);
    let kept = ExpandView { move_index: (held.move_index + up) as u32, ..held };
    assert(leaves_of(kept) =~= leaves_of(held).skip(up));
}

proof fn lemma_up_bounds(children: Seq<Child>, limit: nat, n: int)
    requires
        0 <= n <= limit,
    ensures
        n <= up_before(children, limit, n) <= limit,
    decreases limit - n,
{
    if n < limit && child_is_up(children[n]) {
        lemma_up_bounds(children, limit, n + 1);
    }
}

} // verus!
