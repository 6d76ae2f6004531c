//! What the scalar executive does for each run class, call by call.
//!
//! Records that speculation keeps are left out: see [`step_laws::actions`].

use crate::bytes;
use crate::compiler::frame;
use crate::compiler::state_machine_lowering;
use crate::compiler::state_machine_lowering::{
    ExpandView, HeuristicFrame, JoinFrame, SearchFrame,
};
use crate::executives::cpu_scalar;
use crate::executives::cpu_scalar::{Child, Replies};
use crate::executives::lane;
use crate::executives::step;
use crate::executives::step::StepResult;
use crate::executives::step_laws;
use crate::experiments::ant_colony;
use crate::kernel::{
    AwaitOutcome, Call, MessageDescriptor, ObjectKind, ProcessMode, Ref64, RuntimeError, SpecView,
    StateAccess,
};
use vstd::prelude::*;

verus! {

/// An expansion's frame reads back as the expansion.
pub proof fn law_expand_frame_reads_back(held: ExpandView)
    requires
        held.moves.len() <= u32::MAX,
    ensures
        ExpandView::read(held.encoded()) == Some(held),
{
    let w = held.words();
    let head = frame::packed(w);
    bytes::lemma_radix_values();
    reveal_with_fuel(frame::word_offset, 7);
    frame::lemma_packed_len(w);
    frame::lemma_packed_word(w, 0);
    frame::lemma_packed_word(w, 1);
    frame::lemma_packed_word(w, 2);
    frame::lemma_packed_word(w, 3);
    frame::lemma_packed_word(w, 4);
    frame::lemma_packed_word(w, 5);
    ant_colony::lemma_list_reads_back(head, held.moves);
    assert(held.encoded().take(44) =~= head);
    ant_colony::lemma_word_of_prefix(held.encoded(), head, 0, 8);
    ant_colony::lemma_word_of_prefix(held.encoded(), head, 8, 8);
    ant_colony::lemma_word_of_prefix(held.encoded(), head, 16, 8);
    ant_colony::lemma_word_of_prefix(held.encoded(), head, 24, 8);
    ant_colony::lemma_word_of_prefix(held.encoded(), head, 32, 4);
    ant_colony::lemma_word_of_prefix(held.encoded(), head, 36, 8);
    assert(ExpandView::read(held.encoded())->Some_0 =~= held);
}

/// The call leaves `content` in the frame, unless the frame is refused.
pub open spec fn stores(call: Call, frame: Ref64, process: Ref64, content: Seq<u8>) -> bool {
    &&& call matches Call::Edit { actor, object, growable, reply }
    &&& actor == process
    &&& object == frame
    &&& growable
    &&& reply matches Ok((_, left)) ==> left == content
}

/// The call makes a read-only continuation of `class` with the frame `content`.
pub open spec fn starts(call: Call, actor: Ref64, process: Ref64, class: u32, content: Seq<u8>) -> bool {
    &&& call matches Call::CreateContinuation { actor: by, process: of, spec, .. }
    &&& by == actor
    &&& of == process
    &&& spec == (SpecView {
        access: StateAccess::ReadOnly,
        run_class: class,
        priority: 0,
        frame: content,
        max_steps: 64,
    })
}

pub open spec fn done(frame: Ref64, cont: Ref64, process: Ref64, class: u32, r: Replies) -> Seq<Call> {
    step_laws::actions(cpu_scalar::script_of(frame, cont, process, class, r).calls)
}

pub open spec fn result(frame: Ref64, cont: Ref64, process: Ref64, class: u32, r: Replies) -> StepResult {
    cpu_scalar::script_of(frame, cont, process, class, r).result
}

/// An expansion that finds no message waits for one, and one that may not receive
/// faults. Neither does anything else.
pub proof fn law_an_expansion_waits_for_its_request(
    frame: Ref64,
    cont: Ref64,
    process: Ref64,
    r: Replies,
)
    requires
        !(r.message matches Ok(Some(_))),
    ensures
        done(frame, cont, process, 0, r) == seq![
            Call::Receive { actor: process, continuation: cont, reply: r.message },
        ],
        r.message is Ok ==> result(frame, cont, process, 0, r) == (StepResult::Await {
            on: process,
            next: 0,
        }),
        r.message is Err ==> result(frame, cont, process, 0, r) == (StepResult::Fault {
            process,
            run_class: 0,
        }),
{
    lemma_others(process, cont, r);
}

proof fn lemma_others(process: Ref64, cont: Ref64, r: Replies)
    ensures
        step_laws::actions(lane::receive_calls(process, cont, r.message)) == seq![
            Call::Receive { actor: process, continuation: cont, reply: r.message },
        ],
        step_laws::actions(lane::future_calls(process, r.future)) == seq![
            Call::CreateFuture { actor: process, reply: r.future },
        ],
{
    step_laws::law_other_requests_ask_once(
        process,
        ProcessMode::Serial,
        Ok(process),
        r.future,
        r.object,
        cont,
        0,
        r.settled,
        r.awaited,
        r.message,
        r.observed,
    );
}

/// An expansion that receives a request reads it, makes a future, starts the heuristic
/// on the request for that future, keeps the request, its sender and the future in its
/// frame, and waits for the future. It goes on as class 1.
pub proof fn law_an_expansion_starts_its_heuristic(
    frame: Ref64,
    cont: Ref64,
    process: Ref64,
    r: Replies,
    message: MessageDescriptor,
)
    requires
        frame.raw != 0,
        r.message == Ok::<Option<MessageDescriptor>, RuntimeError>(Some(message)),
        r.continuation is Ok,
    ensures
        ({
            let did = done(frame, cont, process, 0, r);
            let request = match r.request {
                Some(value) => value,
                None => 0,
            };
            &&& did.len() == 6
            &&& did[0] == (Call::Receive {
                actor: process,
                continuation: cont,
                reply: r.message,
            })
            &&& did[1] == (Call::ReadU64 {
                actor: process,
                object: message.payload,
                reply: r.request,
            })
            &&& did[2] == (Call::CreateFuture { actor: process, reply: r.future })
            &&& exists|content: Seq<u8>| #[trigger]
                starts(did[3], process, process, 3, content) && HeuristicFrame::read(content)
                    == Some(HeuristicFrame { future: r.future, input: request })
            &&& exists|content: Seq<u8>| #[trigger]
                stores(did[4], frame, process, content) && ExpandView::read(content) == Some(
                    ExpandView {
                        request_value: request,
                        reply_receiver: message.sender,
                        heuristic_future: r.future,
                        heuristic_result: 0,
                        move_index: 0,
                        reply_payload: Ref64 { raw: 0 },
                        moves: Seq::empty(),
                    },
                )
            &&& did[5] == (Call::Await {
                actor: process,
                continuation: cont,
                future: r.future,
                next_run_class: 1,
                reply: r.awaited,
            })
            &&& result(frame, cont, process, 0, r) == match r.awaited {
                Ok(AwaitOutcome::Registered) => StepResult::Await { on: r.future, next: 1 },
                Ok(AwaitOutcome::AlreadySettled(_)) => StepResult::Yield { next: 1 },
                Err(_) => StepResult::Fault { process, run_class: 0 },
            }
        }),
{
    let input = match r.request {
        Some(value) => value,
        None => 0,
    };
    let h = HeuristicFrame { future: r.future, input };
    let held = ExpandView {
        heuristic_future: r.future,
        ..ExpandView::initial(input, message.sender)
    };
    let wanted = cpu_scalar::reader(3, h.encoded());
    state_machine_lowering::law_small_frames_read_back(
        h,
        JoinFrame { future: r.future, observed: r.future },
    );
    law_expand_frame_reads_back(held);
    let a = lane::receive_calls(process, cont, r.message);
    let b = lane::read_u64_calls(process, message.payload, r.request);
    let c = lane::future_calls(process, r.future);
    let d = lane::continuation_calls(process, process, wanted, r.recording, r.continuation);
    let e = step::store_calls(frame, process, held.encoded(), r.stored);
    let f = lane::await_calls(process, cont, r.future, 1, r.awaited);
    step_laws::law_other_requests_ask_once(
        process,
        ProcessMode::Serial,
        Ok(process),
        r.future,
        r.object,
        cont,
        1,
        r.settled,
        r.awaited,
        r.message,
        r.observed,
    );
    step_laws::law_a_read_asks_once(process, message.payload, r.frame, r.request);
    step_laws::law_content_is_recorded_where_speculation_records(
        process,
        process,
        wanted,
        ObjectKind::FutureValue,
        Seq::empty(),
        r.recording,
        r.continuation,
        r.object,
    );
    step_laws::law_a_store_replaces_the_frame(frame, process, held.encoded(), r.stored);
    step_laws::lemma_actions_join(a, b);
    step_laws::lemma_actions_join(a + b, c);
    step_laws::lemma_actions_join(a + b + c, d);
    step_laws::lemma_actions_join(a + b + c + d, e);
    step_laws::lemma_actions_join(a + b + c + d + e, f);
    let did = done(frame, cont, process, 0, r);
    assert(starts(did[3], process, process, 3, h.encoded()));
    assert(stores(did[4], frame, process, held.encoded()));
    assert(held =~= (ExpandView {
        request_value: input,
        reply_receiver: message.sender,
        heuristic_future: r.future,
        heuristic_result: 0,
        move_index: 0,
        reply_payload: Ref64 { raw: 0 },
        moves: Seq::empty(),
    }));
}

proof fn lemma_multiples(request: u64)
    ensures
        cpu_scalar::moves_of(request).len() == 3,
        forall|i: int|
            0 <= i < 3 ==> (#[trigger] cpu_scalar::moves_of(request)[i]) as int == ((i + 1)
                * request) % 0x1_0000_0000_0000_0000,
{
    let moves = cpu_scalar::moves_of(request);
    assert(moves[0] as int == (1 * request) % 0x1_0000_0000_0000_0000);
    assert(moves[1] as int == (2 * request) % 0x1_0000_0000_0000_0000);
    assert(moves[2] as int == (3 * request) % 0x1_0000_0000_0000_0000);
}

/// The moves of an expansion are the request times one, two and three, around 2^64. They
/// are kept in its frame with the heuristic's result, where its future has one, and
/// nothing else in the frame changes. It goes on as class 2.
pub proof fn law_an_expansion_s_moves_are_multiples_of_its_request(
    frame: Ref64,
    cont: Ref64,
    process: Ref64,
    r: Replies,
    content: Seq<u8>,
    held: ExpandView,
)
    requires
        frame.raw != 0,
        r.frame == Ok::<Seq<u8>, RuntimeError>(content),
        ExpandView::read(content) == Some(held),
        held.heuristic_future.raw != 0 ==> r.observed is Ok,
    ensures
        ({
            let did = done(frame, cont, process, 1, r);
            let looks = held.heuristic_future.raw != 0;
            let seen = if looks {
                r.observed->Ok_0
            } else {
                None
            };
            let last = did.len() - 1;
            &&& did.len() == 2 + (if looks {
                1int
            } else {
                0
            }) + (if seen is Some {
                1int
            } else {
                0
            })
            &&& did[0] == (Call::ObjectBytes { actor: process, object: frame, reply: r.frame })
            &&& looks ==> did[1] == (Call::ObserveFuture {
                actor: process,
                future: held.heuristic_future,
                reply: r.observed,
            })
            &&& seen is Some ==> did[2] == (Call::ReadU64 {
                actor: process,
                object: seen->0,
                reply: r.value,
            })
            &&& exists|kept: Seq<u8>, after: ExpandView|
                {
                    &&& #[trigger] stores(did[last], frame, process, kept)
                    &&& #[trigger] reads_as(kept, after)
                    &&& after.moves.len() == 3
                    &&& forall|i: int|
                        0 <= i < 3 ==> (#[trigger] after.moves[i]) as int == ((i + 1)
                            * held.request_value) % 0x1_0000_0000_0000_0000
                    &&& after.heuristic_result == if seen is None {
                        held.heuristic_result
                    } else {
                        match r.value {
                            Some(value) => value,
                            None => 0,
                        }
                    }
                    &&& after.request_value == held.request_value
                    &&& after.reply_receiver == held.reply_receiver
                    &&& after.heuristic_future == held.heuristic_future
                    &&& after.move_index == held.move_index
                    &&& after.reply_payload == held.reply_payload
                }
            &&& result(frame, cont, process, 1, r) == (StepResult::Yield { next: 2 })
        }),
{
    let future = held.heuristic_future;
    let seen = if future.raw != 0 {
        r.observed->Ok_0
    } else {
        None
    };
    let after = ExpandView {
        heuristic_result: match seen {
            Some(_) => cpu_scalar::worth(r.value),
            None => held.heuristic_result,
        },
        moves: cpu_scalar::moves_of(held.request_value),
        ..held
    };
    lemma_multiples(held.request_value);
    law_expand_frame_reads_back(after);
    let a = lane::read_calls(process, frame, r.frame);
    let b = cpu_scalar::look_calls(process, future, r.observed);
    let c: Seq<Call> = match seen {
        Some(object) => lane::read_u64_calls(process, object, r.value),
        None => Seq::empty(),
    };
    let d = step::store_calls(frame, process, after.encoded(), r.stored);
    step_laws::law_a_read_asks_once(process, frame, r.frame, r.value);
    if seen is Some {
        step_laws::law_a_read_asks_once(process, seen->0, r.frame, r.value);
    }
    step_laws::law_other_requests_ask_once(
        process,
        ProcessMode::Serial,
        Ok(process),
        future,
        r.object,
        cont,
        1,
        r.settled,
        r.awaited,
        r.message,
        r.observed,
    );
    step_laws::law_a_store_replaces_the_frame(frame, process, after.encoded(), r.stored);
    step_laws::lemma_actions_join(a, b);
    step_laws::lemma_actions_join(a + b, c);
    step_laws::lemma_actions_join(a + b + c, d);
    let did = done(frame, cont, process, 1, r);
    assert(cpu_scalar::script_of(frame, cont, process, 1, r).calls == a + b + c + d);
    assert(stores(did[did.len() - 1], frame, process, after.encoded()));
    assert(reads_as(after.encoded(), after));
}

pub open spec fn reads_as(content: Seq<u8>, held: ExpandView) -> bool {
    ExpandView::read(content) == Some(held)
}

/// An expansion that may not look at its future faults, and keeps nothing.
pub proof fn law_a_refused_look_faults(
    frame: Ref64,
    cont: Ref64,
    process: Ref64,
    r: Replies,
    content: Seq<u8>,
    held: ExpandView,
)
    requires
        r.frame == Ok::<Seq<u8>, RuntimeError>(content),
        ExpandView::read(content) == Some(held),
        held.heuristic_future.raw != 0,
        r.observed is Err,
    ensures
        result(frame, cont, process, 1, r) == (StepResult::Fault { process, run_class: 1 }),
        done(frame, cont, process, 1, r) == seq![
            Call::ObjectBytes { actor: process, object: frame, reply: r.frame },
            Call::ObserveFuture {
                actor: process,
                future: held.heuristic_future,
                reply: r.observed,
            },
        ],
{
    let a = lane::read_calls(process, frame, r.frame);
    let b = lane::observe_calls(process, held.heuristic_future, r.observed);
    step_laws::law_a_read_asks_once(process, frame, r.frame, r.value);
    step_laws::law_other_requests_ask_once(
        process,
        ProcessMode::Serial,
        Ok(process),
        held.heuristic_future,
        r.object,
        cont,
        1,
        r.settled,
        r.awaited,
        r.message,
        r.observed,
    );
    step_laws::lemma_actions_join(a, b);
    assert(done(frame, cont, process, 1, r) =~= seq![
        Call::ObjectBytes { actor: process, object: frame, reply: r.frame },
        Call::ObserveFuture { actor: process, future: held.heuristic_future, reply: r.observed },
    ]);
}

proof fn lemma_children(
    process: Ref64,
    nodes: Seq<(SearchFrame, u32)>,
    children: Seq<Child>,
    n: int,
)
    requires
        0 <= n <= nodes.len(),
        forall|i: int| 0 <= i < n ==> children_up(#[trigger] children[i]),
    ensures
        ({
            let did = step_laws::actions(
                cpu_scalar::children_calls(process, nodes, children, n),
            );
            &&& did.len() == 2 * n
            &&& forall|i: int|
                0 <= i < n ==> {
                    &&& #[trigger] did[2 * i] == (Call::CreateProcess {
                        actor: process,
                        mode: ProcessMode::Serial,
                        reply: children[i].process,
                    })
                    &&& starts(
                        did[2 * i + 1],
                        process,
                        children[i].process->Ok_0,
                        nodes[i].1,
                        nodes[i].0.encoded(),
                    )
                }
        }),
    decreases n,
{
    if n > 0 {
        lemma_children(process, nodes, children, n - 1);
        let before = cpu_scalar::children_calls(process, nodes, children, n - 1);
        let child = children[n - 1];
        assert(children_up(child));
        let up = child.process->Ok_0;
        let wanted = cpu_scalar::reader(nodes[n - 1].1, nodes[n - 1].0.encoded());
        let a = lane::process_calls(process, ProcessMode::Serial, child.process);
        let b = lane::continuation_calls(
            process,
            up,
            wanted,
            child.recording,
            child.continuation,
        );
        step_laws::law_other_requests_ask_once(
            process,
            ProcessMode::Serial,
            child.process,
            process,
            process,
            process,
            0,
            Ok(()),
            Ok(AwaitOutcome::Registered),
            Ok(None),
            Ok(None),
        );
        step_laws::law_content_is_recorded_where_speculation_records(
            process,
            up,
            wanted,
            ObjectKind::FutureValue,
            Seq::empty(),
            child.recording,
            child.continuation,
            process,
        );
        step_laws::lemma_actions_join(a, b);
        step_laws::lemma_actions_join(before, a + b);
        let did = step_laws::actions(cpu_scalar::children_calls(process, nodes, children, n));
        let old = step_laws::actions(before);
        assert(did == old + (step_laws::actions(a) + step_laws::actions(b)));
        assert forall|i: int| 0 <= i < n implies {
            &&& #[trigger] did[2 * i] == (Call::CreateProcess {
                actor: process,
                mode: ProcessMode::Serial,
                reply: children[i].process,
            })
            &&& starts(
                did[2 * i + 1],
                process,
                children[i].process->Ok_0,
                nodes[i].1,
                nodes[i].0.encoded(),
            )
        } by {
            if i < n - 1 {
                assert(did[2 * i] == old[2 * i]);
                assert(did[2 * i + 1] == old[2 * i + 1]);
            }
        }
    }
}

/// A child came up: its process was made, and its continuation.
pub open spec fn children_up(c: Child) -> bool {
    c.process is Ok && c.continuation is Ok
}

/// An expansion starts one child for each move that has none yet: a serial process of
/// its own, with a leaf of the move's value. Then it replies to its requester with the
/// heuristic's result. It is done once the reply is sent, waits for room where there is
/// none, and faults where it may not send.
pub proof fn law_an_expansion_starts_a_child_for_each_move(
    frame: Ref64,
    cont: Ref64,
    process: Ref64,
    r: Replies,
    content: Seq<u8>,
    held: ExpandView,
)
    requires
        frame.raw != 0,
        r.frame == Ok::<Seq<u8>, RuntimeError>(content),
        ExpandView::read(content) == Some(held),
        held.move_index <= held.moves.len() <= u32::MAX,
        forall|i: int|
            0 <= i < held.moves.len() - held.move_index ==> children_up(#[trigger] r.children[i]),
    ensures
        ({
            let did = done(frame, cont, process, 2, r);
            let n = held.moves.len() - held.move_index;
            let fresh = held.reply_payload.raw == 0;
            let payload = if fresh {
                r.object
            } else {
                held.reply_payload
            };
            let last = did.len() - 1;
            &&& did.len() == 3 + 2 * n + (if fresh {
                1int
            } else {
                0
            })
            &&& did[0] == (Call::ObjectBytes { actor: process, object: frame, reply: r.frame })
            &&& forall|i: int|
                0 <= i < n ==> {
                    &&& #[trigger] did[1 + 2 * i] == (Call::CreateProcess {
                        actor: process,
                        mode: ProcessMode::Serial,
                        reply: r.children[i].process,
                    })
                    &&& starts_leaf(
                        did[2 + 2 * i],
                        process,
                        r.children[i].process->Ok_0,
                        held.moves[held.move_index + i],
                    )
                }
            &&& fresh ==> {
                &&& did[1 + 2 * n] matches Call::CreateObject { actor, kind, bytes, reply }
                &&& actor == process
                &&& kind == ObjectKind::MessagePayload
                &&& bytes.len() == 8
                &&& bytes::word_at(bytes, 0, 8) == held.heuristic_result as nat
                &&& reply == r.object
            }
            &&& exists|kept: Seq<u8>| #[trigger]
                stores(did[last - 1], frame, process, kept) && ExpandView::read(kept) == Some(
                    ExpandView {
                        move_index: held.moves.len() as u32,
                        reply_payload: payload,
                        ..held
                    },
                )
            &&& did[last] == (Call::Enqueue {
                actor: process,
                receiver: held.reply_receiver,
                payload,
                sender: cont,
                reply: r.settled,
            })
            &&& result(frame, cont, process, 2, r) == match r.settled {
                Ok(_) => StepResult::Complete,
                Err(RuntimeError::MailboxFull) => StepResult::Await {
                    on: held.reply_receiver,
                    next: 2,
                },
                Err(_) => StepResult::Fault { process, run_class: 2 },
            }
        }),
{
    let n = held.moves.len() - held.move_index;
    let leaves = cpu_scalar::leaves_of(held);
    assert(leaves.len() == n);
    assert forall|i: int| 0 <= i < n implies cpu_scalar::child_is_up(#[trigger] r.children[i]) by {
        assert(children_up(r.children[i]));
    }
    cpu_scalar::lemma_up(r.children, leaves.len(), n, 0);
    lemma_children(process, leaves, r.children, n);
    let fresh = held.reply_payload.raw == 0;
    let payload = if fresh {
        r.object
    } else {
        held.reply_payload
    };
    let moved = ExpandView { move_index: (held.move_index + n) as u32, ..held };
    let ready = if fresh {
        ExpandView { reply_payload: r.object, ..moved }
    } else {
        moved
    };
    let result_bytes = bytes::le_bytes(held.heuristic_result as nat, 8);
    let a = lane::read_calls(process, frame, r.frame);
    let b = cpu_scalar::children_calls(process, leaves, r.children, n);
    let c = if fresh {
        lane::object_calls(
            process,
            ObjectKind::MessagePayload,
            result_bytes,
            r.object_recording,
            r.object,
        )
    } else {
        Seq::empty()
    };
    let d = step::store_calls(frame, process, ready.encoded(), r.stored);
    let e = lane::enqueue_calls(process, held.reply_receiver, payload, cont, r.settled);
    law_expand_frame_reads_back(ready);
    bytes::lemma_radix_values();
    bytes::lemma_le_round_trip(held.heuristic_result as nat, 8);
    assert(result_bytes.subrange(0, 8) =~= result_bytes);
    step_laws::law_a_read_asks_once(process, frame, r.frame, r.value);
    step_laws::law_content_is_recorded_where_speculation_records(
        process,
        process,
        cpu_scalar::reader(0, Seq::empty()),
        ObjectKind::MessagePayload,
        result_bytes,
        r.object_recording,
        r.continuation,
        r.object,
    );
    step_laws::law_a_store_replaces_the_frame(frame, process, ready.encoded(), r.stored);
    step_laws::law_other_requests_ask_once(
        process,
        ProcessMode::Serial,
        Ok(process),
        held.reply_receiver,
        payload,
        cont,
        1,
        r.settled,
        r.awaited,
        r.message,
        r.observed,
    );
    step_laws::lemma_actions_join(a, b);
    step_laws::lemma_actions_join(a + b, c);
    step_laws::lemma_actions_join(a + b + c, d);
    step_laws::lemma_actions_join(a + b + c + d, e);
    let did = done(frame, cont, process, 2, r);
    assert(cpu_scalar::script_of(frame, cont, process, 2, r).calls == a + b + c + d + e);
    let kids = step_laws::actions(b);
    let last = did.len() - 1;
    assert(stores(did[last - 1], frame, process, ready.encoded()));
    assert forall|i: int| 0 <= i < n implies {
        &&& #[trigger] did[1 + 2 * i] == (Call::CreateProcess {
            actor: process,
            mode: ProcessMode::Serial,
            reply: r.children[i].process,
        })
        &&& starts_leaf(
            did[2 + 2 * i],
            process,
            r.children[i].process->Ok_0,
            held.moves[held.move_index + i],
        )
    } by {
        assert(did[1 + 2 * i] == kids[2 * i]);
        assert(did[2 + 2 * i] == kids[2 * i + 1]);
        let leaf = leaves[i].0;
        state_machine_lowering::law_search_frame_reads_back(leaf);
        assert(starts(
            did[2 + 2 * i],
            process,
            r.children[i].process->Ok_0,
            10,
            leaf.encoded(),
        ));
    }
}

/// The call starts a search node of class ten, with `value` and nothing below it.
pub open spec fn starts_leaf(call: Call, actor: Ref64, process: Ref64, value: u64) -> bool {
    exists|content: Seq<u8>|
        {
            &&& #[trigger] starts(call, actor, process, 10, content)
            &&& content.len() == 24
            &&& SearchFrame::read(content) == (SearchFrame {
                value,
                depth: 0,
                branching: 0,
                work_iters: 0,
                class_count: 1,
            })
        }
}

/// A heuristic publishes twice its input and one more, around 2^64, in the future that
/// its frame names, and is done.
pub proof fn law_a_heuristic_publishes_twice_its_input_and_one(
    frame: Ref64,
    cont: Ref64,
    process: Ref64,
    r: Replies,
    content: Seq<u8>,
    held: HeuristicFrame,
)
    requires
        r.frame == Ok::<Seq<u8>, RuntimeError>(content),
        HeuristicFrame::read(content) == Some(held),
    ensures
        ({
            let did = done(frame, cont, process, 3, r);
            &&& did.len() == 3
            &&& did[0] == (Call::ObjectBytes { actor: process, object: frame, reply: r.frame })
            &&& did[1] matches Call::CreateObject { actor, kind, bytes, reply }
            &&& actor == process
            &&& kind == ObjectKind::FutureValue
            &&& bytes.len() == 8
            &&& bytes::word_at(bytes, 0, 8) as int == (2 * held.input + 1)
                % 0x1_0000_0000_0000_0000
            &&& reply == r.object
            &&& did[2] == (Call::Resolve {
                actor: process,
                future: held.future,
                value: r.object,
                reply: r.settled,
            })
            &&& result(frame, cont, process, 3, r) == if r.settled is Ok {
                StepResult::Complete
            } else {
                StepResult::Fault { process, run_class: 3 }
            }
        }),
{
    let value = held.input.wrapping_mul(2).wrapping_add(1);
    assert(value as int == (2 * held.input + 1) % 0x1_0000_0000_0000_0000);
    let published = bytes::le_bytes(value as nat, 8);
    bytes::lemma_radix_values();
    bytes::lemma_le_round_trip(value as nat, 8);
    assert(published.subrange(0, 8) =~= published);
    let a = lane::read_calls(process, frame, r.frame);
    let b = lane::object_calls(
        process,
        ObjectKind::FutureValue,
        published,
        r.object_recording,
        r.object,
    );
    let c = lane::resolve_calls(process, held.future, r.object, r.settled);
    step_laws::law_a_read_asks_once(process, frame, r.frame, r.value);
    step_laws::law_content_is_recorded_where_speculation_records(
        process,
        process,
        cpu_scalar::reader(0, Seq::empty()),
        ObjectKind::FutureValue,
        published,
        r.object_recording,
        r.continuation,
        r.object,
    );
    step_laws::law_other_requests_ask_once(
        process,
        ProcessMode::Serial,
        Ok(process),
        held.future,
        r.object,
        cont,
        1,
        r.settled,
        r.awaited,
        r.message,
        r.observed,
    );
    step_laws::lemma_actions_join(a, b);
    step_laws::lemma_actions_join(a + b, c);
}

/// A join waits for the future that its frame names. One that is settled already does
/// not hold it up.
pub proof fn law_a_join_waits_for_its_future(
    frame: Ref64,
    cont: Ref64,
    process: Ref64,
    r: Replies,
    content: Seq<u8>,
    held: JoinFrame,
)
    requires
        r.frame == Ok::<Seq<u8>, RuntimeError>(content),
        JoinFrame::read(content) == Some(held),
    ensures
        done(frame, cont, process, 4, r) == seq![
            Call::ObjectBytes { actor: process, object: frame, reply: r.frame },
            Call::Await {
                actor: process,
                continuation: cont,
                future: held.future,
                next_run_class: 5,
                reply: r.awaited,
            },
        ],
        result(frame, cont, process, 4, r) == match r.awaited {
            Ok(AwaitOutcome::Registered) => StepResult::Await { on: held.future, next: 5 },
            Ok(AwaitOutcome::AlreadySettled(_)) => StepResult::Yield { next: 5 },
            Err(_) => StepResult::Fault { process, run_class: 4 },
        },
{
    let a = lane::read_calls(process, frame, r.frame);
    let b = lane::await_calls(process, cont, held.future, 5, r.awaited);
    step_laws::law_a_read_asks_once(process, frame, r.frame, r.value);
    step_laws::law_other_requests_ask_once(
        process,
        ProcessMode::Serial,
        Ok(process),
        held.future,
        r.object,
        cont,
        5,
        r.settled,
        r.awaited,
        r.message,
        r.observed,
    );
    step_laws::lemma_actions_join(a, b);
    assert(done(frame, cont, process, 4, r) =~= seq![
        Call::ObjectBytes { actor: process, object: frame, reply: r.frame },
        Call::Await {
            actor: process,
            continuation: cont,
            future: held.future,
            next_run_class: 5,
            reply: r.awaited,
        },
    ]);
}

/// A resumed join and a poll look at their future and keep in the frame what they saw,
/// which is nothing where the future is pending. The join is then done, and the poll
/// acts in class 7. A refused look faults and keeps nothing.
pub proof fn law_a_look_keeps_what_it_saw(
    frame: Ref64,
    cont: Ref64,
    process: Ref64,
    class: u32,
    r: Replies,
    content: Seq<u8>,
    held: JoinFrame,
)
    requires
        frame.raw != 0,
        class == 5 || class == 6,
        r.frame == Ok::<Seq<u8>, RuntimeError>(content),
        JoinFrame::read(content) == Some(held),
        held.future.raw != 0,
    ensures
        ({
            let did = done(frame, cont, process, class, r);
            &&& did.len() >= 2
            &&& did[0] == (Call::ObjectBytes { actor: process, object: frame, reply: r.frame })
            &&& did[1] == (Call::ObserveFuture {
                actor: process,
                future: held.future,
                reply: r.observed,
            })
            &&& match r.observed {
                Err(_) => {
                    &&& did.len() == 2
                    &&& result(frame, cont, process, class, r) == (StepResult::Fault {
                        process,
                        run_class: class,
                    })
                },
                Ok(seen) => {
                    &&& did.len() == 3
                    &&& exists|kept: Seq<u8>| #[trigger]
                        stores(did[2], frame, process, kept) && JoinFrame::read(kept) == Some(
                            JoinFrame {
                                future: held.future,
                                observed: match seen {
                                    Some(object) => object,
                                    None => Ref64 { raw: 0 },
                                },
                            },
                        )
                    &&& result(frame, cont, process, class, r) == if class == 5 {
                        StepResult::Complete
                    } else {
                        StepResult::Yield { next: 7 }
                    }
                },
            }
        }),
{
    let a = lane::read_calls(process, frame, r.frame);
    let b = lane::observe_calls(process, held.future, r.observed);
    step_laws::law_a_read_asks_once(process, frame, r.frame, r.value);
    step_laws::law_other_requests_ask_once(
        process,
        ProcessMode::Serial,
        Ok(process),
        held.future,
        r.object,
        cont,
        5,
        r.settled,
        r.awaited,
        r.message,
        r.observed,
    );
    step_laws::lemma_actions_join(a, b);
    if let Ok(seen) = r.observed {
        let next = JoinFrame {
            future: held.future,
            observed: match seen {
                Some(object) => object,
                None => Ref64 { raw: 0 },
            },
        };
        let c = step::store_calls(frame, process, next.encoded(), r.stored);
        state_machine_lowering::law_small_frames_read_back(
            HeuristicFrame { future: held.future, input: 0 },
            next,
        );
        step_laws::law_a_store_replaces_the_frame(frame, process, next.encoded(), r.stored);
        step_laws::lemma_actions_join(a + b, c);
        let did = done(frame, cont, process, class, r);
        assert(stores(did[2], frame, process, next.encoded()));
    }
}

/// A poll that saw a value sends a message about it, which names the value's place, to
/// its own process. One that saw none is done without a word.
pub proof fn law_a_poll_acts_on_what_it_saw(
    frame: Ref64,
    cont: Ref64,
    process: Ref64,
    r: Replies,
    content: Seq<u8>,
    held: JoinFrame,
)
    requires
        r.frame == Ok::<Seq<u8>, RuntimeError>(content),
        JoinFrame::read(content) == Some(held),
    ensures
        ({
            let did = done(frame, cont, process, 7, r);
            &&& did.len() >= 1
            &&& did[0] == (Call::ObjectBytes { actor: process, object: frame, reply: r.frame })
            &&& held.observed.raw == 0 ==> did.len() == 1 && result(frame, cont, process, 7, r)
                == StepResult::Complete
            &&& held.observed.raw != 0 ==> {
                &&& did.len() == 3
                &&& did[1] matches Call::CreateObject { actor, kind, bytes, reply }
                &&& actor == process
                &&& kind == ObjectKind::MessagePayload
                &&& bytes.len() == 4
                &&& bytes::word_at(bytes, 0, 4) as int == held.observed.raw as int % 0x1_0000_0000
                &&& reply == r.object
                &&& did[2] == (Call::Enqueue {
                    actor: process,
                    receiver: process,
                    payload: r.object,
                    sender: cont,
                    reply: r.settled,
                })
                &&& result(frame, cont, process, 7, r) == if r.settled is Ok {
                    StepResult::Complete
                } else {
                    StepResult::Fault { process, run_class: 7 }
                }
            }
        }),
{
    let a = lane::read_calls(process, frame, r.frame);
    step_laws::law_a_read_asks_once(process, frame, r.frame, r.value);
    if held.observed.raw != 0 {
        let place = bytes::le_bytes(held.observed.place() as nat, 4);
        bytes::lemma_radix_values();
        bytes::lemma_le_round_trip(held.observed.place() as nat, 4);
        assert(place.subrange(0, 4) =~= place);
        let b = lane::object_calls(
            process,
            ObjectKind::MessagePayload,
            place,
            r.object_recording,
            r.object,
        );
        let c = lane::enqueue_calls(process, process, r.object, cont, r.settled);
        step_laws::law_content_is_recorded_where_speculation_records(
            process,
            process,
            cpu_scalar::reader(0, Seq::empty()),
            ObjectKind::MessagePayload,
            place,
            r.object_recording,
            r.continuation,
            r.object,
        );
        step_laws::law_other_requests_ask_once(
            process,
            ProcessMode::Serial,
            Ok(process),
            process,
            r.object,
            cont,
            5,
            r.settled,
            r.awaited,
            r.message,
            r.observed,
        );
        step_laws::lemma_actions_join(a, b);
        step_laws::lemma_actions_join(a + b, c);
    }
}

/// The value of a search node after `rounds` rounds of the arithmetic of search class
/// `index`, computed outside of machine words.
pub open spec fn worked(value: int, rounds: nat, index: u32) -> int
    decreases rounds,
{
    if rounds == 0 {
        value
    } else {
        (worked(value, (rounds - 1) as nat, index) * (31 + 2 * index) + 7 + index)
            % 0x1_0000_0000_0000_0000
    }
}

/// A search node's arithmetic differs from class to class.
pub proof fn law_a_node_works_as_its_class_says(value: u64, rounds: nat, index: u32)
    requires
        index < 8,
    ensures
        state_machine_lowering::searched(value, rounds, index) as int == worked(
            value as int,
            rounds,
            index,
        ),
    decreases rounds,
{
    if rounds > 0 {
        law_a_node_works_as_its_class_says(value, (rounds - 1) as nat, index);
        let before = state_machine_lowering::searched(value, (rounds - 1) as nat, index) as int;
        let k = 31 + 2 * index;
        let m = 0x1_0000_0000_0000_0000int;
        vstd::arithmetic::div_mod::lemma_add_mod_noop(before * k, 7 + index as int, m);
        vstd::arithmetic::div_mod::lemma_small_mod((7 + index) as nat, m as nat);
    }
}

/// A search node without depth does its work, keeps the value, and is done.
pub proof fn law_a_leaf_keeps_its_value(
    frame: Ref64,
    cont: Ref64,
    process: Ref64,
    class: u32,
    r: Replies,
    content: Seq<u8>,
)
    requires
        frame.raw != 0,
        10 <= class < 18,
        r.frame == Ok::<Seq<u8>, RuntimeError>(content),
        content.len() >= 24,
        SearchFrame::read(content).depth == 0,
    ensures
        ({
            let held = SearchFrame::read(content);
            let did = done(frame, cont, process, class, r);
            &&& did.len() == 2
            &&& did[0] == (Call::ObjectBytes { actor: process, object: frame, reply: r.frame })
            &&& exists|kept: Seq<u8>|
                {
                    &&& #[trigger] stores(did[1], frame, process, kept)
                    &&& SearchFrame::read(kept).value as int == worked(
                        held.value as int,
                        held.work_iters as nat,
                        (class - 10) as u32,
                    )
                    &&& SearchFrame::read(kept).depth == 0
                    &&& SearchFrame::read(kept).branching == held.branching
                    &&& SearchFrame::read(kept).work_iters == held.work_iters
                    &&& SearchFrame::read(kept).class_count == held.class_count
                }
            &&& result(frame, cont, process, class, r) == StepResult::Complete
        }),
{
    let held = SearchFrame::read(content);
    let index = (class - 10) as u32;
    law_a_node_works_as_its_class_says(held.value, held.work_iters as nat, index);
    let node = SearchFrame {
        value: state_machine_lowering::searched(held.value, held.work_iters as nat, index),
        ..held
    };
    state_machine_lowering::law_search_frame_reads_back(node);
    let a = lane::read_calls(process, frame, r.frame);
    let b = step::store_calls(frame, process, node.encoded(), r.stored);
    step_laws::law_a_read_asks_once(process, frame, r.frame, r.value);
    step_laws::law_a_store_replaces_the_frame(frame, process, node.encoded(), r.stored);
    step_laws::lemma_actions_join(a, b);
    let did = done(frame, cont, process, class, r);
    assert(stores(did[1], frame, process, node.encoded()));
}

/// The call starts a search node with these contents, in the class that its value picks.
pub open spec fn starts_node(call: Call, actor: Ref64, process: Ref64, node: SearchFrame) -> bool {
    exists|content: Seq<u8>, class: u32|
        {
            &&& #[trigger] starts(call, actor, process, class, content)
            &&& content.len() == 24
            &&& SearchFrame::read(content) == node
            &&& class as int == 10 + node.value as int % (if node.class_count < 1 {
                1
            } else if node.class_count > 8 {
                8
            } else {
                node.class_count as int
            })
        }
}

/// A search node with depth does its work and starts as many children as it branches
/// into: each one level lower, with a value of its own, counted on from the node's.
pub proof fn law_a_node_starts_its_children(
    frame: Ref64,
    cont: Ref64,
    process: Ref64,
    class: u32,
    r: Replies,
    content: Seq<u8>,
)
    requires
        10 <= class < 18,
        r.frame == Ok::<Seq<u8>, RuntimeError>(content),
        content.len() >= 24,
        SearchFrame::read(content).depth > 0,
        forall|i: int|
            0 <= i < SearchFrame::read(content).branching ==> children_up(
                #[trigger] r.children[i],
            ),
    ensures
        ({
            let held = SearchFrame::read(content);
            let value = worked(held.value as int, held.work_iters as nat, (class - 10) as u32);
            let did = done(frame, cont, process, class, r);
            &&& did.len() == 1 + 2 * held.branching
            &&& did[0] == (Call::ObjectBytes { actor: process, object: frame, reply: r.frame })
            &&& forall|i: int|
                0 <= i < held.branching ==> {
                    &&& #[trigger] did[1 + 2 * i] == (Call::CreateProcess {
                        actor: process,
                        mode: ProcessMode::Serial,
                        reply: r.children[i].process,
                    })
                    &&& starts_node(
                        did[2 + 2 * i],
                        process,
                        r.children[i].process->Ok_0,
                        (SearchFrame {
                            value: ((value + i) % 0x1_0000_0000_0000_0000) as u64,
                            depth: (held.depth - 1) as u32,
                            branching: held.branching,
                            work_iters: held.work_iters,
                            class_count: held.class_count,
                        }),
                    )
                }
            &&& result(frame, cont, process, class, r) == (StepResult::Spawn {
                process,
                run_class: 0,
            })
        }),
{
    let held = SearchFrame::read(content);
    let index = (class - 10) as u32;
    law_a_node_works_as_its_class_says(held.value, held.work_iters as nat, index);
    let node = SearchFrame {
        value: state_machine_lowering::searched(held.value, held.work_iters as nat, index),
        ..held
    };
    let value = worked(held.value as int, held.work_iters as nat, index);
    let nodes = cpu_scalar::children_of(node);
    let n = held.branching as int;
    assert forall|i: int| 0 <= i < n implies cpu_scalar::child_is_up(#[trigger] r.children[i]) by {
        assert(children_up(r.children[i]));
    }
    cpu_scalar::lemma_up(r.children, nodes.len(), n, 0);
    lemma_children(process, nodes, r.children, n);
    let a = lane::read_calls(process, frame, r.frame);
    let b = cpu_scalar::children_calls(process, nodes, r.children, n);
    step_laws::law_a_read_asks_once(process, frame, r.frame, r.value);
    step_laws::lemma_actions_join(a, b);
    let did = done(frame, cont, process, class, r);
    let kids = step_laws::actions(b);
    assert forall|i: int| 0 <= i < n implies {
        &&& #[trigger] did[1 + 2 * i] == (Call::CreateProcess {
            actor: process,
            mode: ProcessMode::Serial,
            reply: r.children[i].process,
        })
        &&& starts_node(
            did[2 + 2 * i],
            process,
            r.children[i].process->Ok_0,
            SearchFrame {
                value: ((value + i) % 0x1_0000_0000_0000_0000) as u64,
                depth: (held.depth - 1) as u32,
                branching: held.branching,
                work_iters: held.work_iters,
                class_count: held.class_count,
            },
        )
    } by {
        assert(did[1 + 2 * i] == kids[2 * i]);
        assert(did[2 + 2 * i] == kids[2 * i + 1]);
        let child = nodes[i].0;
        state_machine_lowering::law_search_frame_reads_back(child);
        assert(child == SearchFrame {
            value: ((value + i) % 0x1_0000_0000_0000_0000) as u64,
            depth: (held.depth - 1) as u32,
            branching: held.branching,
            work_iters: held.work_iters,
            class_count: held.class_count,
        });
        assert(starts(
            did[2 + 2 * i],
            process,
            r.children[i].process->Ok_0,
            child.class(),
            child.encoded(),
        ));
    }
}

/// A run class that has no handler faults without a call.
pub proof fn law_an_unknown_class_faults(frame: Ref64, cont: Ref64, process: Ref64, class: u32, r: Replies)
    requires
        8 <= class,
        !(10 <= class < 18),
    ensures
        done(frame, cont, process, class, r).len() == 0,
        result(frame, cont, process, class, r) == (StepResult::Fault {
            process,
            run_class: class,
        }),
{
}

} // verus!
