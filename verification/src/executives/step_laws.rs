//! What a lane's calls come to once the records that speculation keeps are left out,
//! and what those records are.

use crate::executives::lane;
use crate::executives::step;
use crate::kernel::{
    AwaitOutcome, Call, MessageDescriptor, ObjectKind, ProcessMode,
    Ref64, Resource, RuntimeError, SpecView,
};
use vstd::prelude::*;

verus! {

/// A call that does something, and is no record of one that does.
pub open spec fn is_action(call: Call) -> bool {
    !(call is RecordRead || call is RecordWrite || call is RecordAllocation
        || call is RecordProcessCreation || call is RecordObjectMutation
        || call is RecordOperation || call is IsRecording)
}

/// The calls that do something, in order.
pub open spec fn actions(calls: Seq<Call>) -> Seq<Call>
    decreases calls.len(),
{
    if calls.len() == 0 {
        Seq::empty()
    } else if is_action(calls.last()) {
        actions(calls.drop_last()).push(calls.last())
    } else {
        actions(calls.drop_last())
    }
}

pub proof fn lemma_actions_join(a: Seq<Call>, b: Seq<Call>)
    ensures
        actions(a + b) == actions(a) + actions(b),
    decreases b.len(),
{
    if b.len() == 0 {
        assert(a + b =~= a);
        assert(actions(a) + actions(b) =~= actions(a));
    } else {
        assert((a + b).drop_last() =~= a + b.drop_last());
        assert((a + b).last() == b.last());
        lemma_actions_join(a, b.drop_last());
        assert(actions(a + b) =~= actions(a) + actions(b));
    }
}

pub proof fn lemma_actions_push(a: Seq<Call>, call: Call)
    ensures
        actions(a.push(call)) == if is_action(call) {
            actions(a).push(call)
        } else {
            actions(a)
        },
{
    assert(a.push(call).drop_last() =~= a);
}

proof fn lemma_two(a: Call, b: Call)
    ensures
        actions(seq![a, b]) == actions(seq![a]) + actions(seq![b]),
{
    assert(seq![a, b] =~= seq![a] + seq![b]);
    lemma_actions_join(seq![a], seq![b]);
}

pub proof fn lemma_one(a: Call)
    ensures
        actions(seq![a]) == if is_action(a) {
            seq![a]
        } else {
            Seq::empty()
        },
{
    assert(seq![a] =~= Seq::empty().push(a));
    lemma_actions_push(Seq::empty(), a);
    assert(Seq::empty().push(a) =~= seq![a]);
}

proof fn lemma_three(a: Call, b: Call, c: Call)
    ensures
        actions(seq![a, b, c]) == actions(seq![a]) + actions(seq![b]) + actions(seq![c]),
{
    assert(seq![a, b, c] =~= seq![a, b] + seq![c]);
    lemma_actions_join(seq![a, b], seq![c]);
    lemma_two(a, b);
}

proof fn lemma_four(a: Call, b: Call, c: Call, d: Call)
    ensures
        actions(seq![a, b, c, d]) == actions(seq![a]) + actions(seq![b]) + actions(seq![c])
            + actions(seq![d]),
{
    assert(seq![a, b, c, d] =~= seq![a, b, c] + seq![d]);
    lemma_actions_join(seq![a, b, c], seq![d]);
    lemma_three(a, b, c);
}

/// A read asks the kernel once for the object, as the actor, and is on record as a read
/// of that object before.
pub proof fn law_a_read_asks_once(
    actor: Ref64,
    object: Ref64,
    reply: Result<Seq<u8>, RuntimeError>,
    number: Option<u64>,
)
    ensures
        actions(lane::read_calls(actor, object, reply)) == seq![
            Call::ObjectBytes { actor, object, reply },
        ],
        actions(lane::read_u64_calls(actor, object, number)) == seq![
            Call::ReadU64 { actor, object, reply: number },
        ],
        lane::read_calls(actor, object, reply).first() == Call::RecordRead(
            Resource::Object(object),
        ),
        lane::read_u64_calls(actor, object, number).first() == Call::RecordRead(
            Resource::Object(object),
        ),
{
    let before = lane::reading(actor, object);
    lemma_two(before[0], before[1]);
    lemma_one(before[0]);
    lemma_one(before[1]);
    assert(before =~= seq![before[0], before[1]]);
    assert(actions(before) =~= Seq::<Call>::empty());
    lemma_actions_push(before, Call::ObjectBytes { actor, object, reply });
    lemma_actions_push(before, Call::ReadU64 { actor, object, reply: number });
    assert(Seq::empty().push(Call::ObjectBytes { actor, object, reply }) =~= seq![
        Call::ObjectBytes { actor, object, reply },
    ]);
    assert(Seq::empty().push(Call::ReadU64 { actor, object, reply: number }) =~= seq![
        Call::ReadU64 { actor, object, reply: number },
    ]);
}

/// An edit opens the object once, as the actor and with the growth that was asked for,
/// and is on record as a mutation of that object before.
pub proof fn law_an_edit_opens_once(
    actor: Ref64,
    object: Ref64,
    growable: bool,
    reply: Result<(Seq<u8>, Seq<u8>), RuntimeError>,
)
    ensures
        actions(lane::edit_calls(actor, object, growable, reply)) == seq![
            Call::Edit { actor, object, growable, reply },
        ],
        lane::edit_calls(actor, object, growable, reply).first() == Call::RecordObjectMutation(
            object,
        ),
{
    let calls = lane::edit_calls(actor, object, growable, reply);
    assert(calls =~= seq![calls[0], calls[1], calls[2]]);
    lemma_three(calls[0], calls[1], calls[2]);
    lemma_one(calls[0]);
    lemma_one(calls[1]);
    lemma_one(calls[2]);
    assert(Seq::empty() + Seq::empty() + seq![calls[2]] =~= seq![calls[2]]);
}

/// Storing a frame leaves the whole content in the frame's object, where there is one.
pub proof fn law_a_store_replaces_the_frame(
    frame: Ref64,
    actor: Ref64,
    content: Seq<u8>,
    held: Result<Seq<u8>, RuntimeError>,
)
    ensures
        frame.raw == 0 ==> actions(step::store_calls(frame, actor, content, held)).len() == 0,
        frame.raw != 0 ==> actions(step::store_calls(frame, actor, content, held)) == seq![
            Call::Edit {
                actor,
                object: frame,
                growable: true,
                reply: match held {
                    Ok(held) => Ok((held, content)),
                    Err(error) => Err(error),
                },
            },
        ],
{
    law_an_edit_opens_once(
        actor,
        frame,
        true,
        match held {
            Ok(held) => Ok((held, content)),
            Err(error) => Err(error),
        },
    );
}

/// A process, a future, a message, a resolution and an await each ask the kernel once,
/// with the arguments that were given.
pub proof fn law_other_requests_ask_once(
    actor: Ref64,
    mode: ProcessMode,
    made: Result<Ref64, RuntimeError>,
    future: Ref64,
    value: Ref64,
    cont: Ref64,
    next_run_class: u32,
    settled: Result<(), RuntimeError>,
    awaited: Result<AwaitOutcome, RuntimeError>,
    received: Result<Option<MessageDescriptor>, RuntimeError>,
    observed: Result<Option<Ref64>, RuntimeError>,
)
    ensures
        actions(lane::process_calls(actor, mode, made)) == seq![
            Call::CreateProcess { actor, mode, reply: made },
        ],
        actions(lane::future_calls(actor, future)) == seq![
            Call::CreateFuture { actor, reply: future },
        ],
        actions(lane::enqueue_calls(actor, future, value, cont, settled)) == seq![
            Call::Enqueue { actor, receiver: future, payload: value, sender: cont, reply: settled },
        ],
        actions(lane::receive_calls(actor, cont, received)) == seq![
            Call::Receive { actor, continuation: cont, reply: received },
        ],
        actions(lane::resolve_calls(actor, future, value, settled)) == seq![
            Call::Resolve { actor, future, value, reply: settled },
        ],
        actions(lane::await_calls(actor, cont, future, next_run_class, awaited)) == seq![
            Call::Await { actor, continuation: cont, future, next_run_class, reply: awaited },
        ],
        actions(lane::observe_calls(actor, future, observed)) == seq![
            Call::ObserveFuture { actor, future, reply: observed },
        ],
{
    let a = lane::process_calls(actor, mode, made);
    lemma_three_in(a, 1);
    let b = lane::future_calls(actor, future);
    lemma_four_in(b, 2);
    let c = lane::enqueue_calls(actor, future, value, cont, settled);
    lemma_four_in(c, 2);
    let d = lane::receive_calls(actor, cont, received);
    lemma_three_in(d, 1);
    let e = lane::resolve_calls(actor, future, value, settled);
    lemma_four_in(e, 2);
    let f = lane::await_calls(actor, cont, future, next_run_class, awaited);
    lemma_four_in(f, 2);
    let g = lane::observe_calls(actor, future, observed);
    lemma_three_in(g, 1);
}

proof fn lemma_three_in(calls: Seq<Call>, at: int)
    requires
        calls.len() == 3,
        0 <= at < 3,
        forall|i: int| 0 <= i < 3 ==> is_action(#[trigger] calls[i]) == (i == at),
    ensures
        actions(calls) == seq![calls[at]],
{
    assert(calls =~= seq![calls[0], calls[1], calls[2]]);
    lemma_three(calls[0], calls[1], calls[2]);
    lemma_one(calls[0]);
    lemma_one(calls[1]);
    lemma_one(calls[2]);
    assert(actions(calls) =~= seq![calls[at]]);
}

proof fn lemma_four_in(calls: Seq<Call>, at: int)
    requires
        calls.len() == 4,
        0 <= at < 4,
        forall|i: int| 0 <= i < 4 ==> is_action(#[trigger] calls[i]) == (i == at),
    ensures
        actions(calls) == seq![calls[at]],
{
    assert(calls =~= seq![calls[0], calls[1], calls[2], calls[3]]);
    lemma_four(calls[0], calls[1], calls[2], calls[3]);
    lemma_one(calls[0]);
    lemma_one(calls[1]);
    lemma_one(calls[2]);
    lemma_one(calls[3]);
    assert(actions(calls) =~= seq![calls[at]]);
}

/// A continuation and an object are asked for once, with what was given. Their content
/// is recorded only where speculation records.
pub proof fn law_content_is_recorded_where_speculation_records(
    actor: Ref64,
    process: Ref64,
    spec: SpecView,
    kind: ObjectKind,
    content: Seq<u8>,
    recording: bool,
    made: Result<Ref64, RuntimeError>,
    object: Ref64,
)
    ensures
        actions(lane::continuation_calls(actor, process, spec, recording, made)) == seq![
            Call::CreateContinuation { actor, process, spec, reply: made },
        ],
        actions(lane::object_calls(actor, kind, content, recording, object)) == seq![
            Call::CreateObject { actor, kind, bytes: content, reply: object },
        ],
        lane::continuation_calls(actor, process, spec, recording, made).last() is RecordOperation
            == recording,
        lane::object_calls(actor, kind, content, recording, object).last() is RecordOperation
            == recording,
{
    let c = seq![
        Call::RecordAllocation,
        Call::RecordWrite(Resource::Process(actor)),
        Call::RecordWrite(Resource::Process(process)),
        Call::IsRecording(recording),
    ];
    lemma_four(c[0], c[1], c[2], c[3]);
    lemma_one(c[0]);
    lemma_one(c[1]);
    lemma_one(c[2]);
    lemma_one(c[3]);
    assert(actions(c) =~= Seq::<Call>::empty());
    let made_call = Call::CreateContinuation { actor, process, spec, reply: made };
    lemma_actions_push(c, made_call);
    let whole = lane::continuation_calls(actor, process, spec, recording, made);
    assert(c.push(made_call) =~= whole.take(5));
    assert(Seq::empty().push(made_call) =~= seq![made_call]);
    if recording {
        lemma_actions_push(c.push(made_call), whole[5]);
        assert(whole =~= c.push(made_call).push(whole[5]));
    } else {
        assert(whole =~= c.push(made_call));
    }
    let o = seq![
        Call::RecordAllocation,
        Call::RecordWrite(Resource::Process(actor)),
        Call::IsRecording(recording),
    ];
    lemma_three(o[0], o[1], o[2]);
    lemma_one(o[2]);
    assert(actions(o) =~= Seq::<Call>::empty());
    let object_call = Call::CreateObject { actor, kind, bytes: content, reply: object };
    lemma_actions_push(o, object_call);
    let all = lane::object_calls(actor, kind, content, recording, object);
    assert(Seq::empty().push(object_call) =~= seq![object_call]);
    if recording {
        lemma_actions_push(o.push(object_call), all[4]);
        assert(all =~= o.push(object_call).push(all[4]));
    } else {
        assert(all =~= o.push(object_call));
    }
}

} // verus!
