//! What a handler may do to the kernel while its lane runs.
//!
//! Every operation is recorded for speculation around the kernel call that
//! performs it: what it reads or writes first, then what it did.

use crate::kernel;
use crate::kernel::{
    AwaitOutcome, Call, ContinuationSpec, Kernel, LaneOperation, MessageDescriptor, ObjectKind,
    OperationView, ProcessMode, Ref64, Resource, RuntimeError, SpecView,
};
use vstd::prelude::*;

verus! {

/// A lane's hold on the kernel, with the frame of the continuation it runs.
pub struct LaneView<K: Kernel> {
    pub kernel: K,
    pub frame: Ref64,
}

pub open spec fn observe_calls(
    actor: Ref64,
    future: Ref64,
    reply: Result<Option<Ref64>, RuntimeError>,
) -> Seq<Call> {
    seq![
        Call::RecordRead(Resource::Future(future)),
        Call::ObserveFuture { actor, future, reply },
        Call::RecordOperation(
            OperationView::Plain(LaneOperation::ObserveFuture { actor, future, result: reply }),
        ),
    ]
}

/// The two records that come before an object is read.
pub open spec fn reading(actor: Ref64, object: Ref64) -> Seq<Call> {
    seq![
        Call::RecordRead(Resource::Object(object)),
        Call::RecordOperation(OperationView::Plain(LaneOperation::ReadObject { actor, object })),
    ]
}

pub open spec fn read_calls(actor: Ref64, object: Ref64, reply: Result<Seq<u8>, RuntimeError>) -> Seq<
    Call,
> {
    reading(actor, object).push(Call::ObjectBytes { actor, object, reply })
}

pub open spec fn read_u64_calls(actor: Ref64, object: Ref64, reply: Option<u64>) -> Seq<Call> {
    reading(actor, object).push(Call::ReadU64 { actor, object, reply })
}

pub open spec fn process_calls(
    actor: Ref64,
    mode: ProcessMode,
    reply: Result<Ref64, RuntimeError>,
) -> Seq<Call> {
    seq![
        Call::RecordProcessCreation(actor),
        Call::CreateProcess { actor, mode, reply },
        Call::RecordOperation(
            OperationView::Plain(LaneOperation::CreateProcess { actor, mode, result: reply }),
        ),
    ]
}

/// A continuation's specification is recorded only where speculation records.
pub open spec fn continuation_calls(
    actor: Ref64,
    process: Ref64,
    spec: SpecView,
    recording: bool,
    reply: Result<Ref64, RuntimeError>,
) -> Seq<Call> {
    let made = seq![
        Call::RecordAllocation,
        Call::RecordWrite(Resource::Process(actor)),
        Call::RecordWrite(Resource::Process(process)),
        Call::IsRecording(recording),
        Call::CreateContinuation { actor, process, spec, reply },
    ];
    if recording {
        made.push(
            Call::RecordOperation(
                OperationView::CreateContinuation { actor, process, spec, result: reply },
            ),
        )
    } else {
        made
    }
}

pub open spec fn future_calls(actor: Ref64, reply: Ref64) -> Seq<Call> {
    seq![
        Call::RecordAllocation,
        Call::RecordWrite(Resource::Process(actor)),
        Call::CreateFuture { actor, reply },
        Call::RecordOperation(
            OperationView::Plain(LaneOperation::CreateFuture { actor, result: reply }),
        ),
    ]
}

/// An object's bytes are recorded only where speculation records.
pub open spec fn object_calls(
    actor: Ref64,
    kind: ObjectKind,
    bytes: Seq<u8>,
    recording: bool,
    reply: Ref64,
) -> Seq<Call> {
    let made = seq![
        Call::RecordAllocation,
        Call::RecordWrite(Resource::Process(actor)),
        Call::IsRecording(recording),
        Call::CreateObject { actor, kind, bytes, reply },
    ];
    if recording {
        made.push(
            Call::RecordOperation(
                OperationView::CreateObject { actor, kind, bytes, result: reply },
            ),
        )
    } else {
        made
    }
}

/// `reply` is what the object held and what it was left with.
pub open spec fn edit_calls(
    actor: Ref64,
    object: Ref64,
    growable: bool,
    reply: Result<(Seq<u8>, Seq<u8>), RuntimeError>,
) -> Seq<Call> {
    seq![
        Call::RecordObjectMutation(object),
        Call::RecordOperation(
            OperationView::Plain(LaneOperation::WriteObject { actor, object, growable }),
        ),
        Call::Edit { actor, object, growable, reply },
    ]
}

pub open spec fn enqueue_calls(
    actor: Ref64,
    receiver: Ref64,
    payload: Ref64,
    sender: Ref64,
    reply: Result<(), RuntimeError>,
) -> Seq<Call> {
    seq![
        Call::RecordWrite(Resource::Mailbox(receiver)),
        Call::RecordRead(Resource::Object(payload)),
        Call::Enqueue { actor, receiver, payload, sender, reply },
        Call::RecordOperation(
            OperationView::Plain(
                LaneOperation::EnqueueMessage {
                    actor,
                    receiver,
                    payload,
                    sender_continuation: sender,
                    result: reply,
                },
            ),
        ),
    ]
}

pub open spec fn receive_calls(
    actor: Ref64,
    continuation: Ref64,
    reply: Result<Option<MessageDescriptor>, RuntimeError>,
) -> Seq<Call> {
    seq![
        Call::RecordWrite(Resource::Mailbox(actor)),
        Call::Receive { actor, continuation, reply },
        Call::RecordOperation(
            OperationView::Plain(
                LaneOperation::ReceiveMessage { actor, continuation, result: reply },
            ),
        ),
    ]
}

pub open spec fn resolve_calls(
    actor: Ref64,
    future: Ref64,
    value: Ref64,
    reply: Result<(), RuntimeError>,
) -> Seq<Call> {
    seq![
        Call::RecordWrite(Resource::Future(future)),
        Call::RecordRead(Resource::Object(value)),
        Call::Resolve { actor, future, value, reply },
        Call::RecordOperation(
            OperationView::Plain(
                LaneOperation::ResolveFuture { actor, future, value, result: reply },
            ),
        ),
    ]
}

pub open spec fn await_calls(
    actor: Ref64,
    continuation: Ref64,
    future: Ref64,
    next_run_class: u32,
    reply: Result<AwaitOutcome, RuntimeError>,
) -> Seq<Call> {
    seq![
        Call::RecordWrite(Resource::Future(future)),
        Call::RecordWrite(Resource::Process(actor)),
        Call::Await { actor, continuation, future, next_run_class, reply },
        Call::RecordOperation(
            OperationView::Plain(
                LaneOperation::AwaitFuture {
                    actor,
                    continuation,
                    future,
                    next_run_class,
                    result: reply,
                },
            ),
        ),
    ]
}

impl<K: Kernel> LaneView<K> {
    pub open spec fn log(&self) -> Seq<Call> {
        self.kernel.log()
    }

    /// The lane is still on the same frame, in the same epoch.
    pub open spec fn same_place(&self, other: &Self) -> bool {
        self.frame == other.frame && self.kernel.epoch() == other.kernel.epoch()
    }

    pub fn new(kernel: K, frame: Ref64) -> (lane: Self)
        ensures
            lane.kernel == kernel,
            lane.frame == frame,
    {
        LaneView { kernel, frame }
    }

    pub fn frame(&self) -> (frame: Ref64)
        ensures
            frame == self.frame,
    {
        self.frame
    }

    pub fn epoch_number(&self) -> (epoch: u32)
        ensures
            epoch == self.kernel.epoch(),
    {
        self.kernel.epoch_number()
    }

    pub fn future_value(&mut self, actor: Ref64, future: Ref64) -> (reply: Result<
        Option<Ref64>,
        RuntimeError,
    >)
        ensures
            final(self).log() == old(self).log() + observe_calls(actor, future, reply),
            final(self).same_place(old(self)),
    {
        let ghost before = self.log();
        self.kernel.record_speculative_read(Resource::Future(future));
        let result = self.kernel.observe_future(actor, future);
        self.kernel.record_speculative_operation(
            LaneOperation::ObserveFuture { actor, future, result },
        );
        assert(self.log() =~= before + observe_calls(actor, future, result));
        result
    }

    pub fn object_bytes(&mut self, actor: Ref64, obj: Ref64) -> (reply: Result<
        Vec<u8>,
        RuntimeError,
    >)
        ensures
            final(self).log() == old(self).log() + read_calls(
                actor,
                obj,
                kernel::replied_bytes(reply),
            ),
            final(self).same_place(old(self)),
    {
        let ghost before = self.log();
        self.kernel.record_speculative_read(Resource::Object(obj));
        self.kernel.record_speculative_operation(LaneOperation::ReadObject { actor, object: obj });
        let reply = self.kernel.object_bytes(actor, obj);
        assert(self.log() =~= before + read_calls(actor, obj, kernel::replied_bytes(reply)));
        reply
    }

    pub fn read_u64_object(&mut self, actor: Ref64, obj: Ref64) -> (reply: Option<u64>)
        ensures
            final(self).log() == old(self).log() + read_u64_calls(actor, obj, reply),
            final(self).same_place(old(self)),
    {
        let ghost before = self.log();
        self.kernel.record_speculative_read(Resource::Object(obj));
        self.kernel.record_speculative_operation(LaneOperation::ReadObject { actor, object: obj });
        let reply = self.kernel.read_u64_object(actor, obj);
        assert(self.log() =~= before + read_u64_calls(actor, obj, reply));
        reply
    }

    pub fn create_process(&mut self, actor: Ref64, mode: ProcessMode) -> (reply: Result<
        Ref64,
        RuntimeError,
    >)
        ensures
            final(self).log() == old(self).log() + process_calls(actor, mode, reply),
            final(self).same_place(old(self)),
    {
        let ghost before = self.log();
        self.kernel.record_speculative_process_creation(actor);
        let result = self.kernel.create_process(actor, mode);
        self.kernel.record_speculative_operation(
            LaneOperation::CreateProcess { actor, mode, result },
        );
        assert(self.log() =~= before + process_calls(actor, mode, result));
        result
    }

    pub fn create_continuation(&mut self, actor: Ref64, process: Ref64, spec: ContinuationSpec) -> (reply:
        Result<Ref64, RuntimeError>)
        ensures
            exists|recording: bool|
                final(self).log() == old(self).log() + #[trigger] continuation_calls(
                    actor,
                    process,
                    spec@,
                    recording,
                    reply,
                ),
            final(self).same_place(old(self)),
    {
        let ghost before = self.log();
        self.kernel.record_speculative_allocation();
        self.kernel.record_speculative_write(Resource::Process(actor));
        self.kernel.record_speculative_write(Resource::Process(process));
        let recording: bool = self.kernel.is_speculative_recording();
        if recording {
            let recorded: ContinuationSpec = spec.duplicate();
            let result = self.kernel.create_continuation(actor, process, spec);
            let operation = LaneOperation::CreateContinuation {
                actor,
                process,
                spec: recorded,
                result,
            };
            self.kernel.record_speculative_operation(operation);
            assert(self.log() =~= before + continuation_calls(
                actor,
                process,
                spec@,
                true,
                result,
            ));
            result
        } else {
            let result = self.kernel.create_continuation(actor, process, spec);
            assert(self.log() =~= before + continuation_calls(
                actor,
                process,
                spec@,
                false,
                result,
            ));
            result
        }
    }

    pub fn create_future(&mut self, actor: Ref64) -> (reply: Ref64)
        ensures
            final(self).log() == old(self).log() + future_calls(actor, reply),
            final(self).same_place(old(self)),
    {
        let ghost before = self.log();
        self.kernel.record_speculative_allocation();
        self.kernel.record_speculative_write(Resource::Process(actor));
        let result = self.kernel.create_future(actor);
        self.kernel.record_speculative_operation(LaneOperation::CreateFuture { actor, result });
        assert(self.log() =~= before + future_calls(actor, result));
        result
    }

    pub fn create_object(&mut self, actor: Ref64, kind: ObjectKind, bytes: Vec<u8>) -> (reply: Ref64)
        ensures
            exists|recording: bool|
                final(self).log() == old(self).log() + #[trigger] object_calls(
                    actor,
                    kind,
                    bytes@,
                    recording,
                    reply,
                ),
            final(self).same_place(old(self)),
    {
        let ghost before = self.log();
        let ghost content = bytes@;
        self.kernel.record_speculative_allocation();
        self.kernel.record_speculative_write(Resource::Process(actor));
        let recording: bool = self.kernel.is_speculative_recording();
        if recording {
            let recorded: Vec<u8> = vstd::slice::slice_to_vec(bytes.as_slice());
            assert(recorded@ =~= content);
            let result = self.kernel.create_object(actor, kind, bytes);
            let operation = LaneOperation::CreateObject { actor, kind, bytes: recorded, result };
            self.kernel.record_speculative_operation(operation);
            assert(self.log() =~= before + object_calls(actor, kind, content, true, result));
            result
        } else {
            let result = self.kernel.create_object(actor, kind, bytes);
            assert(self.log() =~= before + object_calls(actor, kind, content, false, result));
            result
        }
    }

    /// A payload that may grow, opened for writing.
    pub fn host_payload_mut(&mut self, actor: Ref64, obj: Ref64) -> (reply: Result<
        &mut Vec<u8>,
        RuntimeError,
    >)
        ensures
            match reply {
                Ok(buffer) => final(self).log() == old(self).log() + edit_calls(
                    actor,
                    obj,
                    true,
                    Ok((buffer@, final(buffer)@)),
                ),
                Err(error) => final(self).log() == old(self).log() + edit_calls(
                    actor,
                    obj,
                    true,
                    Err(error),
                ),
            },
            final(self).same_place(old(self)),
    {
        self.open(actor, obj, true)
    }

    /// An object's bytes, opened for writing in place: as many stay.
    pub fn object_bytes_mut(&mut self, actor: Ref64, obj: Ref64) -> (reply: Result<
        &mut [u8],
        RuntimeError,
    >)
        ensures
            match reply {
                Ok(buffer) => final(self).log() == old(self).log() + edit_calls(
                    actor,
                    obj,
                    false,
                    Ok((buffer@, final(buffer)@)),
                ),
                Err(error) => final(self).log() == old(self).log() + edit_calls(
                    actor,
                    obj,
                    false,
                    Err(error),
                ),
            },
            final(self).same_place(old(self)),
    {
        match self.open(actor, obj, false) {
            Ok(buffer) => Ok(buffer.as_mut_slice()),
            Err(error) => Err(error),
        }
    }

    fn open(&mut self, actor: Ref64, obj: Ref64, growable: bool) -> (reply: Result<
        &mut Vec<u8>,
        RuntimeError,
    >)
        ensures
            match reply {
                Ok(buffer) => final(self).log() == old(self).log() + edit_calls(
                    actor,
                    obj,
                    growable,
                    Ok((buffer@, final(buffer)@)),
                ),
                Err(error) => final(self).log() == old(self).log() + edit_calls(
                    actor,
                    obj,
                    growable,
                    Err(error),
                ),
            },
            final(self).same_place(old(self)),
    {
        let ghost before = self.log();
        self.kernel.record_speculative_object_mutation(obj);
        self.kernel.record_speculative_operation(
            LaneOperation::WriteObject { actor, object: obj, growable },
        );
        let ghost recorded = self.log();
        proof {
            lemma_edit_calls(before, recorded, actor, obj, growable);
        }
        self.kernel.edit_object(actor, obj, growable)
    }

    pub fn enqueue_message(
        &mut self,
        actor: Ref64,
        receiver: Ref64,
        payload: Ref64,
        sender_cont: Ref64,
    ) -> (reply: Result<(), RuntimeError>)
        ensures
            final(self).log() == old(self).log() + enqueue_calls(
                actor,
                receiver,
                payload,
                sender_cont,
                reply,
            ),
            final(self).same_place(old(self)),
    {
        let ghost before = self.log();
        self.kernel.record_speculative_write(Resource::Mailbox(receiver));
        self.kernel.record_speculative_read(Resource::Object(payload));
        let result = self.kernel.enqueue_message(actor, receiver, payload, sender_cont);
        self.kernel.record_speculative_operation(
            LaneOperation::EnqueueMessage {
                actor,
                receiver,
                payload,
                sender_continuation: sender_cont,
                result,
            },
        );
        assert(self.log() =~= before + enqueue_calls(
            actor,
            receiver,
            payload,
            sender_cont,
            result,
        ));
        result
    }

    pub fn receive_message(&mut self, actor: Ref64, cont: Ref64) -> (reply: Result<
        Option<MessageDescriptor>,
        RuntimeError,
    >)
        ensures
            final(self).log() == old(self).log() + receive_calls(actor, cont, reply),
            final(self).same_place(old(self)),
    {
        let ghost before = self.log();
        self.kernel.record_speculative_write(Resource::Mailbox(actor));
        let result = self.kernel.receive_message(actor, cont);
        self.kernel.record_speculative_operation(
            LaneOperation::ReceiveMessage { actor, continuation: cont, result },
        );
        assert(self.log() =~= before + receive_calls(actor, cont, result));
        result
    }

    pub fn resolve_future(&mut self, actor: Ref64, future: Ref64, value: Ref64) -> (reply: Result<
        (),
        RuntimeError,
    >)
        ensures
            final(self).log() == old(self).log() + resolve_calls(actor, future, value, reply),
            final(self).same_place(old(self)),
    {
        let ghost before = self.log();
        self.kernel.record_speculative_write(Resource::Future(future));
        self.kernel.record_speculative_read(Resource::Object(value));
        let result = self.kernel.resolve_future(actor, future, value);
        self.kernel.record_speculative_operation(
            LaneOperation::ResolveFuture { actor, future, value, result },
        );
        assert(self.log() =~= before + resolve_calls(actor, future, value, result));
        result
    }

    pub fn await_future(&mut self, actor: Ref64, cont: Ref64, future: Ref64, next_run_class: u32) -> (reply:
        Result<AwaitOutcome, RuntimeError>)
        ensures
            final(self).log() == old(self).log() + await_calls(
                actor,
                cont,
                future,
                next_run_class,
                reply,
            ),
            final(self).same_place(old(self)),
    {
        let ghost before = self.log();
        self.kernel.record_speculative_write(Resource::Future(future));
        self.kernel.record_speculative_write(Resource::Process(actor));
        let result = self.kernel.await_future(actor, cont, future, next_run_class);
        self.kernel.record_speculative_operation(
            LaneOperation::AwaitFuture { actor, continuation: cont, future, next_run_class, result },
        );
        assert(self.log() =~= before + await_calls(actor, cont, future, next_run_class, result));
        result
    }
}

proof fn lemma_edit_calls(
    before: Seq<Call>,
    recorded: Seq<Call>,
    actor: Ref64,
    object: Ref64,
    growable: bool,
)
    requires
        recorded == before.push(Call::RecordObjectMutation(object)).push(
            Call::RecordOperation(
                OperationView::Plain(LaneOperation::WriteObject { actor, object, growable }),
            ),
        ),
    ensures
        forall|reply: Result<(Seq<u8>, Seq<u8>), RuntimeError>|
            recorded.push(Call::Edit { actor, object, growable, reply }) == before
                + #[trigger] edit_calls(actor, object, growable, reply),
{
    assert forall|reply: Result<(Seq<u8>, Seq<u8>), RuntimeError>|
        recorded.push(Call::Edit { actor, object, growable, reply }) == before
            + #[trigger] edit_calls(actor, object, growable, reply) by {
        assert(recorded.push(Call::Edit { actor, object, growable, reply }) =~= before
            + edit_calls(actor, object, growable, reply));
    }
}

} // verus!
