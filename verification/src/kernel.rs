//! The kernel as executives and experiments call it.
//!
//! The kernel itself is a service outside this library. [`Kernel`] says one
//! thing of each of its operations: the call and its reply are the next entry
//! of the kernel's log. What a caller of the kernel does is then stated as the
//! calls it adds to that log, each a function of the replies before it.

use crate::scheduler::{Accounting, PartialCohortPolicy, SchedulingMode};
use vstd::prelude::*;

verus! {

/// Why the kernel refused an operation.
#[derive(Clone, Copy, Debug, PartialEq, Eq, Structural)]
pub enum RuntimeError {
    Unavailable,
    MissingPayload,
    MailboxFull,
    InvalidMultiInput,
}

pub open spec fn error_name(error: RuntimeError) -> Seq<char> {
    match error {
        RuntimeError::Unavailable => "Unavailable"@,
        RuntimeError::MissingPayload => "MissingPayload"@,
        RuntimeError::MailboxFull => "MailboxFull"@,
        RuntimeError::InvalidMultiInput => "InvalidMultiInput"@,
    }
}

/// The error's name.
pub fn error_text(error: RuntimeError) -> (text: &'static str)
    ensures
        text@ == error_name(error),
{
    match error {
        RuntimeError::Unavailable => "Unavailable",
        RuntimeError::MissingPayload => "MissingPayload",
        RuntimeError::MailboxFull => "MailboxFull",
        RuntimeError::InvalidMultiInput => "InvalidMultiInput",
    }
}

/// A reference to something the kernel holds.
#[derive(Clone, Copy, Debug, PartialEq, Eq, Structural)]
pub struct Ref64 {
    pub raw: u64,
}

impl Ref64 {
    pub open spec fn of(raw: u64) -> Ref64 {
        Ref64 { raw }
    }

    pub fn null() -> (r: Ref64)
        ensures
            r == Ref64::of(0),
    {
        Ref64 { raw: 0 }
    }

    /// The place in its table that the reference names.
    pub open spec fn place(self) -> u32 {
        (self.raw % 0x1_0000_0000) as u32
    }

    pub fn slot(self) -> (slot: u32)
        ensures
            slot == self.place(),
    {
        (self.raw % 0x1_0000_0000) as u32
    }

    pub fn is_null(self) -> (null: bool)
        ensures
            null == (self.raw == 0),
    {
        self.raw == 0
    }

    pub fn from_u64(raw: u64) -> (r: Ref64)
        ensures
            r == Ref64::of(raw),
    {
        Ref64 { raw }
    }

    pub fn to_u64(self) -> (raw: u64)
        ensures
            raw == self.raw,
    {
        self.raw
    }
}

#[derive(Clone, Copy, Debug, PartialEq, Eq, Structural)]
pub enum ProcessMode {
    Serial,
    Parallel,
}

#[derive(Clone, Copy, Debug, PartialEq, Eq, Structural)]
pub enum ObjectKind {
    RawBytes,
    FrozenArray,
    MessagePayload,
    FutureValue,
}

#[derive(Clone, Copy, Debug, PartialEq, Eq, Structural)]
pub enum StateAccess {
    ReadOnly,
    Mutable,
}

/// What a channel's owner lets another process do with it.
#[derive(Clone, Copy, Debug, PartialEq, Eq, Structural)]
pub enum ChannelRight {
    Send,
    Receive,
}

#[derive(Clone, Copy, Debug, PartialEq, Eq, Structural)]
pub enum ProcessState {
    Active,
    Completed,
    Failed,
}

pub open spec fn state_name(state: ProcessState) -> Seq<char> {
    match state {
        ProcessState::Active => "Active"@,
        ProcessState::Completed => "Completed"@,
        ProcessState::Failed => "Failed"@,
    }
}

/// The state's name.
pub fn state_text(state: ProcessState) -> (text: &'static str)
    ensures
        text@ == state_name(state),
{
    match state {
        ProcessState::Active => "Active",
        ProcessState::Completed => "Completed",
        ProcessState::Failed => "Failed",
    }
}

#[derive(Clone, Copy, Debug, PartialEq, Eq, Structural)]
pub enum EventKind {
    CohortCreated,
    ProcessFailed,
    SupervisionNotified,
    ProcessRestarted,
    Other,
}

/// One event of a kernel's trace. A cohort's active lanes are its auxiliary.
#[derive(Clone, Copy, Debug, PartialEq, Eq, Structural)]
pub struct TraceEvent {
    pub kind: EventKind,
    pub run_class: u32,
    pub auxiliary: u64,
}

/// How many of the first `n` events are of a kind.
pub open spec fn events_of(events: Seq<TraceEvent>, kind: EventKind, n: int) -> int
    decreases n,
{
    if n <= 0 {
        0
    } else {
        events_of(events, kind, n - 1) + if events[n - 1].kind == kind {
            1int
        } else {
            0
        }
    }
}

pub fn count_events(events: &Vec<TraceEvent>, kind: EventKind) -> (count: u64)
    ensures
        count == events_of(events@, kind, events@.len() as int),
{
    let mut count: u64 = 0;
    let mut i: usize = 0;
    while i < events.len()
        invariant
            i <= events.len(),
            count <= i,
            count == events_of(events@, kind, i as int),
        decreases events.len() - i,
    {
        if events[i].kind == kind {
            count = count + 1;
        }
        i = i + 1;
    }
    count
}

/// How many events of the trace were taken, and how many were dropped untaken.
#[derive(Clone, Copy, Debug, PartialEq, Eq, Structural)]
pub struct TraceCensus {
    pub taken: u64,
    pub dropped: u64,
}

/// One row of a snapshot of the whole trace.
#[derive(Clone, Copy, Debug, PartialEq, Eq, Structural)]
pub struct TraceSnapshotRow {
    pub epoch: u32,
    pub event: TraceEvent,
    pub process: Ref64,
}

/// A log behind the call that says how lanes are binned.
pub open spec fn configured(
    log: Seq<Call>,
    mode: SchedulingMode,
    cohort_width: u16,
    partial: PartialCohortPolicy,
) -> Seq<Call> {
    log.push(Call::Configure { mode, cohort_width, partial })
}

/// What a supervised process's failure does to its supervisor.
#[derive(Clone, Copy, Debug, PartialEq, Eq, Structural)]
pub enum SupervisionPolicy {
    Notify,
    Escalate,
    Restart,
}

/// A message as its receiver sees it.
#[derive(Clone, Copy, Debug, PartialEq, Eq, Structural)]
pub struct MessageDescriptor {
    pub sender: Ref64,
    pub payload: Ref64,
}

#[derive(Clone, Copy, Debug, PartialEq, Eq, Structural)]
pub enum AwaitOutcome {
    Registered,
    AlreadySettled(Ref64),
}

/// A second array bound to a batch, not bound where its stride is zero.
#[derive(Clone, Copy, Debug, PartialEq, Eq, Structural)]
pub struct AuxBinding {
    pub inputs: Ref64,
    pub element_count: u32,
    pub element_stride: u32,
}

/// What a batch collective asks for.
#[derive(Clone, Copy, Debug, PartialEq, Eq, Structural)]
pub struct BatchOrder {
    pub evaluator: u32,
    pub inputs: Ref64,
    pub element_count: u32,
    pub element_stride: u32,
}

/// What the kernel tells of a continuation: its frame, the run class it named
/// last, and whether it is runnable or waiting.
#[derive(Clone, Copy, Debug, PartialEq, Eq, Structural)]
pub struct ContinuationInfo {
    pub frame: Ref64,
    pub run_class: u32,
    pub alive: bool,
}

/// A continuation to be created.
#[derive(Debug)]
pub struct ContinuationSpec {
    pub access: StateAccess,
    pub run_class: u32,
    pub priority: u32,
    pub frame: Vec<u8>,
    pub max_steps: u32,
}

#[verifier::ext_equal]
pub ghost struct SpecView {
    pub access: StateAccess,
    pub run_class: u32,
    pub priority: u32,
    pub frame: Seq<u8>,
    pub max_steps: u32,
}

impl View for ContinuationSpec {
    type V = SpecView;

    open spec fn view(&self) -> SpecView {
        SpecView {
            access: self.access,
            run_class: self.run_class,
            priority: self.priority,
            frame: self.frame@,
            max_steps: self.max_steps,
        }
    }
}

impl ContinuationSpec {
    pub fn new(
        access: StateAccess,
        run_class: u32,
        priority: u32,
        frame: Vec<u8>,
        max_steps: u32,
    ) -> (spec: Self)
        ensures
            spec@ == (SpecView { access, run_class, priority, frame: frame@, max_steps }),
    {
        ContinuationSpec { access, run_class, priority, frame, max_steps }
    }

    pub fn duplicate(&self) -> (copy: Self)
        ensures
            copy@ == self@,
    {
        let copy = ContinuationSpec {
            access: self.access,
            run_class: self.run_class,
            priority: self.priority,
            frame: vstd::slice::slice_to_vec(self.frame.as_slice()),
            max_steps: self.max_steps,
        };
        assert(copy@ =~= self@);
        copy
    }
}

/// What a lane touched, as speculation records it.
#[derive(Clone, Copy, Debug, PartialEq, Eq, Structural)]
pub enum Resource {
    Future(Ref64),
    Object(Ref64),
    Process(Ref64),
    Mailbox(Ref64),
}

/// What a lane did, as speculation records it.
#[derive(Debug)]
pub enum LaneOperation {
    ObserveFuture { actor: Ref64, future: Ref64, result: Result<Option<Ref64>, RuntimeError> },
    ReadObject { actor: Ref64, object: Ref64 },
    WriteObject { actor: Ref64, object: Ref64, growable: bool },
    CreateProcess { actor: Ref64, mode: ProcessMode, result: Result<Ref64, RuntimeError> },
    CreateContinuation {
        actor: Ref64,
        process: Ref64,
        spec: ContinuationSpec,
        result: Result<Ref64, RuntimeError>,
    },
    CreateFuture { actor: Ref64, result: Ref64 },
    CreateObject { actor: Ref64, kind: ObjectKind, bytes: Vec<u8>, result: Ref64 },
    EnqueueMessage {
        actor: Ref64,
        receiver: Ref64,
        payload: Ref64,
        sender_continuation: Ref64,
        result: Result<(), RuntimeError>,
    },
    ReceiveMessage {
        actor: Ref64,
        continuation: Ref64,
        result: Result<Option<MessageDescriptor>, RuntimeError>,
    },
    ResolveFuture {
        actor: Ref64,
        future: Ref64,
        value: Ref64,
        result: Result<(), RuntimeError>,
    },
    AwaitFuture {
        actor: Ref64,
        continuation: Ref64,
        future: Ref64,
        next_run_class: u32,
        result: Result<AwaitOutcome, RuntimeError>,
    },
}

/// A recorded operation, byte contents as sequences.
pub ghost enum OperationView {
    CreateContinuation {
        actor: Ref64,
        process: Ref64,
        spec: SpecView,
        result: Result<Ref64, RuntimeError>,
    },
    CreateObject { actor: Ref64, kind: ObjectKind, bytes: Seq<u8>, result: Ref64 },
    Plain(LaneOperation),
}

impl View for LaneOperation {
    type V = OperationView;

    open spec fn view(&self) -> OperationView {
        match *self {
            LaneOperation::CreateContinuation { actor, process, spec, result } =>
                OperationView::CreateContinuation { actor, process, spec: spec@, result },
            LaneOperation::CreateObject { actor, kind, bytes, result } =>
                OperationView::CreateObject { actor, kind, bytes: bytes@, result },
            plain => OperationView::Plain(plain),
        }
    }
}

/// One call of the kernel, with its reply.
pub ghost enum Call {
    RecordRead(Resource),
    RecordWrite(Resource),
    RecordAllocation,
    RecordProcessCreation(Ref64),
    RecordObjectMutation(Ref64),
    RecordOperation(OperationView),
    IsRecording(bool),
    ObserveFuture { actor: Ref64, future: Ref64, reply: Result<Option<Ref64>, RuntimeError> },
    ObjectBytes { actor: Ref64, object: Ref64, reply: Result<Seq<u8>, RuntimeError> },
    ObjectBytesMany {
        actor: Ref64,
        objects: Seq<Ref64>,
        reply: Result<Seq<Seq<u8>>, RuntimeError>,
    },
    ReadU64 { actor: Ref64, object: Ref64, reply: Option<u64> },
    CreateProcess { actor: Ref64, mode: ProcessMode, reply: Result<Ref64, RuntimeError> },
    CreateContinuation {
        actor: Ref64,
        process: Ref64,
        spec: SpecView,
        reply: Result<Ref64, RuntimeError>,
    },
    CreateFuture { actor: Ref64, reply: Ref64 },
    CreateObject { actor: Ref64, kind: ObjectKind, bytes: Seq<u8>, reply: Ref64 },
    /// An object opened for writing: what it held and what it was left with.
    Edit {
        actor: Ref64,
        object: Ref64,
        growable: bool,
        reply: Result<(Seq<u8>, Seq<u8>), RuntimeError>,
    },
    Enqueue {
        actor: Ref64,
        receiver: Ref64,
        payload: Ref64,
        sender: Ref64,
        reply: Result<(), RuntimeError>,
    },
    Receive {
        actor: Ref64,
        continuation: Ref64,
        reply: Result<Option<MessageDescriptor>, RuntimeError>,
    },
    Resolve { actor: Ref64, future: Ref64, value: Ref64, reply: Result<(), RuntimeError> },
    Await {
        actor: Ref64,
        continuation: Ref64,
        future: Ref64,
        next_run_class: u32,
        reply: Result<AwaitOutcome, RuntimeError>,
    },
    Supervise { supervisor: Ref64, mode: ProcessMode, reply: Result<Ref64, RuntimeError> },
    ByteLength { object: Ref64, reply: Result<u64, RuntimeError> },
    GrantRead {
        owner: Ref64,
        receiver: Ref64,
        target: Ref64,
        length: u64,
        reply: Result<(), RuntimeError>,
    },
    Continuation { continuation: Ref64, reply: Option<ContinuationInfo> },
    Pending { reply: u64 },
    RunEpoch,
    Notices { process: Ref64, reply: u64 },
    IsAlive { process: Ref64, reply: bool },
    Failures { reply: u64 },
    Accounting { reply: Accounting },
    CreateChannel { owner: Ref64, capacity: u32, reply: Ref64 },
    GrantChannel { owner: Ref64, receiver: Ref64, channel: Ref64, right: ChannelRight, reply: Result<(), RuntimeError> },
    SendChannel { actor: Ref64, channel: Ref64, payload: Ref64, reply: Result<(), RuntimeError> },
    ReceiveChannel { actor: Ref64, channel: Ref64, reply: Result<Option<MessageDescriptor>, RuntimeError> },
    ReceivePair { actor: Ref64, left: Ref64, right: Ref64, reply: Result<Option<(MessageDescriptor, MessageDescriptor)>, RuntimeError> },
    CloseChannel { actor: Ref64, channel: Ref64, reply: Result<(), RuntimeError> },
    ChannelLen { channel: Ref64, reply: Result<u64, RuntimeError> },
    ProcessState { process: Ref64, reply: Result<ProcessState, RuntimeError> },
    CreateWorker { supervisor: Ref64, mode: ProcessMode, policy: SupervisionPolicy, reply: Result<Ref64, RuntimeError> },
    IsLegal { reply: bool },
    Configure { mode: SchedulingMode, cohort_width: u16, partial: PartialCohortPolicy },
    TraceEvents { reply: Seq<TraceEvent> },
    KeepEpochRecords,
    TakeTraceEvents { reply: Seq<TraceEvent> },
    PendingCounts { reply: Seq<(u32, u64)> },
    TraceCensus { reply: TraceCensus },
    TraceSnapshot { reply: Seq<TraceSnapshotRow> },
    CreateRestartable { supervisor: Ref64, mode: ProcessMode, restarts: u32, spec: SpecView, reply: Result<Ref64, RuntimeError> },
    CreateBatch {
        owner: Ref64,
        evaluator: u32,
        input: Ref64,
        element_count: u32,
        element_stride: u32,
        reply: Result<Ref64, RuntimeError>,
    },
    BatchOrder { collective: Ref64, reply: Result<BatchOrder, RuntimeError> },
    BatchAux { collective: Ref64, reply: Result<AuxBinding, RuntimeError> },
    Freeze { actor: Ref64, object: Ref64, reply: Result<(), RuntimeError> },
    CompleteBatch {
        actor: Ref64,
        collective: Ref64,
        output: Ref64,
        reply: Result<(), RuntimeError>,
    },
}

/// The principal that harnesses act as.
pub open spec fn system_principal() -> Ref64 {
    Ref64::of(1)
}

pub fn system() -> (r: Ref64)
    ensures
        r == system_principal(),
{
    Ref64 { raw: 1 }
}

/// The bytes of each of a list of byte strings.
pub open spec fn byte_lists(lists: Seq<Vec<u8>>) -> Seq<Seq<u8>> {
    Seq::new(lists.len(), |i: int| lists[i]@)
}

/// The bytes of a reply.
pub open spec fn replied_bytes(reply: Result<Vec<u8>, RuntimeError>) -> Result<
    Seq<u8>,
    RuntimeError,
> {
    match reply {
        Ok(bytes) => Ok(bytes@),
        Err(error) => Err(error),
    }
}

pub open spec fn replied_lists(reply: Result<Vec<Vec<u8>>, RuntimeError>) -> Result<
    Seq<Seq<u8>>,
    RuntimeError,
> {
    match reply {
        Ok(lists) => Ok(byte_lists(lists@)),
        Err(error) => Err(error),
    }
}

/// The calls that were made of a kernel, in order.
pub type CallLog = Seq<Call>;

pub trait Kernel: Sized {
    /// Every call made of this kernel so far, with its reply.
    spec fn log(&self) -> CallLog;

    /// The epoch that is running.
    spec fn epoch(&self) -> u32;

    fn epoch_number(&self) -> (epoch: u32)
        ensures
            epoch == self.epoch(),
    ;

    fn record_speculative_read(&mut self, resource: Resource)
        ensures
            final(self).log() == old(self).log().push(Call::RecordRead(resource)),
            final(self).epoch() == old(self).epoch(),
    ;

    fn record_speculative_write(&mut self, resource: Resource)
        ensures
            final(self).log() == old(self).log().push(Call::RecordWrite(resource)),
            final(self).epoch() == old(self).epoch(),
    ;

    fn record_speculative_allocation(&mut self)
        ensures
            final(self).log() == old(self).log().push(Call::RecordAllocation),
            final(self).epoch() == old(self).epoch(),
    ;

    fn record_speculative_process_creation(&mut self, actor: Ref64)
        ensures
            final(self).log() == old(self).log().push(Call::RecordProcessCreation(actor)),
            final(self).epoch() == old(self).epoch(),
    ;

    fn record_speculative_object_mutation(&mut self, object: Ref64)
        ensures
            final(self).log() == old(self).log().push(Call::RecordObjectMutation(object)),
            final(self).epoch() == old(self).epoch(),
    ;

    fn record_speculative_operation(&mut self, operation: LaneOperation)
        ensures
            final(self).log() == old(self).log().push(Call::RecordOperation(operation@)),
            final(self).epoch() == old(self).epoch(),
    ;

    fn is_speculative_recording(&mut self) -> (recording: bool)
        ensures
            final(self).log() == old(self).log().push(Call::IsRecording(recording)),
            final(self).epoch() == old(self).epoch(),
    ;

    fn observe_future(&mut self, actor: Ref64, future: Ref64) -> (reply: Result<
        Option<Ref64>,
        RuntimeError,
    >)
        ensures
            final(self).log() == old(self).log().push(Call::ObserveFuture { actor, future, reply }),
            final(self).epoch() == old(self).epoch(),
    ;

    fn object_bytes(&mut self, actor: Ref64, object: Ref64) -> (reply: Result<
        Vec<u8>,
        RuntimeError,
    >)
        ensures
            final(self).log() == old(self).log().push(
                Call::ObjectBytes { actor, object, reply: replied_bytes(reply) },
            ),
            final(self).epoch() == old(self).epoch(),
    ;

    /// The bytes of several objects, one for each.
    fn object_bytes_many(&mut self, actor: Ref64, objects: &Vec<Ref64>) -> (reply: Result<
        Vec<Vec<u8>>,
        RuntimeError,
    >)
        ensures
            final(self).log() == old(self).log().push(
                Call::ObjectBytesMany {
                    actor,
                    objects: objects@,
                    reply: replied_lists(reply),
                },
            ),
            reply matches Ok(lists) ==> lists@.len() == objects@.len(),
            final(self).epoch() == old(self).epoch(),
    ;

    fn read_u64_object(&mut self, actor: Ref64, object: Ref64) -> (reply: Option<u64>)
        ensures
            final(self).log() == old(self).log().push(Call::ReadU64 { actor, object, reply }),
            final(self).epoch() == old(self).epoch(),
    ;

    fn create_process(&mut self, actor: Ref64, mode: ProcessMode) -> (reply: Result<
        Ref64,
        RuntimeError,
    >)
        ensures
            final(self).log() == old(self).log().push(Call::CreateProcess { actor, mode, reply }),
            final(self).epoch() == old(self).epoch(),
    ;

    fn create_continuation(
        &mut self,
        actor: Ref64,
        process: Ref64,
        spec: ContinuationSpec,
    ) -> (reply: Result<Ref64, RuntimeError>)
        ensures
            final(self).log() == old(self).log().push(
                Call::CreateContinuation { actor, process, spec: spec@, reply },
            ),
            final(self).epoch() == old(self).epoch(),
    ;

    fn create_future(&mut self, actor: Ref64) -> (reply: Ref64)
        ensures
            final(self).log() == old(self).log().push(Call::CreateFuture { actor, reply }),
            final(self).epoch() == old(self).epoch(),
    ;

    fn create_object(&mut self, actor: Ref64, kind: ObjectKind, bytes: Vec<u8>) -> (reply: Ref64)
        ensures
            final(self).log() == old(self).log().push(
                Call::CreateObject { actor, kind, bytes: bytes@, reply },
            ),
            final(self).epoch() == old(self).epoch(),
    ;

    /// Opens an object for writing. What the caller leaves in the buffer is
    /// what the object holds from then on.
    fn edit_object(&mut self, actor: Ref64, object: Ref64, growable: bool) -> (reply: Result<
        &mut Vec<u8>,
        RuntimeError,
    >)
        ensures
            match reply {
                Ok(buffer) => final(self).log() == old(self).log().push(
                    Call::Edit {
                        actor,
                        object,
                        growable,
                        reply: Ok((buffer@, final(buffer)@)),
                    },
                ),
                Err(error) => final(self).log() == old(self).log().push(
                    Call::Edit { actor, object, growable, reply: Err(error) },
                ),
            },
            final(self).epoch() == old(self).epoch(),
    ;

    fn enqueue_message(
        &mut self,
        actor: Ref64,
        receiver: Ref64,
        payload: Ref64,
        sender: Ref64,
    ) -> (reply: Result<(), RuntimeError>)
        ensures
            final(self).log() == old(self).log().push(
                Call::Enqueue { actor, receiver, payload, sender, reply },
            ),
            final(self).epoch() == old(self).epoch(),
    ;

    fn receive_message(&mut self, actor: Ref64, continuation: Ref64) -> (reply: Result<
        Option<MessageDescriptor>,
        RuntimeError,
    >)
        ensures
            final(self).log() == old(self).log().push(
                Call::Receive { actor, continuation, reply },
            ),
            final(self).epoch() == old(self).epoch(),
    ;

    fn resolve_future(&mut self, actor: Ref64, future: Ref64, value: Ref64) -> (reply: Result<
        (),
        RuntimeError,
    >)
        ensures
            final(self).log() == old(self).log().push(
                Call::Resolve { actor, future, value, reply },
            ),
            final(self).epoch() == old(self).epoch(),
    ;

    fn await_future(
        &mut self,
        actor: Ref64,
        continuation: Ref64,
        future: Ref64,
        next_run_class: u32,
    ) -> (reply: Result<AwaitOutcome, RuntimeError>)
        ensures
            final(self).log() == old(self).log().push(
                Call::Await { actor, continuation, future, next_run_class, reply },
            ),
            final(self).epoch() == old(self).epoch(),
    ;

    /// A process under `supervisor`, which is told of its end.
    fn create_supervised_process(&mut self, supervisor: Ref64, mode: ProcessMode) -> (reply: Result<
        Ref64,
        RuntimeError,
    >)
        ensures
            final(self).log() == old(self).log().push(Call::Supervise { supervisor, mode, reply }),
            final(self).epoch() == old(self).epoch(),
    ;

    fn object_byte_length(&mut self, object: Ref64) -> (reply: Result<u64, RuntimeError>)
        ensures
            final(self).log() == old(self).log().push(Call::ByteLength { object, reply }),
            final(self).epoch() == old(self).epoch(),
    ;

    /// Read authority over the first `length` bytes of `target`.
    fn grant_read(&mut self, owner: Ref64, receiver: Ref64, target: Ref64, length: u64) -> (reply:
        Result<(), RuntimeError>)
        ensures
            final(self).log() == old(self).log().push(
                Call::GrantRead { owner, receiver, target, length, reply },
            ),
            final(self).epoch() == old(self).epoch(),
    ;

    /// What became of a continuation, where it is not gone.
    fn continuation(&mut self, continuation: Ref64) -> (reply: Option<ContinuationInfo>)
        ensures
            final(self).log() == old(self).log().push(Call::Continuation { continuation, reply }),
            final(self).epoch() == old(self).epoch(),
    ;

    /// How many continuations wait to run.
    fn total_pending(&mut self) -> (reply: u64)
        ensures
            final(self).log() == old(self).log().push(Call::Pending { reply }),
            final(self).epoch() == old(self).epoch(),
    ;

    fn run_epoch(&mut self)
        ensures
            final(self).log() == old(self).log().push(Call::RunEpoch),
    ;

    /// How many terminal notices are queued at a process.
    fn pending_supervision_notices(&mut self, process: Ref64) -> (reply: u64)
        ensures
            final(self).log() == old(self).log().push(Call::Notices { process, reply }),
            final(self).epoch() == old(self).epoch(),
    ;

    /// Whether a process is there and has not failed, ended or been cancelled.
    fn is_alive(&mut self, process: Ref64) -> (reply: bool)
        ensures
            final(self).log() == old(self).log().push(Call::IsAlive { process, reply }),
            final(self).epoch() == old(self).epoch(),
    ;

    /// How many processes the trace says have failed.
    fn failures(&mut self) -> (reply: u64)
        ensures
            final(self).log() == old(self).log().push(Call::Failures { reply }),
            final(self).epoch() == old(self).epoch(),
    ;

    /// What the kernel dispatched so far.
    fn accounting(&mut self) -> (reply: Accounting)
        ensures
            final(self).log() == old(self).log().push(Call::Accounting { reply }),
            final(self).epoch() == old(self).epoch(),
    ;

    /// A bounded channel of `owner`'s.
    fn create_channel(&mut self, owner: Ref64, capacity: u32) -> (reply: Ref64)
        ensures
            final(self).log() == old(self).log().push(Call::CreateChannel { owner, capacity, reply }),
            final(self).epoch() == old(self).epoch(),
    ;

    fn grant_channel(&mut self, owner: Ref64, receiver: Ref64, channel: Ref64, right: ChannelRight) -> (reply: Result<(), RuntimeError>)
        ensures
            final(self).log() == old(self).log().push(Call::GrantChannel { owner, receiver, channel, right, reply }),
            final(self).epoch() == old(self).epoch(),
    ;

    fn send_channel(&mut self, actor: Ref64, channel: Ref64, payload: Ref64) -> (reply: Result<(), RuntimeError>)
        ensures
            final(self).log() == old(self).log().push(Call::SendChannel { actor, channel, payload, reply }),
            final(self).epoch() == old(self).epoch(),
    ;

    fn receive_channel(&mut self, actor: Ref64, channel: Ref64) -> (reply: Result<Option<MessageDescriptor>, RuntimeError>)
        ensures
            final(self).log() == old(self).log().push(Call::ReceiveChannel { actor, channel, reply }),
            final(self).epoch() == old(self).epoch(),
    ;

    /// The first message of each of two channels, or none of either.
    fn receive_channel_pair(&mut self, actor: Ref64, left: Ref64, right: Ref64) -> (reply: Result<Option<(MessageDescriptor, MessageDescriptor)>, RuntimeError>)
        ensures
            final(self).log() == old(self).log().push(Call::ReceivePair { actor, left, right, reply }),
            final(self).epoch() == old(self).epoch(),
    ;

    fn close_channel(&mut self, actor: Ref64, channel: Ref64) -> (reply: Result<(), RuntimeError>)
        ensures
            final(self).log() == old(self).log().push(Call::CloseChannel { actor, channel, reply }),
            final(self).epoch() == old(self).epoch(),
    ;

    fn channel_len(&mut self, channel: Ref64) -> (reply: Result<u64, RuntimeError>)
        ensures
            final(self).log() == old(self).log().push(Call::ChannelLen { channel, reply }),
            final(self).epoch() == old(self).epoch(),
    ;

    fn process_state(&mut self, process: Ref64) -> (reply: Result<ProcessState, RuntimeError>)
        ensures
            final(self).log() == old(self).log().push(Call::ProcessState { process, reply }),
            final(self).epoch() == old(self).epoch(),
    ;

    /// A process whose supervisor hears of its end as `policy` says.
    fn create_worker_process(&mut self, supervisor: Ref64, mode: ProcessMode, policy: SupervisionPolicy) -> (reply: Result<Ref64, RuntimeError>)
        ensures
            final(self).log() == old(self).log().push(Call::CreateWorker { supervisor, mode, policy, reply }),
            final(self).epoch() == old(self).epoch(),
    ;

    /// Whether the kernel's own invariants hold.
    fn is_legal(&mut self) -> (reply: bool)
        ensures
            final(self).log() == old(self).log().push(Call::IsLegal { reply }),
            final(self).epoch() == old(self).epoch(),
    ;

    /// Says how lanes are binned from now on: in which mode, how wide a cohort is,
    /// and what becomes of lanes that do not fill one.
    fn configure(&mut self, mode: SchedulingMode, cohort_width: u16, partial: PartialCohortPolicy)
        ensures
            final(self).log() == old(self).log().push(
                Call::Configure { mode, cohort_width, partial },
            ),
            final(self).epoch() == old(self).epoch(),
    ;

    /// The events that the trace holds.
    fn trace_events(&mut self) -> (reply: Vec<TraceEvent>)
        ensures
            final(self).log() == old(self).log().push(Call::TraceEvents { reply: reply@ }),
            final(self).epoch() == old(self).epoch(),
    ;

    /// Keeps the records of the running epoch alone from now on, and drops those at
    /// hand.
    fn keep_epoch_records(&mut self)
        ensures
            final(self).log() == old(self).log().push(Call::KeepEpochRecords),
            final(self).epoch() == old(self).epoch(),
    ;

    /// Takes the events out of the trace.
    fn take_trace_events(&mut self) -> (reply: Vec<TraceEvent>)
        ensures
            final(self).log() == old(self).log().push(Call::TakeTraceEvents { reply: reply@ }),
            final(self).epoch() == old(self).epoch(),
    ;

    /// How many continuations of each run class are ready.
    fn pending_counts(&mut self) -> (reply: Vec<(u32, u64)>)
        ensures
            final(self).log() == old(self).log().push(Call::PendingCounts { reply: reply@ }),
            final(self).epoch() == old(self).epoch(),
    ;

    /// What became of the trace's events.
    fn trace_census(&mut self) -> (reply: TraceCensus)
        ensures
            final(self).log() == old(self).log().push(Call::TraceCensus { reply }),
            final(self).epoch() == old(self).epoch(),
    ;

    /// The whole trace, row by row.
    fn trace_snapshot(&mut self) -> (reply: Vec<TraceSnapshotRow>)
        ensures
            final(self).log() == old(self).log().push(Call::TraceSnapshot { reply: reply@ }),
            final(self).epoch() == old(self).epoch(),
    ;

    /// A process that is started again, at most `restarts` times, with a
    /// continuation of `spec`.
    fn create_restartable_process(
        &mut self,
        supervisor: Ref64,
        mode: ProcessMode,
        restarts: u32,
        spec: ContinuationSpec,
    ) -> (reply: Result<Ref64, RuntimeError>)
        ensures
            final(self).log() == old(self).log().push(
                Call::CreateRestartable { supervisor, mode, restarts, spec: spec@, reply },
            ),
            final(self).epoch() == old(self).epoch(),
    ;

    fn batch_evaluate_request(&mut self, collective: Ref64) -> (reply: Result<
        BatchOrder,
        RuntimeError,
    >)
        ensures
            final(self).log() == old(self).log().push(Call::BatchOrder { collective, reply }),
            final(self).epoch() == old(self).epoch(),
    ;

    fn batch_evaluate_aux(&mut self, collective: Ref64) -> (reply: Result<AuxBinding, RuntimeError>)
        ensures
            final(self).log() == old(self).log().push(Call::BatchAux { collective, reply }),
            final(self).epoch() == old(self).epoch(),
    ;

    fn freeze(&mut self, actor: Ref64, object: Ref64) -> (reply: Result<(), RuntimeError>)
        ensures
            final(self).log() == old(self).log().push(Call::Freeze { actor, object, reply }),
            final(self).epoch() == old(self).epoch(),
    ;

    /// A batch to be evaluated, over a frozen array of `owner`'s.
    fn create_batch_evaluate(
        &mut self,
        owner: Ref64,
        evaluator: u32,
        input: Ref64,
        element_count: u32,
        element_stride: u32,
    ) -> (reply: Result<Ref64, RuntimeError>)
        ensures
            final(self).log() == old(self).log().push(
                Call::CreateBatch {
                    owner,
                    evaluator,
                    input,
                    element_count,
                    element_stride,
                    reply,
                },
            ),
            final(self).epoch() == old(self).epoch(),
    ;

    fn complete_batch_evaluate(&mut self, actor: Ref64, collective: Ref64, output: Ref64) -> (reply:
        Result<(), RuntimeError>)
        ensures
            final(self).log() == old(self).log().push(
                Call::CompleteBatch { actor, collective, output, reply },
            ),
            final(self).epoch() == old(self).epoch(),
    ;
}

/// A kernel with nothing behind it: it keeps its log, creates only null
/// references and refuses the rest.
pub struct DetachedKernel {
    pub at: u32,
    pub calls: Ghost<Seq<Call>>,
}

impl DetachedKernel {
    pub fn new(at: u32) -> (kernel: Self)
        ensures
            kernel.log() == Seq::<Call>::empty(),
            kernel.epoch() == at,
    {
        DetachedKernel { at, calls: Ghost(Seq::empty()) }
    }
}

impl Kernel for DetachedKernel {
    open spec fn log(&self) -> Seq<Call> {
        self.calls@
    }

    open spec fn epoch(&self) -> u32 {
        self.at
    }

    fn epoch_number(&self) -> (epoch: u32) {
        self.at
    }

    fn record_speculative_read(&mut self, resource: Resource) {
        self.calls = Ghost(
            self.calls@.push(
                Call::RecordRead(resource),
            ),
        );
    }

    fn record_speculative_write(&mut self, resource: Resource) {
        self.calls = Ghost(
            self.calls@.push(
                Call::RecordWrite(resource),
            ),
        );
    }

    fn record_speculative_allocation(&mut self) {
        self.calls = Ghost(
            self.calls@.push(
                Call::RecordAllocation,
            ),
        );
    }

    fn record_speculative_process_creation(&mut self, actor: Ref64) {
        self.calls = Ghost(
            self.calls@.push(
                Call::RecordProcessCreation(actor),
            ),
        );
    }

    fn record_speculative_object_mutation(&mut self, object: Ref64) {
        self.calls = Ghost(
            self.calls@.push(
                Call::RecordObjectMutation(object),
            ),
        );
    }

    fn record_speculative_operation(&mut self, operation: LaneOperation) {
        self.calls = Ghost(
            self.calls@.push(
                Call::RecordOperation(operation@),
            ),
        );
    }

    fn is_speculative_recording(&mut self) -> (recording: bool) {
        self.calls = Ghost(
            self.calls@.push(
                Call::IsRecording(false),
            ),
        );
        false
    }

    fn observe_future(&mut self, actor: Ref64, future: Ref64) -> (reply: Result<Option<Ref64>, RuntimeError>) {
        self.calls = Ghost(
            self.calls@.push(
                Call::ObserveFuture { actor, future, reply: Err(RuntimeError::Unavailable) },
            ),
        );
        Err(RuntimeError::Unavailable)
    }

    fn object_bytes(&mut self, actor: Ref64, object: Ref64) -> (reply: Result<Vec<u8>, RuntimeError>) {
        self.calls = Ghost(
            self.calls@.push(
                Call::ObjectBytes { actor, object, reply: Err(RuntimeError::Unavailable) },
            ),
        );
        Err(RuntimeError::Unavailable)
    }

    fn object_bytes_many(&mut self, actor: Ref64, objects: &Vec<Ref64>) -> (reply: Result<Vec<Vec<u8>>, RuntimeError>) {
        self.calls = Ghost(
            self.calls@.push(
                Call::ObjectBytesMany { actor, objects: objects@, reply: Err(RuntimeError::Unavailable) },
            ),
        );
        Err(RuntimeError::Unavailable)
    }

    fn read_u64_object(&mut self, actor: Ref64, object: Ref64) -> (reply: Option<u64>) {
        self.calls = Ghost(
            self.calls@.push(
                Call::ReadU64 { actor, object, reply: None },
            ),
        );
        None
    }

    fn create_process(&mut self, actor: Ref64, mode: ProcessMode) -> (reply: Result<Ref64, RuntimeError>) {
        self.calls = Ghost(
            self.calls@.push(
                Call::CreateProcess { actor, mode, reply: Err(RuntimeError::Unavailable) },
            ),
        );
        Err(RuntimeError::Unavailable)
    }

    fn create_continuation(&mut self, actor: Ref64, process: Ref64, spec: ContinuationSpec) -> (reply: Result<Ref64, RuntimeError>) {
        self.calls = Ghost(
            self.calls@.push(
                Call::CreateContinuation { actor, process, spec: spec@, reply: Err(RuntimeError::Unavailable) },
            ),
        );
        Err(RuntimeError::Unavailable)
    }

    fn create_future(&mut self, actor: Ref64) -> (reply: Ref64) {
        self.calls = Ghost(
            self.calls@.push(
                Call::CreateFuture { actor, reply: Ref64 { raw: 0 } },
            ),
        );
        Ref64 { raw: 0 }
    }

    fn create_object(&mut self, actor: Ref64, kind: ObjectKind, bytes: Vec<u8>) -> (reply: Ref64) {
        self.calls = Ghost(
            self.calls@.push(
                Call::CreateObject { actor, kind, bytes: bytes@, reply: Ref64 { raw: 0 } },
            ),
        );
        Ref64 { raw: 0 }
    }

    fn edit_object(&mut self, actor: Ref64, object: Ref64, growable: bool) -> (reply: Result<&mut Vec<u8>, RuntimeError>) {
        self.calls = Ghost(
            self.calls@.push(
                Call::Edit { actor, object, growable, reply: Err(RuntimeError::Unavailable) },
            ),
        );
        Err(RuntimeError::Unavailable)
    }

    fn enqueue_message(&mut self, actor: Ref64, receiver: Ref64, payload: Ref64, sender: Ref64) -> (reply: Result<(), RuntimeError>) {
        self.calls = Ghost(
            self.calls@.push(
                Call::Enqueue { actor, receiver, payload, sender, reply: Err(RuntimeError::Unavailable) },
            ),
        );
        Err(RuntimeError::Unavailable)
    }

    fn receive_message(&mut self, actor: Ref64, continuation: Ref64) -> (reply: Result<Option<MessageDescriptor>, RuntimeError>) {
        self.calls = Ghost(
            self.calls@.push(
                Call::Receive { actor, continuation, reply: Err(RuntimeError::Unavailable) },
            ),
        );
        Err(RuntimeError::Unavailable)
    }

    fn resolve_future(&mut self, actor: Ref64, future: Ref64, value: Ref64) -> (reply: Result<(), RuntimeError>) {
        self.calls = Ghost(
            self.calls@.push(
                Call::Resolve { actor, future, value, reply: Err(RuntimeError::Unavailable) },
            ),
        );
        Err(RuntimeError::Unavailable)
    }

    fn await_future(&mut self, actor: Ref64, continuation: Ref64, future: Ref64, next_run_class: u32) -> (reply: Result<AwaitOutcome, RuntimeError>) {
        self.calls = Ghost(
            self.calls@.push(
                Call::Await { actor, continuation, future, next_run_class, reply: Err(RuntimeError::Unavailable) },
            ),
        );
        Err(RuntimeError::Unavailable)
    }

    fn create_supervised_process(&mut self, supervisor: Ref64, mode: ProcessMode) -> (reply: Result<Ref64, RuntimeError>) {
        self.calls = Ghost(
            self.calls@.push(
                Call::Supervise { supervisor, mode, reply: Err(RuntimeError::Unavailable) },
            ),
        );
        Err(RuntimeError::Unavailable)
    }

    fn object_byte_length(&mut self, object: Ref64) -> (reply: Result<u64, RuntimeError>) {
        self.calls = Ghost(
            self.calls@.push(
                Call::ByteLength { object, reply: Err(RuntimeError::Unavailable) },
            ),
        );
        Err(RuntimeError::Unavailable)
    }

    fn grant_read(&mut self, owner: Ref64, receiver: Ref64, target: Ref64, length: u64) -> (reply: Result<(), RuntimeError>) {
        self.calls = Ghost(
            self.calls@.push(
                Call::GrantRead { owner, receiver, target, length, reply: Err(RuntimeError::Unavailable) },
            ),
        );
        Err(RuntimeError::Unavailable)
    }

    fn continuation(&mut self, continuation: Ref64) -> (reply: Option<ContinuationInfo>) {
        self.calls = Ghost(self.calls@.push(Call::Continuation { continuation, reply: None }));
        None
    }

    fn total_pending(&mut self) -> (reply: u64) {
        self.calls = Ghost(self.calls@.push(Call::Pending { reply: 0 }));
        0
    }

    fn run_epoch(&mut self) {
        self.calls = Ghost(self.calls@.push(Call::RunEpoch));
    }

    fn pending_supervision_notices(&mut self, process: Ref64) -> (reply: u64) {
        self.calls = Ghost(self.calls@.push(Call::Notices { process, reply: 0 }));
        0
    }

    fn is_alive(&mut self, process: Ref64) -> (reply: bool) {
        self.calls = Ghost(self.calls@.push(Call::IsAlive { process, reply: false }));
        false
    }

    fn failures(&mut self) -> (reply: u64) {
        self.calls = Ghost(self.calls@.push(Call::Failures { reply: 0 }));
        0
    }

    fn accounting(&mut self) -> (reply: Accounting) {
        self.calls = Ghost(
            self.calls@.push(Call::Accounting { reply: Accounting { cohorts: 0, lane_slots: 0, useful_lane_slots: 0, full_cohorts: 0, steps: 0, deferred_lanes: 0 } }),
        );
        Accounting { cohorts: 0, lane_slots: 0, useful_lane_slots: 0, full_cohorts: 0, steps: 0, deferred_lanes: 0 }
    }

    fn create_channel(&mut self, owner: Ref64, capacity: u32) -> (reply: Ref64) {
        self.calls = Ghost(
            self.calls@.push(Call::CreateChannel { owner, capacity, reply: Ref64 { raw: 0 } }),
        );
        Ref64::null()
    }

    fn grant_channel(&mut self, owner: Ref64, receiver: Ref64, channel: Ref64, right: ChannelRight) -> (reply: Result<(), RuntimeError>) {
        self.calls = Ghost(
            self.calls@.push(Call::GrantChannel { owner, receiver, channel, right, reply: Err(RuntimeError::Unavailable) }),
        );
        Err(RuntimeError::Unavailable)
    }

    fn send_channel(&mut self, actor: Ref64, channel: Ref64, payload: Ref64) -> (reply: Result<(), RuntimeError>) {
        self.calls = Ghost(
            self.calls@.push(Call::SendChannel { actor, channel, payload, reply: Err(RuntimeError::Unavailable) }),
        );
        Err(RuntimeError::Unavailable)
    }

    fn receive_channel(&mut self, actor: Ref64, channel: Ref64) -> (reply: Result<Option<MessageDescriptor>, RuntimeError>) {
        self.calls = Ghost(
            self.calls@.push(Call::ReceiveChannel { actor, channel, reply: Err(RuntimeError::Unavailable) }),
        );
        Err(RuntimeError::Unavailable)
    }

    fn receive_channel_pair(&mut self, actor: Ref64, left: Ref64, right: Ref64) -> (reply: Result<Option<(MessageDescriptor, MessageDescriptor)>, RuntimeError>) {
        self.calls = Ghost(
            self.calls@.push(Call::ReceivePair { actor, left, right, reply: Err(RuntimeError::Unavailable) }),
        );
        Err(RuntimeError::Unavailable)
    }

    fn close_channel(&mut self, actor: Ref64, channel: Ref64) -> (reply: Result<(), RuntimeError>) {
        self.calls = Ghost(
            self.calls@.push(Call::CloseChannel { actor, channel, reply: Err(RuntimeError::Unavailable) }),
        );
        Err(RuntimeError::Unavailable)
    }

    fn channel_len(&mut self, channel: Ref64) -> (reply: Result<u64, RuntimeError>) {
        self.calls = Ghost(
            self.calls@.push(Call::ChannelLen { channel, reply: Err(RuntimeError::Unavailable) }),
        );
        Err(RuntimeError::Unavailable)
    }

    fn process_state(&mut self, process: Ref64) -> (reply: Result<ProcessState, RuntimeError>) {
        self.calls = Ghost(
            self.calls@.push(Call::ProcessState { process, reply: Err(RuntimeError::Unavailable) }),
        );
        Err(RuntimeError::Unavailable)
    }

    fn create_worker_process(&mut self, supervisor: Ref64, mode: ProcessMode, policy: SupervisionPolicy) -> (reply: Result<Ref64, RuntimeError>) {
        self.calls = Ghost(
            self.calls@.push(Call::CreateWorker { supervisor, mode, policy, reply: Err(RuntimeError::Unavailable) }),
        );
        Err(RuntimeError::Unavailable)
    }

    fn is_legal(&mut self) -> (reply: bool) {
        self.calls = Ghost(
            self.calls@.push(Call::IsLegal { reply: true }),
        );
        true
    }

    fn configure(&mut self, mode: SchedulingMode, cohort_width: u16, partial: PartialCohortPolicy) {
        self.calls = Ghost(self.calls@.push(Call::Configure { mode, cohort_width, partial }));
    }

    fn trace_events(&mut self) -> (reply: Vec<TraceEvent>) {
        let reply: Vec<TraceEvent> = Vec::new();
        self.calls = Ghost(self.calls@.push(Call::TraceEvents { reply: reply@ }));
        reply
    }

    fn keep_epoch_records(&mut self) {
        self.calls = Ghost(self.calls@.push(Call::KeepEpochRecords));
    }

    fn take_trace_events(&mut self) -> (reply: Vec<TraceEvent>) {
        let reply: Vec<TraceEvent> = Vec::new();
        self.calls = Ghost(self.calls@.push(Call::TakeTraceEvents { reply: reply@ }));
        reply
    }

    fn pending_counts(&mut self) -> (reply: Vec<(u32, u64)>) {
        let reply: Vec<(u32, u64)> = Vec::new();
        self.calls = Ghost(self.calls@.push(Call::PendingCounts { reply: reply@ }));
        reply
    }

    fn trace_census(&mut self) -> (reply: TraceCensus) {
        let reply = TraceCensus { taken: 0, dropped: 0 };
        self.calls = Ghost(self.calls@.push(Call::TraceCensus { reply }));
        reply
    }

    fn trace_snapshot(&mut self) -> (reply: Vec<TraceSnapshotRow>) {
        let reply: Vec<TraceSnapshotRow> = Vec::new();
        self.calls = Ghost(self.calls@.push(Call::TraceSnapshot { reply: reply@ }));
        reply
    }

    fn create_restartable_process(&mut self, supervisor: Ref64, mode: ProcessMode, restarts: u32, spec: ContinuationSpec) -> (reply: Result<Ref64, RuntimeError>) {
        self.calls = Ghost(
            self.calls@.push(
                Call::CreateRestartable {
                    supervisor,
                    mode,
                    restarts,
                    spec: spec@,
                    reply: Err(RuntimeError::Unavailable),
                },
            ),
        );
        Err(RuntimeError::Unavailable)
    }

    fn batch_evaluate_request(&mut self, collective: Ref64) -> (reply: Result<BatchOrder, RuntimeError>) {
        self.calls = Ghost(
            self.calls@.push(
                Call::BatchOrder { collective, reply: Err(RuntimeError::Unavailable) },
            ),
        );
        Err(RuntimeError::Unavailable)
    }

    fn batch_evaluate_aux(&mut self, collective: Ref64) -> (reply: Result<AuxBinding, RuntimeError>) {
        self.calls = Ghost(
            self.calls@.push(
                Call::BatchAux { collective, reply: Err(RuntimeError::Unavailable) },
            ),
        );
        Err(RuntimeError::Unavailable)
    }

    fn freeze(&mut self, actor: Ref64, object: Ref64) -> (reply: Result<(), RuntimeError>) {
        self.calls = Ghost(
            self.calls@.push(
                Call::Freeze { actor, object, reply: Err(RuntimeError::Unavailable) },
            ),
        );
        Err(RuntimeError::Unavailable)
    }

    fn create_batch_evaluate(&mut self, owner: Ref64, evaluator: u32, input: Ref64, element_count: u32, element_stride: u32) -> (reply: Result<Ref64, RuntimeError>) {
        self.calls = Ghost(
            self.calls@.push(
                Call::CreateBatch {
                    owner,
                    evaluator,
                    input,
                    element_count,
                    element_stride,
                    reply: Err(RuntimeError::Unavailable),
                },
            ),
        );
        Err(RuntimeError::Unavailable)
    }

    fn complete_batch_evaluate(&mut self, actor: Ref64, collective: Ref64, output: Ref64) -> (reply: Result<(), RuntimeError>) {
        self.calls = Ghost(
            self.calls@.push(
                Call::CompleteBatch { actor, collective, output, reply: Err(RuntimeError::Unavailable) },
            ),
        );
        Err(RuntimeError::Unavailable)
    }
}

} // verus!
