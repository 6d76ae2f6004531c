//! A streaming graph, run in a kernel: its processes and its channel are made, and
//! then each action of the run is carried out until the run is done.

use crate::bytes;
use crate::experiments::streaming_graph;
use crate::experiments::streaming_graph::{
    StreamAction, StreamEvent, StreamRun, StreamView, StreamingGraphConfig, StreamingGraphReport,
};
use crate::kernel;
use crate::kernel::{
    Call, ChannelRight, ContinuationSpec, Kernel, MessageDescriptor, ObjectKind, ProcessMode,
    ProcessState, Ref64, RuntimeError, SpecView, StateAccess,
};
use vstd::prelude::*;

verus! {

/// The processes of a graph, and its channel.
#[derive(Clone, Copy, Debug, PartialEq, Eq, Structural)]
pub struct Wiring {
    pub coordinator: Ref64,
    pub source: Ref64,
    pub sink: Ref64,
    pub channel: Ref64,
}

/// The calls that make a graph.
pub open spec fn wire_calls(config: StreamingGraphConfig, w: Wiring) -> Seq<Call> {
    seq![
        Call::CreateProcess {
            actor: kernel::system_principal(),
            mode: ProcessMode::Serial,
            reply: Ok(w.coordinator),
        },
        Call::CreateProcess {
            actor: kernel::system_principal(),
            mode: ProcessMode::Serial,
            reply: Ok(w.source),
        },
        Call::CreateProcess {
            actor: kernel::system_principal(),
            mode: ProcessMode::Serial,
            reply: Ok(w.sink),
        },
        Call::CreateChannel {
            owner: w.coordinator,
            capacity: config.channel_capacity,
            reply: w.channel,
        },
        Call::GrantChannel {
            owner: w.coordinator,
            receiver: w.source,
            channel: w.channel,
            right: ChannelRight::Send,
            reply: Ok(()),
        },
        Call::GrantChannel {
            owner: w.coordinator,
            receiver: w.sink,
            channel: w.channel,
            right: ChannelRight::Receive,
            reply: Ok(()),
        },
    ]
}

/// A call as it stands in the log where it was refused.
pub open spec fn as_refused(call: Call, error: RuntimeError) -> Call {
    match call {
        Call::CreateProcess { actor, mode, .. } => Call::CreateProcess {
            actor,
            mode,
            reply: Err(error),
        },
        Call::GrantChannel { owner, receiver, channel, right, .. } => Call::GrantChannel {
            owner,
            receiver,
            channel,
            right,
            reply: Err(error),
        },
        _ => call,
    }
}

/// The graph was made up to call `n`, which was refused.
pub open spec fn wiring_refused(
    config: StreamingGraphConfig,
    w: Wiring,
    n: int,
    before: Seq<Call>,
    after: Seq<Call>,
    error: RuntimeError,
) -> bool {
    &&& 0 <= n < 6 && n != 3
    &&& after == before + wire_calls(config, w).take(n).push(
        as_refused(wire_calls(config, w)[n], error),
    )
}

/// One action of the run: what came of it, and the calls that carried it out.
pub ghost struct Step {
    pub event: StreamEvent,
    pub calls: Seq<Call>,
}

/// A continuation without a handler, which faults its process.
pub open spec fn faulting() -> SpecView {
    SpecView {
        access: StateAccess::ReadOnly,
        run_class: u32::MAX,
        priority: 0,
        frame: Seq::empty(),
        max_steps: 1,
    }
}

/// The calls of a step carry out the action, and its event is what they came to.
#[verifier::opaque]
pub open spec fn performs(w: Wiring, action: StreamAction, step: Step) -> bool {
    let calls = step.calls;
    match action {
        StreamAction::MakePayload { sequence } => {
            &&& step.event matches StreamEvent::Made(payload) && calls == seq![
                Call::CreateObject {
                    actor: w.source,
                    kind: ObjectKind::MessagePayload,
                    bytes: bytes::le_bytes(sequence as nat, 8),
                    reply: payload,
                },
            ]
        },
        StreamAction::Send { payload } => {
            &&& step.event matches StreamEvent::Sent(reply) && calls == seq![
                Call::SendChannel { actor: w.source, channel: w.channel, payload, reply },
            ]
        },
        StreamAction::Receive => {
            &&& calls.len() == 1
            &&& calls[0] matches Call::ReceiveChannel { actor, channel, reply } && {
                &&& actor == w.sink
                &&& channel == w.channel
                &&& step.event == StreamEvent::Received(payload_of(reply))
            }
        },
        StreamAction::Read { payload } => {
            &&& step.event matches StreamEvent::Read(reply) && calls == seq![
                Call::ObjectBytes {
                    actor: w.sink,
                    object: payload,
                    reply: kernel::replied_bytes(reply),
                },
            ]
        },
        StreamAction::FailSource => {
            &&& calls.len() >= 1
            &&& calls[0] matches Call::CreateContinuation { actor, process, spec, reply } && {
                &&& actor == w.source
                &&& process == w.source
                &&& spec == faulting()
                &&& match reply {
                    Err(error) => calls.len() == 1 && step.event == StreamEvent::SourceFailed(
                        Err(error),
                    ),
                    Ok(_) => {
                        &&& calls.len() == 3
                        &&& calls[1] == Call::RunEpoch
                        &&& calls[2] matches Call::ProcessState { process, reply } && process
                            == w.source && step.event == StreamEvent::SourceFailed(
                            match reply {
                                Ok(state) => Ok(state == ProcessState::Failed),
                                Err(error) => Err(error),
                            },
                        )
                    },
                }
            }
        },
        StreamAction::CloseChannel => {
            &&& step.event matches StreamEvent::Closed(reply) && calls == seq![
                Call::CloseChannel { actor: w.coordinator, channel: w.channel, reply },
            ]
        },
        StreamAction::Measure => {
            &&& step.event matches StreamEvent::Measured(reply) && calls == seq![
                Call::ChannelLen { channel: w.channel, reply },
            ]
        },
        StreamAction::Done => false,
    }
}

pub open spec fn payload_of(reply: Result<Option<MessageDescriptor>, RuntimeError>) -> Result<
    Option<Ref64>,
    RuntimeError,
> {
    match reply {
        Ok(Some(message)) => Ok(Some(message.payload)),
        Ok(None) => Ok(None),
        Err(error) => Err(error),
    }
}

/// The run after an event, or the error that ends it.
#[verifier::opaque]
pub open spec fn took(v: StreamView, event: StreamEvent) -> Result<StreamView, RuntimeError> {
    streaming_graph::advanced(v, event)
}

/// The run behind the first `n` steps.
pub open spec fn state_after(v: StreamView, steps: Seq<Step>, n: int) -> StreamView
    decreases n,
{
    if n <= 0 {
        v
    } else {
        took(state_after(v, steps, n - 1), steps[n - 1].event)->Ok_0
    }
}

pub open spec fn calls_of(steps: Seq<Step>, n: int) -> Seq<Call>
    decreases n,
{
    if n <= 0 {
        Seq::empty()
    } else {
        calls_of(steps, n - 1) + steps[n - 1].calls
    }
}

/// Each of the first `n` steps carries out what the run asked for, and none ends it.
pub open spec fn is_path(w: Wiring, v: StreamView, steps: Seq<Step>, n: int) -> bool {
    forall|i: int|
        0 <= i < n ==> {
            &&& performs(w, state_after(v, steps, i).action, #[trigger] steps[i])
            &&& took(state_after(v, steps, i), steps[i].event) is Ok
        }
}

/// The graph was made and run until it was done, and `report` is what it came to.
pub open spec fn ran_to_end(
    config: StreamingGraphConfig,
    w: Wiring,
    steps: Seq<Step>,
    before: Seq<Call>,
    after: Seq<Call>,
    report: StreamingGraphReport,
) -> bool {
    let start = streaming_graph::started(config);
    let n = steps.len() as int;
    let end = state_after(start, steps, n);
    &&& is_path(w, start, steps, n)
    &&& after == before + wire_calls(config, w) + calls_of(steps, n)
    &&& end.action is Done
    &&& report.attempted_records == config.records
    &&& report.committed_records == end.committed
    &&& report.delivered@ == end.delivered
    &&& report.backpressure_events == end.backpressure
    &&& report.source_failed == end.source_failed
}

/// The graph was made, and its last step ended it with `error`.
pub open spec fn broke_off(
    config: StreamingGraphConfig,
    w: Wiring,
    steps: Seq<Step>,
    before: Seq<Call>,
    after: Seq<Call>,
    error: RuntimeError,
) -> bool {
    let start = streaming_graph::started(config);
    let n = steps.len() as int;
    let last = state_after(start, steps, n - 1);
    &&& n > 0
    &&& is_path(w, start, steps, n - 1)
    &&& performs(w, last.action, steps[n - 1])
    &&& took(last, steps[n - 1].event) == Err::<StreamView, _>(error)
    &&& after == before + wire_calls(config, w) + calls_of(steps, n)
}

fn wire<K: Kernel>(kernel: &mut K, config: &StreamingGraphConfig) -> (result: Result<
    Wiring,
    RuntimeError,
>)
    ensures
        match result {
            Ok(w) => final(kernel).log() == old(kernel).log() + wire_calls(*config, w),
            Err(error) => exists|w: Wiring, n: int| #[trigger]
                wiring_refused(*config, w, n, old(kernel).log(), final(kernel).log(), error),
        },
{
    let ghost l0 = kernel.log();
    let none = Ref64::null();
    let mut w = Wiring { coordinator: none, source: none, sink: none, channel: none };
    match kernel.create_process(kernel::system(), ProcessMode::Serial) {
        Ok(process) => {
            w.coordinator = process;
        },
        Err(error) => {
            proof {
                let after = l0 + wire_calls(*config, w).take(0).push(
                    as_refused(wire_calls(*config, w)[0], error),
                );
                assert(kernel.log() =~= after);
                assert(wiring_refused(*config, w, 0, old(kernel).log(), final(kernel).log(), error));
            }
            return Err(error);
        },
    }
    match kernel.create_process(kernel::system(), ProcessMode::Serial) {
        Ok(process) => {
            w.source = process;
        },
        Err(error) => {
            proof {
                let after = l0 + wire_calls(*config, w).take(1).push(
                    as_refused(wire_calls(*config, w)[1], error),
                );
                assert(kernel.log() =~= after);
                assert(wiring_refused(*config, w, 1, old(kernel).log(), final(kernel).log(), error));
            }
            return Err(error);
        },
    }
    match kernel.create_process(kernel::system(), ProcessMode::Serial) {
        Ok(process) => {
            w.sink = process;
        },
        Err(error) => {
            proof {
                let after = l0 + wire_calls(*config, w).take(2).push(
                    as_refused(wire_calls(*config, w)[2], error),
                );
                assert(kernel.log() =~= after);
                assert(wiring_refused(*config, w, 2, old(kernel).log(), final(kernel).log(), error));
            }
            return Err(error);
        },
    }
    w.channel = kernel.create_channel(w.coordinator, config.channel_capacity);
    let granted = kernel.grant_channel(w.coordinator, w.source, w.channel, ChannelRight::Send);
    if let Ok(unit) = granted {
        assert(unit == ());
    }
    if let Err(error) = granted {
        proof {
            let after = l0 + wire_calls(*config, w).take(4).push(
                as_refused(wire_calls(*config, w)[4], error),
            );
            assert(kernel.log() =~= after);
            assert(wiring_refused(*config, w, 4, old(kernel).log(), final(kernel).log(), error));
        }
        return Err(error);
    }
    let granted = kernel.grant_channel(w.coordinator, w.sink, w.channel, ChannelRight::Receive);
    if let Ok(unit) = granted {
        assert(unit == ());
    }
    if let Err(error) = granted {
        proof {
            let after = l0 + wire_calls(*config, w).take(5).push(
                as_refused(wire_calls(*config, w)[5], error),
            );
            assert(kernel.log() =~= after);
            assert(wiring_refused(*config, w, 5, old(kernel).log(), final(kernel).log(), error));
        }
        return Err(error);
    }
    assert(kernel.log() =~= l0 + wire_calls(*config, w));
    Ok(w)
}

/// Carries out an action.
fn perform<K: Kernel>(kernel: &mut K, w: &Wiring, action: StreamAction) -> (out: (
    StreamEvent,
    Ghost<Seq<Call>>,
))
    requires
        !(action is Done),
    ensures
        final(kernel).log() == old(kernel).log() + out.1@,
        performs(*w, action, (Step { event: out.0, calls: out.1@ })),
{
    let ghost l0 = kernel.log();
    let event: StreamEvent;
    let ghost calls: Seq<Call>;
    match action {
        StreamAction::MakePayload { sequence } => {
            let mut content: Vec<u8> = Vec::new();
            bytes::put_le(&mut content, sequence as u64, 8);
            assert(content@ =~= bytes::le_bytes(sequence as nat, 8));
            let payload: Ref64 = kernel.create_object(
                w.source,
                ObjectKind::MessagePayload,
                content,
            );
            proof {
                calls = seq![kernel.log().last()];
            }
            event = StreamEvent::Made(payload);
        },
        StreamAction::Send { payload } => {
            let reply = kernel.send_channel(w.source, w.channel, payload);
            proof {
                calls = seq![kernel.log().last()];
            }
            event = StreamEvent::Sent(reply);
        },
        StreamAction::Receive => {
            let reply = kernel.receive_channel(w.sink, w.channel);
            proof {
                calls = seq![kernel.log().last()];
            }
            event = StreamEvent::Received(
                match reply {
                    Ok(Some(message)) => Ok(Some(message.payload)),
                    Ok(None) => Ok(None),
                    Err(error) => Err(error),
                },
            );
        },
        StreamAction::Read { payload } => {
            let reply = kernel.object_bytes(w.sink, payload);
            proof {
                calls = seq![kernel.log().last()];
            }
            event = StreamEvent::Read(reply);
        },
        StreamAction::FailSource => {
            let frame: Vec<u8> = Vec::new();
            assert(frame@ =~= Seq::<u8>::empty());
            let spec = ContinuationSpec::new(StateAccess::ReadOnly, u32::MAX, 0, frame, 1);
            match kernel.create_continuation(w.source, w.source, spec) {
                Err(error) => {
                    proof {
                        calls = seq![kernel.log().last()];
                    }
                    event = StreamEvent::SourceFailed(Err(error));
                },
                Ok(_) => {
                    let ghost l1 = kernel.log();
                    kernel.run_epoch();
                    let reply = kernel.process_state(w.source);
                    proof {
                        calls = seq![l1.last(), Call::RunEpoch, kernel.log().last()];
                    }
                    event = StreamEvent::SourceFailed(
                        match reply {
                            Ok(state) => Ok(state == ProcessState::Failed),
                            Err(error) => Err(error),
                        },
                    );
                },
            }
        },
        StreamAction::CloseChannel => {
            let reply = kernel.close_channel(w.coordinator, w.channel);
            proof {
                calls = seq![kernel.log().last()];
            }
            event = StreamEvent::Closed(reply);
        },
        StreamAction::Measure => {
            let reply = kernel.channel_len(w.channel);
            proof {
                calls = seq![kernel.log().last()];
            }
            event = StreamEvent::Measured(reply);
        },
        StreamAction::Done => {
            proof {
                calls = Seq::empty();
            }
            event = StreamEvent::Closed(Ok(()));
        },
    }
    proof {
        reveal(performs);
        assert(kernel.log() =~= l0 + calls);
        assert(performs(*w, action, Step { event, calls }));
    }
    (event, Ghost(calls))
}

/// How far an action is from the next record or delivery.
spec fn rank(action: StreamAction) -> int {
    match action {
        StreamAction::MakePayload { .. } => 9,
        StreamAction::Send { .. } => 8,
        StreamAction::FailSource => 6,
        StreamAction::CloseChannel => 5,
        StreamAction::Measure => 4,
        StreamAction::Receive => 3,
        StreamAction::Read { .. } => 2,
        StreamAction::Done => 0,
    }
}

/// A step that carries out what the run asked for brings it nearer to its end.
proof fn lemma_step_descends(w: Wiring, v: StreamView, step: Step)
    requires
        performs(w, v.action, step),
        took(v, step.event) is Ok,
        v.action is Send ==> v.committed < streaming_graph::target_of(v.config),
    ensures
        ({
            let after = took(v, step.event)->Ok_0;
            &&& after.config == v.config
            &&& after.backpressure >= v.backpressure
            &&& after.backpressure == v.backpressure ==> {
                &&& after.delivered.len() >= v.delivered.len()
                &&& after.delivered.len() == v.delivered.len() ==> {
                    &&& after.committed >= v.committed
                    &&& after.committed == v.committed ==> rank(after.action) < rank(v.action)
                }
            }
        }),
{
    reveal(performs);
    reveal(took);
}

proof fn lemma_path_grows(w: Wiring, v: StreamView, steps: Seq<Step>, step: Step, n: int)
    requires
        0 <= n <= steps.len(),
    ensures
        state_after(v, steps.push(step), n) == state_after(v, steps, n),
        calls_of(steps.push(step), n) == calls_of(steps, n),
    decreases n,
{
    if n > 0 {
        lemma_path_grows(w, v, steps, step, n - 1);
    }
}

proof fn lemma_path_goes_on(w: Wiring, v: StreamView, steps: Seq<Step>, step: Step)
    requires
        is_path(w, v, steps, steps.len() as int),
    ensures
        is_path(w, v, steps.push(step), steps.len() as int),
        state_after(v, steps.push(step), steps.len() as int) == state_after(
            v,
            steps,
            steps.len() as int,
        ),
        calls_of(steps.push(step), steps.len() as int + 1) == calls_of(steps, steps.len() as int)
            + step.calls,
{
    let more = steps.push(step);
    assert forall|i: int| 0 <= i < steps.len() implies {
        &&& performs(w, state_after(v, more, i).action, #[trigger] more[i])
        &&& took(state_after(v, more, i), more[i].event) is Ok
    } by {
        lemma_path_grows(w, v, steps, step, i);
        assert(more[i] == steps[i]);
    }
    lemma_path_grows(w, v, steps, step, steps.len() as int);
}

/// Carries out what the run asks for, and takes in what came of it.
fn step<K: Kernel>(kernel: &mut K, w: &Wiring, run: &mut StreamRun) -> (out: (
    Result<(), RuntimeError>,
    Ghost<Step>,
))
    requires
        old(run).well_formed(),
        !(old(run).action is Done),
    ensures
        final(kernel).log() == old(kernel).log() + out.1@.calls,
        performs(*w, old(run)@.action, out.1@),
        match out.0 {
            Ok(_) => {
                &&& took(old(run)@, out.1@.event) == Ok::<_, RuntimeError>(final(run)@)
                &&& final(run).well_formed()
            },
            Err(error) => took(old(run)@, out.1@.event) == Err::<StreamView, _>(error),
        },
{
    let action: StreamAction = run.next();
    let (event, Ghost(calls)) = perform(kernel, w, action);
    let ghost step = Step { event, calls };
    proof {
        reveal(took);
    }
    match run.advance(event) {
        Ok(_) => (Ok(()), Ghost(step)),
        Err(error) => (Err(error), Ghost(step)),
    }
}

/// Makes a streaming graph in `kernel` and runs it until nothing is left in its
/// channel.
pub fn run<K: Kernel>(kernel: &mut K, config: StreamingGraphConfig) -> (result: Result<
    StreamingGraphReport,
    RuntimeError,
>)
    ensures
        match result {
            Ok(report) => exists|w: Wiring, steps: Seq<Step>| #[trigger]
                ran_to_end(config, w, steps, old(kernel).log(), final(kernel).log(), report),
            Err(error) => {
                ||| exists|w: Wiring, n: int| #[trigger]
                    wiring_refused(config, w, n, old(kernel).log(), final(kernel).log(), error)
                ||| exists|w: Wiring, steps: Seq<Step>| #[trigger]
                    broke_off(config, w, steps, old(kernel).log(), final(kernel).log(), error)
            },
        },
{
    let w: Wiring = match wire(kernel, &config) {
        Ok(w) => w,
        Err(error) => {
            return Err(error);
        },
    };
    let ghost wired = kernel.log();
    let ghost start = streaming_graph::started(config);
    let ghost mut steps: Seq<Step> = Seq::empty();
    let mut run = StreamRun::new(config);
    assert(kernel.log() =~= wired + calls_of(steps, 0));
    while !run.is_done()
        invariant
            run.well_formed(),
            run.config == config,
            wired == old(kernel).log() + wire_calls(config, w),
            start == streaming_graph::started(config),
            is_path(w, start, steps, steps.len() as int),
            run@ == state_after(start, steps, steps.len() as int),
            kernel.log() == wired + calls_of(steps, steps.len() as int),
        decreases
                u32::MAX - run.backpressure,
                usize::MAX - run.delivered@.len(),
                streaming_graph::target_of(run.config) - run.committed,
                rank(run.action),
    {
        let ghost before = run@;
        let ghost n = steps.len() as int;
        let (taken, Ghost(step)) = step(kernel, &w, &mut run);
        proof {
            lemma_path_goes_on(w, start, steps, step);
            steps = steps.push(step);
            assert(steps[n] == step);
            assert(kernel.log() =~= wired + calls_of(steps, n + 1));
        }
        match taken {
            Ok(_) => {
                proof {
                    lemma_step_descends(w, before, step);
                }
            },
            Err(error) => {
                assert(broke_off(
                    config,
                    w,
                    steps,
                    old(kernel).log(),
                    final(kernel).log(),
                    error,
                ));
                return Err(error);
            },
        }
        let delivered: usize = run.delivered.len();
        assert(delivered == run.delivered@.len());
    }
    let result: Result<StreamingGraphReport, RuntimeError> = Ok(run.into_report());
    assert(ran_to_end(
        config,
        w,
        steps,
        old(kernel).log(),
        final(kernel).log(),
        result->Ok_0,
    ));
    result
}

} // verus!
