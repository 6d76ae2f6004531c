//! A two-input join, run in a kernel: its processes, channels and records are made,
//! and then each action of the run is carried out until the run is done.

use crate::bytes;
use crate::experiments::multi_input_graph;
use crate::experiments::multi_input_graph::{
    JoinAction, JoinEvent, JoinRun, JoinView, MultiInputConfig, MultiInputReport,
};
use crate::experiments::supervision_tree;
use crate::experiments::supervision_tree::worker_spec;
use crate::kernel;
use crate::kernel::{
    Call, ChannelRight, Kernel, MessageDescriptor, ObjectKind, ProcessMode, ProcessState, Ref64,
    RuntimeError,
};
use vstd::prelude::*;

verus! {

/// The processes of a join, its channels, and the records of its sources.
#[derive(Debug)]
pub struct JoinWiring {
    pub join: Ref64,
    pub left: Ref64,
    pub right: Ref64,
    pub left_channel: Ref64,
    pub right_channel: Ref64,
    pub left_values: Vec<Ref64>,
    pub right_values: Vec<Ref64>,
}

#[verifier::ext_equal]
pub ghost struct WiringView {
    pub join: Ref64,
    pub left: Ref64,
    pub right: Ref64,
    pub left_channel: Ref64,
    pub right_channel: Ref64,
    pub left_values: Seq<Ref64>,
    pub right_values: Seq<Ref64>,
}

impl View for JoinWiring {
    type V = WiringView;

    open spec fn view(&self) -> WiringView {
        WiringView {
            join: self.join,
            left: self.left,
            right: self.right,
            left_channel: self.left_channel,
            right_channel: self.right_channel,
            left_values: self.left_values@,
            right_values: self.right_values@,
        }
    }
}

/// The calls that make the processes and channels.
pub open spec fn process_calls(config: MultiInputConfig, w: WiringView) -> Seq<Call> {
    seq![
        Call::CreateProcess {
            actor: kernel::system_principal(),
            mode: ProcessMode::Serial,
            reply: Ok(w.join),
        },
        Call::Supervise { supervisor: w.join, mode: ProcessMode::Serial, reply: Ok(w.left) },
        Call::Supervise { supervisor: w.join, mode: ProcessMode::Serial, reply: Ok(w.right) },
        Call::CreateChannel {
            owner: w.join,
            capacity: config.capacity,
            reply: w.left_channel,
        },
        Call::CreateChannel {
            owner: w.join,
            capacity: config.capacity,
            reply: w.right_channel,
        },
        Call::GrantChannel {
            owner: w.join,
            receiver: w.left,
            channel: w.left_channel,
            right: ChannelRight::Send,
            reply: Ok(()),
        },
        Call::GrantChannel {
            owner: w.join,
            receiver: w.right,
            channel: w.right_channel,
            right: ChannelRight::Send,
            reply: Ok(()),
        },
    ]
}

/// The calls that make the records of a source: record `i` holds the number `i`.
pub open spec fn record_calls(owner: Ref64, values: Seq<Ref64>) -> Seq<Call> {
    Seq::new(
        values.len(),
        |i: int|
            Call::CreateObject {
                actor: owner,
                kind: ObjectKind::MessagePayload,
                bytes: bytes::le_bytes(i as nat, 8),
                reply: values[i],
            },
    )
}

/// The calls that make a join.
pub open spec fn wire_calls(config: MultiInputConfig, w: WiringView) -> Seq<Call> {
    process_calls(config, w) + record_calls(w.left, w.left_values) + record_calls(
        w.right,
        w.right_values,
    )
}

/// A call as it stands in the log where it was refused.
pub open spec fn as_refused(call: Call, error: RuntimeError) -> Call {
    match call {
        Call::CreateProcess { actor, mode, .. } => Call::CreateProcess {
            actor,
            mode,
            reply: Err(error),
        },
        Call::Supervise { supervisor, mode, .. } => Call::Supervise {
            supervisor,
            mode,
            reply: Err(error),
        },
        Call::GrantChannel { owner, receiver, channel, right, .. } => Call::GrantChannel {
            owner,
            receiver,
            channel,
            right,
            reply: Err(error),
        },
        _ => call,
    }
}

/// The join was made up to call `n`, which was refused.
pub open spec fn wiring_refused(
    config: MultiInputConfig,
    w: WiringView,
    n: int,
    before: Seq<Call>,
    after: Seq<Call>,
    error: RuntimeError,
) -> bool {
    &&& 0 <= n < 7 && n != 3 && n != 4
    &&& after == before + process_calls(config, w).take(n).push(
        as_refused(process_calls(config, w)[n], error),
    )
}

/// One action of the run: what came of it, and the calls that carried it out.
pub ghost struct Step {
    pub event: JoinEvent,
    pub calls: Seq<Call>,
}

pub open spec fn payloads_of(
    reply: Result<Option<(MessageDescriptor, MessageDescriptor)>, RuntimeError>,
) -> Result<Option<(Ref64, Ref64)>, RuntimeError> {
    match reply {
        Ok(Some((left, right))) => Ok(Some((left.payload, right.payload))),
        Ok(None) => Ok(None),
        Err(error) => Err(error),
    }
}

/// The number that a payload holds: one that is shorter than a word is missing.
pub open spec fn number_of(reply: Result<Seq<u8>, RuntimeError>) -> Result<u64, RuntimeError> {
    match reply {
        Ok(content) => if content.len() < 8 {
            Err(RuntimeError::MissingPayload)
        } else {
            Ok(bytes::word_at(content, 0, 8) as u64)
        },
        Err(error) => Err(error),
    }
}

/// Both payloads of a pair were read, the second only behind the first.
pub open spec fn reads_pair(w: WiringView, left: Ref64, right: Ref64, step: Step) -> bool {
    let calls = step.calls;
    &&& calls.len() >= 1
    &&& calls[0] matches Call::ObjectBytes { actor, object, reply } && {
        &&& actor == w.join
        &&& object == left
        &&& match number_of(reply) {
            Err(error) => calls.len() == 1 && step.event == JoinEvent::Read(Err(error)),
            Ok(first) => {
                &&& calls.len() == 2
                &&& calls[1] matches Call::ObjectBytes { actor, object, reply } && {
                    &&& actor == w.join
                    &&& object == right
                    &&& step.event == JoinEvent::Read(
                        match number_of(reply) {
                            Err(error) => Err(error),
                            Ok(second) => Ok((first, second)),
                        },
                    )
                }
            },
        }
    }
}

/// The left source was faulted, and then both channels were closed. The first
/// refusal is the last call.
pub open spec fn fails_left(w: WiringView, step: Step) -> bool {
    let calls = step.calls;
    &&& calls.len() >= 1
    &&& calls[0] matches Call::CreateContinuation { actor, process, spec, reply } && {
        &&& actor == w.left
        &&& process == w.left
        &&& spec == supervision_tree::worker_view(0)
        &&& match reply {
            Err(error) => calls.len() == 1 && step.event == JoinEvent::Failed(Err(error)),
            Ok(_) => {
                &&& calls.len() >= 3
                &&& calls[1] == Call::RunEpoch
                &&& calls[2] matches Call::CloseChannel { actor, channel, reply } && {
                    &&& actor == w.join
                    &&& channel == w.left_channel
                    &&& match reply {
                        Err(error) => calls.len() == 3 && step.event == JoinEvent::Failed(
                            Err(error),
                        ),
                        Ok(_) => {
                            &&& calls.len() == 4
                            &&& calls[3] matches Call::CloseChannel { actor, channel, reply } && {
                                &&& actor == w.join
                                &&& channel == w.right_channel
                                &&& step.event == JoinEvent::Failed(reply)
                            }
                        },
                    }
                }
            },
        }
    }
}

/// The calls of a step carry out the action, and its event is what they came to.
#[verifier::opaque]
pub open spec fn performs(w: WiringView, action: JoinAction, step: Step) -> bool {
    match action {
        JoinAction::SendLeft { record } => {
            &&& step.event matches JoinEvent::Sent(reply) && step.calls == seq![
                Call::SendChannel {
                    actor: w.left,
                    channel: w.left_channel,
                    payload: w.left_values[record as int],
                    reply,
                },
            ]
        },
        JoinAction::SendRight { record } => {
            &&& step.event matches JoinEvent::Sent(reply) && step.calls == seq![
                Call::SendChannel {
                    actor: w.right,
                    channel: w.right_channel,
                    payload: w.right_values[record as int],
                    reply,
                },
            ]
        },
        JoinAction::Receive => {
            &&& step.calls.len() == 1
            &&& step.calls[0] matches Call::ReceivePair { actor, left, right, reply } && {
                &&& actor == w.join
                &&& left == w.left_channel
                &&& right == w.right_channel
                &&& step.event == JoinEvent::Received(payloads_of(reply))
            }
        },
        JoinAction::Read { left, right } => reads_pair(w, left, right, step),
        JoinAction::FailLeft => fails_left(w, step),
        JoinAction::Done => false,
    }
}

/// The run after an event, or the error that ends it.
#[verifier::opaque]
pub open spec fn took(v: JoinView, event: JoinEvent) -> Result<JoinView, RuntimeError> {
    multi_input_graph::advanced(v, event)
}

/// The run behind the first `n` steps.
pub open spec fn state_after(v: JoinView, steps: Seq<Step>, n: int) -> JoinView
    decreases n,
{
    if n <= 0 {
        v
    } else {
        took(state_after(v, steps, n - 1), steps[n - 1].event)->Ok_0
    }
}

pub open spec fn calls_of(steps: Seq<Step>, n: int) -> Seq<Call>
    decreases n,
{
    if n <= 0 {
        Seq::empty()
    } else {
        calls_of(steps, n - 1) + steps[n - 1].calls
    }
}

/// Each of the first `n` steps carries out what the run asked for, and none ends it.
pub open spec fn is_path(w: WiringView, v: JoinView, steps: Seq<Step>, n: int) -> bool {
    forall|i: int|
        0 <= i < n ==> {
            &&& performs(w, state_after(v, steps, i).action, #[trigger] steps[i])
            &&& took(state_after(v, steps, i), steps[i].event) is Ok
        }
}

/// The join was made, and ran until it was done.
pub open spec fn ran_out(
    config: MultiInputConfig,
    w: WiringView,
    steps: Seq<Step>,
    before: Seq<Call>,
    after: Seq<Call>,
) -> bool {
    let start = multi_input_graph::started(config);
    let n = steps.len() as int;
    &&& w.left_values.len() == config.records
    &&& w.right_values.len() == config.records
    &&& is_path(w, start, steps, n)
    &&& after == before + wire_calls(config, w) + calls_of(steps, n)
    &&& state_after(start, steps, n).action is Done
}

/// The join was made, and its last step ended it with `error`.
pub open spec fn broke_off(
    config: MultiInputConfig,
    w: WiringView,
    steps: Seq<Step>,
    before: Seq<Call>,
    after: Seq<Call>,
    error: RuntimeError,
) -> bool {
    let start = multi_input_graph::started(config);
    let n = steps.len() as int;
    let last = state_after(start, steps, n - 1);
    &&& n > 0
    &&& w.left_values.len() == config.records
    &&& w.right_values.len() == config.records
    &&& is_path(w, start, steps, n - 1)
    &&& performs(w, last.action, steps[n - 1])
    &&& took(last, steps[n - 1].event) == Err::<JoinView, _>(error)
    &&& after == before + wire_calls(config, w) + calls_of(steps, n)
}

/// What was read of the sources once the run was over, and what it comes to: a
/// state that is refused is the error, and so are pairs that are missing.
pub open spec fn closed(
    config: MultiInputConfig,
    w: WiringView,
    end: JoinView,
    ran: Seq<Call>,
    after: Seq<Call>,
    result: Result<MultiInputReport, RuntimeError>,
) -> bool {
    let calls = after.skip(ran.len() as int);
    &&& ran.len() <= after.len() && after.take(ran.len() as int) == ran
    &&& calls.len() >= 1
    &&& calls[0] matches Call::ProcessState { process, reply } && process == w.left && match reply {
        Err(error) => calls.len() == 1 && result == Err::<MultiInputReport, _>(error),
        Ok(left_state) => {
            &&& calls.len() >= 2
            &&& calls[1] matches Call::ProcessState { process, reply } && process == w.right
                && match reply {
                Err(error) => calls.len() == 2 && result == Err::<MultiInputReport, _>(error),
                Ok(right_state) => {
                    &&& calls.len() == 3
                    &&& calls[2] matches Call::IsLegal { reply } && match result {
                        Ok(report) => {
                            &&& end.joined.len() == multi_input_graph::expected_of(config)
                            &&& report.joined@ == end.joined
                            &&& report.ordered == multi_input_graph::is_ordered(end.joined)
                            &&& report.committed_prefix_preserved == report.ordered
                            &&& report.left_backpressure == end.left_backpressure
                            &&& report.right_backpressure == end.right_backpressure
                            &&& report.left_state == left_state
                            &&& report.right_state == right_state
                            &&& report.legal == reply
                        },
                        Err(error) => end.joined.len() != multi_input_graph::expected_of(config)
                            && error == RuntimeError::InvalidMultiInput,
                    }
                },
            }
        },
    }
}

/// The join ran until it was done, and was closed.
pub open spec fn ran_to_end(
    config: MultiInputConfig,
    w: WiringView,
    steps: Seq<Step>,
    before: Seq<Call>,
    ran: Seq<Call>,
    after: Seq<Call>,
    result: Result<MultiInputReport, RuntimeError>,
) -> bool {
    &&& ran_out(config, w, steps, before, ran)
    &&& closed(
        config,
        w,
        state_after(multi_input_graph::started(config), steps, steps.len() as int),
        ran,
        after,
        result,
    )
}

fn make_records<K: Kernel>(kernel: &mut K, owner: Ref64, count: usize) -> (values: Vec<Ref64>)
    ensures
        values@.len() == count,
        final(kernel).log() == old(kernel).log() + record_calls(owner, values@),
{
    let ghost l0 = kernel.log();
    let mut values: Vec<Ref64> = Vec::new();
    let mut i: usize = 0;
    assert(kernel.log() =~= l0 + record_calls(owner, values@));
    while i < count
        invariant
            i <= count,
            values@.len() == i,
            l0 == old(kernel).log(),
            kernel.log() == l0 + record_calls(owner, values@),
        decreases count - i,
    {
        let mut content: Vec<u8> = Vec::new();
        bytes::put_le(&mut content, i as u64, 8);
        assert(content@ =~= bytes::le_bytes(i as nat, 8));
        let ghost held = record_calls(owner, values@);
        let ghost before = kernel.log();
        let value: Ref64 = kernel.create_object(owner, ObjectKind::MessagePayload, content);
        values.push(value);
        assert(record_calls(owner, values@) =~= held.push(kernel.log().last()));
        assert(kernel.log() =~= l0 + record_calls(owner, values@));
        i = i + 1;
    }
    values
}

#[verifier::rlimit(60)]
fn wire<K: Kernel>(kernel: &mut K, config: &MultiInputConfig) -> (result: Result<
    JoinWiring,
    RuntimeError,
>)
    ensures
        match result {
            Ok(w) => {
                &&& final(kernel).log() == old(kernel).log() + wire_calls(*config, w@)
                &&& w.left_values@.len() == config.records
                &&& w.right_values@.len() == config.records
            },
            Err(error) => exists|w: WiringView, n: int| #[trigger]
                wiring_refused(*config, w, n, old(kernel).log(), final(kernel).log(), error),
        },
{
    let ghost l0 = kernel.log();
    let none = Ref64::null();
    let mut w = JoinWiring {
        join: none,
        left: none,
        right: none,
        left_channel: none,
        right_channel: none,
        left_values: Vec::new(),
        right_values: Vec::new(),
    };
    match kernel.create_process(kernel::system(), ProcessMode::Serial) {
        Ok(process) => {
            w.join = process;
        },
        Err(error) => {
            proof {
                let after = l0 + process_calls(*config, w@).take(0).push(
                    as_refused(process_calls(*config, w@)[0], error),
                );
                assert(kernel.log() =~= after);
                assert(wiring_refused(*config, w@, 0, old(kernel).log(), final(kernel).log(), error));
            }
            return Err(error);
        },
    }
    match kernel.create_supervised_process(w.join, ProcessMode::Serial) {
        Ok(process) => {
            w.left = process;
        },
        Err(error) => {
            proof {
                let after = l0 + process_calls(*config, w@).take(1).push(
                    as_refused(process_calls(*config, w@)[1], error),
                );
                assert(kernel.log() =~= after);
                assert(wiring_refused(*config, w@, 1, old(kernel).log(), final(kernel).log(), error));
            }
            return Err(error);
        },
    }
    match kernel.create_supervised_process(w.join, ProcessMode::Serial) {
        Ok(process) => {
            w.right = process;
        },
        Err(error) => {
            proof {
                let after = l0 + process_calls(*config, w@).take(2).push(
                    as_refused(process_calls(*config, w@)[2], error),
                );
                assert(kernel.log() =~= after);
                assert(wiring_refused(*config, w@, 2, old(kernel).log(), final(kernel).log(), error));
            }
            return Err(error);
        },
    }
    w.left_channel = kernel.create_channel(w.join, config.capacity);
    w.right_channel = kernel.create_channel(w.join, config.capacity);
    let granted = kernel.grant_channel(w.join, w.left, w.left_channel, ChannelRight::Send);
    if let Ok(unit) = granted {
        assert(unit == ());
    }
    if let Err(error) = granted {
        proof {
            let after = l0 + process_calls(*config, w@).take(5).push(
                as_refused(process_calls(*config, w@)[5], error),
            );
            assert(kernel.log() =~= after);
            assert(wiring_refused(*config, w@, 5, old(kernel).log(), final(kernel).log(), error));
        }
        return Err(error);
    }
    let granted = kernel.grant_channel(w.join, w.right, w.right_channel, ChannelRight::Send);
    if let Ok(unit) = granted {
        assert(unit == ());
    }
    if let Err(error) = granted {
        proof {
            let after = l0 + process_calls(*config, w@).take(6).push(
                as_refused(process_calls(*config, w@)[6], error),
            );
            assert(kernel.log() =~= after);
            assert(wiring_refused(*config, w@, 6, old(kernel).log(), final(kernel).log(), error));
        }
        return Err(error);
    }
    let ghost made = process_calls(*config, w@);
    assert(kernel.log() =~= l0 + made);
    w.left_values = make_records(kernel, w.left, config.records);
    w.right_values = make_records(kernel, w.right, config.records);
    assert(process_calls(*config, w@) =~= made);
    assert(kernel.log() =~= l0 + wire_calls(*config, w@));
    Ok(w)
}

fn read_number<K: Kernel>(kernel: &mut K, actor: Ref64, object: Ref64) -> (out: (
    Result<u64, RuntimeError>,
    Ghost<Result<Seq<u8>, RuntimeError>>,
))
    ensures
        final(kernel).log() == old(kernel).log().push(
            Call::ObjectBytes { actor, object, reply: out.1@ },
        ),
        out.0 == number_of(out.1@),
{
    let reply = kernel.object_bytes(actor, object);
    let ghost seen = kernel::replied_bytes(reply);
    match reply {
        Ok(content) => {
            if content.len() < 8 {
                (Err(RuntimeError::MissingPayload), Ghost(seen))
            } else {
                (Ok(bytes::get_le(content.as_slice(), 0, 8)), Ghost(seen))
            }
        },
        Err(error) => (Err(error), Ghost(seen)),
    }
}

fn read_pair<K: Kernel>(kernel: &mut K, w: &JoinWiring, left: Ref64, right: Ref64) -> (out: (
    JoinEvent,
    Ghost<Seq<Call>>,
))
    ensures
        final(kernel).log() == old(kernel).log() + out.1@,
        reads_pair(w@, left, right, (Step { event: out.0, calls: out.1@ })),
{
    let ghost l0 = kernel.log();
    let (first, Ghost(seen)) = read_number(kernel, w.join, left);
    let ghost one = Call::ObjectBytes { actor: w.join, object: left, reply: seen };
    match first {
        Err(error) => {
            let ghost calls = seq![one];
            assert(kernel.log() =~= l0 + calls);
            (JoinEvent::Read(Err(error)), Ghost(calls))
        },
        Ok(first) => {
            let (second, Ghost(also)) = read_number(kernel, w.join, right);
            let ghost two = Call::ObjectBytes { actor: w.join, object: right, reply: also };
            let ghost calls = seq![one, two];
            assert(kernel.log() =~= l0 + calls);
            (
                JoinEvent::Read(
                    match second {
                        Ok(second) => Ok((first, second)),
                        Err(error) => Err(error),
                    },
                ),
                Ghost(calls),
            )
        },
    }
}

fn fail_left<K: Kernel>(kernel: &mut K, w: &JoinWiring) -> (out: (JoinEvent, Ghost<Seq<Call>>))
    ensures
        final(kernel).log() == old(kernel).log() + out.1@,
        fails_left(w@, (Step { event: out.0, calls: out.1@ })),
{
    let ghost l0 = kernel.log();
    let made = kernel.create_continuation(w.left, w.left, worker_spec(0));
    let ghost first = kernel.log().last();
    if let Err(error) = made {
        let ghost calls = seq![first];
        assert(kernel.log() =~= l0 + calls);
        return (JoinEvent::Failed(Err(error)), Ghost(calls));
    }
    kernel.run_epoch();
    let closed = kernel.close_channel(w.join, w.left_channel);
    let ghost third = kernel.log().last();
    if let Err(error) = closed {
        let ghost calls = seq![first, Call::RunEpoch, third];
        assert(kernel.log() =~= l0 + calls);
        return (JoinEvent::Failed(Err(error)), Ghost(calls));
    }
    let reply = kernel.close_channel(w.join, w.right_channel);
    let ghost calls = seq![first, Call::RunEpoch, third, kernel.log().last()];
    assert(kernel.log() =~= l0 + calls);
    (JoinEvent::Failed(reply), Ghost(calls))
}

/// Carries out an action.
fn perform<K: Kernel>(kernel: &mut K, w: &JoinWiring, action: JoinAction) -> (out: (
    JoinEvent,
    Ghost<Seq<Call>>,
))
    requires
        !(action is Done),
        action matches JoinAction::SendLeft { record } ==> record < w.left_values@.len(),
        action matches JoinAction::SendRight { record } ==> record < w.right_values@.len(),
    ensures
        final(kernel).log() == old(kernel).log() + out.1@,
        performs(w@, action, (Step { event: out.0, calls: out.1@ })),
{
    let ghost l0 = kernel.log();
    let event: JoinEvent;
    let ghost calls: Seq<Call>;
    match action {
        JoinAction::SendLeft { record } => {
            let reply = kernel.send_channel(w.left, w.left_channel, w.left_values[record]);
            proof {
                calls = seq![kernel.log().last()];
            }
            event = JoinEvent::Sent(reply);
        },
        JoinAction::SendRight { record } => {
            let reply = kernel.send_channel(w.right, w.right_channel, w.right_values[record]);
            proof {
                calls = seq![kernel.log().last()];
            }
            event = JoinEvent::Sent(reply);
        },
        JoinAction::Receive => {
            let reply = kernel.receive_channel_pair(w.join, w.left_channel, w.right_channel);
            proof {
                calls = seq![kernel.log().last()];
            }
            event = JoinEvent::Received(
                match reply {
                    Ok(Some((left, right))) => Ok(Some((left.payload, right.payload))),
                    Ok(None) => Ok(None),
                    Err(error) => Err(error),
                },
            );
        },
        JoinAction::Read { left, right } => {
            let (read, Ghost(made)) = read_pair(kernel, w, left, right);
            proof {
                calls = made;
            }
            event = read;
        },
        JoinAction::FailLeft => {
            let (failed, Ghost(made)) = fail_left(kernel, w);
            proof {
                calls = made;
            }
            event = failed;
        },
        JoinAction::Done => {
            proof {
                calls = Seq::empty();
            }
            event = JoinEvent::Failed(Ok(()));
        },
    }
    proof {
        reveal(performs);
        assert(kernel.log() =~= l0 + calls);
        assert(performs(w@, action, Step { event, calls }));
    }
    (event, Ghost(calls))
}

/// How far an action is from the end of its tick.
spec fn rank(action: JoinAction) -> int {
    match action {
        JoinAction::SendLeft { .. } => 5,
        JoinAction::SendRight { .. } => 4,
        JoinAction::Receive => 3,
        JoinAction::Read { .. } => 2,
        JoinAction::FailLeft => 1,
        JoinAction::Done => 0,
    }
}

/// A step that carries out what the run asked for brings it nearer to its end.
proof fn lemma_step_descends(w: WiringView, v: JoinView, step: Step)
    requires
        performs(w, v.action, step),
        took(v, step.event) is Ok,
        v.action is Receive ==> v.tick < u64::MAX,
    ensures
        ({
            let after = took(v, step.event)->Ok_0;
            &&& after.config == v.config
            &&& after.tick >= v.tick
            &&& after.tick == v.tick ==> {
                &&& after.joined.len() >= v.joined.len()
                &&& after.joined.len() == v.joined.len() ==> rank(after.action) < rank(v.action)
            }
        }),
{
    reveal(performs);
    reveal(took);
}

proof fn lemma_path_grows(v: JoinView, steps: Seq<Step>, step: Step, n: int)
    requires
        0 <= n <= steps.len(),
    ensures
        state_after(v, steps.push(step), n) == state_after(v, steps, n),
        calls_of(steps.push(step), n) == calls_of(steps, n),
    decreases n,
{
    if n > 0 {
        lemma_path_grows(v, steps, step, n - 1);
    }
}

proof fn lemma_path_goes_on(w: WiringView, v: JoinView, steps: Seq<Step>, step: Step)
    requires
        is_path(w, v, steps, steps.len() as int),
    ensures
        is_path(w, v, steps.push(step), steps.len() as int),
        state_after(v, steps.push(step), steps.len() as int) == state_after(
            v,
            steps,
            steps.len() as int,
        ),
        calls_of(steps.push(step), steps.len() as int + 1) == calls_of(steps, steps.len() as int)
            + step.calls,
{
    let more = steps.push(step);
    assert forall|i: int| 0 <= i < steps.len() implies {
        &&& performs(w, state_after(v, more, i).action, #[trigger] more[i])
        &&& took(state_after(v, more, i), more[i].event) is Ok
    } by {
        lemma_path_grows(v, steps, step, i);
        assert(more[i] == steps[i]);
    }
    lemma_path_grows(v, steps, step, steps.len() as int);
}

/// Carries out what the run asks for, and takes in what came of it.
fn step<K: Kernel>(kernel: &mut K, w: &JoinWiring, run: &mut JoinRun) -> (out: (
    Result<(), RuntimeError>,
    Ghost<Step>,
))
    requires
        old(run).well_formed(),
        !(old(run).action is Done),
        w.left_values@.len() == old(run).config.records,
        w.right_values@.len() == old(run).config.records,
    ensures
        final(kernel).log() == old(kernel).log() + out.1@.calls,
        performs(w@, old(run)@.action, out.1@),
        match out.0 {
            Ok(_) => {
                &&& took(old(run)@, out.1@.event) == Ok::<_, RuntimeError>(final(run)@)
                &&& final(run).well_formed()
            },
            Err(error) => took(old(run)@, out.1@.event) == Err::<JoinView, _>(error),
        },
{
    let action: JoinAction = run.next();
    let (event, Ghost(calls)) = perform(kernel, w, action);
    let ghost step = Step { event, calls };
    proof {
        reveal(took);
    }
    match run.advance(event) {
        Ok(_) => (Ok(()), Ghost(step)),
        Err(error) => (Err(error), Ghost(step)),
    }
}

/// Reads the states of the sources, and reports.
fn close<K: Kernel>(kernel: &mut K, w: &JoinWiring, run: JoinRun) -> (result: Result<
    MultiInputReport,
    RuntimeError,
>)
    ensures
        closed(run.config, w@, run@, old(kernel).log(), final(kernel).log(), result),
{
    let ghost l0 = kernel.log();
    let left_state: ProcessState = match kernel.process_state(w.left) {
        Ok(state) => state,
        Err(error) => {
            assert(kernel.log().take(l0.len() as int) =~= l0);
            return Err(error);
        },
    };
    let right_state: ProcessState = match kernel.process_state(w.right) {
        Ok(state) => state,
        Err(error) => {
            assert(kernel.log().take(l0.len() as int) =~= l0);
            return Err(error);
        },
    };
    let legal: bool = kernel.is_legal();
    assert(kernel.log().take(l0.len() as int) =~= l0);
    run.into_report(left_state, right_state, legal)
}

/// Makes a join in `kernel` and runs it: a configuration with nothing to join is
/// refused before the kernel is asked for anything.
#[verifier::rlimit(60)]
pub fn run<K: Kernel>(kernel: &mut K, config: MultiInputConfig) -> (result: Result<
    MultiInputReport,
    RuntimeError,
>)
    requires
        multi_input_graph::tick_limit(config) <= usize::MAX,
    ensures
        if !multi_input_graph::is_valid(config) {
            &&& result == Err::<MultiInputReport, _>(RuntimeError::InvalidMultiInput)
            &&& final(kernel).log() == old(kernel).log()
        } else {
            ||| exists|w: WiringView, steps: Seq<Step>, ran: Seq<Call>| #[trigger]
                ran_to_end(
                    config,
                    w,
                    steps,
                    old(kernel).log(),
                    ran,
                    final(kernel).log(),
                    result,
                )
            ||| result is Err && exists|w: WiringView, n: int| #[trigger]
                wiring_refused(
                    config,
                    w,
                    n,
                    old(kernel).log(),
                    final(kernel).log(),
                    result->Err_0,
                )
            ||| result is Err && exists|w: WiringView, steps: Seq<Step>| #[trigger]
                broke_off(
                    config,
                    w,
                    steps,
                    old(kernel).log(),
                    final(kernel).log(),
                    result->Err_0,
                )
        },
{
    let mut run: JoinRun = match JoinRun::new(config) {
        Ok(run) => run,
        Err(error) => {
            return Err(error);
        },
    };
    let ghost before = kernel.log();
    let w: JoinWiring = match wire(kernel, &config) {
        Ok(w) => w,
        Err(error) => {
            let result: Result<MultiInputReport, RuntimeError> = Err(error);
            proof {
                let (w, n) = choose|w: WiringView, n: int| #[trigger]
                    wiring_refused(config, w, n, before, kernel.log(), error);
                assert(wiring_refused(config, w, n, before, kernel.log(), error));
                assert(wiring_refused(
                    config,
                    w,
                    n,
                    old(kernel).log(),
                    final(kernel).log(),
                    result->Err_0,
                ));
            }
            return result;
        },
    };
    let ghost wired = kernel.log();
    let ghost start = multi_input_graph::started(config);
    let ghost mut steps: Seq<Step> = Seq::empty();
    assert(kernel.log() =~= wired + calls_of(steps, 0));
    while !run.is_done()
        invariant
            run.well_formed(),
            run.config == config,
            w.left_values@.len() == config.records,
            w.right_values@.len() == config.records,
            wired == old(kernel).log() + wire_calls(config, w@),
            start == multi_input_graph::started(config),
            is_path(w@, start, steps, steps.len() as int),
            run@ == state_after(start, steps, steps.len() as int),
            kernel.log() == wired + calls_of(steps, steps.len() as int),
        decreases
                u64::MAX - run.tick,
                usize::MAX - run.joined@.len(),
                rank(run.action),
    {
        let ghost before = run@;
        let ghost n = steps.len() as int;
        assert(run.tick <= multi_input_graph::tick_limit(config));
        let (taken, Ghost(step)) = step(kernel, &w, &mut run);
        proof {
            lemma_path_goes_on(w@, start, steps, step);
            steps = steps.push(step);
            assert(steps[n] == step);
            assert(kernel.log() =~= wired + calls_of(steps, n + 1));
        }
        match taken {
            Ok(_) => {
                proof {
                    lemma_step_descends(w@, before, step);
                }
            },
            Err(error) => {
                let result: Result<MultiInputReport, RuntimeError> = Err(error);
                assert(broke_off(
                    config,
                    w@,
                    steps,
                    old(kernel).log(),
                    final(kernel).log(),
                    result->Err_0,
                ));
                return result;
            },
        }
        let joined: usize = run.joined.len();
        assert(joined == run.joined@.len());
    }
    let ghost ran = kernel.log();
    assert(ran_out(config, w@, steps, old(kernel).log(), ran));
    let result: Result<MultiInputReport, RuntimeError> = close(kernel, &w, run);
    assert(ran_to_end(
        config,
        w@,
        steps,
        old(kernel).log(),
        ran,
        final(kernel).log(),
        result,
    ));
    result
}

} // verus!
