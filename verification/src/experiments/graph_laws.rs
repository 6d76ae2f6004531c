//! What the streaming graphs do record by record.

use crate::bytes;
use crate::experiments::multi_input_graph;
use crate::experiments::multi_input_graph::{JoinAction, JoinEvent, JoinView, MultiInputConfig};
use crate::experiments::multi_input_run;
use crate::experiments::multi_input_run::WiringView;
use crate::experiments::streaming_graph;
use crate::experiments::streaming_graph::{
    StreamAction, StreamEvent, StreamView, StreamingGraphConfig, StreamingGraphReport,
};
use crate::experiments::streaming_run;
use crate::experiments::streaming_run::Wiring;
use crate::kernel;
use crate::kernel::{
    Call, ChannelRight, ObjectKind, ProcessMode, ProcessState, Ref64,
    RuntimeError,
};
use vstd::prelude::*;

verus! {

// ---- one channel -----------------------------------------------------------

/// A graph has a coordinator, a source and a sink, and a channel of the coordinator's from
/// the source, which may only send, to the sink, which may only receive.
pub proof fn law_a_channel_leads_from_source_to_sink(config: StreamingGraphConfig, w: Wiring)
    ensures
        ({
            let k = streaming_run::wire_calls(config, w);
            &&& k.len() == 6
            &&& forall|i: int|
                0 <= i < 3 ==> #[trigger] k[i] == (Call::CreateProcess {
                    actor: kernel::system_principal(),
                    mode: ProcessMode::Serial,
                    reply: Ok(
                        if i == 0 {
                            w.coordinator
                        } else if i == 1 {
                            w.source
                        } else {
                            w.sink
                        },
                    ),
                })
            &&& k[3] == (Call::CreateChannel {
                owner: w.coordinator,
                capacity: config.channel_capacity,
                reply: w.channel,
            })
            &&& k[4] == (Call::GrantChannel {
                owner: w.coordinator,
                receiver: w.source,
                channel: w.channel,
                right: ChannelRight::Send,
                reply: Ok(()),
            })
            &&& k[5] == (Call::GrantChannel {
                owner: w.coordinator,
                receiver: w.sink,
                channel: w.channel,
                right: ChannelRight::Receive,
                reply: Ok(()),
            })
        }),
{
}

/// A source that is to fail commits no more records than until then, and otherwise all.
pub proof fn law_a_source_commits_until_it_fails(config: StreamingGraphConfig, committed: u32)
    ensures
        config.fail_source_after is None ==> streaming_graph::target_of(config) == config.records,
        config.fail_source_after matches Some(limit) ==> streaming_graph::target_of(config)
            == if limit < config.records {
            limit
        } else {
            config.records
        },
        committed < streaming_graph::target_of(config) ==> streaming_graph::next_record(
            config,
            committed,
        ) == (StreamAction::MakePayload { sequence: committed }),
        committed >= streaming_graph::target_of(config) && config.fail_source_after is Some
            ==> streaming_graph::next_record(config, committed) is FailSource,
        committed >= streaming_graph::target_of(config) && config.fail_source_after is None
            ==> streaming_graph::next_record(config, committed) is CloseChannel,
{
}

/// A record counts as committed once it was sent. One that meets a full channel is kept, is
/// counted as backpressure and is sent again after the sink has read a message.
pub proof fn law_a_full_channel_holds_a_record_back(v: StreamView, payload: Ref64)
    requires
        v.action == (StreamAction::Send { payload }),
        v.committed < u32::MAX,
    ensures
        streaming_graph::advanced(v, StreamEvent::Sent(Ok(()))) matches Ok(after)
            && after.committed == v.committed + 1 && after.backpressure == v.backpressure
            && after.delivered == v.delivered && after.action == streaming_graph::next_record(
            v.config,
            (v.committed + 1) as u32,
        ),
        v.backpressure < u32::MAX ==> (streaming_graph::advanced(
            v,
            StreamEvent::Sent(Err(RuntimeError::MailboxFull)),
        ) matches Ok(after) && after.committed == v.committed && after.backpressure
            == v.backpressure + 1 && after.action is Receive && after.waiting == Some(payload)),
        streaming_graph::advanced(v, StreamEvent::Sent(Err(RuntimeError::Unavailable)))
            == Err::<StreamView, _>(RuntimeError::Unavailable),
{
}

/// What the sink reads is delivered behind what it read before: the number in the payload's
/// first eight bytes.
pub proof fn law_a_read_record_is_delivered(v: StreamView, payload: Ref64, content: Vec<u8>)
    requires
        v.action == (StreamAction::Read { payload }),
    ensures
        content@.len() >= 8 ==> (streaming_graph::advanced(v, StreamEvent::Read(Ok(content)))
            matches Ok(after) && after.delivered == v.delivered.push(
            bytes::word_at(content@, 0, 8) as u64,
        ) && after.committed == v.committed && after.waiting is None && (
        v.waiting matches Some(kept) ==> after.action == (StreamAction::Send { payload: kept }))
            && (v.waiting is None ==> after.action is Measure)),
        content@.len() < 8 ==> streaming_graph::advanced(v, StreamEvent::Read(Ok(content)))
            == Err::<StreamView, _>(RuntimeError::MissingPayload),
{
}

/// The sink receives as long as something is queued, and the run is done when nothing is.
pub proof fn law_a_sink_empties_the_channel(v: StreamView, queued: u64, payload: Ref64)
    ensures
        v.action is Measure && queued > 0 ==> (streaming_graph::advanced(
            v,
            StreamEvent::Measured(Ok(queued)),
        ) matches Ok(after) && after.action is Receive),
        v.action is Measure && queued == 0 ==> (streaming_graph::advanced(
            v,
            StreamEvent::Measured(Ok(queued)),
        ) matches Ok(after) && after.action is Done),
        v.action is Receive ==> (streaming_graph::advanced(
            v,
            StreamEvent::Received(Ok(Some(payload))),
        ) matches Ok(after) && after.action == (StreamAction::Read { payload })),
        v.action is Receive ==> streaming_graph::advanced(v, StreamEvent::Received(Ok(None)))
            == Err::<StreamView, _>(RuntimeError::MissingPayload),
        v.action is CloseChannel ==> (streaming_graph::advanced(v, StreamEvent::Closed(Ok(())))
            matches Ok(after) && after.action is Measure),
        v.action is FailSource ==> (streaming_graph::advanced(
            v,
            StreamEvent::SourceFailed(Ok(true)),
        ) matches Ok(after) && after.source_failed && after.action is CloseChannel),
        v.action is FailSource ==> (streaming_graph::advanced(
            v,
            StreamEvent::SourceFailed(Ok(false)),
        ) matches Ok(after) && !after.source_failed && after.action is CloseChannel),
{
}

/// The source makes and sends records, and the sink receives and reads them. The coordinator
/// closes the channel.
pub proof fn law_each_end_does_its_part(w: Wiring, action: StreamAction, step: streaming_run::Step)
    requires
        streaming_run::performs(w, action, step),
    ensures
        action matches StreamAction::MakePayload { sequence } ==> step.calls.len() == 1 && (
        step.calls[0] matches Call::CreateObject { actor, kind, bytes, reply } && actor == w.source
            && kind == ObjectKind::MessagePayload && bytes == bytes::le_bytes(sequence as nat, 8)
            && step.event == StreamEvent::Made(reply)),
        action matches StreamAction::Send { payload } ==> step.calls.len() == 1 && (
        step.calls[0] matches Call::SendChannel { actor, channel, payload: sent, reply } && actor
            == w.source && channel == w.channel && sent == payload && step.event
            == StreamEvent::Sent(reply)),
        action is Receive ==> step.calls.len() == 1 && (
        step.calls[0] matches Call::ReceiveChannel { actor, channel, reply } && actor == w.sink
            && channel == w.channel && (reply matches Ok(Some(message)) ==> step.event
            == StreamEvent::Received(Ok(Some(message.payload)))) && (reply matches Ok(None)
            ==> step.event == StreamEvent::Received(Ok(None))) && (reply matches Err(error)
            ==> step.event == StreamEvent::Received(Err(error)))),
        action matches StreamAction::Read { payload } ==> step.calls.len() == 1 && (
        step.calls[0] matches Call::ObjectBytes { actor, object, .. } && actor == w.sink && object
            == payload),
        action is CloseChannel ==> step.calls.len() == 1 && (
        step.calls[0] matches Call::CloseChannel { actor, channel, reply } && actor
            == w.coordinator && channel == w.channel && step.event == StreamEvent::Closed(reply)),
        action is Measure ==> step.calls.len() == 1 && (
        step.calls[0] matches Call::ChannelLen { channel, reply } && channel == w.channel
            && step.event == StreamEvent::Measured(reply)),
        action is FailSource && step.calls.len() == 3 ==> (
        step.calls[0] matches Call::CreateContinuation { actor, process, spec, .. } && actor
            == w.source && process == w.source && spec.run_class == 0xffff_ffff) && step.calls[1]
            == Call::RunEpoch && (step.calls[2] matches Call::ProcessState { process, reply }
            && process == w.source && (reply matches Ok(state) ==> step.event
            == StreamEvent::SourceFailed(Ok(state == ProcessState::Failed)))),
{
    reveal(streaming_run::performs);
}

/// A report tells what the run came to.
pub proof fn law_a_stream_s_report_is_its_last_state(
    config: StreamingGraphConfig,
    w: Wiring,
    steps: Seq<streaming_run::Step>,
    before: Seq<Call>,
    after: Seq<Call>,
    report: StreamingGraphReport,
)
    requires
        streaming_run::ran_to_end(config, w, steps, before, after, report),
    ensures
        ({
            let end = streaming_run::state_after(
                streaming_graph::started(config),
                steps,
                steps.len() as int,
            );
            &&& end.action is Done
            &&& report.attempted_records == config.records
            &&& report.committed_records == end.committed
            &&& report.delivered@ == end.delivered
            &&& report.backpressure_events == end.backpressure
            &&& report.source_failed == end.source_failed
            &&& after == before + streaming_run::wire_calls(config, w) + streaming_run::calls_of(
                steps,
                steps.len() as int,
            )
        }),
{
}

/// A run takes its steps one after the other, and makes their calls in that order.
pub proof fn law_a_stream_goes_step_by_step(v: StreamView, steps: Seq<streaming_run::Step>, n: int)
    requires
        0 <= n < steps.len(),
    ensures
        streaming_run::state_after(v, steps, 0) == v,
        streaming_run::state_after(v, steps, n + 1) == streaming_graph::advanced(
            streaming_run::state_after(v, steps, n),
            steps[n].event,
        )->Ok_0,
        streaming_run::calls_of(steps, 0).len() == 0,
        streaming_run::calls_of(steps, n + 1) == streaming_run::calls_of(steps, n)
            + steps[n].calls,
{
    reveal(streaming_run::took);
}

// ---- two channels ----------------------------------------------------------

/// A join supervises its two sources and owns both channels. Each source may send on its
/// own.
pub proof fn law_a_join_owns_both_channels(config: MultiInputConfig, w: WiringView)
    ensures
        ({
            let k = multi_input_run::process_calls(config, w);
            &&& k.len() == 7
            &&& k[0] == (Call::CreateProcess {
                actor: kernel::system_principal(),
                mode: ProcessMode::Serial,
                reply: Ok(w.join),
            })
            &&& k[1] == (Call::Supervise {
                supervisor: w.join,
                mode: ProcessMode::Serial,
                reply: Ok(w.left),
            })
            &&& k[2] == (Call::Supervise {
                supervisor: w.join,
                mode: ProcessMode::Serial,
                reply: Ok(w.right),
            })
            &&& k[3] == (Call::CreateChannel {
                owner: w.join,
                capacity: config.capacity,
                reply: w.left_channel,
            })
            &&& k[4] == (Call::CreateChannel {
                owner: w.join,
                capacity: config.capacity,
                reply: w.right_channel,
            })
            &&& k[5] == (Call::GrantChannel {
                owner: w.join,
                receiver: w.left,
                channel: w.left_channel,
                right: ChannelRight::Send,
                reply: Ok(()),
            })
            &&& k[6] == (Call::GrantChannel {
                owner: w.join,
                receiver: w.right,
                channel: w.right_channel,
                right: ChannelRight::Send,
                reply: Ok(()),
            })
        }),
{
}

/// Each source's records are numbered from zero, and are its own.
pub proof fn law_records_are_numbered_from_zero(owner: Ref64, values: Seq<Ref64>, i: int)
    requires
        0 <= i < values.len(),
    ensures
        multi_input_run::record_calls(owner, values).len() == values.len(),
        multi_input_run::record_calls(owner, values)[i] == (Call::CreateObject {
            actor: owner,
            kind: ObjectKind::MessagePayload,
            bytes: bytes::le_bytes(i as nat, 8),
            reply: values[i],
        }),
{
}

/// The left source sends record `i` no earlier than at tick `i`, and as many as it commits.
/// The right source sends each of its records so many ticks later as it is delayed. When
/// both have had their turn the join receives.
pub proof fn law_sources_send_in_time(v: JoinView)
    requires
        v.tick < multi_input_graph::tick_limit(v.config),
    ensures
        ({
            let most = match v.config.fail_left_after {
                Some(prefix) => prefix,
                None => v.config.records,
            };
            let left = v.next_left < most && v.tick >= v.next_left;
            let right = v.next_right < v.config.records && v.tick >= v.next_right
                + v.config.right_delay;
            let action = multi_input_graph::at_tick(v);
            &&& left ==> action == (JoinAction::SendLeft { record: v.next_left })
            &&& !left && right ==> action == (JoinAction::SendRight { record: v.next_right })
            &&& !left && !right ==> action is Receive
            &&& right ==> multi_input_graph::behind_left(v) == (JoinAction::SendRight {
                record: v.next_right,
            })
            &&& !right ==> multi_input_graph::behind_left(v) is Receive
        }),
{
}

/// A sent record is not sent again. One that met a full channel is, and is counted for its
/// side.
pub proof fn law_each_side_counts_its_own_backpressure(v: JoinView, record: usize)
    requires
        v.next_left < usize::MAX,
        v.next_right < usize::MAX,
        v.left_backpressure < u64::MAX,
        v.right_backpressure < u64::MAX,
    ensures
        v.action == (JoinAction::SendLeft { record }) ==> (multi_input_graph::advanced(
            v,
            JoinEvent::Sent(Ok(())),
        ) matches Ok(after) && after.next_left == v.next_left + 1 && after.next_right
            == v.next_right && after.left_backpressure == v.left_backpressure),
        v.action == (JoinAction::SendLeft { record }) ==> (multi_input_graph::advanced(
            v,
            JoinEvent::Sent(Err(RuntimeError::MailboxFull)),
        ) matches Ok(after) && after.next_left == v.next_left && after.left_backpressure
            == v.left_backpressure + 1 && after.right_backpressure == v.right_backpressure),
        v.action == (JoinAction::SendRight { record }) ==> (multi_input_graph::advanced(
            v,
            JoinEvent::Sent(Ok(())),
        ) matches Ok(after) && after.next_right == v.next_right + 1 && after.next_left
            == v.next_left && after.right_backpressure == v.right_backpressure && after.action
            is Receive),
        v.action == (JoinAction::SendRight { record }) ==> (multi_input_graph::advanced(
            v,
            JoinEvent::Sent(Err(RuntimeError::MailboxFull)),
        ) matches Ok(after) && after.next_right == v.next_right && after.right_backpressure
            == v.right_backpressure + 1 && after.left_backpressure == v.left_backpressure
            && after.action is Receive),
{
}

/// A pair is received whole, is read and joined behind those before it, and the join goes on
/// receiving until there is no pair. Then the tick ends.
pub proof fn law_pairs_are_joined_in_order(v: JoinView, left: Ref64, right: Ref64, pair: (u64, u64))
    ensures
        v.action is Receive ==> (multi_input_graph::advanced(
            v,
            JoinEvent::Received(Ok(Some((left, right)))),
        ) matches Ok(after) && after.action == (JoinAction::Read { left, right }) && after.joined
            == v.joined),
        v.action is Read ==> (multi_input_graph::advanced(v, JoinEvent::Read(Ok(pair)))
            matches Ok(after) && after.joined == v.joined.push(pair) && after.action is Receive),
        v.action is Receive ==> multi_input_graph::advanced(v, JoinEvent::Received(Ok(None)))
            == Ok::<JoinView, RuntimeError>(multi_input_graph::tick_ended(v)),
        v.action is FailLeft ==> (multi_input_graph::advanced(v, JoinEvent::Failed(Ok(())))
            matches Ok(after) && after.action is Done),
{
}

/// A tick ends the run where every record was joined, fails the left source where its prefix
/// was, and otherwise the next tick begins.
pub proof fn law_a_run_ends_with_its_last_pair(v: JoinView)
    requires
        v.tick < u64::MAX,
    ensures
        ({
            let after = multi_input_graph::tick_ended(v);
            &&& v.config.fail_left_after is None && v.joined.len() == v.config.records
                ==> after.action is Done
            &&& v.config.fail_left_after matches Some(prefix) ==> (v.joined.len() == prefix
                ==> after.action is FailLeft)
            &&& v.config.fail_left_after is None && v.joined.len() != v.config.records
                ==> after.tick == v.tick + 1
            &&& v.config.fail_left_after matches Some(prefix) ==> (v.joined.len() != prefix
                ==> after.tick == v.tick + 1)
            &&& after.joined == v.joined
            &&& after.next_left == v.next_left
            &&& after.next_right == v.next_right
        }),
{
}

/// A join takes its steps one after the other, and makes their calls in that order.
pub proof fn law_a_join_goes_step_by_step(v: JoinView, steps: Seq<multi_input_run::Step>, n: int)
    requires
        0 <= n < steps.len(),
    ensures
        multi_input_run::state_after(v, steps, 0) == v,
        multi_input_run::state_after(v, steps, n + 1) == multi_input_graph::advanced(
            multi_input_run::state_after(v, steps, n),
            steps[n].event,
        )->Ok_0,
        multi_input_run::calls_of(steps, 0).len() == 0,
        multi_input_run::calls_of(steps, n + 1) == multi_input_run::calls_of(steps, n)
            + steps[n].calls,
{
    reveal(multi_input_run::took);
}

/// Each source sends its own records on its own channel, and the join receives from both and
/// reads left before right.
pub proof fn law_each_source_sends_its_own(
    w: WiringView,
    action: JoinAction,
    step: multi_input_run::Step,
)
    requires
        multi_input_run::performs(w, action, step),
    ensures
        action matches JoinAction::SendLeft { record } ==> step.calls.len() == 1 && (
        step.calls[0] matches Call::SendChannel { actor, channel, payload, reply } && actor
            == w.left && channel == w.left_channel && payload == w.left_values[record as int]
            && step.event == JoinEvent::Sent(reply)),
        action matches JoinAction::SendRight { record } ==> step.calls.len() == 1 && (
        step.calls[0] matches Call::SendChannel { actor, channel, payload, reply } && actor
            == w.right && channel == w.right_channel && payload == w.right_values[record as int]
            && step.event == JoinEvent::Sent(reply)),
        action is Receive ==> step.calls.len() == 1 && (
        step.calls[0] matches Call::ReceivePair { actor, left, right, reply } && actor == w.join
            && left == w.left_channel && right == w.right_channel && (reply matches Ok(
            Some((a, b)),
        ) ==> step.event == JoinEvent::Received(Ok(Some((a.payload, b.payload)))))),
        action matches JoinAction::Read { left, right } ==> (step.event matches JoinEvent::Read(
            Ok((first, second)),
        ) ==> step.calls.len() == 2 && (
        step.calls[0] matches Call::ObjectBytes { actor, object, reply } && actor == w.join
            && object == left && (reply matches Ok(content) && first == bytes::word_at(
            content,
            0,
            8,
        ) as u64)) && (
        step.calls[1] matches Call::ObjectBytes { actor: by, object: other, reply: also } && by
            == w.join && other == right && (also matches Ok(content) && second
            == bytes::word_at(content, 0, 8) as u64))),
        action is FailLeft && step.calls.len() == 4 ==> (
        step.calls[0] matches Call::CreateContinuation { actor, process, spec, .. } && actor
            == w.left && process == w.left && spec.max_steps == 0) && step.calls[1]
            == Call::RunEpoch && (
        step.calls[2] matches Call::CloseChannel { channel, .. } && channel == w.left_channel) && (
        step.calls[3] matches Call::CloseChannel { channel: other, .. } && other
            == w.right_channel),
{
    reveal(multi_input_run::performs);
}

} // verus!
