//! A bounded streaming graph: a source emits numbered records into one channel,
//! and a sink drains a record whenever the channel is full.
//!
//! A source that fails does so only behind a committed send, so that the queued
//! prefix outlives it. A run says what to do next and is told what came of it.

use crate::bytes;
pub use crate::experiments::streaming_run::run;
use crate::kernel::{Ref64, RuntimeError};
use vstd::prelude::*;

verus! {

#[derive(Clone, Copy, Debug, PartialEq, Eq)]
pub struct StreamingGraphConfig {
    pub records: u32,
    pub channel_capacity: u32,
    pub fail_source_after: Option<u32>,
}

impl Default for StreamingGraphConfig {
    fn default() -> (config: Self)
        ensures
            config == (StreamingGraphConfig {
                records: 32,
                channel_capacity: 4,
                fail_source_after: None,
            }),
    {
        StreamingGraphConfig { records: 32, channel_capacity: 4, fail_source_after: None }
    }
}

#[derive(Debug)]
pub struct StreamingGraphReport {
    pub attempted_records: u32,
    pub committed_records: u32,
    pub delivered: Vec<u64>,
    pub backpressure_events: u32,
    pub source_failed: bool,
}

/// The records delivered are the committed ones, in order and without a gap.
pub open spec fn is_ordered(delivered: Seq<u64>, committed: u32) -> bool {
    delivered == Seq::new(committed as nat, |i: int| i as u64)
}

impl StreamingGraphReport {
    pub fn ordered(&self) -> (ordered: bool)
        ensures
            ordered == is_ordered(self.delivered@, self.committed_records),
    {
        let ghost all = Seq::new(self.committed_records as nat, |i: int| i as u64);
        if self.delivered.len() as u64 != self.committed_records as u64 {
            return false;
        }
        let mut i: usize = 0;
        while i < self.delivered.len()
            invariant
                i <= self.delivered.len(),
                self.delivered@.len() == self.committed_records,
                all == Seq::new(self.committed_records as nat, |i: int| i as u64),
                forall|j: int| 0 <= j < i ==> #[trigger] self.delivered@[j] == j,
            decreases self.delivered.len() - i,
        {
            if self.delivered[i] != i as u64 {
                assert(self.delivered@[i as int] != all[i as int]);
                return false;
            }
            i = i + 1;
        }
        assert(self.delivered@ =~= all);
        true
    }
}

/// What the run does next.
#[derive(Clone, Copy, Debug, PartialEq, Eq, Structural)]
pub enum StreamAction {
    /// Make the payload of a record, the source owning it.
    MakePayload { sequence: u32 },
    /// Send it from the source.
    Send { payload: Ref64 },
    /// Receive one message at the sink.
    Receive,
    /// Read a payload at the sink.
    Read { payload: Ref64 },
    /// Give the source a continuation that faults, run an epoch, and look
    /// whether the source has failed.
    FailSource,
    CloseChannel,
    /// See how many messages are queued.
    Measure,
    Done,
}

/// What came of an action.
#[derive(Debug)]
pub enum StreamEvent {
    Made(Ref64),
    Sent(Result<(), RuntimeError>),
    Received(Result<Option<Ref64>, RuntimeError>),
    Read(Result<Vec<u8>, RuntimeError>),
    SourceFailed(Result<bool, RuntimeError>),
    Closed(Result<(), RuntimeError>),
    Measured(Result<u64, RuntimeError>),
}

/// A run, as far as it has come.
#[derive(Debug)]
pub struct StreamRun {
    pub config: StreamingGraphConfig,
    pub action: StreamAction,
    /// What is sent again once the sink has drained a record.
    pub waiting: Option<Ref64>,
    pub committed: u32,
    pub backpressure: u32,
    pub delivered: Vec<u64>,
    pub source_failed: bool,
}

#[verifier::ext_equal]
pub ghost struct StreamView {
    pub config: StreamingGraphConfig,
    pub action: StreamAction,
    pub waiting: Option<Ref64>,
    pub committed: u32,
    pub backpressure: u32,
    pub delivered: Seq<u64>,
    pub source_failed: bool,
}

impl View for StreamRun {
    type V = StreamView;

    open spec fn view(&self) -> StreamView {
        StreamView {
            config: self.config,
            action: self.action,
            waiting: self.waiting,
            committed: self.committed,
            backpressure: self.backpressure,
            delivered: self.delivered@,
            source_failed: self.source_failed,
        }
    }
}

/// How many records are sent: all, or as many as come before the failure.
pub open spec fn target_of(config: StreamingGraphConfig) -> u32 {
    match config.fail_source_after {
        Some(limit) => if limit < config.records {
            limit
        } else {
            config.records
        },
        None => config.records,
    }
}

/// What follows when `committed` records are in the channel.
pub open spec fn next_record(config: StreamingGraphConfig, committed: u32) -> StreamAction {
    if committed < target_of(config) {
        StreamAction::MakePayload { sequence: committed }
    } else if config.fail_source_after is Some {
        StreamAction::FailSource
    } else {
        StreamAction::CloseChannel
    }
}

/// The run after an event, or the error that ends it. An event that answers
/// another action than the one asked for changes nothing. A channel that was full
/// more often than can be counted ends the run.
pub open spec fn advanced(v: StreamView, event: StreamEvent) -> Result<StreamView, RuntimeError> {
    match (v.action, event) {
        (StreamAction::MakePayload { .. }, StreamEvent::Made(payload)) => Ok(
            StreamView { action: StreamAction::Send { payload }, ..v },
        ),
        (StreamAction::Send { payload }, StreamEvent::Sent(reply)) => match reply {
            Ok(_) => Ok(
                StreamView {
                    action: next_record(v.config, (v.committed + 1) as u32),
                    committed: (v.committed + 1) as u32,
                    ..v
                },
            ),
            Err(RuntimeError::MailboxFull) => if v.backpressure == u32::MAX {
                Err(RuntimeError::MailboxFull)
            } else {
                Ok(
                    StreamView {
                        action: StreamAction::Receive,
                        waiting: Some(payload),
                        backpressure: (v.backpressure + 1) as u32,
                        ..v
                    },
                )
            },
            Err(error) => Err(error),
        },
        (StreamAction::Receive, StreamEvent::Received(reply)) => match reply {
            Ok(Some(payload)) => Ok(StreamView { action: StreamAction::Read { payload }, ..v }),
            Ok(None) => Err(RuntimeError::MissingPayload),
            Err(error) => Err(error),
        },
        (StreamAction::Read { .. }, StreamEvent::Read(reply)) => match reply {
            Ok(content) => if content@.len() < 8 {
                Err(RuntimeError::MissingPayload)
            } else {
                Ok(
                    StreamView {
                        action: match v.waiting {
                            Some(payload) => StreamAction::Send { payload },
                            None => StreamAction::Measure,
                        },
                        waiting: None,
                        delivered: v.delivered.push(bytes::word_at(content@, 0, 8) as u64),
                        ..v
                    },
                )
            },
            Err(error) => Err(error),
        },
        (StreamAction::FailSource, StreamEvent::SourceFailed(reply)) => match reply {
            Ok(failed) => Ok(
                StreamView { action: StreamAction::CloseChannel, source_failed: failed, ..v },
            ),
            Err(error) => Err(error),
        },
        (StreamAction::CloseChannel, StreamEvent::Closed(reply)) => match reply {
            Ok(_) => Ok(StreamView { action: StreamAction::Measure, ..v }),
            Err(error) => Err(error),
        },
        (StreamAction::Measure, StreamEvent::Measured(reply)) => match reply {
            Ok(queued) => Ok(
                StreamView {
                    action: if queued > 0 {
                        StreamAction::Receive
                    } else {
                        StreamAction::Done
                    },
                    ..v
                },
            ),
            Err(error) => Err(error),
        },
        _ => Ok(v),
    }
}

/// A run before its first record.
pub open spec fn started(config: StreamingGraphConfig) -> StreamView {
    StreamView {
        config,
        action: next_record(config, 0),
        waiting: None,
        committed: 0,
        backpressure: 0,
        delivered: Seq::empty(),
        source_failed: false,
    }
}

impl StreamRun {
    /// A run stays within its records, and only a run that sends waits.
    pub open spec fn well_formed(&self) -> bool {
        &&& self.committed <= target_of(self.config)
        &&& (self.action is MakePayload || self.action is Send) ==> self.committed < target_of(
            self.config,
        )
        &&& self.waiting is Some ==> (self.action is Receive || self.action is Read)
            && self.committed < target_of(self.config)
    }

    pub fn new(config: StreamingGraphConfig) -> (run: Self)
        ensures
            run.well_formed(),
            run@ == started(config),
    {
        let run = StreamRun {
            config,
            action: Self::record_after(&config, 0),
            waiting: None,
            committed: 0,
            backpressure: 0,
            delivered: Vec::new(),
            source_failed: false,
        };
        assert(run@.delivered =~= Seq::<u64>::empty());
        run
    }

    fn record_after(config: &StreamingGraphConfig, committed: u32) -> (action: StreamAction)
        ensures
            action == next_record(*config, committed),
    {
        let target: u32 = match config.fail_source_after {
            Some(limit) => if limit < config.records {
                limit
            } else {
                config.records
            },
            None => config.records,
        };
        if committed < target {
            StreamAction::MakePayload { sequence: committed }
        } else if config.fail_source_after.is_some() {
            StreamAction::FailSource
        } else {
            StreamAction::CloseChannel
        }
    }

    pub fn is_done(&self) -> (done: bool)
        ensures
            done == (self@.action is Done),
    {
        match self.action {
            StreamAction::Done => true,
            _ => false,
        }
    }

    pub fn next(&self) -> (action: StreamAction)
        ensures
            action == self@.action,
    {
        self.action
    }

    /// Takes in what came of the action that was asked for.
    pub fn advance(&mut self, event: StreamEvent) -> (result: Result<(), RuntimeError>)
        requires
            old(self).well_formed(),
        ensures
            match advanced(old(self)@, event) {
                Ok(after) => result is Ok && final(self)@ == after && final(self).well_formed(),
                Err(error) => result == Err::<(), _>(error) && final(self)@ == old(self)@,
            },
    {
        let ghost before = self@;
        match (self.action, event) {
            (StreamAction::MakePayload { .. }, StreamEvent::Made(payload)) => {
                self.action = StreamAction::Send { payload };
            },
            (StreamAction::Send { payload }, StreamEvent::Sent(reply)) => {
                match reply {
                    Ok(_) => {
                        self.committed = self.committed + 1;
                        self.action = Self::record_after(&self.config, self.committed);
                    },
                    Err(RuntimeError::MailboxFull) => {
                        if self.backpressure == u32::MAX {
                            return Err(RuntimeError::MailboxFull);
                        }
                        self.action = StreamAction::Receive;
                        self.waiting = Some(payload);
                        self.backpressure = self.backpressure + 1;
                    },
                    Err(error) => {
                        return Err(error);
                    },
                }
            },
            (StreamAction::Receive, StreamEvent::Received(reply)) => {
                match reply {
                    Ok(Some(payload)) => {
                        self.action = StreamAction::Read { payload };
                    },
                    Ok(None) => {
                        return Err(RuntimeError::MissingPayload);
                    },
                    Err(error) => {
                        return Err(error);
                    },
                }
            },
            (StreamAction::Read { .. }, StreamEvent::Read(reply)) => {
                match reply {
                    Ok(content) => {
                        if content.len() < 8 {
                            return Err(RuntimeError::MissingPayload);
                        }
                        self.delivered.push(bytes::get_le(content.as_slice(), 0, 8));
                        self.action = match self.waiting {
                            Some(payload) => StreamAction::Send { payload },
                            None => StreamAction::Measure,
                        };
                        self.waiting = None;
                    },
                    Err(error) => {
                        return Err(error);
                    },
                }
            },
            (StreamAction::FailSource, StreamEvent::SourceFailed(reply)) => {
                match reply {
                    Ok(failed) => {
                        self.action = StreamAction::CloseChannel;
                        self.source_failed = failed;
                    },
                    Err(error) => {
                        return Err(error);
                    },
                }
            },
            (StreamAction::CloseChannel, StreamEvent::Closed(reply)) => {
                match reply {
                    Ok(_) => {
                        self.action = StreamAction::Measure;
                    },
                    Err(error) => {
                        return Err(error);
                    },
                }
            },
            (StreamAction::Measure, StreamEvent::Measured(reply)) => {
                match reply {
                    Ok(queued) => {
                        self.action = if queued > 0 {
                            StreamAction::Receive
                        } else {
                            StreamAction::Done
                        };
                    },
                    Err(error) => {
                        return Err(error);
                    },
                }
            },
            _ => {},
        }
        proof {
            let after = advanced(before, event)->Ok_0;
            assert(self@ =~= after);
        }
        Ok(())
    }

    pub fn into_report(self) -> (report: StreamingGraphReport)
        ensures
            report.attempted_records == self.config.records,
            report.committed_records == self.committed,
            report.delivered@ == self.delivered@,
            report.backpressure_events == self.backpressure,
            report.source_failed == self.source_failed,
    {
        StreamingGraphReport {
            attempted_records: self.config.records,
            committed_records: self.committed,
            delivered: self.delivered,
            backpressure_events: self.backpressure,
            source_failed: self.source_failed,
        }
    }
}

/// What a first-in-first-out channel that holds `c` answers to the run's action,
/// and holds behind it. A payload is named by its record.
pub open spec fn is_answered(v: StreamView, c: Seq<u64>, event: StreamEvent, held: Seq<u64>) -> bool {
    match v.action {
        StreamAction::MakePayload { sequence } => {
            &&& event == StreamEvent::Made(Ref64 { raw: sequence as u64 })
            &&& held == c
        },
        StreamAction::Send { payload } => if c.len() < v.config.channel_capacity {
            &&& event == StreamEvent::Sent(Ok(()))
            &&& held == c.push(payload.raw)
        } else {
            &&& event == StreamEvent::Sent(Err(RuntimeError::MailboxFull))
            &&& held == c
        },
        StreamAction::Receive => if c.len() > 0 {
            &&& event == StreamEvent::Received(Ok(Some(Ref64 { raw: c[0] })))
            &&& held == c.drop_first()
        } else {
            &&& event == StreamEvent::Received(Ok(None))
            &&& held == c
        },
        StreamAction::Read { payload } => {
            &&& event matches StreamEvent::Read(Ok(content)) && content@ == bytes::le_bytes(
                payload.raw as nat,
                8,
            )
            &&& held == c
        },
        StreamAction::FailSource => {
            &&& event matches StreamEvent::SourceFailed(Ok(_))
            &&& held == c
        },
        StreamAction::CloseChannel => {
            &&& event == StreamEvent::Closed(Ok(()))
            &&& held == c
        },
        StreamAction::Measure => {
            &&& event == StreamEvent::Measured(Ok(c.len() as u64))
            &&& held == c
        },
        StreamAction::Done => false,
    }
}

/// What is delivered is in order and without a gap, and the channel holds, in
/// order, what was committed and not yet taken. A run that is done has
/// delivered everything that it committed.
pub open spec fn in_step(v: StreamView, c: Seq<u64>) -> bool {
    let taken = v.delivered.len() + if v.action is Read {
        1int
    } else {
        0
    };
    let sends = v.action is MakePayload || v.action is Send || v.waiting is Some;
    &&& is_ordered(v.delivered, v.delivered.len() as u32)
    &&& taken <= v.committed
    &&& c == Seq::new((v.committed - taken) as nat, |i: int| (taken + i) as u64)
    &&& v.action matches StreamAction::MakePayload { sequence } ==> sequence == v.committed
    &&& v.action matches StreamAction::Send { payload } ==> payload.raw == v.committed
    &&& v.action matches StreamAction::Read { payload } ==> payload.raw == v.delivered.len()
    &&& v.waiting matches Some(payload) ==> payload.raw == v.committed && (v.action is Receive
        || v.action is Read)
    &&& v.action is Receive ==> c.len() > 0
    &&& v.action is Done ==> c.len() == 0
    &&& if sends {
        v.committed < target_of(v.config)
    } else {
        v.committed == target_of(v.config)
    }
}

/// Over a channel with room that hands back records in the order they were sent,
/// a stream loses nothing, repeats nothing and stays in order at every step,
/// through backpressure and the failure of its source alike. When it is done,
/// all that was to be sent has been delivered.
pub proof fn law_a_fifo_channel_delivers_in_order(
    v: StreamView,
    c: Seq<u64>,
    event: StreamEvent,
    held: Seq<u64>,
)
    requires
        v.config.channel_capacity > 0,
        v.backpressure < u32::MAX,
    ensures
        v.action == next_record(v.config, 0) && v.committed == 0 && v.waiting is None
            && v.delivered.len() == 0 && c.len() == 0 ==> in_step(v, c),
        in_step(v, c) && is_answered(v, c, event, held) ==> advanced(v, event) is Ok && in_step(
            advanced(v, event)->Ok_0,
            held,
        ),
        in_step(v, c) && v.action is Done ==> is_ordered(v.delivered, target_of(v.config)),
{
    if v.delivered.len() == 0 && c.len() == 0 && v.committed == 0 {
        assert(c =~= Seq::new(0, |i: int| (0 + i) as u64));
        assert(v.delivered =~= Seq::new(0, |i: int| i as u64));
    }
    if in_step(v, c) && is_answered(v, c, event, held) {
        if let StreamAction::Read { payload } = v.action {
            let content = event->Read_0->Ok_0;
            bytes::lemma_radix_values();
            bytes::lemma_le_bytes_len(payload.raw as nat, 8);
            bytes::lemma_le_round_trip(payload.raw as nat, 8);
            assert(content@.subrange(0, 8) =~= content@);
        }
        let after = advanced(v, event)->Ok_0;
        let taken = after.delivered.len() + if after.action is Read {
            1int
        } else {
            0
        };
        assert(after.delivered =~= Seq::new(after.delivered.len(), |i: int| i as u64));
        assert(held =~= Seq::new((after.committed - taken) as nat, |i: int| (taken + i) as u64));
    }
}

} // verus!
