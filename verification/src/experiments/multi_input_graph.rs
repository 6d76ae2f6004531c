//! A two-input join over bounded channels.
//!
//! The left source starts at once and the right one late. Messages are received
//! from both channels together or from neither, and full channels hold their
//! sources back. A run says what to do next and is told what came of it.

pub use crate::experiments::multi_input_run::run;
use crate::kernel;
use crate::kernel::{state_text, ProcessState, Ref64, RuntimeError};
use crate::text;
use crate::text::{push_decimal, push_text, truth_text};
use vstd::prelude::*;

verus! {

#[derive(Clone, Copy, Debug, PartialEq, Eq)]
pub struct MultiInputConfig {
    pub records: usize,
    pub capacity: u32,
    pub right_delay: u32,
    pub fail_left_after: Option<usize>,
}

impl Default for MultiInputConfig {
    fn default() -> (config: Self)
        ensures
            config == (MultiInputConfig {
                records: 16,
                capacity: 2,
                right_delay: 4,
                fail_left_after: None,
            }),
    {
        MultiInputConfig { records: 16, capacity: 2, right_delay: 4, fail_left_after: None }
    }
}

/// There is something to join, room for it, and the failure falls among it.
pub open spec fn is_valid(config: MultiInputConfig) -> bool {
    &&& config.records > 0
    &&& config.capacity > 0
    &&& match config.fail_left_after {
        Some(prefix) => prefix <= config.records,
        None => true,
    }
}

/// How many pairs the run comes to.
pub open spec fn expected_of(config: MultiInputConfig) -> usize {
    match config.fail_left_after {
        Some(prefix) => prefix,
        None => config.records,
    }
}

/// Ticks after which a run is given up.
pub open spec fn tick_limit(config: MultiInputConfig) -> int {
    (if config.records * 8 <= usize::MAX {
        config.records * 8
    } else {
        usize::MAX as int
    }) + config.right_delay + 64
}

#[derive(Clone, Copy, Debug, PartialEq, Eq, Structural)]
pub enum JoinAction {
    /// Send a record from the left source.
    SendLeft { record: usize },
    SendRight { record: usize },
    /// Receive from both channels, or from neither.
    Receive,
    /// Read both payloads of a pair.
    Read { left: Ref64, right: Ref64 },
    /// Fault the left source, and close both channels.
    FailLeft,
    Done,
}

#[derive(Debug)]
pub enum JoinEvent {
    Sent(Result<(), RuntimeError>),
    Received(Result<Option<(Ref64, Ref64)>, RuntimeError>),
    Read(Result<(u64, u64), RuntimeError>),
    Failed(Result<(), RuntimeError>),
}

/// A run, as far as it has come.
#[derive(Debug)]
pub struct JoinRun {
    pub config: MultiInputConfig,
    pub action: JoinAction,
    pub tick: u64,
    pub next_left: usize,
    pub next_right: usize,
    pub left_backpressure: u64,
    pub right_backpressure: u64,
    pub joined: Vec<(u64, u64)>,
}

#[verifier::ext_equal]
pub ghost struct JoinView {
    pub config: MultiInputConfig,
    pub action: JoinAction,
    pub tick: u64,
    pub next_left: usize,
    pub next_right: usize,
    pub left_backpressure: u64,
    pub right_backpressure: u64,
    pub joined: Seq<(u64, u64)>,
}

impl View for JoinRun {
    type V = JoinView;

    open spec fn view(&self) -> JoinView {
        JoinView {
            config: self.config,
            action: self.action,
            tick: self.tick,
            next_left: self.next_left,
            next_right: self.next_right,
            left_backpressure: self.left_backpressure,
            right_backpressure: self.right_backpressure,
            joined: self.joined@,
        }
    }
}

/// Whether the left source has a record to send at this tick.
pub open spec fn left_sends(v: JoinView) -> bool {
    v.next_left < expected_of(v.config) && v.tick >= v.next_left
}

pub open spec fn right_sends(v: JoinView) -> bool {
    v.next_right < v.config.records && v.tick >= v.next_right + v.config.right_delay
}

/// What a tick starts with.
pub open spec fn at_tick(v: JoinView) -> JoinAction {
    if v.tick >= tick_limit(v.config) {
        JoinAction::Done
    } else if left_sends(v) {
        JoinAction::SendLeft { record: v.next_left }
    } else {
        behind_left(v)
    }
}

pub open spec fn behind_left(v: JoinView) -> JoinAction {
    if right_sends(v) {
        JoinAction::SendRight { record: v.next_right }
    } else {
        JoinAction::Receive
    }
}

/// What follows when nothing is left to receive in a tick.
pub open spec fn tick_ended(v: JoinView) -> JoinView {
    let limit = expected_of(v.config);
    if v.config.fail_left_after is Some && v.joined.len() == limit {
        JoinView { action: JoinAction::FailLeft, ..v }
    } else if v.config.fail_left_after is None && v.joined.len() == v.config.records {
        JoinView { action: JoinAction::Done, ..v }
    } else {
        let next = JoinView { tick: (v.tick + 1) as u64, ..v };
        JoinView { action: at_tick(next), ..next }
    }
}

/// A run before its first tick.
pub open spec fn started(config: MultiInputConfig) -> JoinView {
    let start = JoinView {
        config,
        action: JoinAction::Done,
        tick: 0,
        next_left: 0,
        next_right: 0,
        left_backpressure: 0,
        right_backpressure: 0,
        joined: Seq::empty(),
    };
    JoinView { action: at_tick(start), ..start }
}

/// The run after an event, or the error that ends it. An event that answers
/// another action than the one asked for changes nothing.
pub open spec fn advanced(v: JoinView, event: JoinEvent) -> Result<JoinView, RuntimeError> {
    match (v.action, event) {
        (JoinAction::SendLeft { .. }, JoinEvent::Sent(reply)) => match reply {
            Ok(_) => {
                let sent = JoinView { next_left: (v.next_left + 1) as usize, ..v };
                Ok(JoinView { action: behind_left(sent), ..sent })
            },
            Err(RuntimeError::MailboxFull) => {
                let held = JoinView { left_backpressure: (v.left_backpressure + 1) as u64, ..v };
                Ok(JoinView { action: behind_left(held), ..held })
            },
            Err(error) => Err(error),
        },
        (JoinAction::SendRight { .. }, JoinEvent::Sent(reply)) => match reply {
            Ok(_) => Ok(
                JoinView {
                    next_right: (v.next_right + 1) as usize,
                    action: JoinAction::Receive,
                    ..v
                },
            ),
            Err(RuntimeError::MailboxFull) => Ok(
                JoinView {
                    right_backpressure: (v.right_backpressure + 1) as u64,
                    action: JoinAction::Receive,
                    ..v
                },
            ),
            Err(error) => Err(error),
        },
        (JoinAction::Receive, JoinEvent::Received(reply)) => match reply {
            Ok(Some((left, right))) => Ok(JoinView { action: JoinAction::Read { left, right }, ..v }),
            Ok(None) => Ok(tick_ended(v)),
            Err(error) => Err(error),
        },
        (JoinAction::Read { .. }, JoinEvent::Read(reply)) => match reply {
            Ok(pair) => Ok(
                JoinView { joined: v.joined.push(pair), action: JoinAction::Receive, ..v },
            ),
            Err(error) => Err(error),
        },
        (JoinAction::FailLeft, JoinEvent::Failed(reply)) => match reply {
            Ok(_) => Ok(JoinView { action: JoinAction::Done, ..v }),
            Err(error) => Err(error),
        },
        _ => Ok(v),
    }
}

/// Pair `i` joins record `i` of both sources.
pub open spec fn is_ordered(joined: Seq<(u64, u64)>) -> bool {
    forall|i: int| 0 <= i < joined.len() ==> #[trigger] joined[i] == (i as u64, i as u64)
}

/// What a run came to.
#[derive(Debug)]
pub struct MultiInputReport {
    pub joined: Vec<(u64, u64)>,
    pub ordered: bool,
    pub left_backpressure: u64,
    pub right_backpressure: u64,
    pub left_state: ProcessState,
    pub right_state: ProcessState,
    pub committed_prefix_preserved: bool,
    /// Whether the kernel's own invariants held behind the run.
    pub legal: bool,
}

impl JoinRun {
    /// The counters stay within the ticks, and what is asked for is there to be
    /// sent.
    pub open spec fn well_formed(&self) -> bool {
        &&& is_valid(self.config)
        &&& tick_limit(self.config) <= usize::MAX
        &&& self.tick <= tick_limit(self.config)
        &&& self.next_left <= expected_of(self.config)
        &&& self.next_right <= self.config.records
        &&& self.left_backpressure <= self.tick + 1
        &&& self.right_backpressure <= self.tick + 1
        &&& self.action is SendLeft ==> self.left_backpressure <= self.tick && left_sends(self@)
            && self.action == (JoinAction::SendLeft { record: self.next_left })
            && self.right_backpressure <= self.tick && self.tick < tick_limit(self.config)
        &&& self.action is SendRight ==> self.right_backpressure <= self.tick && right_sends(self@)
            && self.action == (JoinAction::SendRight { record: self.next_right }) && self.tick
            < tick_limit(self.config)
        &&& (self.action is Receive || self.action is Read) ==> self.tick < tick_limit(self.config)
    }

    /// Starts a run, or refuses a configuration that has nothing to join.
    pub fn new(config: MultiInputConfig) -> (run: Result<Self, RuntimeError>)
        requires
            tick_limit(config) <= usize::MAX,
        ensures
            match run {
                Ok(run) => {
                    &&& is_valid(config)
                    &&& run.well_formed()
                    &&& run@ == started(config)
                },
                Err(error) => !is_valid(config) && error == RuntimeError::InvalidMultiInput,
            },
    {
        let late: bool = match config.fail_left_after {
            Some(prefix) => prefix > config.records,
            None => false,
        };
        if config.records == 0 || config.capacity == 0 || late {
            return Err(RuntimeError::InvalidMultiInput);
        }
        let mut run = JoinRun {
            config,
            action: JoinAction::Done,
            tick: 0,
            next_left: 0,
            next_right: 0,
            left_backpressure: 0,
            right_backpressure: 0,
            joined: Vec::new(),
        };
        assert(run@.joined =~= Seq::<(u64, u64)>::empty());
        run.action = run.tick_action();
        Ok(run)
    }

    fn expected(&self) -> (expected: usize)
        ensures
            expected == expected_of(self.config),
    {
        match self.config.fail_left_after {
            Some(prefix) => prefix,
            None => self.config.records,
        }
    }

    fn limit(&self) -> (limit: u64)
        requires
            tick_limit(self.config) <= usize::MAX,
        ensures
            limit == tick_limit(self.config),
    {
        self.config.records as u64 * 8 + self.config.right_delay as u64 + 64
    }

    fn action_behind_left(&self) -> (action: JoinAction)
        requires
            tick_limit(self.config) <= usize::MAX,
            self.next_right <= self.config.records,
        ensures
            action == behind_left(self@),
    {
        if self.next_right < self.config.records && self.tick >= self.next_right as u64
            + self.config.right_delay as u64 {
            JoinAction::SendRight { record: self.next_right }
        } else {
            JoinAction::Receive
        }
    }

    fn tick_action(&self) -> (action: JoinAction)
        requires
            tick_limit(self.config) <= usize::MAX,
            self.next_right <= self.config.records,
        ensures
            action == at_tick(self@),
    {
        if self.tick >= self.limit() {
            JoinAction::Done
        } else if self.next_left < self.expected() && self.tick >= self.next_left as u64 {
            JoinAction::SendLeft { record: self.next_left }
        } else {
            self.action_behind_left()
        }
    }

    pub fn is_done(&self) -> (done: bool)
        ensures
            done == (self@.action is Done),
    {
        match self.action {
            JoinAction::Done => true,
            _ => false,
        }
    }

    pub fn next(&self) -> (action: JoinAction)
        ensures
            action == self@.action,
    {
        self.action
    }

    /// Takes in what came of the action that was asked for.
    pub fn advance(&mut self, event: JoinEvent) -> (result: Result<(), RuntimeError>)
        requires
            old(self).well_formed(),
        ensures
            match advanced(old(self)@, event) {
                Ok(after) => result is Ok && final(self)@ == after && final(self).well_formed(),
                Err(error) => result == Err::<(), _>(error) && final(self)@ == old(self)@,
            },
    {
        let ghost before = self@;
        match (self.action, event) {
            (JoinAction::SendLeft { .. }, JoinEvent::Sent(reply)) => {
                match reply {
                    Ok(_) => {
                        self.next_left = self.next_left + 1;
                    },
                    Err(RuntimeError::MailboxFull) => {
                        self.left_backpressure = self.left_backpressure + 1;
                    },
                    Err(error) => {
                        return Err(error);
                    },
                }
                self.action = self.action_behind_left();
            },
            (JoinAction::SendRight { .. }, JoinEvent::Sent(reply)) => {
                match reply {
                    Ok(_) => {
                        self.next_right = self.next_right + 1;
                    },
                    Err(RuntimeError::MailboxFull) => {
                        self.right_backpressure = self.right_backpressure + 1;
                    },
                    Err(error) => {
                        return Err(error);
                    },
                }
                self.action = JoinAction::Receive;
            },
            (JoinAction::Receive, JoinEvent::Received(reply)) => {
                match reply {
                    Ok(Some((left, right))) => {
                        self.action = JoinAction::Read { left, right };
                    },
                    Ok(None) => {
                        let done: usize = self.joined.len();
                        if self.config.fail_left_after.is_some() && done == self.expected() {
                            self.action = JoinAction::FailLeft;
                        } else if self.config.fail_left_after.is_none() && done
                            == self.config.records {
                            self.action = JoinAction::Done;
                        } else {
                            self.tick = self.tick + 1;
                            self.action = self.tick_action();
                        }
                    },
                    Err(error) => {
                        return Err(error);
                    },
                }
            },
            (JoinAction::Read { .. }, JoinEvent::Read(reply)) => {
                match reply {
                    Ok(pair) => {
                        self.joined.push(pair);
                        self.action = JoinAction::Receive;
                    },
                    Err(error) => {
                        return Err(error);
                    },
                }
            },
            (JoinAction::FailLeft, JoinEvent::Failed(reply)) => {
                match reply {
                    Ok(_) => {
                        self.action = JoinAction::Done;
                    },
                    Err(error) => {
                        return Err(error);
                    },
                }
            },
            _ => {},
        }
        proof {
            let after = advanced(before, event)->Ok_0;
            assert(self@ =~= after);
        }
        Ok(())
    }

    /// What the run came to, with the states in which it left the sources: a run
    /// that did not join all it should have is an error.
    pub fn into_report(
        self,
        left_state: ProcessState,
        right_state: ProcessState,
        legal: bool,
    ) -> (report: Result<MultiInputReport, RuntimeError>)
        ensures
            match report {
                Ok(report) => {
                    &&& self.joined@.len() == expected_of(self.config)
                    &&& report.joined@ == self.joined@
                    &&& report.ordered == is_ordered(self.joined@)
                    &&& report.left_backpressure == self.left_backpressure
                    &&& report.right_backpressure == self.right_backpressure
                    &&& report.left_state == left_state
                    &&& report.right_state == right_state
                    &&& report.committed_prefix_preserved == is_ordered(self.joined@)
                    &&& report.legal == legal
                },
                Err(error) => self.joined@.len() != expected_of(self.config) && error
                    == RuntimeError::InvalidMultiInput,
            },
    {
        let mut ordered: bool = true;
        let mut i: usize = 0;
        while i < self.joined.len()
            invariant
                i <= self.joined.len(),
                ordered ==> forall|j: int|
                    0 <= j < i ==> #[trigger] self.joined@[j] == (j as u64, j as u64),
                !ordered ==> !is_ordered(self.joined@),
            decreases self.joined.len() - i,
        {
            let (left, right) = self.joined[i];
            if left != i as u64 || right != i as u64 {
                assert(self.joined@[i as int] != (i as u64, i as u64));
                ordered = false;
            }
            i = i + 1;
        }
        if self.joined.len() != self.expected() {
            return Err(RuntimeError::InvalidMultiInput);
        }
        Ok(
            MultiInputReport {
                joined: self.joined,
                ordered,
                left_backpressure: self.left_backpressure,
                right_backpressure: self.right_backpressure,
                left_state,
                right_state,
                committed_prefix_preserved: ordered,
                legal,
            },
        )
    }
}

/// Records leave each source in order and no more of them than it has, and
/// nothing that was joined is taken back.
pub proof fn law_a_join_only_goes_forward(v: JoinView, event: JoinEvent)
    requires
        advanced(v, event) is Ok,
        v.next_left < usize::MAX,
        v.next_right < usize::MAX,
    ensures
        ({
            let after = advanced(v, event)->Ok_0;
            &&& v.next_left <= after.next_left <= v.next_left + 1
            &&& v.next_right <= after.next_right <= v.next_right + 1
            &&& v.joined.len() <= after.joined.len()
            &&& after.joined.take(v.joined.len() as int) == v.joined
        }),
{
    let after = advanced(v, event)->Ok_0;
    assert(after.joined.take(v.joined.len() as int) =~= v.joined);
}

/// What two channels hold, oldest first. A payload is named by its record.
pub ghost struct Channels {
    pub left: Seq<u64>,
    pub right: Seq<u64>,
}

/// What first-in-first-out channels answer to the run's action, and what they
/// hold after it.
pub open spec fn answered(v: JoinView, c: Channels) -> (JoinEvent, Channels) {
    match v.action {
        JoinAction::SendLeft { record } => if c.left.len() < v.config.capacity {
            (JoinEvent::Sent(Ok(())), Channels { left: c.left.push(record as u64), ..c })
        } else {
            (JoinEvent::Sent(Err(RuntimeError::MailboxFull)), c)
        },
        JoinAction::SendRight { record } => if c.right.len() < v.config.capacity {
            (JoinEvent::Sent(Ok(())), Channels { right: c.right.push(record as u64), ..c })
        } else {
            (JoinEvent::Sent(Err(RuntimeError::MailboxFull)), c)
        },
        JoinAction::Receive => if c.left.len() > 0 && c.right.len() > 0 {
            (
                JoinEvent::Received(
                    Ok(Some((Ref64 { raw: c.left[0] }, Ref64 { raw: c.right[0] }))),
                ),
                Channels { left: c.left.drop_first(), right: c.right.drop_first() },
            )
        } else {
            (JoinEvent::Received(Ok(None)), c)
        },
        JoinAction::Read { left, right } => (JoinEvent::Read(Ok((left.raw, right.raw))), c),
        JoinAction::FailLeft => (JoinEvent::Failed(Ok(())), c),
        JoinAction::Done => (JoinEvent::Failed(Ok(())), c),
    }
}

/// The records from `from` up to `to`.
pub open spec fn records_between(from: int, to: int) -> Seq<u64> {
    Seq::new((to - from) as nat, |i: int| (from + i) as u64)
}

/// The pairs joined are in order, and the channels hold, in order, what was sent
/// and not yet taken.
pub open spec fn in_step(v: JoinView, c: Channels) -> bool {
    let taken = v.joined.len() + if v.action is Read {
        1int
    } else {
        0
    };
    &&& is_ordered(v.joined)
    &&& taken <= v.next_left
    &&& taken <= v.next_right
    &&& c.left == records_between(taken, v.next_left as int)
    &&& c.right == records_between(taken, v.next_right as int)
    &&& v.action matches JoinAction::SendLeft { record } ==> record == v.next_left
        && left_sends(v)
    &&& v.action matches JoinAction::SendRight { record } ==> record == v.next_right
        && right_sends(v)
    &&& v.action matches JoinAction::Read { left, right } ==> left.raw == v.joined.len()
        && right.raw == v.joined.len()
}

/// Over channels that hand back records in the order they were sent, a join
/// loses nothing and stays in order at every step, through backpressure and the
/// failure of a source alike.
pub proof fn law_fifo_channels_join_in_order(v: JoinView, c: Channels)
    ensures
        v == started(v.config) && c.left.len() == 0 && c.right.len() == 0 ==> in_step(v, c),
        in_step(v, c) ==> ({
            let (event, held) = answered(v, c);
            &&& advanced(v, event) is Ok
            &&& in_step(advanced(v, event)->Ok_0, held)
        }),
{
    if v == started(v.config) && c.left.len() == 0 && c.right.len() == 0 {
        assert(c.left =~= records_between(0, 0));
        assert(c.right =~= records_between(0, 0));
    }
    if in_step(v, c) {
        let (event, held) = answered(v, c);
        let after = advanced(v, event)->Ok_0;
        let taken = after.joined.len() + if after.action is Read {
            1int
        } else {
            0
        };
        assert(held.left =~= records_between(taken, after.next_left as int));
        assert(held.right =~= records_between(taken, after.next_right as int));
    }
}

/// The pair that a tick owes is joined in it: a tick starts no later than the
/// right source's delay behind the pairs joined so far.
pub open spec fn is_on_time(v: JoinView, c: Channels) -> bool {
    let pairs = v.joined.len() as int;
    let due = v.config.right_delay + pairs;
    let all = expected_of(v.config) as int;
    &&& pairs <= all
    &&& v.next_left <= all
    &&& v.next_right <= v.config.records
    &&& match v.action {
        JoinAction::SendLeft { .. } => v.tick <= due,
        JoinAction::SendRight { .. } => pairs == all || v.tick < due || (v.tick <= due
            && c.left.len() > 0),
        JoinAction::Receive => pairs == all || v.tick < due || (v.tick <= due && c.left.len() > 0
            && c.right.len() > 0),
        JoinAction::Read { .. } => pairs < all && v.tick <= due,
        JoinAction::FailLeft | JoinAction::Done => pairs == all,
    }
}

/// Over channels that hand back records in the order they were sent, a join is
/// never given up: when it is done, it has joined every pair that it should
/// have, in order.
pub proof fn law_a_join_over_fifo_channels_completes(v: JoinView, c: Channels)
    requires
        is_valid(v.config),
        tick_limit(v.config) <= usize::MAX,
    ensures
        v == started(v.config) && c.left.len() == 0 && c.right.len() == 0 ==> is_on_time(v, c),
        in_step(v, c) && is_on_time(v, c) && !(v.action is Done) ==> ({
            let (event, held) = answered(v, c);
            &&& advanced(v, event) is Ok
            &&& is_on_time(advanced(v, event)->Ok_0, held)
        }),
        in_step(v, c) && is_on_time(v, c) && v.action is Done ==> v.joined.len() == expected_of(
            v.config,
        ) && is_ordered(v.joined),
{
    if in_step(v, c) && is_on_time(v, c) {
        law_fifo_channels_join_in_order(v, c);
    }
}

/// A complete run and one whose left source failed, as text.
pub open spec fn report_of(complete: MultiInputReport, failed: MultiInputReport) -> Seq<char> {
    "complete joined="@ + text::decimal(complete.joined@.len()) + " ordered="@ + text::truth(
        complete.ordered,
    ) + " left_backpressure="@ + text::decimal(complete.left_backpressure as nat)
        + " right_backpressure="@ + text::decimal(complete.right_backpressure as nat)
        + "\nfailed   joined="@ + text::decimal(failed.joined@.len()) + " prefix_preserved="@
        + text::truth(failed.committed_prefix_preserved) + " left="@ + kernel::state_name(
        failed.left_state,
    ) + " right="@ + kernel::state_name(failed.right_state) + "\n"@
}

pub fn report(complete: &MultiInputReport, failed: &MultiInputReport) -> (out: String)
    ensures
        out@ == report_of(*complete, *failed),
{
    let mut out: String = String::new();
    push_text(&mut out, "complete joined=");
    push_decimal(&mut out, complete.joined.len() as u64);
    push_text(&mut out, " ordered=");
    push_text(&mut out, truth_text(complete.ordered));
    push_text(&mut out, " left_backpressure=");
    push_decimal(&mut out, complete.left_backpressure);
    push_text(&mut out, " right_backpressure=");
    push_decimal(&mut out, complete.right_backpressure);
    push_text(&mut out, "\nfailed   joined=");
    push_decimal(&mut out, failed.joined.len() as u64);
    push_text(&mut out, " prefix_preserved=");
    push_text(&mut out, truth_text(failed.committed_prefix_preserved));
    push_text(&mut out, " left=");
    push_text(&mut out, state_text(failed.left_state));
    push_text(&mut out, " right=");
    push_text(&mut out, state_text(failed.right_state));
    push_text(&mut out, "\n");
    assert(out@ =~= report_of(*complete, *failed));
    out
}

} // verus!
