//! The resident synchronization state machine, as a function of the plan.
//!
//! A run is a sequence of epochs. In an epoch the admitted continuations are
//! evaluated in lane order, each on its private frame; then their effects are
//! settled in the same order on the shared tables. Continuations are named by
//! their position in increasing order of id.

use crate::bytes;
use crate::device::{
    DeviceLaneAccess, DeviceLaneOperation, JournalView, DEVICE_ACCESS_READ, DEVICE_ACCESS_WRITE,
    OP_AWAIT_FUTURE, OP_ENQUEUE_MESSAGE, OP_OBSERVE_FUTURE, OP_READ_OBJECT, OP_RECEIVE_MESSAGE,
    OP_RESOLVE_FUTURE, OP_WRITE_OBJECT,
};
use crate::executives::resident_program;
use crate::executives::resident_program::{ResidentDisposition, ResidentEffect, ResidentOutcome};
use crate::executives::resident_types::{
    ConfigView, ContinuationView, InitialFuture, ObjectView, ProgramView, ResidentCapability,
    ResidentEffectRecord, ResidentEpochRecord, ResidentFinalContinuation,
    ResidentInvocationRecord, ResidentObjectCapability, ResidentSyncTrace, ResidentWakeRecord,
    ResultView, MAX_RESIDENT_OBJECTS, MAX_RESIDENT_OBJECT_ARENA_BYTES,
    MAX_RESIDENT_OBJECT_CAPABILITIES, RESOURCE_FUTURE, RESOURCE_MAILBOX, RESOURCE_OBJECT,
    RIGHT_READ, RIGHT_WRITE,
};
use vstd::prelude::*;

verus! {

/// A continuation during a run.
#[verifier::ext_equal]
pub struct ContView {
    pub id: u64,
    pub actor: u64,
    pub run_class: u32,
    pub mutable_access: bool,
    pub waiting_since: u32,
    pub frame: Seq<u8>,
    pub previous: Seq<ResidentOutcome>,
    pub runnable: bool,
    pub completed: bool,
    pub pending: Option<ResidentEffect>,
    pub waiter_order: u32,
}

/// A single-assignment cell and the continuations parked on it.
#[verifier::ext_equal]
pub struct FutureView {
    pub value: Option<u64>,
    pub waiters: Seq<usize>,
}

/// A bounded FIFO mailbox and the continuations parked on it.
#[verifier::ext_equal]
pub struct MailView {
    pub capacity: u32,
    pub queue: Seq<(u64, u64)>,
    pub receivers: Seq<usize>,
    pub senders: Seq<usize>,
}

/// The tables of a run and the records that it has left so far.
#[verifier::ext_equal]
pub struct SyncView {
    pub conts: Seq<ContView>,
    pub objects: Seq<Seq<u8>>,
    pub futures: Seq<FutureView>,
    pub mails: Seq<MailView>,
    pub tickets: u32,
    pub effects: Seq<ResidentEffectRecord>,
    pub accesses: Seq<DeviceLaneAccess>,
    pub operations: Seq<JournalView>,
    pub trace: Seq<ResidentSyncTrace>,
    pub completed: Seq<u64>,
    pub invocations: Seq<ResidentInvocationRecord>,
    pub wakes: Seq<ResidentWakeRecord>,
    pub epoch_records: Seq<ResidentEpochRecord>,
}

/// The lane of an epoch in which the continuation at position `at` runs.
#[derive(Clone, Copy)]
pub struct Slot {
    pub epoch: u32,
    pub lane: u32,
    pub at: usize,
}

/// What a lane emitted in the evaluation of an epoch.
#[verifier::ext_equal]
pub struct EmissionView {
    pub at: usize,
    pub effects: Seq<ResidentEffect>,
    pub disposition: ResidentDisposition,
}

/// The tables, the lane's journal and whether the lane has parked, while the
/// effects of one lane are settled.
#[verifier::ext_equal]
pub struct LaneView {
    pub state: SyncView,
    pub journal: JournalView,
    pub parked: bool,
}

pub open spec fn effect_opcode(e: ResidentEffect) -> u32 {
    match e {
        ResidentEffect::ObjectRead { .. } => OP_READ_OBJECT,
        ResidentEffect::ObjectWrite { .. } => OP_WRITE_OBJECT,
        ResidentEffect::FutureObserve { .. } => OP_OBSERVE_FUTURE,
        ResidentEffect::FutureAwait { .. } => OP_AWAIT_FUTURE,
        ResidentEffect::FutureResolve { .. } => OP_RESOLVE_FUTURE,
        ResidentEffect::MailboxSend { .. } => OP_ENQUEUE_MESSAGE,
        ResidentEffect::MailboxReceive { .. } => OP_RECEIVE_MESSAGE,
    }
}

pub open spec fn effect_target(e: ResidentEffect) -> u32 {
    match e {
        ResidentEffect::ObjectRead { target, .. } => target,
        ResidentEffect::ObjectWrite { target, .. } => target,
        ResidentEffect::FutureObserve { target } => target,
        ResidentEffect::FutureAwait { target } => target,
        ResidentEffect::FutureResolve { target, .. } => target,
        ResidentEffect::MailboxSend { target, .. } => target,
        ResidentEffect::MailboxReceive { target } => target,
    }
}

pub open spec fn effect_resource(e: ResidentEffect) -> u32 {
    match e {
        ResidentEffect::ObjectRead { .. } => RESOURCE_OBJECT,
        ResidentEffect::ObjectWrite { .. } => RESOURCE_OBJECT,
        ResidentEffect::FutureObserve { .. } => RESOURCE_FUTURE,
        ResidentEffect::FutureAwait { .. } => RESOURCE_FUTURE,
        ResidentEffect::FutureResolve { .. } => RESOURCE_FUTURE,
        ResidentEffect::MailboxSend { .. } => RESOURCE_MAILBOX,
        ResidentEffect::MailboxReceive { .. } => RESOURCE_MAILBOX,
    }
}

pub open spec fn effect_right(e: ResidentEffect) -> u32 {
    match e {
        ResidentEffect::ObjectRead { .. } => RIGHT_READ,
        ResidentEffect::ObjectWrite { .. } => RIGHT_WRITE,
        ResidentEffect::FutureObserve { .. } => RIGHT_READ,
        ResidentEffect::FutureAwait { .. } => RIGHT_READ,
        ResidentEffect::FutureResolve { .. } => RIGHT_WRITE,
        ResidentEffect::MailboxSend { .. } => RIGHT_WRITE,
        ResidentEffect::MailboxReceive { .. } => RIGHT_READ,
    }
}

/// The result code of an outcome in the operation journal.
pub open spec fn result_code(o: ResidentOutcome) -> u32 {
    match o {
        ResidentOutcome::ObjectRead(_) => 2,
        ResidentOutcome::ObjectWritten => 0,
        ResidentOutcome::Resolved(_) => 2,
        ResidentOutcome::Pending => 1,
        ResidentOutcome::Registered => 3,
        ResidentOutcome::Sent => 0,
        ResidentOutcome::Received { .. } => 2,
        ResidentOutcome::CapabilityDenied => 0x104,
        ResidentOutcome::InvalidTarget => 0x101,
        ResidentOutcome::Full => 0x10c,
        ResidentOutcome::Empty => 1,
        ResidentOutcome::DoubleResolve => 0x111,
    }
}

/// The 32-bit FNV-1a hash.
pub open spec fn fnv(s: Seq<u8>) -> u32
    decreases s.len(),
{
    if s.len() == 0 {
        2_166_136_261
    } else {
        (((fnv(s.drop_last()) ^ (s.last() as u32)) * 16_777_619) % 0x1_0000_0000) as u32
    }
}

/// Whether an outcome leaves the continuation parked.
pub open spec fn parks(o: ResidentOutcome) -> bool {
    o is Registered || o is Full || o is Empty
}

/// Whether `actor` may perform `e` on its target in the absolute epoch `epoch`.
pub open spec fn authorized(c: ConfigView, actor: u64, e: ResidentEffect, epoch: u32) -> bool {
    match e {
        ResidentEffect::ObjectRead { target, offset } => range_authorized(
            c,
            actor,
            target,
            offset,
            RIGHT_READ,
            epoch,
        ),
        ResidentEffect::ObjectWrite { target, offset, .. } => range_authorized(
            c,
            actor,
            target,
            offset,
            RIGHT_WRITE,
            epoch,
        ),
        _ => exists|k: int|
            0 <= k < c.capabilities.len() && capability_grants(
                #[trigger] c.capabilities[k],
                actor,
                effect_resource(e),
                effect_target(e),
                effect_right(e),
            ),
    }
}

pub open spec fn capability_grants(
    cap: ResidentCapability,
    actor: u64,
    kind: u32,
    target: u32,
    right: u32,
) -> bool {
    cap.actor == actor && cap.resource_kind == kind && cap.target == target && (cap.rights & right)
        != 0
}

pub open spec fn range_authorized(
    c: ConfigView,
    actor: u64,
    target: u32,
    offset: u32,
    right: u32,
    epoch: u32,
) -> bool {
    target < c.objects.len() && exists|k: int|
        0 <= k < c.object_capabilities.len() && range_capability_grants(
            #[trigger] c.object_capabilities[k],
            actor,
            target,
            offset,
            right,
            epoch,
            c.objects[target as int].version,
        )
}

pub open spec fn range_capability_grants(
    cap: ResidentObjectCapability,
    actor: u64,
    target: u32,
    offset: u32,
    right: u32,
    epoch: u32,
    version: u32,
) -> bool {
    cap.actor == actor && cap.target == target && (cap.rights & right) != 0 && cap.object_version
        == version && cap.valid_until_epoch >= epoch && offset >= cap.offset && offset + 8
        <= cap.offset + cap.length
}

/// `s` with the continuation at `at` parked on `e`, under a fresh ticket.
pub open spec fn parked_on(s: SyncView, at: usize, e: ResidentEffect) -> SyncView {
    let ticket: u32 = if s.tickets == u32::MAX {
        u32::MAX
    } else {
        (s.tickets + 1) as u32
    };
    let cont = s.conts[at as int];
    SyncView {
        tickets: ticket,
        conts: s.conts.update(
            at as int,
            ContView { pending: Some(e), waiter_order: ticket, ..cont },
        ),
        ..s
    }
}

/// A waiting list with `at` on it, at its end if it was not on it yet.
pub open spec fn registered(waiters: Seq<usize>, at: usize) -> Seq<usize> {
    if waiters.contains(at) {
        waiters
    } else {
        waiters.push(at)
    }
}

/// `s` with the continuation at `who` runnable, and the wake on record.
pub open spec fn woken(
    s: SyncView,
    slot: Slot,
    ordinal: u32,
    cause_opcode: u32,
    target: u32,
    who: usize,
) -> SyncView {
    let cont = s.conts[who as int];
    SyncView {
        wakes: s.wakes.push(
            ResidentWakeRecord {
                epoch: slot.epoch,
                lane: slot.lane,
                cause_opcode,
                target,
                cause_continuation: s.conts[slot.at as int].id,
                continuation: cont.id,
                run_class: cont.run_class,
                ticket: cont.waiter_order,
                ordinal,
                reserved: 0,
            },
        ),
        conts: s.conts.update(who as int, ContView { runnable: true, ..cont }),
        ..s
    }
}

/// `s` with the first `n` of `waiters` woken in order, each given `value`.
pub open spec fn delivered(
    s: SyncView,
    slot: Slot,
    ordinal: u32,
    target: u32,
    value: u64,
    waiters: Seq<usize>,
    n: int,
) -> SyncView
    decreases n,
{
    if n <= 0 {
        s
    } else {
        let prior = delivered(s, slot, ordinal, target, value, waiters, n - 1);
        let who = waiters[n - 1];
        let t = woken(prior, slot, ordinal, OP_RESOLVE_FUTURE, target, who);
        let cont = t.conts[who as int];
        SyncView {
            conts: t.conts.update(
                who as int,
                ContView {
                    pending: None,
                    previous: cont.previous.push(ResidentOutcome::Resolved(value)),
                    ..cont
                },
            ),
            ..t
        }
    }
}

/// The tables after the effect `e` of `slot`, and its outcome.
pub open spec fn performed(
    c: ConfigView,
    s: SyncView,
    slot: Slot,
    ordinal: u32,
    e: ResidentEffect,
) -> (SyncView, ResidentOutcome) {
    let actor = s.conts[slot.at as int].actor;
    if !authorized(c, actor, e, (c.initial_epoch + slot.epoch) as u32) {
        (s, ResidentOutcome::CapabilityDenied)
    } else {
        match e {
            ResidentEffect::ObjectRead { target, offset } => {
                if target < s.objects.len() && offset + 8 <= s.objects[target as int].len() {
                    let word = bytes::word_at(s.objects[target as int], offset as int, 8);
                    (s, ResidentOutcome::ObjectRead(word as u64))
                } else {
                    (s, ResidentOutcome::InvalidTarget)
                }
            },
            ResidentEffect::ObjectWrite { target, offset, value } => {
                if target < s.objects.len() && offset + 8 <= s.objects[target as int].len() {
                    let object = bytes::spliced(
                        s.objects[target as int],
                        offset as int,
                        bytes::le_bytes(value as nat, 8),
                    );
                    (
                        SyncView { objects: s.objects.update(target as int, object), ..s },
                        ResidentOutcome::ObjectWritten,
                    )
                } else {
                    (s, ResidentOutcome::InvalidTarget)
                }
            },
            ResidentEffect::FutureObserve { target } => {
                if target < s.futures.len() {
                    match s.futures[target as int].value {
                        Some(value) => (s, ResidentOutcome::Resolved(value)),
                        None => (s, ResidentOutcome::Pending),
                    }
                } else {
                    (s, ResidentOutcome::InvalidTarget)
                }
            },
            ResidentEffect::FutureAwait { target } => {
                if target < s.futures.len() {
                    let cell = s.futures[target as int];
                    match cell.value {
                        Some(value) => (s, ResidentOutcome::Resolved(value)),
                        None => {
                            let t = SyncView {
                                futures: s.futures.update(
                                    target as int,
                                    FutureView {
                                        waiters: registered(cell.waiters, slot.at),
                                        ..cell
                                    },
                                ),
                                ..s
                            };
                            (parked_on(t, slot.at, e), ResidentOutcome::Registered)
                        },
                    }
                } else {
                    (s, ResidentOutcome::InvalidTarget)
                }
            },
            ResidentEffect::FutureResolve { target, value } => {
                if target < s.futures.len() {
                    let cell = s.futures[target as int];
                    if cell.value is Some {
                        (s, ResidentOutcome::DoubleResolve)
                    } else {
                        let t = SyncView {
                            futures: s.futures.update(
                                target as int,
                                FutureView { value: Some(value), waiters: Seq::empty() },
                            ),
                            ..s
                        };
                        (
                            delivered(
                                t,
                                slot,
                                ordinal,
                                target,
                                value,
                                cell.waiters,
                                cell.waiters.len() as int,
                            ),
                            ResidentOutcome::Resolved(value),
                        )
                    }
                } else {
                    (s, ResidentOutcome::InvalidTarget)
                }
            },
            ResidentEffect::MailboxSend { target, value } => {
                if target < s.mails.len() {
                    let mail = s.mails[target as int];
                    if mail.queue.len() >= mail.capacity {
                        let t = SyncView {
                            mails: s.mails.update(
                                target as int,
                                MailView { senders: registered(mail.senders, slot.at), ..mail },
                            ),
                            ..s
                        };
                        (parked_on(t, slot.at, e), ResidentOutcome::Full)
                    } else if mail.receivers.len() == 0 {
                        let t = SyncView {
                            mails: s.mails.update(
                                target as int,
                                MailView { queue: mail.queue.push((actor, value)), ..mail },
                            ),
                            ..s
                        };
                        (t, ResidentOutcome::Sent)
                    } else {
                        let t = SyncView {
                            mails: s.mails.update(
                                target as int,
                                MailView {
                                    queue: mail.queue.push((actor, value)),
                                    receivers: mail.receivers.skip(1),
                                    ..mail
                                },
                            ),
                            ..s
                        };
                        (
                            woken(t, slot, ordinal, OP_ENQUEUE_MESSAGE, target, mail.receivers[0]),
                            ResidentOutcome::Sent,
                        )
                    }
                } else {
                    (s, ResidentOutcome::InvalidTarget)
                }
            },
            ResidentEffect::MailboxReceive { target } => {
                if target < s.mails.len() {
                    let mail = s.mails[target as int];
                    if mail.queue.len() == 0 {
                        let t = SyncView {
                            mails: s.mails.update(
                                target as int,
                                MailView {
                                    receivers: registered(mail.receivers, slot.at),
                                    ..mail
                                },
                            ),
                            ..s
                        };
                        (parked_on(t, slot.at, e), ResidentOutcome::Empty)
                    } else {
                        let (sender, value) = mail.queue[0];
                        let outcome = ResidentOutcome::Received { value, sender };
                        if mail.senders.len() == 0 {
                            let t = SyncView {
                                mails: s.mails.update(
                                    target as int,
                                    MailView { queue: mail.queue.skip(1), ..mail },
                                ),
                                ..s
                            };
                            (t, outcome)
                        } else {
                            let t = SyncView {
                                mails: s.mails.update(
                                    target as int,
                                    MailView {
                                        queue: mail.queue.skip(1),
                                        senders: mail.senders.skip(1),
                                        ..mail
                                    },
                                ),
                                ..s
                            };
                            (
                                woken(
                                    t,
                                    slot,
                                    ordinal,
                                    OP_RECEIVE_MESSAGE,
                                    target,
                                    mail.senders[0],
                                ),
                                outcome,
                            )
                        }
                    }
                } else {
                    (s, ResidentOutcome::InvalidTarget)
                }
            },
        }
    }
}

/// Whether every waiting list names continuations of the run.
pub open spec fn waiters_exist(s: SyncView) -> bool {
    &&& forall|f: int, w: int|
        0 <= f < s.futures.len() && 0 <= w < s.futures[f].waiters.len()
            ==> #[trigger] s.futures[f].waiters[w] < s.conts.len()
    &&& forall|m: int, w: int|
        0 <= m < s.mails.len() && 0 <= w < s.mails[m].receivers.len()
            ==> #[trigger] s.mails[m].receivers[w] < s.conts.len()
    &&& forall|m: int, w: int|
        0 <= m < s.mails.len() && 0 <= w < s.mails[m].senders.len()
            ==> #[trigger] s.mails[m].senders[w] < s.conts.len()
}

/// The access record of an effect.
pub open spec fn access_of(slot: Slot, ordinal: u32, e: ResidentEffect) -> DeviceLaneAccess {
    DeviceLaneAccess {
        resource: effect_target(e) as u64,
        lane: slot.lane,
        resource_kind: effect_resource(e),
        mode: if e is FutureObserve || e is ObjectRead {
            DEVICE_ACCESS_READ
        } else {
            DEVICE_ACCESS_WRITE
        },
        ordinal,
    }
}

/// The value that an effect carries to its target.
pub open spec fn effect_value(e: ResidentEffect) -> u64 {
    match e {
        ResidentEffect::ObjectWrite { value, .. } => value,
        ResidentEffect::FutureResolve { value, .. } => value,
        ResidentEffect::MailboxSend { value, .. } => value,
        _ => 0,
    }
}

/// The byte offset that an effect names.
pub open spec fn effect_offset(e: ResidentEffect) -> u64 {
    match e {
        ResidentEffect::ObjectWrite { offset, .. } => offset as u64,
        ResidentEffect::ObjectRead { offset, .. } => offset as u64,
        _ => 0,
    }
}

/// The payload bytes of an effect: the word that was read or written.
pub open spec fn effect_payload(e: ResidentEffect, o: ResidentOutcome) -> Seq<u8> {
    match o {
        ResidentOutcome::ObjectRead(value) => bytes::le_bytes(value as nat, 8),
        ResidentOutcome::ObjectWritten => bytes::le_bytes(effect_value(e) as nat, 8),
        _ => Seq::empty(),
    }
}

/// The journal with the operation of one more effect.
pub open spec fn journalled(
    j: JournalView,
    actor: u64,
    slot: Slot,
    ordinal: u32,
    e: ResidentEffect,
    o: ResidentOutcome,
) -> JournalView {
    let payload = effect_payload(e, o);
    JournalView {
        operations: j.operations.push(
            DeviceLaneOperation {
                lane: slot.lane,
                ordinal,
                opcode: effect_opcode(e),
                flags: 0,
                actor,
                target: effect_target(e) as u64,
                value: effect_value(e),
                auxiliary: effect_offset(e),
                result_ref: match resident_program::carried(o) {
                    Some(value) => value,
                    None => 0,
                },
                payload_offset: j.payload.len() as u32,
                payload_len: payload.len() as u32,
                result_code: result_code(o),
                result_aux: 0,
            },
        ),
        payload: j.payload + payload,
    }
}

/// `s` with the effect `e` of `slot` and its outcome on record, and the
/// outcome handed to the continuation unless it parked.
pub open spec fn noted(
    s: SyncView,
    slot: Slot,
    ordinal: u32,
    e: ResidentEffect,
    o: ResidentOutcome,
) -> SyncView {
    let cont = s.conts[slot.at as int];
    SyncView {
        accesses: s.accesses.push(access_of(slot, ordinal, e)),
        effects: s.effects.push(
            ResidentEffectRecord {
                epoch: slot.epoch,
                lane: slot.lane,
                ordinal,
                continuation: cont.id,
                effect: e,
                outcome: o,
            },
        ),
        trace: s.trace.push(
            ResidentSyncTrace {
                epoch: slot.epoch,
                lane: slot.lane,
                continuation: cont.id,
                run_class: cont.run_class,
                event: effect_opcode(e),
                word: result_code(o),
            },
        ),
        conts: if parks(o) {
            s.conts
        } else {
            s.conts.update(
                slot.at as int,
                ContView { previous: cont.previous.push(o), ..cont },
            )
        },
        ..s
    }
}

/// The lane `slot` after the first `n` of its effects.
pub open spec fn settled(
    c: ConfigView,
    s: SyncView,
    slot: Slot,
    effects: Seq<ResidentEffect>,
    n: int,
) -> LaneView
    decreases n,
{
    if n <= 0 {
        LaneView {
            state: s,
            journal: JournalView { operations: Seq::empty(), payload: Seq::empty() },
            parked: false,
        }
    } else {
        let prior = settled(c, s, slot, effects, n - 1);
        let e = effects[n - 1];
        let ordinal = (n - 1) as u32;
        let actor = prior.state.conts[slot.at as int].actor;
        let (t, o) = performed(c, prior.state, slot, ordinal, e);
        LaneView {
            state: noted(t, slot, ordinal, e, o),
            journal: journalled(prior.journal, actor, slot, ordinal, e, o),
            parked: prior.parked || parks(o),
        }
    }
}

/// The tables after the lane `lane` of an epoch has been settled. The
/// invocation records of the epoch start at `first`.
pub open spec fn lane_settled(
    c: ConfigView,
    s: SyncView,
    epoch: u32,
    lane: int,
    first: int,
    emission: EmissionView,
) -> SyncView {
    let slot = Slot { epoch, lane: lane as u32, at: emission.at };
    let after = settled(c, s, slot, emission.effects, emission.effects.len() as int);
    let t = SyncView {
        operations: after.state.operations.push(after.journal),
        ..after.state
    };
    let cont = t.conts[emission.at as int];
    if after.parked {
        SyncView {
            invocations: t.invocations.update(
                first + lane,
                ResidentInvocationRecord {
                    disposition: 3,
                    next_run_class: cont.run_class,
                    ..t.invocations[first + lane]
                },
            ),
            ..t
        }
    } else {
        match emission.disposition {
            ResidentDisposition::Yield(run_class) => SyncView {
                conts: t.conts.update(
                    emission.at as int,
                    ContView { run_class, runnable: true, ..cont },
                ),
                ..t
            },
            ResidentDisposition::Complete => SyncView {
                conts: t.conts.update(emission.at as int, ContView { completed: true, ..cont }),
                completed: t.completed.push(cont.id),
                ..t
            },
        }
    }
}

/// The tables after the first `n` lanes of an epoch have been settled.
pub open spec fn lanes_settled(
    c: ConfigView,
    s: SyncView,
    epoch: u32,
    first: int,
    emissions: Seq<EmissionView>,
    n: int,
) -> SyncView
    decreases n,
{
    if n <= 0 {
        s
    } else {
        lane_settled(
            c,
            lanes_settled(c, s, epoch, first, emissions, n - 1),
            epoch,
            n - 1,
            first,
            emissions[n - 1],
        )
    }
}

/// What the continuation at `at` emits, and what that leaves of it, or `None`
/// where its handler is missing or fails.
pub open spec fn evaluated_cont(
    c: ConfigView,
    handlers: Map<u32, ProgramView>,
    cont: ContView,
    at: usize,
    epoch: u32,
) -> Option<(ContView, EmissionView)> {
    let waiting_since = (c.initial_epoch + epoch) as u32;
    match cont.pending {
        Some(retry) => Some(
            (
                ContView { runnable: false, waiting_since, pending: None, ..cont },
                EmissionView {
                    at,
                    effects: seq![retry],
                    disposition: ResidentDisposition::Yield(cont.run_class),
                },
            ),
        ),
        None => {
            if !handlers.contains_key(cont.run_class) {
                None
            } else {
                match resident_program::program_step(
                    handlers[cont.run_class].instructions,
                    cont.frame,
                    cont.previous,
                    c.max_effects_per_step as int,
                    c.max_frame_bytes as int,
                ) {
                    None => None,
                    Some(out) => Some(
                        (
                            ContView {
                                runnable: false,
                                waiting_since,
                                frame: out.frame,
                                previous: Seq::empty(),
                                ..cont
                            },
                            EmissionView {
                                at,
                                effects: out.effects,
                                disposition: out.disposition,
                            },
                        ),
                    ),
                }
            }
        },
    }
}

/// The disposition code of an invocation record, before any parking.
pub open spec fn disposition_code(d: ResidentDisposition) -> u32 {
    match d {
        ResidentDisposition::Yield(_) => 1,
        ResidentDisposition::Complete => 2,
    }
}

/// The run class that a disposition asks for, or zero.
pub open spec fn disposition_class(d: ResidentDisposition) -> u32 {
    match d {
        ResidentDisposition::Yield(run_class) => run_class,
        ResidentDisposition::Complete => 0,
    }
}

/// The tables after the lane `lane` of an epoch has been evaluated, and what
/// it emitted.
pub open spec fn lane_evaluated(
    c: ConfigView,
    handlers: Map<u32, ProgramView>,
    s: SyncView,
    epoch: u32,
    lane: int,
    at: usize,
) -> Option<(SyncView, EmissionView)> {
    match evaluated_cont(c, handlers, s.conts[at as int], at, epoch) {
        None => None,
        Some((cont, emission)) => Some(
            (
                SyncView {
                    conts: s.conts.update(at as int, cont),
                    trace: s.trace.push(
                        ResidentSyncTrace {
                            epoch,
                            lane: lane as u32,
                            continuation: cont.id,
                            run_class: cont.run_class,
                            event: 0,
                            word: fnv(cont.frame),
                        },
                    ),
                    invocations: s.invocations.push(
                        ResidentInvocationRecord {
                            epoch,
                            lane: lane as u32,
                            continuation: cont.id,
                            run_class: cont.run_class,
                            disposition: disposition_code(emission.disposition),
                            next_run_class: disposition_class(emission.disposition),
                        },
                    ),
                    ..s
                },
                emission,
            ),
        ),
    }
}

/// The tables after the first `n` of `lanes` have been evaluated, and what
/// they emitted.
pub open spec fn lanes_evaluated(
    c: ConfigView,
    handlers: Map<u32, ProgramView>,
    s: SyncView,
    epoch: u32,
    lanes: Seq<usize>,
    n: int,
) -> Option<(SyncView, Seq<EmissionView>)>
    decreases n,
{
    if n <= 0 {
        Some((s, Seq::empty()))
    } else {
        match lanes_evaluated(c, handlers, s, epoch, lanes, n - 1) {
            None => None,
            Some((t, emissions)) => match lane_evaluated(
                c,
                handlers,
                t,
                epoch,
                n - 1,
                lanes[n - 1],
            ) {
                None => None,
                Some((u, emission)) => Some((u, emissions.push(emission))),
            },
        }
    }
}

/// Whether a continuation asks for a lane.
pub open spec fn eligible(cont: ContView) -> bool {
    cont.runnable && !cont.completed
}

/// Whether the claim of the continuation at `i` on its actor is at least as
/// old as that of the one at `j`.
pub open spec fn claim_at_least_as_old(conts: Seq<ContView>, i: int, j: int) -> bool {
    conts[i].waiting_since < conts[j].waiting_since || (conts[i].waiting_since
        == conts[j].waiting_since && i <= j)
}

/// Whether the continuation at `i` gets a lane: it asks for one and, if it
/// claims its actor, no older claim on the actor asks too.
pub open spec fn admitted(conts: Seq<ContView>, i: int) -> bool {
    &&& 0 <= i < conts.len()
    &&& eligible(conts[i])
    &&& conts[i].mutable_access ==> forall|j: int|
        0 <= j < conts.len() && eligible(#[trigger] conts[j]) && conts[j].mutable_access
            && conts[j].actor == conts[i].actor ==> claim_at_least_as_old(conts, i, j)
}

/// Lanes run in increasing order of run class and, within it, of id.
pub open spec fn lane_order(conts: Seq<ContView>) -> spec_fn(usize, usize) -> bool {
    |a: usize, b: usize|
        conts[a as int].run_class < conts[b as int].run_class || (conts[a as int].run_class
            == conts[b as int].run_class && a <= b)
}

/// The positions that get a lane, in increasing order.
pub open spec fn admitted_positions(conts: Seq<ContView>, n: int) -> Seq<usize>
    decreases n,
{
    if n <= 0 {
        Seq::empty()
    } else if admitted(conts, n - 1) {
        admitted_positions(conts, n - 1).push((n - 1) as usize)
    } else {
        admitted_positions(conts, n - 1)
    }
}

/// The positions that get a lane, in lane order.
pub open spec fn lanes_of(conts: Seq<ContView>) -> Seq<usize> {
    admitted_positions(conts, conts.len() as int).sort_by(lane_order(conts))
}

/// How many of the first `n` continuations ask for a lane.
pub open spec fn eligible_count(conts: Seq<ContView>, n: int) -> nat
    decreases n,
{
    if n <= 0 {
        0
    } else {
        eligible_count(conts, n - 1) + if eligible(conts[n - 1]) {
            1nat
        } else {
            0
        }
    }
}

/// How many of the first `n` continuations have completed.
pub open spec fn completed_count(conts: Seq<ContView>, n: int) -> nat
    decreases n,
{
    if n <= 0 {
        0
    } else {
        completed_count(conts, n - 1) + if conts[n - 1].completed {
            1nat
        } else {
            0
        }
    }
}

/// The tables after one epoch, or `None` where a handler is missing or fails.
pub open spec fn after_epoch(
    c: ConfigView,
    handlers: Map<u32, ProgramView>,
    s: SyncView,
    epoch: u32,
) -> Option<SyncView> {
    let lanes = lanes_of(s.conts);
    match lanes_evaluated(c, handlers, s, epoch, lanes, lanes.len() as int) {
        None => None,
        Some((t, emissions)) => {
            let u = lanes_settled(
                c,
                t,
                epoch,
                s.invocations.len() as int,
                emissions,
                emissions.len() as int,
            );
            Some(
                SyncView {
                    epoch_records: u.epoch_records.push(
                        ResidentEpochRecord {
                            epoch,
                            invocations: lanes.len() as u32,
                            runnable_after: eligible_count(u.conts, u.conts.len() as int) as u32,
                            completed_after: completed_count(u.conts, u.conts.len() as int) as u32,
                        },
                    ),
                    ..u
                },
            )
        },
    }
}

/// The tables when the run stops: after the last epoch, or when nothing asks
/// for a lane.
pub open spec fn after_epochs(
    c: ConfigView,
    handlers: Map<u32, ProgramView>,
    s: SyncView,
    epoch: int,
) -> Option<SyncView>
    decreases c.max_epochs - epoch,
{
    if epoch >= c.max_epochs || lanes_of(s.conts).len() == 0 {
        Some(s)
    } else {
        match after_epoch(c, handlers, s, epoch as u32) {
            None => None,
            Some(t) => after_epochs(c, handlers, t, epoch + 1),
        }
    }
}

/// The number of bytes that the first `n` objects hold.
pub open spec fn object_bytes(objects: Seq<ObjectView>, n: int) -> nat
    decreases n,
{
    if n <= 0 {
        0
    } else {
        object_bytes(objects, n - 1) + objects[n - 1].bytes.len()
    }
}

/// Whether the objects and their capabilities respect the plan bounds.
pub open spec fn storage_is_bounded(c: ConfigView) -> bool {
    &&& c.objects.len() <= MAX_RESIDENT_OBJECTS
    &&& c.object_capabilities.len() <= MAX_RESIDENT_OBJECT_CAPABILITIES
    &&& object_bytes(c.objects, c.objects.len() as int) <= MAX_RESIDENT_OBJECT_ARENA_BYTES
    &&& c.objects.len() * c.max_frame_bytes <= MAX_RESIDENT_OBJECT_ARENA_BYTES
}

/// Whether an object capability names a range of the object that it is for.
pub open spec fn object_capability_is_valid(
    c: ConfigView,
    cap: ResidentObjectCapability,
) -> bool {
    &&& cap.target < c.objects.len()
    &&& cap.object_version == c.objects[cap.target as int].version
    &&& cap.offset + cap.length <= c.objects[cap.target as int].bytes.len()
}

pub open spec fn ids_are_distinct(conts: Seq<ContinuationView>) -> bool {
    forall|i: int, j: int|
        0 <= i < conts.len() && 0 <= j < conts.len() && #[trigger] conts[i].id
            == #[trigger] conts[j].id ==> i == j
}

/// Whether a plan is accepted.
pub open spec fn plan_is_valid(
    c: ConfigView,
    conts: Seq<ContinuationView>,
    handlers: Map<u32, ProgramView>,
) -> bool {
    &&& ids_are_distinct(conts)
    &&& c.max_epochs != 0
    &&& c.max_effects_per_step != 0
    &&& c.max_frame_bytes != 0
    &&& c.max_continuations != 0
    &&& c.initial_epoch + c.max_epochs <= u32::MAX
    &&& storage_is_bounded(c)
    &&& forall|i: int|
        0 <= i < c.objects.len() ==> (#[trigger] c.objects[i]).bytes.len() <= c.max_frame_bytes
    &&& forall|i: int|
        0 <= i < c.object_capabilities.len() ==> object_capability_is_valid(
            c,
            #[trigger] c.object_capabilities[i],
        )
    &&& c.mailbox_messages.len() == c.mailbox_capacities.len()
    &&& forall|i: int|
        0 <= i < c.mailbox_messages.len() ==> (#[trigger] c.mailbox_messages[i]).len()
            <= c.mailbox_capacities[i]
    &&& conts.len() <= c.max_continuations
    &&& forall|i: int|
        0 <= i < conts.len() ==> (#[trigger] conts[i]).frame.len() <= c.max_frame_bytes
            && handlers.contains_key(conts[i].run_class)
    &&& forall|run_class: u32| #[trigger]
        handlers.contains_key(run_class) ==> handlers[run_class].run_class == run_class
            && resident_program::program_is_valid(
            handlers[run_class].instructions,
            c.max_effects_per_step as int,
            c.max_frame_bytes as int,
        )
}

/// A continuation as it enters a run.
pub open spec fn entered(cont: ContinuationView) -> ContView {
    ContView {
        id: cont.id,
        actor: cont.actor,
        run_class: cont.run_class,
        mutable_access: cont.mutable_access,
        waiting_since: cont.waiting_since,
        frame: cont.frame,
        previous: Seq::empty(),
        runnable: true,
        completed: false,
        pending: None,
        waiter_order: 0,
    }
}

pub open spec fn ids_increase(conts: Seq<ContinuationView>) -> bool {
    forall|i: int, j: int|
        0 <= i < j < conts.len() ==> (#[trigger] conts[i]).id < (#[trigger] conts[j]).id
}

/// Whether `sorted` holds the continuations `conts` in increasing order of id.
pub open spec fn is_in_id_order(
    conts: Seq<ContinuationView>,
    sorted: Seq<ContinuationView>,
) -> bool {
    sorted.to_multiset() == conts.to_multiset() && ids_increase(sorted)
}

/// The continuations in increasing order of id.
pub open spec fn in_id_order(conts: Seq<ContinuationView>) -> Seq<ContinuationView> {
    choose|sorted: Seq<ContinuationView>| is_in_id_order(conts, sorted)
}

/// The cell of a future as it enters a run.
pub open spec fn entered_future(f: InitialFuture) -> FutureView {
    FutureView {
        value: match f {
            InitialFuture::Pending => None,
            InitialFuture::Resolved(value) => Some(value),
        },
        waiters: Seq::empty(),
    }
}

/// The tables before the first epoch.
pub open spec fn initial(c: ConfigView, conts: Seq<ContinuationView>) -> SyncView {
    SyncView {
        conts: in_id_order(conts).map_values(|cont: ContinuationView| entered(cont)),
        objects: c.objects.map_values(|o: ObjectView| o.bytes),
        futures: c.futures.map_values(|f: InitialFuture| entered_future(f)),
        mails: Seq::new(
            c.mailbox_capacities.len(),
            |i: int|
                MailView {
                    capacity: c.mailbox_capacities[i],
                    queue: c.mailbox_messages[i],
                    receivers: Seq::empty(),
                    senders: Seq::empty(),
                },
        ),
        tickets: 0,
        effects: Seq::empty(),
        accesses: Seq::empty(),
        operations: Seq::empty(),
        trace: Seq::empty(),
        completed: Seq::empty(),
        invocations: Seq::empty(),
        wakes: Seq::empty(),
        epoch_records: Seq::empty(),
    }
}

/// The frames of the first `n` continuations, by id.
pub open spec fn frames_of(conts: Seq<ContView>, n: int) -> Map<u64, Seq<u8>>
    decreases n,
{
    if n <= 0 {
        Map::empty()
    } else {
        frames_of(conts, n - 1).insert(conts[n - 1].id, conts[n - 1].frame)
    }
}

/// A continuation as a run leaves it.
pub open spec fn left(cont: ContView) -> ResidentFinalContinuation {
    ResidentFinalContinuation {
        id: cont.id,
        run_class: cont.run_class,
        completed: cont.completed,
        pending: cont.pending,
        waiter_order: if cont.pending is Some {
            cont.waiter_order
        } else {
            0
        },
    }
}

/// The result of a run that stopped in `s`.
pub open spec fn result_of(s: SyncView) -> ResultView {
    ResultView {
        frames: frames_of(s.conts, s.conts.len() as int),
        effects: s.effects,
        accesses: s.accesses,
        operations: s.operations,
        trace: s.trace,
        epochs: s.epoch_records.len() as u32,
        quiescent: forall|i: int| 0 <= i < s.conts.len() ==> !eligible(#[trigger] s.conts[i]),
        completed: s.completed,
        object_values: s.objects,
        future_values: s.futures.map_values(|f: FutureView| f.value),
        mailboxes: s.mails.map_values(|m: MailView| m.queue),
        final_continuations: s.conts.map_values(|cont: ContView| left(cont)),
        invocations: s.invocations,
        wakes: s.wakes,
        epoch_records: s.epoch_records,
    }
}

/// The result of a plan: `None` where the plan is refused, or a handler is
/// missing or fails during the run.
pub open spec fn sync_result(
    c: ConfigView,
    conts: Seq<ContinuationView>,
    handlers: Map<u32, ProgramView>,
) -> Option<ResultView> {
    if !plan_is_valid(c, conts, handlers) {
        None
    } else {
        match after_epochs(c, handlers, initial(c, conts), 0) {
            None => None,
            Some(s) => Some(result_of(s)),
        }
    }
}

} // verus!
