//! The tables of a resident run and the two phases of an epoch on them.

use crate::bytes;
use crate::device::{
    DeviceLaneAccess, DeviceLaneOperation, DeviceOperationJournal, DEVICE_ACCESS_READ,
    DEVICE_ACCESS_WRITE, OP_AWAIT_FUTURE, OP_ENQUEUE_MESSAGE, OP_OBSERVE_FUTURE, OP_READ_OBJECT,
    OP_RECEIVE_MESSAGE, OP_RESOLVE_FUTURE, OP_WRITE_OBJECT,
};
use crate::executives::resident_laws;
use crate::executives::resident_model;
use crate::executives::resident_model::{
    ContView, EmissionView, FutureView, LaneView, MailView, Slot, SyncView,
};
use crate::executives::resident_program;
use crate::executives::resident_program::{
    execute_program, ResidentDisposition, ResidentEffect, ResidentHandlerProgram, ResidentOutcome,
};
use crate::executives::resident_types;
use crate::executives::resident_types::{
    ConfigView, ResidentCapability, ResidentEffectRecord, ResidentEpochRecord,
    ResidentInvocationRecord, ResidentSyncConfig, ResidentSyncTrace, ResidentWakeRecord,
    RESOURCE_FUTURE, RESOURCE_MAILBOX, RESOURCE_OBJECT, RIGHT_READ, RIGHT_WRITE,
};
use std::collections::{BTreeMap, VecDeque};
use vstd::prelude::*;

verus! {

pub struct Cont {
    pub id: u64,
    pub actor: u64,
    pub run_class: u32,
    pub mutable_access: bool,
    pub waiting_since: u32,
    pub frame: Vec<u8>,
    pub previous: Vec<ResidentOutcome>,
    pub runnable: bool,
    pub completed: bool,
    pub pending: Option<ResidentEffect>,
    pub waiter_order: u32,
}

impl View for Cont {
    type V = ContView;

    open spec fn view(&self) -> ContView {
        ContView {
            id: self.id,
            actor: self.actor,
            run_class: self.run_class,
            mutable_access: self.mutable_access,
            waiting_since: self.waiting_since,
            frame: self.frame@,
            previous: self.previous@,
            runnable: self.runnable,
            completed: self.completed,
            pending: self.pending,
            waiter_order: self.waiter_order,
        }
    }
}

pub struct FutureCell {
    pub value: Option<u64>,
    pub waiters: Vec<usize>,
}

impl View for FutureCell {
    type V = FutureView;

    open spec fn view(&self) -> FutureView {
        FutureView { value: self.value, waiters: self.waiters@ }
    }
}

pub struct Mail {
    pub capacity: u32,
    pub queue: VecDeque<(u64, u64)>,
    pub receivers: Vec<usize>,
    pub senders: Vec<usize>,
}

impl View for Mail {
    type V = MailView;

    open spec fn view(&self) -> MailView {
        MailView {
            capacity: self.capacity,
            queue: self.queue@,
            receivers: self.receivers@,
            senders: self.senders@,
        }
    }
}

pub struct Emission {
    pub at: usize,
    pub effects: Vec<ResidentEffect>,
    pub disposition: ResidentDisposition,
}

impl View for Emission {
    type V = EmissionView;

    open spec fn view(&self) -> EmissionView {
        EmissionView { at: self.at, effects: self.effects@, disposition: self.disposition }
    }
}

/// The tables of a run and the records that it has left so far.
pub struct Engine {
    pub conts: Vec<Cont>,
    pub objects: Vec<Vec<u8>>,
    pub futures: Vec<FutureCell>,
    pub mails: Vec<Mail>,
    pub tickets: u32,
    pub effects: Vec<ResidentEffectRecord>,
    pub accesses: Vec<DeviceLaneAccess>,
    pub operations: Vec<DeviceOperationJournal>,
    pub trace: Vec<ResidentSyncTrace>,
    pub completed: Vec<u64>,
    pub invocations: Vec<ResidentInvocationRecord>,
    pub wakes: Vec<ResidentWakeRecord>,
    pub epoch_records: Vec<ResidentEpochRecord>,
}

pub open spec fn cont_views(conts: Seq<Cont>) -> Seq<ContView> {
    conts.map_values(|cont: Cont| cont@)
}

pub open spec fn emission_views(emissions: Seq<Emission>) -> Seq<EmissionView> {
    emissions.map_values(|emission: Emission| emission@)
}

impl View for Engine {
    type V = SyncView;

    open spec fn view(&self) -> SyncView {
        SyncView {
            conts: cont_views(self.conts@),
            objects: self.objects@.map_values(|o: Vec<u8>| o@),
            futures: self.futures@.map_values(|f: FutureCell| f@),
            mails: self.mails@.map_values(|m: Mail| m@),
            tickets: self.tickets,
            effects: self.effects@,
            accesses: self.accesses@,
            operations: self.operations@.map_values(|j: DeviceOperationJournal| j@),
            trace: self.trace@,
            completed: self.completed@,
            invocations: self.invocations@,
            wakes: self.wakes@,
            epoch_records: self.epoch_records@,
        }
    }
}

pub fn opcode(e: ResidentEffect) -> (code: u32)
    ensures
        code == resident_model::effect_opcode(e),
{
    match e {
        ResidentEffect::ObjectRead { .. } => OP_READ_OBJECT,
        ResidentEffect::ObjectWrite { .. } => OP_WRITE_OBJECT,
        ResidentEffect::FutureObserve { .. } => OP_OBSERVE_FUTURE,
        ResidentEffect::FutureAwait { .. } => OP_AWAIT_FUTURE,
        ResidentEffect::FutureResolve { .. } => OP_RESOLVE_FUTURE,
        ResidentEffect::MailboxSend { .. } => OP_ENQUEUE_MESSAGE,
        ResidentEffect::MailboxReceive { .. } => OP_RECEIVE_MESSAGE,
    }
}

pub fn target(e: ResidentEffect) -> (index: u32)
    ensures
        index == resident_model::effect_target(e),
{
    match e {
        ResidentEffect::ObjectRead { target, .. } => target,
        ResidentEffect::ObjectWrite { target, .. } => target,
        ResidentEffect::FutureObserve { target } => target,
        ResidentEffect::FutureAwait { target } => target,
        ResidentEffect::FutureResolve { target, .. } => target,
        ResidentEffect::MailboxSend { target, .. } => target,
        ResidentEffect::MailboxReceive { target } => target,
    }
}

pub fn resource(e: ResidentEffect) -> (kind: u32)
    ensures
        kind == resident_model::effect_resource(e),
{
    match e {
        ResidentEffect::ObjectRead { .. } => RESOURCE_OBJECT,
        ResidentEffect::ObjectWrite { .. } => RESOURCE_OBJECT,
        ResidentEffect::FutureObserve { .. } => RESOURCE_FUTURE,
        ResidentEffect::FutureAwait { .. } => RESOURCE_FUTURE,
        ResidentEffect::FutureResolve { .. } => RESOURCE_FUTURE,
        _ => RESOURCE_MAILBOX,
    }
}

pub fn required_right(e: ResidentEffect) -> (right: u32)
    ensures
        right == resident_model::effect_right(e),
{
    match e {
        ResidentEffect::ObjectRead { .. } => RIGHT_READ,
        ResidentEffect::ObjectWrite { .. } => RIGHT_WRITE,
        ResidentEffect::FutureObserve { .. } => RIGHT_READ,
        ResidentEffect::FutureAwait { .. } => RIGHT_READ,
        ResidentEffect::MailboxReceive { .. } => RIGHT_READ,
        _ => RIGHT_WRITE,
    }
}

pub fn outcome_code(o: ResidentOutcome) -> (code: u32)
    ensures
        code == resident_model::result_code(o),
{
    match o {
        ResidentOutcome::ObjectRead(_) => 2,
        ResidentOutcome::ObjectWritten => 0,
        ResidentOutcome::Resolved(_) => 2,
        ResidentOutcome::Pending => 1,
        ResidentOutcome::Registered => 3,
        ResidentOutcome::Sent => 0,
        ResidentOutcome::Received { .. } => 2,
        ResidentOutcome::CapabilityDenied => 0x104,
        ResidentOutcome::InvalidTarget => 0x101,
        ResidentOutcome::Full => 0x10c,
        ResidentOutcome::Empty => 1,
        ResidentOutcome::DoubleResolve => 0x111,
    }
}

/// The 32-bit FNV-1a hash of `bytes`.
pub fn hash(bytes: &[u8]) -> (word: u32)
    ensures
        word == resident_model::fnv(bytes@),
{
    let mut h: u32 = 2_166_136_261;
    let mut i: usize = 0;
    assert(bytes@.take(0) =~= Seq::<u8>::empty());
    while i < bytes.len()
        invariant
            i <= bytes@.len(),
            h == resident_model::fnv(bytes@.take(i as int)),
        decreases bytes@.len() - i,
    {
        proof {
            let next = bytes@.take(i + 1);
            assert(next.drop_last() =~= bytes@.take(i as int));
            assert(next.last() == bytes@[i as int]);
        }
        let mixed: u32 = h ^ (bytes[i] as u32);
        h = mixed.wrapping_mul(16_777_619);
        assert(h == ((mixed * 16_777_619) % 0x1_0000_0000) as u32);
        i = i + 1;
    }
    assert(bytes@.take(i as int) =~= bytes@);
    h
}

fn allowed(
    capabilities: &Vec<ResidentCapability>,
    actor: u64,
    kind: u32,
    target: u32,
    right: u32,
) -> (granted: bool)
    ensures
        granted <==> exists|k: int|
            0 <= k < capabilities@.len() && resident_model::capability_grants(
                #[trigger] capabilities@[k],
                actor,
                kind,
                target,
                right,
            ),
{
    let mut i: usize = 0;
    while i < capabilities.len()
        invariant
            i <= capabilities@.len(),
            forall|k: int|
                0 <= k < i ==> !resident_model::capability_grants(
                    #[trigger] capabilities@[k],
                    actor,
                    kind,
                    target,
                    right,
                ),
        decreases capabilities@.len() - i,
    {
        let c = capabilities[i];
        if c.actor == actor && c.resource_kind == kind && c.target == target && (c.rights & right)
            != 0 {
            assert(resident_model::capability_grants(
                capabilities@[i as int],
                actor,
                kind,
                target,
                right,
            ));
            return true;
        }
        i = i + 1;
    }
    false
}

fn object_allowed(
    config: &ResidentSyncConfig,
    actor: u64,
    target: u32,
    offset: u32,
    right: u32,
    epoch: u32,
) -> (granted: bool)
    ensures
        granted == resident_model::range_authorized(
            config@,
            actor,
            target,
            offset,
            right,
            epoch,
        ),
{
    if target as usize >= config.objects.len() {
        return false;
    }
    let version: u32 = config.objects[target as usize].version;
    let end: u64 = offset as u64 + 8;
    let caps = &config.object_capabilities;
    let mut i: usize = 0;
    assert(config@.objects[target as int] == config.objects@[target as int]@);
    while i < caps.len()
        invariant
            i <= caps@.len(),
            caps@ == config@.object_capabilities,
            target < config@.objects.len(),
            version == config@.objects[target as int].version,
            end == offset + 8,
            forall|k: int|
                0 <= k < i ==> !resident_model::range_capability_grants(
                    #[trigger] caps@[k],
                    actor,
                    target,
                    offset,
                    right,
                    epoch,
                    version,
                ),
        decreases caps@.len() - i,
    {
        let c = caps[i];
        if c.actor == actor && c.target == target && (c.rights & right) != 0 && c.object_version
            == version && c.valid_until_epoch >= epoch && offset as u64 >= c.offset && end
            <= c.offset.saturating_add(c.length) {
            assert(resident_model::range_capability_grants(
                config@.object_capabilities[i as int],
                actor,
                target,
                offset,
                right,
                epoch,
                version,
            ));
            return true;
        }
        i = i + 1;
    }
    false
}

fn is_authorized(config: &ResidentSyncConfig, actor: u64, e: ResidentEffect, epoch: u32) -> (ok:
    bool)
    ensures
        ok == resident_model::authorized(config@, actor, e, epoch),
{
    match e {
        ResidentEffect::ObjectRead { target, offset } => object_allowed(
            config,
            actor,
            target,
            offset,
            RIGHT_READ,
            epoch,
        ),
        ResidentEffect::ObjectWrite { target, offset, .. } => object_allowed(
            config,
            actor,
            target,
            offset,
            RIGHT_WRITE,
            epoch,
        ),
        _ => {
            let granted = allowed(
                &config.capabilities,
                actor,
                resource(e),
                target(e),
                required_right(e),
            );
            assert(config@.capabilities == config.capabilities@);
            granted
        },
    }
}

fn register(waiters: &mut Vec<usize>, at: usize)
    ensures
        final(waiters)@ =~= resident_model::registered(old(waiters)@, at),
{
    let mut i: usize = 0;
    while i < waiters.len()
        invariant
            i <= waiters@.len(),
            waiters@ == old(waiters)@,
            forall|k: int| 0 <= k < i ==> waiters@[k] != at,
        decreases waiters@.len() - i,
    {
        if waiters[i] == at {
            assert(waiters@.contains(at));
            return;
        }
        i = i + 1;
    }
    waiters.push(at);
}

impl Engine {
    fn park(&mut self, at: usize, e: ResidentEffect)
        requires
            at < old(self).conts@.len(),
        ensures
            final(self)@ == resident_model::parked_on(old(self)@, at, e),
    {
        if self.tickets < u32::MAX {
            self.tickets = self.tickets + 1;
        }
        let ticket: u32 = self.tickets;
        self.conts[at].pending = Some(e);
        self.conts[at].waiter_order = ticket;
        assert(self@ =~= resident_model::parked_on(old(self)@, at, e));
    }

    fn wake(&mut self, slot: Slot, ordinal: u32, cause_opcode: u32, target: u32, who: usize)
        requires
            who < old(self).conts@.len(),
            slot.at < old(self).conts@.len(),
        ensures
            final(self)@ == resident_model::woken(
                old(self)@,
                slot,
                ordinal,
                cause_opcode,
                target,
                who,
            ),
    {
        let record = ResidentWakeRecord {
            epoch: slot.epoch,
            lane: slot.lane,
            cause_opcode,
            target,
            cause_continuation: self.conts[slot.at].id,
            continuation: self.conts[who].id,
            run_class: self.conts[who].run_class,
            ticket: self.conts[who].waiter_order,
            ordinal,
            reserved: 0,
        };
        self.wakes.push(record);
        self.conts[who].runnable = true;
        assert(self@ =~= resident_model::woken(
            old(self)@,
            slot,
            ordinal,
            cause_opcode,
            target,
            who,
        ));
    }

    fn deliver(
        &mut self,
        slot: Slot,
        ordinal: u32,
        target: u32,
        value: u64,
        waiters: &Vec<usize>,
    )
        requires
            slot.at < old(self).conts@.len(),
            forall|w: int| 0 <= w < waiters@.len() ==> waiters@[w] < old(self).conts@.len(),
        ensures
            final(self)@ == resident_model::delivered(
                old(self)@,
                slot,
                ordinal,
                target,
                value,
                waiters@,
                waiters@.len() as int,
            ),
    {
        let mut n: usize = 0;
        while n < waiters.len()
            invariant
                n <= waiters@.len(),
                slot.at < self.conts@.len(),
                self.conts@.len() == old(self).conts@.len(),
                forall|w: int| 0 <= w < waiters@.len() ==> waiters@[w] < self.conts@.len(),
                self@ == resident_model::delivered(
                    old(self)@,
                    slot,
                    ordinal,
                    target,
                    value,
                    waiters@,
                    n as int,
                ),
            decreases waiters@.len() - n,
        {
            let who: usize = waiters[n];
            let ghost prior = self@;
            self.wake(slot, ordinal, OP_RESOLVE_FUTURE, target, who);
            assert(self@.conts.len() == prior.conts.len());
            assert(self.conts@.len() == self@.conts.len());
            let ghost t = self@;
            self.conts[who].pending = None;
            self.conts[who].previous.push(ResidentOutcome::Resolved(value));
            n = n + 1;
            assert(self@ =~= resident_model::delivered(
                old(self)@,
                slot,
                ordinal,
                target,
                value,
                waiters@,
                n as int,
            ));
        }
    }

    fn perform(&mut self, config: &ResidentSyncConfig, slot: Slot, ordinal: u32, e: ResidentEffect) -> (outcome:
        ResidentOutcome)
        requires
            slot.at < old(self).conts@.len(),
            resident_model::waiters_exist(old(self)@),
            config.initial_epoch + slot.epoch <= u32::MAX,
        ensures
            (final(self)@, outcome) == resident_model::performed(
                config@,
                old(self)@,
                slot,
                ordinal,
                e,
            ),
    {
        let ghost goal = resident_model::performed(config@, old(self)@, slot, ordinal, e);
        let ghost start = self@;
        let actor: u64 = self.conts[slot.at].actor;
        assert(actor == start.conts[slot.at as int].actor);
        if !is_authorized(config, actor, e, config.initial_epoch + slot.epoch) {
            return ResidentOutcome::CapabilityDenied;
        }
        match e {
            ResidentEffect::ObjectRead { target, offset } => {
                let t: usize = target as usize;
                if t >= self.objects.len() {
                    return ResidentOutcome::InvalidTarget;
                }
                assert(start.objects[t as int] == self.objects@[t as int]@);
                let at: usize = offset as usize;
                if self.objects[t].len() < 8 || at > self.objects[t].len() - 8 {
                    return ResidentOutcome::InvalidTarget;
                }
                let word: u64 = bytes::get_le(self.objects[t].as_slice(), at, 8);
                ResidentOutcome::ObjectRead(word)
            },
            ResidentEffect::ObjectWrite { target, offset, value } => {
                let t: usize = target as usize;
                if t >= self.objects.len() {
                    return ResidentOutcome::InvalidTarget;
                }
                assert(start.objects[t as int] == self.objects@[t as int]@);
                let at: usize = offset as usize;
                if self.objects[t].len() < 8 || at > self.objects[t].len() - 8 {
                    return ResidentOutcome::InvalidTarget;
                }
                bytes::set_le(self.objects[t].as_mut_slice(), at, value, 8);
                assert(self@ =~= goal.0);
                ResidentOutcome::ObjectWritten
            },
            ResidentEffect::FutureObserve { target } => {
                let t: usize = target as usize;
                if t >= self.futures.len() {
                    return ResidentOutcome::InvalidTarget;
                }
                assert(start.futures[t as int] == self.futures@[t as int]@);
                match self.futures[t].value {
                    Some(value) => ResidentOutcome::Resolved(value),
                    None => ResidentOutcome::Pending,
                }
            },
            ResidentEffect::FutureAwait { target } => {
                let t: usize = target as usize;
                if t >= self.futures.len() {
                    return ResidentOutcome::InvalidTarget;
                }
                assert(start.futures[t as int] == self.futures@[t as int]@);
                match self.futures[t].value {
                    Some(value) => ResidentOutcome::Resolved(value),
                    None => {
                        register(&mut self.futures[t].waiters, slot.at);
                        let ghost cell = start.futures[t as int];
                        assert(self@ =~= (SyncView {
                            futures: start.futures.update(
                                t as int,
                                FutureView {
                                    waiters: resident_model::registered(cell.waiters, slot.at),
                                    ..cell
                                },
                            ),
                            ..start
                        }));
                        self.park(slot.at, e);
                        ResidentOutcome::Registered
                    },
                }
            },
            ResidentEffect::FutureResolve { target, value } => {
                let t: usize = target as usize;
                if t >= self.futures.len() {
                    return ResidentOutcome::InvalidTarget;
                }
                assert(start.futures[t as int] == self.futures@[t as int]@);
                if self.futures[t].value.is_some() {
                    return ResidentOutcome::DoubleResolve;
                }
                let ghost cell = start.futures[t as int];
                let mut waiters: Vec<usize> = Vec::new();
                std::mem::swap(&mut waiters, &mut self.futures[t].waiters);
                self.futures[t].value = Some(value);
                assert(waiters@ == cell.waiters);
                assert(self@ =~= (SyncView {
                    futures: start.futures.update(
                        t as int,
                        FutureView { value: Some(value), waiters: Seq::empty() },
                    ),
                    ..start
                }));
                assert forall|w: int| 0 <= w < waiters@.len() implies waiters@[w]
                    < self.conts@.len() by {
                    assert(start.futures[t as int].waiters[w] < start.conts.len());
                }
                self.deliver(slot, ordinal, target, value, &waiters);
                ResidentOutcome::Resolved(value)
            },
            ResidentEffect::MailboxSend { target, value } => {
                let t: usize = target as usize;
                if t >= self.mails.len() {
                    return ResidentOutcome::InvalidTarget;
                }
                assert(start.mails[t as int] == self.mails@[t as int]@);
                let ghost mail = start.mails[t as int];
                if self.mails[t].queue.len() >= self.mails[t].capacity as usize {
                    register(&mut self.mails[t].senders, slot.at);
                    assert(self@ =~= (SyncView {
                        mails: start.mails.update(
                            t as int,
                            MailView {
                                senders: resident_model::registered(mail.senders, slot.at),
                                ..mail
                            },
                        ),
                        ..start
                    }));
                    self.park(slot.at, e);
                    return ResidentOutcome::Full;
                }
                self.mails[t].queue.push_back((actor, value));
                if self.mails[t].receivers.len() == 0 {
                    assert(self@ =~= goal.0);
                    return ResidentOutcome::Sent;
                }
                let who: usize = self.mails[t].receivers.remove(0);
                assert(who == mail.receivers[0]);
                assert(self@ =~= (SyncView {
                    mails: start.mails.update(
                        t as int,
                        MailView {
                            queue: mail.queue.push((actor, value)),
                            receivers: mail.receivers.skip(1),
                            ..mail
                        },
                    ),
                    ..start
                }));
                self.wake(slot, ordinal, OP_ENQUEUE_MESSAGE, target, who);
                ResidentOutcome::Sent
            },
            ResidentEffect::MailboxReceive { target } => {
                let t: usize = target as usize;
                if t >= self.mails.len() {
                    return ResidentOutcome::InvalidTarget;
                }
                assert(start.mails[t as int] == self.mails@[t as int]@);
                let ghost mail = start.mails[t as int];
                match self.mails[t].queue.pop_front() {
                    None => {
                        register(&mut self.mails[t].receivers, slot.at);
                        assert(self@ =~= (SyncView {
                            mails: start.mails.update(
                                t as int,
                                MailView {
                                    receivers: resident_model::registered(mail.receivers, slot.at),
                                    ..mail
                                },
                            ),
                            ..start
                        }));
                        self.park(slot.at, e);
                        ResidentOutcome::Empty
                    },
                    Some(entry) => {
                        let (sender, value) = entry;
                        assert(self.mails@[t as int].queue@ =~= mail.queue.skip(1));
                        if self.mails[t].senders.len() == 0 {
                            assert(self@ =~= goal.0);
                            return ResidentOutcome::Received { value, sender };
                        }
                        let who: usize = self.mails[t].senders.remove(0);
                        assert(who == mail.senders[0]);
                        assert(self@ =~= (SyncView {
                            mails: start.mails.update(
                                t as int,
                                MailView {
                                    queue: mail.queue.skip(1),
                                    senders: mail.senders.skip(1),
                                    ..mail
                                },
                            ),
                            ..start
                        }));
                        self.wake(slot, ordinal, OP_RECEIVE_MESSAGE, target, who);
                        ResidentOutcome::Received { value, sender }
                    },
                }
            },
        }
    }

    fn note(&mut self, slot: Slot, ordinal: u32, e: ResidentEffect, outcome: ResidentOutcome)
        requires
            slot.at < old(self).conts@.len(),
        ensures
            final(self)@ == resident_model::noted(old(self)@, slot, ordinal, e, outcome),
    {
        let mode: u32 = match e {
            ResidentEffect::FutureObserve { .. } => DEVICE_ACCESS_READ,
            ResidentEffect::ObjectRead { .. } => DEVICE_ACCESS_READ,
            _ => DEVICE_ACCESS_WRITE,
        };
        let id: u64 = self.conts[slot.at].id;
        let run_class: u32 = self.conts[slot.at].run_class;
        self.accesses.push(
            DeviceLaneAccess::new(slot.lane, resource(e), target(e) as u64, mode, ordinal),
        );
        self.effects.push(
            ResidentEffectRecord {
                epoch: slot.epoch,
                lane: slot.lane,
                ordinal,
                continuation: id,
                effect: e,
                outcome,
            },
        );
        self.trace.push(
            ResidentSyncTrace {
                epoch: slot.epoch,
                lane: slot.lane,
                continuation: id,
                run_class,
                event: opcode(e),
                word: outcome_code(outcome),
            },
        );
        if !is_parking(outcome) {
            self.conts[slot.at].previous.push(outcome);
        }
        assert(self@ =~= resident_model::noted(old(self)@, slot, ordinal, e, outcome));
    }

    /// Settles the effects of one lane, in order, and gives its journal and
    /// whether it parked.
    fn settle(
        &mut self,
        config: &ResidentSyncConfig,
        slot: Slot,
        effects: &Vec<ResidentEffect>,
    ) -> (settled: (DeviceOperationJournal, bool))
        requires
            slot.at < old(self).conts@.len(),
            resident_model::waiters_exist(old(self)@),
            config.initial_epoch + slot.epoch <= u32::MAX,
            effects@.len() <= resident_program::MAX_HANDLER_INSTRUCTIONS,
        ensures
            (LaneView { state: final(self)@, journal: settled.0@, parked: settled.1 })
                == resident_model::settled(
                config@,
                old(self)@,
                slot,
                effects@,
                effects@.len() as int,
            ),
    {
        let ghost start = self@;
        let mut journal = DeviceOperationJournal::new();
        let mut parked: bool = false;
        let mut n: usize = 0;
        while n < effects.len()
            invariant
                n <= effects@.len(),
                effects@.len() <= resident_program::MAX_HANDLER_INSTRUCTIONS,
                config.initial_epoch + slot.epoch <= u32::MAX,
                slot.at < start.conts.len(),
                resident_model::waiters_exist(start),
                (LaneView { state: self@, journal: journal@, parked }) == resident_model::settled(
                    config@,
                    start,
                    slot,
                    effects@,
                    n as int,
                ),
            decreases effects@.len() - n,
        {
            proof {
                resident_laws::lemma_settled_keeps(config@, start, slot, effects@, n as int);
            }
            let ghost prior = resident_model::settled(config@, start, slot, effects@, n as int);
            let ordinal: u32 = n as u32;
            let e: ResidentEffect = effects[n];
            let actor: u64 = self.conts[slot.at].actor;
            assert(actor == prior.state.conts[slot.at as int].actor);
            let outcome = self.perform(config, slot, ordinal, e);
            proof {
                resident_laws::lemma_performed_keeps(config@, prior.state, slot, ordinal, e);
                resident_laws::lemma_payload_is_short(e, outcome);
            }
            write_operation(&mut journal, actor, slot, ordinal, e, outcome);
            self.note(slot, ordinal, e, outcome);
            if is_parking(outcome) {
                parked = true;
            }
            n = n + 1;
        }
        (journal, parked)
    }

    /// Settles one lane of an epoch whose invocation records start at `first`.
    fn settle_lane(
        &mut self,
        config: &ResidentSyncConfig,
        epoch: u32,
        lane: usize,
        first: usize,
        emission: &Emission,
    )
        requires
            emission.at < old(self).conts@.len(),
            resident_model::waiters_exist(old(self)@),
            config.initial_epoch + epoch <= u32::MAX,
            emission.effects@.len() <= resident_program::MAX_HANDLER_INSTRUCTIONS,
            lane <= u32::MAX,
            first + lane < old(self).invocations@.len(),
        ensures
            final(self)@ == resident_model::lane_settled(
                config@,
                old(self)@,
                epoch,
                lane as int,
                first as int,
                emission@,
            ),
    {
        let at: usize = emission.at;
        let slot = Slot { epoch, lane: lane as u32, at };
        let ghost goal = resident_model::lane_settled(
            config@,
            old(self)@,
            epoch,
            lane as int,
            first as int,
            emission@,
        );
        proof {
            resident_laws::lemma_settled_keeps(
                config@,
                old(self)@,
                slot,
                emission.effects@,
                emission.effects@.len() as int,
            );
        }
        let (journal, parked) = self.settle(config, slot, &emission.effects);
        let ghost mid = self@;
        assert(self.conts@.len() == mid.conts.len());
        self.operations.push(journal);
        if parked {
            let run_class: u32 = self.conts[at].run_class;
            assert(first + lane < self.invocations.len());
            let mut record = self.invocations[first + lane];
            record.disposition = 3;
            record.next_run_class = run_class;
            self.invocations.set(first + lane, record);
            assert(self@ =~= goal);
        } else {
            match emission.disposition {
                ResidentDisposition::Yield(run_class) => {
                    self.conts[at].run_class = run_class;
                    self.conts[at].runnable = true;
                    assert(self@ =~= goal);
                },
                ResidentDisposition::Complete => {
                    self.conts[at].completed = true;
                    let id: u64 = self.conts[at].id;
                    self.completed.push(id);
                    assert(self@ =~= goal);
                },
            }
        }
    }

    /// Evaluates one lane of an epoch on the private frame of its
    /// continuation.
    fn evaluate_lane(
        &mut self,
        config: &ResidentSyncConfig,
        handlers: &BTreeMap<u32, ResidentHandlerProgram>,
        epoch: u32,
        lane: usize,
        at: usize,
    ) -> (emission: Option<Emission>)
        requires
            at < old(self).conts@.len(),
            config.initial_epoch + epoch <= u32::MAX,
            lane <= u32::MAX,
        ensures
            match resident_model::lane_evaluated(
                config@,
                resident_types::handlers_view(handlers@),
                old(self)@,
                epoch,
                lane as int,
                at,
            ) {
                None => emission is None,
                Some((state, view)) => emission matches Some(e) && e@ == view && final(self)@
                    == state,
            },
    {
        let ghost goal = resident_model::lane_evaluated(
            config@,
            resident_types::handlers_view(handlers@),
            old(self)@,
            epoch,
            lane as int,
            at,
        );
        let ghost before = self@.conts[at as int];
        assert(before == self.conts@[at as int]@);
        let pending: Option<ResidentEffect> = self.conts[at].pending;
        let run_class: u32 = self.conts[at].run_class;
        let emission: Emission = match pending {
            Some(retry) => {
                self.conts[at].pending = None;
                let mut effects: Vec<ResidentEffect> = Vec::new();
                effects.push(retry);
                assert(effects@ =~= seq![retry]);
                Emission { at, effects, disposition: ResidentDisposition::Yield(run_class) }
            },
            None => {
                let program: &ResidentHandlerProgram = match handlers.get(&run_class) {
                    Some(program) => program,
                    None => {
                        return None;
                    },
                };
                let output = execute_program(
                    program,
                    self.conts[at].frame.as_slice(),
                    self.conts[at].previous.as_slice(),
                    config.max_effects_per_step as usize,
                    config.max_frame_bytes as usize,
                );
                match output {
                    None => {
                        return None;
                    },
                    Some(out) => {
                        self.conts[at].frame = out.frame;
                        self.conts[at].previous = Vec::new();
                        Emission { at, effects: out.effects, disposition: out.disposition }
                    },
                }
            },
        };
        self.conts[at].runnable = false;
        self.conts[at].waiting_since = config.initial_epoch + epoch;
        let id: u64 = self.conts[at].id;
        let word: u32 = hash(self.conts[at].frame.as_slice());
        self.trace.push(
            ResidentSyncTrace {
                epoch,
                lane: lane as u32,
                continuation: id,
                run_class,
                event: 0,
                word,
            },
        );
        let (disposition, next_run_class): (u32, u32) = match emission.disposition {
            ResidentDisposition::Yield(next) => (1, next),
            ResidentDisposition::Complete => (2, 0),
        };
        self.invocations.push(
            ResidentInvocationRecord {
                epoch,
                lane: lane as u32,
                continuation: id,
                run_class,
                disposition,
                next_run_class,
            },
        );
        proof {
            if let Some((state, view)) = goal {
                assert(emission@ =~= view);
                assert(self@ =~= state);
            }
        }
        Some(emission)
    }

    /// Whether the continuation at `i` asks for a lane.
    fn is_eligible(&self, i: usize) -> (asks: bool)
        requires
            i < self.conts@.len(),
        ensures
            asks == resident_model::eligible(self@.conts[i as int]),
    {
        self.conts[i].runnable && !self.conts[i].completed
    }

    /// The oldest claim on each actor.
    fn mutable_winners(&self) -> (winners: BTreeMap<u64, usize>)
        ensures
            forall|i: int|
                0 <= i < self.conts@.len() && claims(#[trigger] self@.conts[i])
                    ==> winners@.contains_key(self@.conts[i].actor),
            forall|actor: u64| #[trigger]
                winners@.contains_key(actor) ==> is_oldest_claim(
                    self@.conts,
                    self.conts@.len() as int,
                    actor,
                    winners@[actor] as int,
                ),
    {
        let mut winners: BTreeMap<u64, usize> = BTreeMap::new();
        let mut n: usize = 0;
        while n < self.conts.len()
            invariant
                n <= self.conts@.len(),
                forall|i: int|
                    0 <= i < n && claims(#[trigger] self@.conts[i]) ==> winners@.contains_key(
                        self@.conts[i].actor,
                    ),
                forall|actor: u64| #[trigger]
                    winners@.contains_key(actor) ==> is_oldest_claim(
                        self@.conts,
                        n as int,
                        actor,
                        winners@[actor] as int,
                    ),
            decreases self.conts@.len() - n,
        {
            let ghost before = winners@;
            if self.is_eligible(n) && self.conts[n].mutable_access {
                assert(claims(self@.conts[n as int]));
                let actor: u64 = self.conts[n].actor;
                let wins: bool = match winners.get(&actor) {
                    None => true,
                    Some(w) => {
                        assert(is_oldest_claim(self@.conts, n as int, actor, *w as int));
                        assert(self@.conts[*w as int] == self.conts@[*w as int]@);
                        self.conts[n].waiting_since < self.conts[*w].waiting_since
                    },
                };
                if wins {
                    winners.insert(actor, n);
                }
            }
            assert forall|actor: u64| #[trigger] winners@.contains_key(
                actor,
            ) implies is_oldest_claim(
                self@.conts,
                n + 1,
                actor,
                winners@[actor] as int,
            ) by {
                if before.contains_key(actor) {
                    assert(is_oldest_claim(self@.conts, n as int, actor, before[actor] as int));
                }
                assert(claims(self@.conts[n as int]) ==> winners@.contains_key(
                    self@.conts[n as int].actor,
                ));
            }
            n = n + 1;
        }
        winners
    }

    /// The positions that get a lane in this epoch, in lane order.
    fn lanes(&self) -> (lanes: Vec<usize>)
        ensures
            lanes@ == resident_model::lanes_of(self@.conts),
    {
        let winners = self.mutable_winners();
        let ghost conts = self@.conts;
        let ghost order = resident_model::lane_order(conts);
        let mut lanes: Vec<usize> = Vec::new();
        let mut n: usize = 0;
        while n < self.conts.len()
            invariant
                n <= self.conts@.len(),
                conts == self@.conts,
                order == resident_model::lane_order(conts),
                forall|i: int|
                    0 <= i < self.conts@.len() && claims(#[trigger] self@.conts[i])
                        ==> winners@.contains_key(self@.conts[i].actor),
                forall|actor: u64| #[trigger]
                    winners@.contains_key(actor) ==> is_oldest_claim(
                        self@.conts,
                        self.conts@.len() as int,
                        actor,
                        winners@[actor] as int,
                    ),
                forall|k: int| 0 <= k < lanes@.len() ==> #[trigger] lanes@[k] < n,
                vstd::relations::sorted_by(lanes@, order),
                lanes@.to_multiset() == resident_model::admitted_positions(
                    conts,
                    n as int,
                ).to_multiset(),
            decreases self.conts@.len() - n,
        {
            assert(conts[n as int] == self.conts@[n as int]@);
            let gets_lane: bool = self.is_eligible(n) && (!self.conts[n].mutable_access
                || match winners.get(&self.conts[n].actor) {
                Some(w) => *w == n,
                None => false,
            });
            proof {
                let actor = conts[n as int].actor;
                if claims(conts[n as int]) {
                    assert(winners@.contains_key(actor));
                    let w = winners@[actor] as int;
                    assert(is_oldest_claim(conts, conts.len() as int, actor, w));
                    assert(claims(conts[w]));
                    assert(gets_lane == resident_model::admitted(conts, n as int)) by {
                        if w == n {
                            assert forall|j: int|
                                0 <= j < conts.len() && resident_model::eligible(
                                    #[trigger] conts[j],
                                ) && conts[j].mutable_access && conts[j].actor
                                    == actor implies resident_model::claim_at_least_as_old(
                                conts,
                                n as int,
                                j,
                            ) by {
                                assert(claims(conts[j]));
                            }
                        }
                    }
                }
                assert(gets_lane == resident_model::admitted(conts, n as int));
            }
            if gets_lane {
                let run_class: u32 = self.conts[n].run_class;
                let mut p: usize = lanes.len();
                while p > 0 && self.conts[lanes[p - 1]].run_class > run_class
                    invariant
                        p <= lanes@.len(),
                        n < self.conts@.len(),
                        conts == self@.conts,
                        run_class == conts[n as int].run_class,
                        forall|k: int| 0 <= k < lanes@.len() ==> #[trigger] lanes@[k] < n,
                        forall|k: int|
                            p <= k < lanes@.len() ==> conts[#[trigger] lanes@[k] as int].run_class
                                > run_class,
                    decreases p,
                {
                    assert(lanes@[p - 1] < n);
                    assert(conts[lanes@[p - 1] as int] == self.conts@[lanes@[p - 1] as int]@);
                    p = p - 1;
                }
                proof {
                    let before = lanes@;
                    vstd::seq_lib::to_multiset_insert(before, p as int, n);
                    let picked = resident_model::admitted_positions(conts, n as int);
                    picked.to_multiset_ensures();
                    if p > 0 {
                        assert(conts[before[p - 1] as int]
                            == self.conts@[before[p - 1] as int]@);
                    }
                    let after = before.insert(p as int, n);
                    assert forall|i: int, j: int| 0 <= i < j < after.len() implies #[trigger] order(
                        after[i],
                        after[j],
                    ) by {
                        let x = if i < p {
                            i
                        } else {
                            i - 1
                        };
                        let y = if j < p {
                            j
                        } else {
                            j - 1
                        };
                        if i != p && j != p {
                            assert(order(before[x], before[y]));
                        } else if j == p {
                            if i < p - 1 {
                                assert(order(before[i], before[p - 1]));
                            }
                        } else {
                            assert(conts[before[y] as int].run_class > run_class);
                        }
                    }
                }
                lanes.insert(p, n);
            }
            n = n + 1;
        }
        proof {
            let picked = resident_model::admitted_positions(conts, conts.len() as int);
            resident_laws::lemma_lane_order_is_total(conts);
            picked.lemma_sort_by_ensures(order);
            vstd::seq_lib::lemma_sorted_unique(lanes@, picked.sort_by(order), order);
        }
        lanes
    }
}

impl Engine {
    /// How many continuations ask for a lane, and how many have completed.
    fn counts(&self) -> (counts: (u32, u32))
        requires
            self.conts@.len() <= u32::MAX,
        ensures
            counts.0 == resident_model::eligible_count(self@.conts, self.conts@.len() as int),
            counts.1 == resident_model::completed_count(self@.conts, self.conts@.len() as int),
    {
        let mut eligible: u32 = 0;
        let mut completed: u32 = 0;
        let mut n: usize = 0;
        while n < self.conts.len()
            invariant
                n <= self.conts@.len() <= u32::MAX,
                eligible == resident_model::eligible_count(self@.conts, n as int),
                completed == resident_model::completed_count(self@.conts, n as int),
                eligible <= n,
                completed <= n,
            decreases self.conts@.len() - n,
        {
            if self.is_eligible(n) {
                eligible = eligible + 1;
            }
            assert(self@.conts[n as int] == self.conts@[n as int]@);
            if self.conts[n].completed {
                completed = completed + 1;
            }
            n = n + 1;
        }
        (eligible, completed)
    }

    /// Runs one epoch on `lanes`: evaluates every lane, then settles every
    /// lane. Gives `false` where a handler is missing or fails.
    fn run_epoch(
        &mut self,
        config: &ResidentSyncConfig,
        handlers: &BTreeMap<u32, ResidentHandlerProgram>,
        epoch: u32,
        lanes: &Vec<usize>,
    ) -> (ok: bool)
        requires
            resident_model::waiters_exist(old(self)@),
            old(self).conts@.len() <= u32::MAX,
            config.initial_epoch + epoch <= u32::MAX,
            lanes@ == resident_model::lanes_of(old(self)@.conts),
        ensures
            match resident_model::after_epoch(
                config@,
                resident_types::handlers_view(handlers@),
                old(self)@,
                epoch,
            ) {
                None => !ok,
                Some(state) => ok && final(self)@ == state,
            },
    {
        let ghost start = self@;
        let ghost table = resident_types::handlers_view(handlers@);
        proof {
            resident_laws::law_lanes_are_the_admitted_in_order(start.conts);
        }
        let first: usize = self.invocations.len();
        let mut emissions: Vec<Emission> = Vec::new();
        let mut n: usize = 0;
        assert(emission_views(emissions@) =~= Seq::empty());
        while n < lanes.len()
            invariant
                n <= lanes@.len() <= u32::MAX,
                lanes@ == resident_model::lanes_of(start.conts),
                resident_model::waiters_exist(start),
                config.initial_epoch + epoch <= u32::MAX,
                table == resident_types::handlers_view(handlers@),
                start == old(self)@,
                forall|i: int| 0 <= i < lanes@.len() ==> (#[trigger] lanes@[i]) < start.conts.len(),
                resident_model::lanes_evaluated(config@, table, start, epoch, lanes@, n as int)
                    == Some((self@, emission_views(emissions@))),
            decreases lanes@.len() - n,
        {
            proof {
                resident_laws::lemma_lanes_evaluated_keeps(
                    config@,
                    table,
                    start,
                    epoch,
                    lanes@,
                    n as int,
                );
                lemma_failed_lane_fails_epoch(
                    config@,
                    table,
                    start,
                    epoch,
                    lanes@,
                    n + 1,
                    lanes@.len() as int,
                );
            }
            assert(self@.conts.len() == self.conts@.len());
            match self.evaluate_lane(config, handlers, epoch, n, lanes[n]) {
                None => {
                    return false;
                },
                Some(emission) => {
                    let ghost before = emissions@;
                    emissions.push(emission);
                    assert(emission_views(emissions@) =~= emission_views(before).push(emission@));
                },
            }
            n = n + 1;
        }
        proof {
            resident_laws::lemma_lanes_evaluated_keeps(
                config@,
                table,
                start,
                epoch,
                lanes@,
                n as int,
            );
        }
        let ghost mid = self@;
        let ghost views = emission_views(emissions@);
        let count: usize = emissions.len();
        let mut k: usize = 0;
        assert forall|i: int| 0 <= i < views.len() implies (#[trigger] views[i]).at
            < mid.conts.len() by {
            assert(views[i].at == lanes@[i]);
        }
        while k < count
            invariant
                k <= count,
                count == emissions@.len(),
                count == views.len(),
                count <= u32::MAX,
                views == emission_views(emissions@),
                resident_model::waiters_exist(mid),
                config.initial_epoch + epoch <= u32::MAX,
                first + count <= mid.invocations.len(),
                forall|i: int|
                    0 <= i < views.len() ==> (#[trigger] views[i]).at < mid.conts.len()
                        && views[i].effects.len() <= resident_program::MAX_HANDLER_INSTRUCTIONS,
                self@ == resident_model::lanes_settled(
                    config@,
                    mid,
                    epoch,
                    first as int,
                    views,
                    k as int,
                ),
            decreases count - k,
        {
            proof {
                resident_laws::lemma_lanes_settled_keeps(
                    config@,
                    mid,
                    epoch,
                    first as int,
                    views,
                    k as int,
                );
                assert(views[k as int] == emissions@[k as int]@);
                assert(self@.conts.len() == self.conts@.len());
            }
            self.settle_lane(config, epoch, k, first, &emissions[k]);
            k = k + 1;
        }
        proof {
            resident_laws::lemma_lanes_settled_keeps(
                config@,
                mid,
                epoch,
                first as int,
                views,
                k as int,
            );
            assert(self@.conts.len() == self.conts@.len());
        }
        let ghost settled = self@;
        let (runnable_after, completed_after) = self.counts();
        self.epoch_records.push(
            ResidentEpochRecord {
                epoch,
                invocations: lanes.len() as u32,
                runnable_after,
                completed_after,
            },
        );
        assert(self@ =~= (SyncView {
            epoch_records: settled.epoch_records.push(
                ResidentEpochRecord {
                    epoch,
                    invocations: lanes@.len() as u32,
                    runnable_after,
                    completed_after,
                },
            ),
            ..settled
        }));
        true
    }

    /// Runs epochs until the last one, or until nothing asks for a lane. Gives
    /// `false` where a handler is missing or fails.
    pub fn run(
        &mut self,
        config: &ResidentSyncConfig,
        handlers: &BTreeMap<u32, ResidentHandlerProgram>,
    ) -> (ok: bool)
        requires
            resident_model::waiters_exist(old(self)@),
            old(self).conts@.len() <= u32::MAX,
            config.initial_epoch + config.max_epochs <= u32::MAX,
            old(self).epoch_records@.len() == 0,
        ensures
            match resident_model::after_epochs(
                config@,
                resident_types::handlers_view(handlers@),
                old(self)@,
                0,
            ) {
                None => !ok,
                Some(state) => ok && final(self)@ == state,
            },
            ok ==> final(self).epoch_records@.len() <= config.max_epochs,
    {
        let ghost table = resident_types::handlers_view(handlers@);
        let mut epoch: u32 = 0;
        while epoch < config.max_epochs
            invariant
                epoch <= config.max_epochs,
                config.initial_epoch + config.max_epochs <= u32::MAX,
                table == resident_types::handlers_view(handlers@),
                resident_model::waiters_exist(self@),
                self.conts@.len() <= u32::MAX,
                self.epoch_records@.len() == epoch,
                resident_model::after_epochs(config@, table, self@, epoch as int)
                    == resident_model::after_epochs(config@, table, old(self)@, 0),
            decreases config.max_epochs - epoch,
        {
            let lanes = self.lanes();
            if lanes.len() == 0 {
                return true;
            }
            let ghost before = self@;
            let ok = self.run_epoch(config, handlers, epoch, &lanes);
            if !ok {
                return false;
            }
            proof {
                assert(before.conts.len() <= u32::MAX);
                resident_laws::lemma_epoch_keeps(config@, table, before, epoch);
                assert(self@.conts.len() == self.conts@.len());
            }
            epoch = epoch + 1;
        }
        true
    }
}

proof fn lemma_failed_lane_fails_epoch(
    c: ConfigView,
    handlers: Map<u32, resident_types::ProgramView>,
    s: SyncView,
    epoch: u32,
    lanes: Seq<usize>,
    n: int,
    m: int,
)
    requires
        n <= m,
    ensures
        resident_model::lanes_evaluated(c, handlers, s, epoch, lanes, n) is None
            ==> resident_model::lanes_evaluated(c, handlers, s, epoch, lanes, m) is None,
    decreases m - n,
{
    if n < m {
        lemma_failed_lane_fails_epoch(c, handlers, s, epoch, lanes, n, m - 1);
    }
}

/// Whether a continuation asks for a lane with a claim on its actor.
pub open spec fn claims(cont: ContView) -> bool {
    resident_model::eligible(cont) && cont.mutable_access
}

/// Whether the continuation at `w` has the oldest claim on `actor` among the
/// first `n`.
pub open spec fn is_oldest_claim(conts: Seq<ContView>, n: int, actor: u64, w: int) -> bool {
    &&& 0 <= w < n <= conts.len()
    &&& claims(conts[w])
    &&& conts[w].actor == actor
    &&& forall|j: int|
        0 <= j < n && claims(#[trigger] conts[j]) && conts[j].actor == actor
            ==> resident_model::claim_at_least_as_old(conts, w, j)
}

/// Whether an outcome leaves the continuation parked.
pub fn is_parking(outcome: ResidentOutcome) -> (parking: bool)
    ensures
        parking == resident_model::parks(outcome),
{
    match outcome {
        ResidentOutcome::Registered => true,
        ResidentOutcome::Full => true,
        ResidentOutcome::Empty => true,
        _ => false,
    }
}

/// Appends the operation of one effect to the journal of its lane.
pub fn write_operation(
    journal: &mut DeviceOperationJournal,
    actor: u64,
    slot: Slot,
    ordinal: u32,
    e: ResidentEffect,
    outcome: ResidentOutcome,
)
    requires
        old(journal)@.payload.len() + resident_model::effect_payload(e, outcome).len() <= u32::MAX,
    ensures
        final(journal)@ == resident_model::journalled(
            old(journal)@,
            actor,
            slot,
            ordinal,
            e,
            outcome,
        ),
{
    let (value, auxiliary): (u64, u64) = match e {
        ResidentEffect::ObjectWrite { offset, value, .. } => (value, offset as u64),
        ResidentEffect::ObjectRead { offset, .. } => (0, offset as u64),
        ResidentEffect::FutureResolve { value, .. } => (value, 0),
        ResidentEffect::MailboxSend { value, .. } => (value, 0),
        _ => (0, 0),
    };
    let mut payload: Vec<u8> = Vec::new();
    match outcome {
        ResidentOutcome::ObjectRead(word) => {
            bytes::put_le(&mut payload, word, 8);
        },
        ResidentOutcome::ObjectWritten => {
            bytes::put_le(&mut payload, value, 8);
        },
        _ => {},
    }
    assert(payload@ =~= resident_model::effect_payload(e, outcome));
    let result_ref: u64 = match outcome {
        ResidentOutcome::ObjectRead(word) => word,
        ResidentOutcome::Resolved(word) => word,
        ResidentOutcome::Received { value, .. } => value,
        _ => 0,
    };
    if let Some((payload_offset, payload_len)) = journal.append_payload(payload.as_slice()) {
        journal.operations.push(
            DeviceLaneOperation {
                lane: slot.lane,
                ordinal,
                opcode: opcode(e),
                flags: 0,
                actor,
                target: target(e) as u64,
                value,
                auxiliary,
                result_ref,
                payload_offset,
                payload_len,
                result_code: outcome_code(outcome),
                result_aux: 0,
            },
        );
        assert(journal@ =~= resident_model::journalled(
            old(journal)@,
            actor,
            slot,
            ordinal,
            e,
            outcome,
        ));
    }
}

} // verus!
