//! What each effect of a resident run comes to, what a lane leaves of its continuation,
//! and what a run reports.

use crate::bytes;
use crate::executives::program_laws;
use crate::executives::resident_laws;
use crate::executives::resident_model;
use crate::executives::resident_model::{
    ContView, EmissionView, FutureView, Slot, SyncView,
};
use crate::executives::resident_program;
use crate::executives::resident_program::{ResidentDisposition, ResidentEffect, ResidentOutcome};
use crate::executives::resident_types::{
    ConfigView, ContinuationView, InitialFuture, ProgramView, ResidentCapability,
    ResidentObjectCapability,
};
use vstd::prelude::*;

verus! {

// ---- who may do what -------------------------------------------------------

/// Capabilities name futures by kind two and mailboxes by kind three.
pub open spec fn kind_of(e: ResidentEffect) -> u32 {
    match e {
        ResidentEffect::FutureObserve { .. } | ResidentEffect::FutureAwait { .. } => 2,
        ResidentEffect::FutureResolve { .. } => 2,
        ResidentEffect::MailboxSend { .. } | ResidentEffect::MailboxReceive { .. } => 3,
        _ => 1,
    }
}

/// To learn something takes the right one, and to change something the right two.
pub open spec fn right_of(e: ResidentEffect) -> u32 {
    match e {
        ResidentEffect::ObjectRead { .. } | ResidentEffect::FutureObserve { .. } => 1,
        ResidentEffect::FutureAwait { .. } | ResidentEffect::MailboxReceive { .. } => 1,
        _ => 2,
    }
}

pub open spec fn target_of(e: ResidentEffect) -> u32 {
    match e {
        ResidentEffect::ObjectRead { target, .. } => target,
        ResidentEffect::ObjectWrite { target, .. } => target,
        ResidentEffect::FutureObserve { target } => target,
        ResidentEffect::FutureAwait { target } => target,
        ResidentEffect::FutureResolve { target, .. } => target,
        ResidentEffect::MailboxSend { target, .. } => target,
        ResidentEffect::MailboxReceive { target } => target,
    }
}

/// A capability of the actor for that future or mailbox, with the right.
pub open spec fn allows(cap: ResidentCapability, actor: u64, e: ResidentEffect) -> bool {
    cap.actor == actor && cap.resource_kind == kind_of(e) && cap.target == target_of(e) && (
    cap.rights & right_of(e)) != 0
}

/// An effect on a future or a mailbox is allowed exactly to an actor that has a
/// capability for it.
pub proof fn law_futures_and_mailboxes_take_a_capability(
    c: ConfigView,
    actor: u64,
    e: ResidentEffect,
    epoch: u32,
)
    requires
        !(e is ObjectRead) && !(e is ObjectWrite),
    ensures
        resident_model::authorized(c, actor, e, epoch) <==> exists|k: int|
            0 <= k < c.capabilities.len() && #[trigger] allows(c.capabilities[k], actor, e),
{
    assert forall|k: int| 0 <= k < c.capabilities.len() implies #[trigger] allows(
        c.capabilities[k],
        actor,
        e,
    ) == resident_model::capability_grants(
        c.capabilities[k],
        actor,
        resident_model::effect_resource(e),
        resident_model::effect_target(e),
        resident_model::effect_right(e),
    ) by {}
    if resident_model::authorized(c, actor, e, epoch) {
        let k = choose|k: int|
            0 <= k < c.capabilities.len() && resident_model::capability_grants(
                #[trigger] c.capabilities[k],
                actor,
                resident_model::effect_resource(e),
                resident_model::effect_target(e),
                resident_model::effect_right(e),
            );
        assert(allows(c.capabilities[k], actor, e));
    }
}

/// A capability of the actor for the eight bytes at `offset` of that object, in the
/// version that the object has, that has not run out, with the right.
pub open spec fn allows_range(
    cap: ResidentObjectCapability,
    actor: u64,
    target: u32,
    offset: u32,
    right: u32,
    version: u32,
    epoch: u32,
) -> bool {
    &&& cap.actor == actor
    &&& cap.target == target
    &&& (cap.rights & right) != 0
    &&& cap.object_version == version
    &&& epoch <= cap.valid_until_epoch
    &&& cap.offset <= offset
    &&& offset + 8 <= cap.offset + cap.length
}

/// An effect on an object is allowed exactly to an actor that has a capability for its
/// whole range: the right one reads, and the right two writes.
pub proof fn law_objects_take_a_capability_for_the_range(
    c: ConfigView,
    actor: u64,
    target: u32,
    offset: u32,
    value: u64,
    epoch: u32,
)
    requires
        target < c.objects.len(),
    ensures
        ({
            let version = c.objects[target as int].version;
            &&& resident_model::authorized(
                c,
                actor,
                ResidentEffect::ObjectRead { target, offset },
                epoch,
            ) <==> exists|k: int|
                0 <= k < c.object_capabilities.len() && #[trigger] allows_range(
                    c.object_capabilities[k],
                    actor,
                    target,
                    offset,
                    1,
                    version,
                    epoch,
                )
            &&& resident_model::authorized(
                c,
                actor,
                ResidentEffect::ObjectWrite { target, offset, value },
                epoch,
            ) <==> exists|k: int|
                0 <= k < c.object_capabilities.len() && #[trigger] allows_range(
                    c.object_capabilities[k],
                    actor,
                    target,
                    offset,
                    2,
                    version,
                    epoch,
                )
        }),
{
    lemma_range(c, actor, target, offset, 1, epoch);
    lemma_range(c, actor, target, offset, 2, epoch);
}

proof fn lemma_range(c: ConfigView, actor: u64, target: u32, offset: u32, right: u32, epoch: u32)
    requires
        target < c.objects.len(),
    ensures
        resident_model::range_authorized(c, actor, target, offset, right, epoch) <==> exists|k: int|
            0 <= k < c.object_capabilities.len() && #[trigger] allows_range(
                c.object_capabilities[k],
                actor,
                target,
                offset,
                right,
                c.objects[target as int].version,
                epoch,
            ),
{
    let version = c.objects[target as int].version;
    assert forall|k: int| 0 <= k < c.object_capabilities.len() implies #[trigger] allows_range(
        c.object_capabilities[k],
        actor,
        target,
        offset,
        right,
        version,
        epoch,
    ) == resident_model::range_capability_grants(
        c.object_capabilities[k],
        actor,
        target,
        offset,
        right,
        epoch,
        version,
    ) by {}
    if resident_model::range_authorized(c, actor, target, offset, right, epoch) {
        let k = choose|k: int|
            0 <= k < c.object_capabilities.len() && resident_model::range_capability_grants(
                #[trigger] c.object_capabilities[k],
                actor,
                target,
                offset,
                right,
                epoch,
                version,
            );
        assert(allows_range(
            c.object_capabilities[k],
            actor,
            target,
            offset,
            right,
            version,
            epoch,
        ));
    }
}

// ---- what effects come to --------------------------------------------------

/// The lane's actor may perform the effect in this epoch.
pub open spec fn may(c: ConfigView, s: SyncView, slot: Slot, e: ResidentEffect) -> bool {
    resident_model::authorized(
        c,
        s.conts[slot.at as int].actor,
        e,
        (c.initial_epoch + slot.epoch) as u32,
    )
}

pub open spec fn after(c: ConfigView, s: SyncView, slot: Slot, n: u32, e: ResidentEffect) -> SyncView {
    resident_model::performed(c, s, slot, n, e).0
}

pub open spec fn outcome(c: ConfigView, s: SyncView, slot: Slot, n: u32, e: ResidentEffect) -> ResidentOutcome {
    resident_model::performed(c, s, slot, n, e).1
}

/// An effect that the actor may perform on something that is not there is answered so.
pub proof fn law_a_missing_target_is_invalid(
    c: ConfigView,
    s: SyncView,
    slot: Slot,
    n: u32,
    e: ResidentEffect,
)
    requires
        may(c, s, slot, e),
        match e {
            ResidentEffect::ObjectRead { target, offset } => target >= s.objects.len() || offset + 8
                > s.objects[target as int].len(),
            ResidentEffect::ObjectWrite { target, offset, .. } => target >= s.objects.len() || offset
                + 8 > s.objects[target as int].len(),
            ResidentEffect::MailboxSend { target, .. } => target >= s.mails.len(),
            ResidentEffect::MailboxReceive { target } => target >= s.mails.len(),
            _ => target_of(e) >= s.futures.len(),
        },
    ensures
        after(c, s, slot, n, e) == s,
        outcome(c, s, slot, n, e) == ResidentOutcome::InvalidTarget,
{
}

/// A read brings the word at its offset and changes nothing. A write puts its word there,
/// changes no other byte of the object, and no other object.
pub proof fn law_object_effects_touch_one_word(
    c: ConfigView,
    s: SyncView,
    slot: Slot,
    n: u32,
    target: u32,
    offset: u32,
    value: u64,
)
    requires
        target < s.objects.len(),
        offset + 8 <= s.objects[target as int].len(),
    ensures
        ({
            let read = ResidentEffect::ObjectRead { target, offset };
            let write = ResidentEffect::ObjectWrite { target, offset, value };
            let object = s.objects[target as int];
            &&& may(c, s, slot, read) ==> {
                &&& after(c, s, slot, n, read) == s
                &&& outcome(c, s, slot, n, read) matches ResidentOutcome::ObjectRead(word)
                    && word as nat == bytes::word_at(object, offset as int, 8)
            }
            &&& may(c, s, slot, write) ==> {
                let t = after(c, s, slot, n, write);
                &&& outcome(c, s, slot, n, write) == ResidentOutcome::ObjectWritten
                &&& program_laws::word_replaced(
                    object,
                    t.objects[target as int],
                    offset as int,
                    value as nat,
                )
                &&& t.objects.len() == s.objects.len()
                &&& forall|o: int|
                    0 <= o < s.objects.len() && o != target ==> #[trigger] t.objects[o]
                        == s.objects[o]
                &&& t.conts == s.conts
                &&& t.futures == s.futures
                &&& t.mails == s.mails
            }
        }),
{
    let object = s.objects[target as int];
    bytes::lemma_splice_then_read(object, offset as int, value);
    bytes::lemma_le_bytes_len(value as nat, 8);
    bytes::lemma_radix_values();
    bytes::lemma_le_bytes_of_value(object.subrange(offset as int, offset + 8));
}

/// To observe or await a future that is resolved brings its value and changes nothing. To
/// observe one that is not says so. To await one that is not parks the continuation on
/// it, behind those that wait already.
pub proof fn law_futures_are_observed_or_waited_for(
    c: ConfigView,
    s: SyncView,
    slot: Slot,
    n: u32,
    target: u32,
)
    requires
        target < s.futures.len(),
        slot.at < s.conts.len(),
        s.tickets < u32::MAX,
    ensures
        ({
            let observe = ResidentEffect::FutureObserve { target };
            let wait = ResidentEffect::FutureAwait { target };
            let cell = s.futures[target as int];
            &&& may(c, s, slot, observe) ==> {
                &&& after(c, s, slot, n, observe) == s
                &&& outcome(c, s, slot, n, observe) == match cell.value {
                    Some(value) => ResidentOutcome::Resolved(value),
                    None => ResidentOutcome::Pending,
                }
            }
            &&& may(c, s, slot, wait) && cell.value is Some ==> {
                &&& after(c, s, slot, n, wait) == s
                &&& outcome(c, s, slot, n, wait) == ResidentOutcome::Resolved(cell.value->0)
            }
            &&& may(c, s, slot, wait) && cell.value is None ==> {
                let t = after(c, s, slot, n, wait);
                let waiters = t.futures[target as int].waiters;
                &&& outcome(c, s, slot, n, wait) == ResidentOutcome::Registered
                &&& t.futures[target as int].value is None
                &&& waiters.len() > 0
                &&& waiters.contains(slot.at)
                &&& !cell.waiters.contains(slot.at) ==> waiters == cell.waiters.push(slot.at)
                &&& cell.waiters.contains(slot.at) ==> waiters == cell.waiters
                &&& is_parked(s, t, slot.at, wait)
                &&& t.objects == s.objects
                &&& t.mails == s.mails
            }
        }),
{
    let cell = s.futures[target as int];
    assert(cell.waiters.push(slot.at).contains(slot.at)) by {
        assert(cell.waiters.push(slot.at)[cell.waiters.len() as int] == slot.at);
    }
}

/// In `t` the continuation at `at` is parked on `e`, with the next ticket, and every other
/// continuation is as it was.
pub open spec fn is_parked(s: SyncView, t: SyncView, at: usize, e: ResidentEffect) -> bool {
    &&& t.tickets == s.tickets + 1
    &&& t.conts.len() == s.conts.len()
    &&& t.conts[at as int].pending == Some(e)
    &&& t.conts[at as int].waiter_order == t.tickets
    &&& t.conts[at as int].frame == s.conts[at as int].frame
    &&& t.conts[at as int].previous == s.conts[at as int].previous
    &&& t.conts[at as int].run_class == s.conts[at as int].run_class
    &&& forall|i: int| 0 <= i < s.conts.len() && i != at ==> #[trigger] t.conts[i] == s.conts[i]
}

/// A message goes to the end of its mailbox with its sender, and wakes the receiver that
/// has waited longest. A full mailbox takes nothing and parks the sender.
pub proof fn law_a_send_appends_or_parks(
    c: ConfigView,
    s: SyncView,
    slot: Slot,
    n: u32,
    target: u32,
    value: u64,
)
    requires
        target < s.mails.len(),
        slot.at < s.conts.len(),
        s.tickets < u32::MAX,
        may(c, s, slot, ResidentEffect::MailboxSend { target, value }),
        s.mails[target as int].receivers.len() > 0 ==> s.mails[target as int].receivers[0]
            < s.conts.len(),
    ensures
        ({
            let e = ResidentEffect::MailboxSend { target, value };
            let t = after(c, s, slot, n, e);
            let mail = s.mails[target as int];
            let left = t.mails[target as int];
            let actor = s.conts[slot.at as int].actor;
            if mail.queue.len() < mail.capacity {
                &&& outcome(c, s, slot, n, e) == ResidentOutcome::Sent
                &&& left.queue == mail.queue.push((actor, value))
                &&& left.senders == mail.senders
                &&& mail.receivers.len() == 0 ==> t.conts == s.conts && left.receivers.len() == 0
                &&& mail.receivers.len() > 0 ==> {
                    let who = mail.receivers[0];
                    &&& left.receivers == mail.receivers.skip(1)
                    &&& is_woken(s, t, who)
                }
            } else {
                &&& outcome(c, s, slot, n, e) == ResidentOutcome::Full
                &&& left.queue == mail.queue
                &&& left.senders.contains(slot.at)
                &&& !mail.senders.contains(slot.at) ==> left.senders == mail.senders.push(slot.at)
                &&& is_parked(s, t, slot.at, e)
            }
        }),
{
    let mail = s.mails[target as int];
    assert(mail.senders.push(slot.at).contains(slot.at)) by {
        assert(mail.senders.push(slot.at)[mail.senders.len() as int] == slot.at);
    }
}

/// In `t` the continuation at `who` is runnable, keeps what it waits for, and its wake is
/// on record; every other continuation is as it was.
pub open spec fn is_woken(s: SyncView, t: SyncView, who: usize) -> bool {
    &&& t.conts.len() == s.conts.len()
    &&& t.conts[who as int].runnable
    &&& t.conts[who as int].pending == s.conts[who as int].pending
    &&& t.conts[who as int].previous == s.conts[who as int].previous
    &&& t.conts[who as int].frame == s.conts[who as int].frame
    &&& t.wakes.len() == s.wakes.len() + 1
    &&& t.wakes.last().continuation == s.conts[who as int].id
    &&& forall|i: int| 0 <= i < s.conts.len() && i != who ==> #[trigger] t.conts[i] == s.conts[i]
}

/// A receive takes the oldest message, with its sender, and wakes the sender that has
/// waited longest for room. An empty mailbox parks the receiver.
pub proof fn law_a_receive_takes_the_oldest_or_parks(
    c: ConfigView,
    s: SyncView,
    slot: Slot,
    n: u32,
    target: u32,
)
    requires
        target < s.mails.len(),
        slot.at < s.conts.len(),
        s.tickets < u32::MAX,
        may(c, s, slot, ResidentEffect::MailboxReceive { target }),
        s.mails[target as int].senders.len() > 0 ==> s.mails[target as int].senders[0]
            < s.conts.len(),
    ensures
        ({
            let e = ResidentEffect::MailboxReceive { target };
            let t = after(c, s, slot, n, e);
            let mail = s.mails[target as int];
            let left = t.mails[target as int];
            if mail.queue.len() > 0 {
                &&& outcome(c, s, slot, n, e) == (ResidentOutcome::Received {
                    value: mail.queue[0].1,
                    sender: mail.queue[0].0,
                })
                &&& left.queue == mail.queue.skip(1)
                &&& left.receivers == mail.receivers
                &&& mail.senders.len() == 0 ==> t.conts == s.conts && left.senders.len() == 0
                &&& mail.senders.len() > 0 ==> {
                    let who = mail.senders[0];
                    &&& left.senders == mail.senders.skip(1)
                    &&& is_woken(s, t, who)
                }
            } else {
                &&& outcome(c, s, slot, n, e) == ResidentOutcome::Empty
                &&& left.queue.len() == 0
                &&& left.receivers.contains(slot.at)
                &&& !mail.receivers.contains(slot.at) ==> left.receivers == mail.receivers.push(
                    slot.at,
                )
                &&& is_parked(s, t, slot.at, e)
            }
        }),
{
    let mail = s.mails[target as int];
    assert(mail.receivers.push(slot.at).contains(slot.at)) by {
        assert(mail.receivers.push(slot.at)[mail.receivers.len() as int] == slot.at);
    }
}

/// An effect on one future, mailbox or object leaves all the others as they were.
pub proof fn law_an_effect_touches_its_target_only(
    c: ConfigView,
    s: SyncView,
    slot: Slot,
    n: u32,
    e: ResidentEffect,
    other: int,
)
    requires
        resident_model::waiters_exist(s),
        other != target_of(e),
    ensures
        ({
            let t = after(c, s, slot, n, e);
            &&& t.futures.len() == s.futures.len()
            &&& t.mails.len() == s.mails.len()
            &&& 0 <= other < s.futures.len() ==> t.futures[other] == s.futures[other]
            &&& 0 <= other < s.mails.len() ==> t.mails[other] == s.mails[other]
            &&& 0 <= other < s.objects.len() ==> t.objects[other] == s.objects[other]
        }),
{
    if let ResidentEffect::FutureResolve { target, value } = e {
        if target < s.futures.len() {
            let cell = s.futures[target as int];
            let marked = SyncView {
                futures: s.futures.update(
                    target as int,
                    FutureView { value: Some(value), waiters: Seq::empty() },
                ),
                ..s
            };
            lemma_delivery_keeps_tables(
                marked,
                slot,
                n,
                target,
                value,
                cell.waiters,
                cell.waiters.len() as int,
            );
        }
    }
}

proof fn lemma_delivery_keeps_tables(
    s: SyncView,
    slot: Slot,
    ordinal: u32,
    target: u32,
    value: u64,
    waiters: Seq<usize>,
    n: int,
)
    ensures
        ({
            let t = resident_model::delivered(s, slot, ordinal, target, value, waiters, n);
            t.futures == s.futures && t.mails == s.mails && t.objects == s.objects
        }),
    decreases n,
{
    if n > 0 {
        lemma_delivery_keeps_tables(s, slot, ordinal, target, value, waiters, n - 1);
    }
}

/// Only an await that has to wait, a send to a full mailbox and a receive from an empty
/// one park.
pub proof fn law_three_outcomes_park(o: ResidentOutcome)
    ensures
        resident_model::parks(o) <==> o == ResidentOutcome::Registered || o == ResidentOutcome::Full
            || o == ResidentOutcome::Empty,
{
}

/// An effect is on record with its epoch, lane, ordinal, continuation and outcome. What it
/// brought is handed to the continuation, unless it parked.
pub proof fn law_every_effect_is_on_record(
    s: SyncView,
    slot: Slot,
    n: u32,
    e: ResidentEffect,
    o: ResidentOutcome,
)
    requires
        slot.at < s.conts.len(),
    ensures
        ({
            let t = resident_model::noted(s, slot, n, e, o);
            let cont = s.conts[slot.at as int];
            let record = t.effects.last();
            &&& t.effects.len() == s.effects.len() + 1
            &&& record.epoch == slot.epoch
            &&& record.lane == slot.lane
            &&& record.ordinal == n
            &&& record.continuation == cont.id
            &&& record.effect == e
            &&& record.outcome == o
            &&& t.accesses.len() == s.accesses.len() + 1
            &&& t.accesses.last().lane == slot.lane
            &&& t.accesses.last().ordinal == n
            &&& t.accesses.last().resource == target_of(e)
            &&& t.accesses.last().resource_kind == kind_of(e)
            &&& t.accesses.last().mode == if e is FutureObserve || e is ObjectRead {
                1u32
            } else {
                2
            }
            &&& (o is Registered || o is Full || o is Empty) ==> t.conts == s.conts
            &&& !(o is Registered || o is Full || o is Empty) ==> {
                &&& t.conts[slot.at as int].previous == cont.previous.push(o)
                &&& t.conts[slot.at as int].frame == cont.frame
                &&& t.conts[slot.at as int].run_class == cont.run_class
                &&& t.conts[slot.at as int].runnable == cont.runnable
            }
        }),
{
}

/// The effects of a lane are performed in the order in which they were emitted, each on
/// what the one before it left.
pub proof fn law_effects_are_settled_in_order(
    c: ConfigView,
    s: SyncView,
    slot: Slot,
    effects: Seq<ResidentEffect>,
    n: int,
)
    requires
        0 <= n < effects.len(),
    ensures
        resident_model::settled(c, s, slot, effects, 0).state == s,
        !resident_model::settled(c, s, slot, effects, 0).parked,
        ({
            let before = resident_model::settled(c, s, slot, effects, n);
            let now = resident_model::settled(c, s, slot, effects, n + 1);
            let e = effects[n];
            let o = outcome(c, before.state, slot, n as u32, e);
            &&& now.state == resident_model::noted(
                after(c, before.state, slot, n as u32, e),
                slot,
                n as u32,
                e,
                o,
            )
            &&& now.parked == (before.parked || o is Registered || o is Full || o is Empty)
        }),
{
}

// ---- what a lane leaves ----------------------------------------------------

/// A continuation that is parked retries its effect, with its frame as it is. Any other
/// takes a step of the handler of its run class, on its frame and what its last effects
/// brought, which are then spent. Either way it is not runnable until something makes it
/// so, and its claim is as old as this epoch.
pub proof fn law_a_lane_retries_or_steps(
    c: ConfigView,
    handlers: Map<u32, ProgramView>,
    cont: ContView,
    at: usize,
    epoch: u32,
)
    requires
        c.initial_epoch + epoch <= u32::MAX,
    ensures
        match resident_model::evaluated_cont(c, handlers, cont, at, epoch) {
            None => cont.pending is None && (!handlers.contains_key(cont.run_class)
                || resident_program::program_step(
                handlers[cont.run_class].instructions,
                cont.frame,
                cont.previous,
                c.max_effects_per_step as int,
                c.max_frame_bytes as int,
            ) is None),
            Some((left, emission)) => {
                &&& !left.runnable
                &&& left.waiting_since == c.initial_epoch + epoch
                &&& left.id == cont.id
                &&& left.actor == cont.actor
                &&& left.run_class == cont.run_class
                &&& left.completed == cont.completed
                &&& left.pending is None
                &&& emission.at == at
                &&& match cont.pending {
                    Some(retry) => {
                        &&& emission.effects == seq![retry]
                        &&& emission.disposition == ResidentDisposition::Yield(cont.run_class)
                        &&& left.frame == cont.frame
                        &&& left.previous == cont.previous
                    },
                    None => {
                        &&& resident_program::program_step(
                            handlers[cont.run_class].instructions,
                            cont.frame,
                            cont.previous,
                            c.max_effects_per_step as int,
                            c.max_frame_bytes as int,
                        ) matches Some(step)
                        &&& emission.effects == step.effects
                        &&& emission.disposition == step.disposition
                        &&& left.frame == step.frame
                        &&& left.previous.len() == 0
                    },
                }
            },
        },
{
}

/// A lane that has not parked yields or completes as its step said: a yield makes the
/// continuation runnable in the class that it names, and a completion ends it and lists
/// its id. One that has parked does neither, whatever its step said.
pub proof fn law_a_lane_yields_completes_or_parks(
    c: ConfigView,
    s: SyncView,
    epoch: u32,
    lane: int,
    first: int,
    emission: EmissionView,
)
    requires
        resident_model::waiters_exist(s),
        emission.at < s.conts.len(),
        0 <= lane <= u32::MAX,
        0 <= first + lane < s.invocations.len(),
    ensures
        ({
            let slot = Slot { epoch, lane: lane as u32, at: emission.at };
            let settled = resident_model::settled(
                c,
                s,
                slot,
                emission.effects,
                emission.effects.len() as int,
            );
            let before = settled.state.conts[emission.at as int];
            let t = resident_model::lane_settled(c, s, epoch, lane, first, emission);
            let cont = t.conts[emission.at as int];
            &&& cont.frame == before.frame
            &&& cont.id == before.id
            &&& settled.parked ==> {
                &&& cont == before
                &&& t.completed == settled.state.completed
                &&& t.invocations[first + lane].disposition == 3
            }
            &&& !settled.parked && emission.disposition is Complete ==> {
                &&& cont.completed
                &&& cont.runnable == before.runnable
                &&& t.completed == settled.state.completed.push(before.id)
            }
            &&& !settled.parked ==> (emission.disposition matches ResidentDisposition::Yield(class)
                ==> {
                &&& cont.runnable
                &&& cont.run_class == class
                &&& cont.completed == before.completed
                &&& t.completed == settled.state.completed
            })
        }),
{
    let slot = Slot { epoch, lane: lane as u32, at: emission.at };
    resident_laws::lemma_settled_keeps(c, s, slot, emission.effects, emission.effects.len() as int);
}

/// A continuation asks for a lane exactly while it is runnable and not completed.
pub proof fn law_the_completed_do_not_run(conts: Seq<ContView>, i: int)
    requires
        resident_model::admitted(conts, i),
    ensures
        conts[i].runnable,
        !conts[i].completed,
{
}

/// Of the continuations that claim one actor, the one that has waited longest runs, and
/// the first of those that have waited as long. One that claims none runs whenever it can.
pub proof fn law_the_longest_waiting_claim_runs(conts: Seq<ContView>, i: int, j: int)
    requires
        0 <= i < conts.len(),
        0 <= j < conts.len(),
        conts[i].runnable && !conts[i].completed,
        conts[j].runnable && !conts[j].completed,
    ensures
        !conts[i].mutable_access ==> resident_model::admitted(conts, i),
        conts[i].mutable_access && conts[j].mutable_access && conts[i].actor == conts[j].actor && (
        conts[j].waiting_since < conts[i].waiting_since || (conts[j].waiting_since
            == conts[i].waiting_since && j < i)) ==> !resident_model::admitted(conts, i),
{
    if conts[i].mutable_access && conts[j].mutable_access && conts[i].actor == conts[j].actor && (
    conts[j].waiting_since < conts[i].waiting_since || (conts[j].waiting_since
        == conts[i].waiting_since && j < i)) {
        assert(resident_model::eligible(conts[j]));
        assert(!resident_model::claim_at_least_as_old(conts, i, j));
    }
}

// ---- a run from its start to its end ---------------------------------------

/// A run starts with the continuations runnable and with nothing behind them, the objects
/// and futures as the plan has them, and the mailboxes with their first messages.
pub proof fn law_a_run_starts_as_planned(
    c: ConfigView,
    conts: Seq<ContinuationView>,
    i: int,
)
    ensures
        ({
            let s = resident_model::initial(c, conts);
            let sorted = resident_model::in_id_order(conts);
            &&& 0 <= i < sorted.len() ==> {
                let cont = s.conts[i];
                &&& cont.id == sorted[i].id
                &&& cont.actor == sorted[i].actor
                &&& cont.run_class == sorted[i].run_class
                &&& cont.mutable_access == sorted[i].mutable_access
                &&& cont.waiting_since == sorted[i].waiting_since
                &&& cont.frame == sorted[i].frame
                &&& cont.runnable
                &&& !cont.completed
                &&& cont.pending is None
                &&& cont.previous.len() == 0
            }
            &&& 0 <= i < c.objects.len() ==> s.objects[i] == c.objects[i].bytes
            &&& 0 <= i < c.futures.len() ==> {
                &&& s.futures[i].waiters.len() == 0
                &&& s.futures[i].value == match c.futures[i] {
                    InitialFuture::Resolved(value) => Some(value),
                    InitialFuture::Pending => None,
                }
            }
            &&& 0 <= i < c.mailbox_capacities.len() ==> {
                &&& s.mails[i].capacity == c.mailbox_capacities[i]
                &&& s.mails[i].queue == c.mailbox_messages[i]
                &&& s.mails[i].receivers.len() == 0
                &&& s.mails[i].senders.len() == 0
            }
        }),
{
}

/// What a run reports is how its tables stand when it stops: what each object, future and
/// mailbox holds, and of each continuation its class, whether it completed, and what it
/// still waits for.
pub proof fn law_a_result_says_how_things_stand(s: SyncView, i: int)
    ensures
        ({
            let r = resident_model::result_of(s);
            &&& r.completed == s.completed
            &&& r.effects == s.effects
            &&& r.epochs as int == s.epoch_records.len() as u32 as int
            &&& r.quiescent <==> forall|k: int|
                0 <= k < s.conts.len() ==> !((#[trigger] s.conts[k]).runnable
                    && !s.conts[k].completed)
            &&& 0 <= i < s.objects.len() ==> r.object_values[i] == s.objects[i]
            &&& 0 <= i < s.futures.len() ==> r.future_values[i] == s.futures[i].value
            &&& 0 <= i < s.mails.len() ==> r.mailboxes[i] == s.mails[i].queue
            &&& 0 <= i < s.conts.len() ==> {
                &&& r.final_continuations[i].id == s.conts[i].id
                &&& r.final_continuations[i].run_class == s.conts[i].run_class
                &&& r.final_continuations[i].completed == s.conts[i].completed
                &&& r.final_continuations[i].pending == s.conts[i].pending
            }
        }),
{
    let r = resident_model::result_of(s);
    if r.quiescent {
        assert forall|k: int| 0 <= k < s.conts.len() implies !((#[trigger] s.conts[k]).runnable
            && !s.conts[k].completed) by {
            assert(!resident_model::eligible(s.conts[k]));
        }
    } else {
        let k = choose|k: int| 0 <= k < s.conts.len() && resident_model::eligible(
            #[trigger] s.conts[k],
        );
        assert(s.conts[k].runnable && !s.conts[k].completed);
    }
}

proof fn lemma_frames(conts: Seq<ContView>, n: int, i: int)
    requires
        0 <= i < n <= conts.len(),
        forall|a: int, b: int|
            0 <= a < conts.len() && 0 <= b < conts.len() && #[trigger] conts[a].id
                == #[trigger] conts[b].id ==> a == b,
    ensures
        resident_model::frames_of(conts, n).contains_key(conts[i].id),
        resident_model::frames_of(conts, n)[conts[i].id] == conts[i].frame,
    decreases n,
{
    if i < n - 1 {
        lemma_frames(conts, n - 1, i);
        assert(conts[i].id != conts[n - 1].id);
    }
}

/// The frame that a run reports under an id is the frame that its continuation ended with.
pub proof fn law_frames_are_reported_by_id(s: SyncView, i: int)
    requires
        0 <= i < s.conts.len(),
        forall|a: int, b: int|
            0 <= a < s.conts.len() && 0 <= b < s.conts.len() && #[trigger] s.conts[a].id
                == #[trigger] s.conts[b].id ==> a == b,
    ensures
        resident_model::result_of(s).frames.contains_key(s.conts[i].id),
        resident_model::result_of(s).frames[s.conts[i].id] == s.conts[i].frame,
{
    lemma_frames(s.conts, s.conts.len() as int, i);
}

/// A run goes on epoch by epoch until nothing asks for a lane or the epochs are used up.
pub proof fn law_a_run_goes_on_until_nothing_asks(
    c: ConfigView,
    handlers: Map<u32, ProgramView>,
    s: SyncView,
    epoch: int,
)
    requires
        0 <= epoch,
        s.conts.len() <= usize::MAX,
    ensures
        ({
            let asks = exists|i: int|
                0 <= i < s.conts.len() && (#[trigger] s.conts[i]).runnable && !s.conts[i].completed;
            let end = resident_model::after_epochs(c, handlers, s, epoch);
            if epoch < c.max_epochs && asks {
                match resident_model::after_epoch(c, handlers, s, epoch as u32) {
                    Some(t) => end == resident_model::after_epochs(c, handlers, t, epoch + 1),
                    None => end is None,
                }
            } else {
                end == Some(s)
            }
        }),
{
    let lanes = resident_model::lanes_of(s.conts);
    resident_laws::law_lanes_are_the_admitted_in_order(s.conts);
    if exists|i: int|
        0 <= i < s.conts.len() && (#[trigger] s.conts[i]).runnable && !s.conts[i].completed {
        let i = choose|i: int|
            0 <= i < s.conts.len() && (#[trigger] s.conts[i]).runnable && !s.conts[i].completed;
        assert(resident_model::eligible(s.conts[i]));
        resident_laws::law_admission_makes_progress(s.conts, i);
    } else if lanes.len() > 0 {
        let i = lanes[0] as int;
        assert(resident_model::admitted(s.conts, i));
        assert(s.conts[i].runnable && !s.conts[i].completed);
    }
}

/// A plan with nothing to run in, or whose parts do not fit each other, is refused.
pub proof fn law_a_plan_that_does_not_fit_is_refused(
    c: ConfigView,
    conts: Seq<ContinuationView>,
    handlers: Map<u32, ProgramView>,
    i: int,
    j: int,
)
    requires
        ({
            ||| c.max_epochs == 0
            ||| c.max_effects_per_step == 0
            ||| c.max_frame_bytes == 0
            ||| c.max_continuations == 0
            ||| c.initial_epoch + c.max_epochs > u32::MAX
            ||| c.objects.len() > 4_096
            ||| c.object_capabilities.len() > 16_384
            ||| c.objects.len() * c.max_frame_bytes > 16_777_216
            ||| conts.len() > c.max_continuations
            ||| c.mailbox_messages.len() != c.mailbox_capacities.len()
            ||| 0 <= i < c.mailbox_messages.len() && c.mailbox_messages[i].len()
                > c.mailbox_capacities[i]
            ||| 0 <= i < c.objects.len() && c.objects[i].bytes.len() > c.max_frame_bytes
            ||| 0 <= i < conts.len() && conts[i].frame.len() > c.max_frame_bytes
            ||| 0 <= i < conts.len() && !handlers.contains_key(conts[i].run_class)
            ||| 0 <= i < j < conts.len() && conts[i].id == conts[j].id
            ||| 0 <= i < c.object_capabilities.len() && c.object_capabilities[i].target
                >= c.objects.len()
            ||| 0 <= i < c.object_capabilities.len() && c.object_capabilities[i].object_version
                != c.objects[c.object_capabilities[i].target as int].version
            ||| 0 <= i < c.object_capabilities.len() && c.object_capabilities[i].offset
                + c.object_capabilities[i].length
                > c.objects[c.object_capabilities[i].target as int].bytes.len()
            ||| 0 <= i <= u32::MAX && handlers.contains_key(i as u32) && handlers[i as u32].run_class
                != i
        }),
    ensures
        resident_model::sync_result(c, conts, handlers) is None,
{
    if resident_model::plan_is_valid(c, conts, handlers) {
        if 0 <= i < j < conts.len() {
            assert(conts[i].id != conts[j].id);
        }
        if 0 <= i < c.object_capabilities.len() {
            assert(resident_model::object_capability_is_valid(c, c.object_capabilities[i]));
        }
        if 0 <= i <= u32::MAX && handlers.contains_key(i as u32) {
            assert(handlers[i as u32].run_class == i as u32);
        }
        if 0 <= i < conts.len() {
            assert(handlers.contains_key(conts[i].run_class));
        }
        if 0 <= i < c.objects.len() {
            assert(c.objects[i].bytes.len() <= c.max_frame_bytes);
        }
        if 0 <= i < c.mailbox_messages.len() {
            assert(c.mailbox_messages[i].len() <= c.mailbox_capacities[i]);
        }
    }
}

} // verus!
