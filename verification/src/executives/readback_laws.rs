//! How a resident run lies in a device's buffers, and how its journals and
//! records are written.

use crate::bytes;
use crate::device::JournalView;
use crate::executives::metal_resident_sync;
use crate::executives::metal_resident_sync::{
    GpuContinuation, GpuEffectRecord, GpuMailEntry, GpuMailbox, Readback,
};
use crate::executives::resident_model;
use crate::executives::resident_model::SyncView;
use crate::executives::resident_program::ResidentDisposition;
use crate::executives::resident_sync::{
    ConfigView, ContinuationView, InitialFuture, ObjectView, ProgramView, ResidentEffect,
    ResidentOutcome, ResidentSyncTrace,
};
use vstd::prelude::*;

verus! {

// ---- numbers for effects and outcomes --------------------------------------

/// Each effect has a number of its own.
pub proof fn law_effects_are_numbered(target: u32, offset: u32, value: u64)
    ensures
        resident_model::effect_opcode(ResidentEffect::FutureObserve { target }) == 1,
        resident_model::effect_opcode(ResidentEffect::ObjectRead { target, offset }) == 2,
        resident_model::effect_opcode(ResidentEffect::ObjectWrite { target, offset, value }) == 7,
        resident_model::effect_opcode(ResidentEffect::MailboxSend { target, value }) == 8,
        resident_model::effect_opcode(ResidentEffect::MailboxReceive { target }) == 9,
        resident_model::effect_opcode(ResidentEffect::FutureResolve { target, value }) == 10,
        resident_model::effect_opcode(ResidentEffect::FutureAwait { target }) == 11,
{
}

/// Each outcome has a code: values come with 2, what is pending or empty with 1, what is
/// done with 0, a registration with 3, and each refusal with one of its own.
pub proof fn law_outcomes_have_codes(value: u64, sender: u64)
    ensures
        resident_model::result_code(ResidentOutcome::Sent) == 0,
        resident_model::result_code(ResidentOutcome::ObjectWritten) == 0,
        resident_model::result_code(ResidentOutcome::Pending) == 1,
        resident_model::result_code(ResidentOutcome::Empty) == 1,
        resident_model::result_code(ResidentOutcome::Resolved(value)) == 2,
        resident_model::result_code(ResidentOutcome::ObjectRead(value)) == 2,
        resident_model::result_code(ResidentOutcome::Received { value, sender }) == 2,
        resident_model::result_code(ResidentOutcome::Registered) == 3,
        resident_model::result_code(ResidentOutcome::InvalidTarget) == 0x101,
        resident_model::result_code(ResidentOutcome::CapabilityDenied) == 0x104,
        resident_model::result_code(ResidentOutcome::Full) == 0x10c,
        resident_model::result_code(ResidentOutcome::DoubleResolve) == 0x111,
{
}

/// A trace's word is the frame's 32-bit FNV-1a hash.
pub proof fn law_a_hash_takes_byte_after_byte(s: Seq<u8>, byte: u8)
    ensures
        resident_model::fnv(Seq::empty()) == 0x811c_9dc5,
        resident_model::fnv(s.push(byte)) as int == ((resident_model::fnv(s) ^ (byte as u32))
            * 0x0100_0193) % 0x1_0000_0000,
{
    assert(s.push(byte).drop_last() =~= s);
}

// ---- evaluation ------------------------------------------------------------

/// An evaluated lane is traced with its frame's hash and recorded with how its step ended:
/// 1 and the next class for a yield, 2 and no class for a completion.
pub proof fn law_an_evaluation_is_traced_and_recorded(
    c: ConfigView,
    handlers: Map<u32, ProgramView>,
    s: SyncView,
    epoch: u32,
    lane: int,
    at: usize,
)
    requires
        resident_model::lane_evaluated(c, handlers, s, epoch, lane, at) is Some,
        at < s.conts.len(),
        0 <= lane <= u32::MAX,
    ensures
        ({
            let (t, emission) = resident_model::lane_evaluated(
                c,
                handlers,
                s,
                epoch,
                lane,
                at,
            )->0;
            let cont = t.conts[at as int];
            &&& t.trace.len() == s.trace.len() + 1
            &&& t.trace.drop_last() == s.trace
            &&& t.trace.last() == (ResidentSyncTrace {
                epoch,
                lane: lane as u32,
                continuation: cont.id,
                run_class: cont.run_class,
                event: 0,
                word: resident_model::fnv(cont.frame),
            })
            &&& t.invocations.len() == s.invocations.len() + 1
            &&& t.invocations.last().epoch == epoch
            &&& t.invocations.last().lane == lane
            &&& t.invocations.last().continuation == cont.id
            &&& t.invocations.last().run_class == cont.run_class
            &&& match emission.disposition {
                ResidentDisposition::Yield(class) => t.invocations.last().disposition == 1
                    && t.invocations.last().next_run_class == class,
                ResidentDisposition::Complete => t.invocations.last().disposition == 2
                    && t.invocations.last().next_run_class == 0,
            }
            &&& t.effects == s.effects
            &&& t.objects == s.objects
            &&& t.futures == s.futures
            &&& t.mails == s.mails
            &&& forall|i: int| 0 <= i < s.conts.len() && i != at ==> #[trigger] t.conts[i] == s.conts[i]
        }),
{
    let (t, emission) = resident_model::lane_evaluated(c, handlers, s, epoch, lane, at)->0;
    assert(t.trace.drop_last() =~= s.trace);
}

/// Lanes are evaluated in order, and every one of them before anything that they emitted
/// takes effect.
pub proof fn law_lanes_are_evaluated_before_effects(
    c: ConfigView,
    handlers: Map<u32, ProgramView>,
    s: SyncView,
    epoch: u32,
    lanes: Seq<usize>,
    n: int,
)
    requires
        0 <= n <= lanes.len(),
        forall|i: int| 0 <= i < lanes.len() ==> (#[trigger] lanes[i]) < s.conts.len(),
        resident_model::lanes_evaluated(c, handlers, s, epoch, lanes, n) is Some,
    ensures
        ({
            let (t, emissions) = resident_model::lanes_evaluated(
                c,
                handlers,
                s,
                epoch,
                lanes,
                n,
            )->0;
            &&& emissions.len() == n
            &&& t.objects == s.objects
            &&& t.futures == s.futures
            &&& t.mails == s.mails
            &&& t.effects == s.effects
            &&& t.conts.len() == s.conts.len()
            &&& n > 0 ==> (resident_model::lanes_evaluated(c, handlers, s, epoch, lanes, n - 1)
                matches Some((u, before)) && before == emissions.drop_last()
                && resident_model::lane_evaluated(c, handlers, u, epoch, n - 1, lanes[n - 1])
                == Some((t, emissions.last())))
        }),
    decreases n,
{
    if n > 0 {
        law_lanes_are_evaluated_before_effects(c, handlers, s, epoch, lanes, n - 1);
        let (t, emissions) = resident_model::lanes_evaluated(c, handlers, s, epoch, lanes, n)->0;
        let (u, before) = resident_model::lanes_evaluated(c, handlers, s, epoch, lanes, n - 1)->0;
        assert(emissions.drop_last() =~= before);
    }
}

// ---- what the device is handed ---------------------------------------------

/// A device's continuation starts ready, with nothing behind it and nothing pending.
pub proof fn law_a_device_continuation_starts_ready(cont: ContinuationView)
    ensures
        ({
            let d = metal_resident_sync::device_continuation(cont);
            &&& d.id == cont.id
            &&& d.actor == cont.actor
            &&& d.run_class == cont.run_class
            &&& d.frame_len == cont.frame.len() as u32
            &&& d.state == 1
            &&& d.last_epoch == 0xffff_ffff
            &&& d.pending_opcode == 0
            &&& d.previous_kind == 0
            &&& d.reserved == 0
        }),
{
}

/// Futures, messages and objects enter as they are planned.
pub proof fn law_cells_enter_as_planned(value: u64, message: (u64, u64), object: ObjectView)
    ensures
        metal_resident_sync::device_future(InitialFuture::Pending).resolved == 0,
        metal_resident_sync::device_future(InitialFuture::Resolved(value)).resolved == 1,
        metal_resident_sync::device_future(InitialFuture::Resolved(value)).value == value,
        metal_resident_sync::device_entry(message).sender == message.0,
        metal_resident_sync::device_entry(message).value == message.1,
        metal_resident_sync::device_object(object).len == object.bytes.len() as u32,
        metal_resident_sync::device_object(object).version == object.version,
{
}

proof fn lemma_instructions(classes: Seq<u32>, table: Map<u32, ProgramView>, n: int, i: int, k: int)
    requires
        0 <= i < n <= classes.len(),
        0 <= k < table[classes[i]].instructions.len(),
    ensures
        metal_resident_sync::device_instructions(classes, table, i).len()
            == metal_resident_sync::instruction_total(classes, table, i),
        metal_resident_sync::device_instructions(classes, table, n).len()
            == metal_resident_sync::instruction_total(classes, table, n),
        ({
            let at = metal_resident_sync::instruction_total(classes, table, i) + k;
            &&& at < metal_resident_sync::instruction_total(classes, table, n)
            &&& metal_resident_sync::device_instructions(classes, table, n)[at]
                == table[classes[i]].instructions[k]
        }),
    decreases n,
{
    lemma_total(classes, table, n - 1);
    lemma_total(classes, table, i);
    if i < n - 1 {
        lemma_instructions(classes, table, n - 1, i, k);
    }
}

proof fn lemma_total(classes: Seq<u32>, table: Map<u32, ProgramView>, n: int)
    requires
        0 <= n <= classes.len(),
    ensures
        metal_resident_sync::device_instructions(classes, table, n).len()
            == metal_resident_sync::instruction_total(classes, table, n),
    decreases n,
{
    if n > 0 {
        lemma_total(classes, table, n - 1);
    }
}

/// Programs lie one behind the other, and a handler points at its own.
pub proof fn law_a_handler_points_at_its_program(
    classes: Seq<u32>,
    table: Map<u32, ProgramView>,
    i: int,
    k: int,
)
    requires
        metal_resident_sync::instruction_total(classes, table, classes.len() as int) <= u32::MAX,
        0 <= i < classes.len(),
        0 <= k < table[classes[i]].instructions.len(),
    ensures
        ({
            let h = metal_resident_sync::device_handler(classes, table, i);
            let all = metal_resident_sync::device_instructions(
                classes,
                table,
                classes.len() as int,
            );
            &&& h.run_class == classes[i]
            &&& h.instruction_count == table[classes[i]].instructions.len()
            &&& all[h.instruction_offset + k] == table[classes[i]].instructions[k]
        }),
{
    lemma_instructions(classes, table, classes.len() as int, i, k);
    lemma_instructions(
        classes,
        table,
        classes.len() as int,
        i,
        table[classes[i]].instructions.len() - 1,
    );
}

/// Frames, messages and objects lie in rows of one length, each at its own row's start.
pub proof fn law_rows_lie_a_stride_apart<T>(
    rows: Seq<Seq<T>>,
    n: int,
    stride: nat,
    blank: T,
    i: int,
    k: int,
)
    requires
        0 <= i < n <= rows.len(),
        0 <= k < stride,
    ensures
        metal_resident_sync::padded(rows, n, stride, blank).len() == n * stride,
        0 <= i * stride + k < n * stride,
        metal_resident_sync::padded(rows, n, stride, blank)[i * stride + k] == if k < rows[i].len() {
            rows[i][k]
        } else {
            blank
        },
    decreases n,
{
    metal_resident_sync::lemma_padded_len(rows, n, stride, blank);
    metal_resident_sync::lemma_padded_len(rows, n - 1, stride, blank);
    assert((n - 1) * stride + stride == n * stride && 0 <= i * stride) by (nonlinear_arith)
        requires
            0 <= i,
            0 <= stride,
    ;
    if i < n - 1 {
        law_rows_lie_a_stride_apart(rows, n - 1, stride, blank, i, k);
    }
}

/// A plan is laid out with its continuations in the order of their ids, its rows as long as
/// the longest frame or the mailboxes' room, and room for every effect of every step.
pub proof fn law_a_plan_is_laid_out_in_id_order(
    c: ConfigView,
    conts: Seq<ContinuationView>,
    table: Map<u32, ProgramView>,
)
    ensures
        ({
            let p = metal_resident_sync::laid_out(c, conts, table);
            let sorted = resident_model::in_id_order(conts);
            &&& p.config.continuation_count == conts.len() as u32
            &&& p.config.future_count == c.futures.len() as u32
            &&& p.config.mailbox_count == c.mailbox_capacities.len() as u32
            &&& p.config.capability_count == c.capabilities.len() as u32
            &&& p.config.object_count == c.objects.len() as u32
            &&& p.config.object_capability_count == c.object_capabilities.len() as u32
            &&& p.config.max_epochs == c.max_epochs
            &&& p.config.max_effects == c.max_effects_per_step
            &&& p.config.frame_stride == c.max_frame_bytes
            &&& p.config.object_stride == c.max_frame_bytes
            &&& p.config.mailbox_stride == c.max_continuations
            &&& p.config.initial_epoch == c.initial_epoch
            &&& p.config.epoch_capacity == c.max_epochs
            &&& p.effect_capacity == (c.max_epochs * conts.len() * c.max_effects_per_step) as usize
            &&& p.invocation_capacity == (c.max_epochs * conts.len()) as usize
            &&& p.trace_capacity == (c.max_epochs * conts.len() * c.max_effects_per_step
                + c.max_epochs * conts.len()) as usize
            &&& p.continuations.len() == sorted.len()
            &&& forall|i: int|
                0 <= i < sorted.len() ==> (#[trigger] p.continuations[i]).id == sorted[i].id
                    && p.continuations[i].run_class == sorted[i].run_class
            &&& p.futures.len() == c.futures.len()
            &&& p.mailboxes.len() == c.mailbox_capacities.len()
            &&& forall|i: int|
                0 <= i < p.mailboxes.len() ==> {
                    &&& (#[trigger] p.mailboxes[i]).capacity == c.mailbox_capacities[i]
                    &&& p.mailboxes[i].head == 0
                    &&& p.mailboxes[i].count == c.mailbox_messages[i].len() as u32
                }
            &&& forall|i: int|
                0 <= i < c.capabilities.len() ==> {
                    &&& (#[trigger] p.capabilities[i]).actor == c.capabilities[i].actor
                    &&& p.capabilities[i].kind == c.capabilities[i].resource_kind
                    &&& p.capabilities[i].target == c.capabilities[i].target
                    &&& p.capabilities[i].rights == c.capabilities[i].rights
                }
            &&& forall|i: int|
                0 <= i < c.object_capabilities.len() ==> {
                    &&& (#[trigger] p.object_capabilities[i]).actor
                        == c.object_capabilities[i].actor
                    &&& p.object_capabilities[i].offset == c.object_capabilities[i].offset
                    &&& p.object_capabilities[i].length == c.object_capabilities[i].length
                    &&& p.object_capabilities[i].target == c.object_capabilities[i].target
                    &&& p.object_capabilities[i].rights == c.object_capabilities[i].rights
                    &&& p.object_capabilities[i].object_version
                        == c.object_capabilities[i].object_version
                    &&& p.object_capabilities[i].valid_until_epoch
                        == c.object_capabilities[i].valid_until_epoch
                }
        }),
{
}

// ---- what the device leaves ------------------------------------------------

/// What a record says happened goes by the record's number, value and sender.
pub proof fn law_a_record_says_what_happened(r: GpuEffectRecord)
    ensures
        r.outcome == 1 ==> metal_resident_sync::reported_outcome(r) == Some(
            ResidentOutcome::Resolved(r.result_value),
        ),
        r.outcome == 2 ==> metal_resident_sync::reported_outcome(r) == Some(
            ResidentOutcome::Registered,
        ),
        r.outcome == 3 ==> metal_resident_sync::reported_outcome(r) == Some(ResidentOutcome::Sent),
        r.outcome == 4 ==> metal_resident_sync::reported_outcome(r) == Some(
            ResidentOutcome::Received { value: r.result_value, sender: r.result_sender },
        ),
        r.outcome == 5 ==> metal_resident_sync::reported_outcome(r) == Some(
            ResidentOutcome::CapabilityDenied,
        ),
        r.outcome == 6 ==> metal_resident_sync::reported_outcome(r) == Some(
            ResidentOutcome::InvalidTarget,
        ),
        r.outcome == 7 ==> metal_resident_sync::reported_outcome(r) == Some(ResidentOutcome::Full),
        r.outcome == 8 ==> metal_resident_sync::reported_outcome(r) == Some(ResidentOutcome::Empty),
        r.outcome == 9 ==> metal_resident_sync::reported_outcome(r) == Some(
            ResidentOutcome::DoubleResolve,
        ),
        r.outcome == 10 ==> metal_resident_sync::reported_outcome(r) == Some(
            ResidentOutcome::Pending,
        ),
        r.outcome == 11 ==> metal_resident_sync::reported_outcome(r) == Some(
            ResidentOutcome::ObjectRead(r.result_value),
        ),
        r.outcome == 12 ==> metal_resident_sync::reported_outcome(r) == Some(
            ResidentOutcome::ObjectWritten,
        ),
        r.outcome == 0 || r.outcome > 12 ==> metal_resident_sync::reported_outcome(r) is None,
        r.opcode == 1 ==> metal_resident_sync::reported_effect(r) == Some(
            ResidentEffect::FutureObserve { target: r.target },
        ),
        r.opcode == 2 ==> metal_resident_sync::reported_effect(r) == Some(
            ResidentEffect::ObjectRead { target: r.target, offset: r.reserved },
        ),
        r.opcode == 7 ==> metal_resident_sync::reported_effect(r) == Some(
            ResidentEffect::ObjectWrite { target: r.target, offset: r.reserved, value: r.value },
        ),
        r.opcode == 8 ==> metal_resident_sync::reported_effect(r) == Some(
            ResidentEffect::MailboxSend { target: r.target, value: r.value },
        ),
        r.opcode == 9 ==> metal_resident_sync::reported_effect(r) == Some(
            ResidentEffect::MailboxReceive { target: r.target },
        ),
        r.opcode == 10 ==> metal_resident_sync::reported_effect(r) == Some(
            ResidentEffect::FutureResolve { target: r.target, value: r.value },
        ),
        r.opcode == 11 ==> metal_resident_sync::reported_effect(r) == Some(
            ResidentEffect::FutureAwait { target: r.target },
        ),
        !(r.opcode == 1 || r.opcode == 2 || 7 <= r.opcode <= 11)
            ==> metal_resident_sync::reported_effect(r) is None,
{
}

/// A journalled record keeps the record's place, effect and outcome, and its payload lies
/// behind that of the records before it.
pub proof fn law_a_journalled_record_keeps_its_fields(
    j: JournalView,
    actor: u64,
    r: GpuEffectRecord,
)
    requires
        metal_resident_sync::reported_outcome(r) is Some,
        j.payload.len() <= u32::MAX,
    ensures
        ({
            let after = metal_resident_sync::record_journalled(j, actor, r);
            let o = after.operations.last();
            let outcome = metal_resident_sync::reported_outcome(r)->0;
            &&& after.operations.len() == j.operations.len() + 1
            &&& after.operations.drop_last() == j.operations
            &&& o.lane == r.lane
            &&& o.ordinal == r.ordinal
            &&& o.opcode == r.opcode
            &&& o.actor == actor
            &&& o.target == r.target
            &&& o.value == r.value
            &&& o.auxiliary == r.reserved
            &&& o.result_code == resident_model::result_code(outcome)
            &&& o.result_ref == if outcome is ObjectWritten {
                0
            } else {
                r.result_value
            }
            &&& o.payload_offset == j.payload.len()
            &&& after.payload.take(j.payload.len() as int) == j.payload
            &&& match outcome {
                ResidentOutcome::ObjectRead(value) => after.payload.skip(j.payload.len() as int)
                    == bytes::le_bytes(value as nat, 8),
                ResidentOutcome::ObjectWritten => after.payload.skip(j.payload.len() as int)
                    == bytes::le_bytes(r.value as nat, 8),
                _ => after.payload == j.payload && o.payload_len == 0,
            }
        }),
{
    let after = metal_resident_sync::record_journalled(j, actor, r);
    assert(after.operations.drop_last() =~= j.operations);
    assert(after.payload.take(j.payload.len() as int) =~= j.payload);
    assert(after.payload.skip(j.payload.len() as int) =~= metal_resident_sync::reported_payload(r));
    if metal_resident_sync::reported_payload(r).len() == 0 {
        assert(after.payload =~= j.payload);
    }
}

/// Lanes are told apart by epoch and place, and ordered by epoch first.
pub proof fn law_lanes_are_told_apart(epoch: u32, lane: u32, later: u32, other: u32)
    ensures
        metal_resident_sync::lane_key(epoch, lane) == metal_resident_sync::lane_key(later, other)
            <==> epoch == later && lane == other,
        epoch < later ==> metal_resident_sync::lane_key(epoch, lane)
            < metal_resident_sync::lane_key(later, other),
        lane < other ==> metal_resident_sync::lane_key(epoch, lane) < metal_resident_sync::lane_key(
            epoch,
            other,
        ),
{
}

/// The actor of a record is the one of its continuation.
pub proof fn law_a_record_s_actor_is_its_continuation_s(
    specs: Seq<ContinuationView>,
    from: int,
    id: u64,
)
    requires
        0 <= from <= specs.len(),
    ensures
        match metal_resident_sync::actor_from(specs, from, id) {
            Some(actor) => exists|i: int|
                from <= i < specs.len() && (#[trigger] specs[i]).id == id && specs[i].actor == actor
                    && forall|j: int| from <= j < i ==> (#[trigger] specs[j]).id != id,
            None => forall|i: int| from <= i < specs.len() ==> (#[trigger] specs[i]).id != id,
        },
    decreases specs.len() - from,
{
    if from < specs.len() {
        if specs[from].id != id {
            law_a_record_s_actor_is_its_continuation_s(specs, from + 1, id);
        }
    }
}

/// A final continuation tells whether it completed and what it waits for.
pub proof fn law_a_final_continuation_tells_what_it_waits_for(cont: GpuContinuation)
    ensures
        ({
            let f = metal_resident_sync::left_by_device(cont);
            &&& f.id == cont.id
            &&& f.run_class == cont.run_class
            &&& f.completed <==> cont.state == 3
            &&& cont.pending_opcode == 0 ==> f.pending is None && f.waiter_order == 0
            &&& cont.pending_opcode != 0 ==> f.waiter_order == cont.reserved
            &&& cont.pending_opcode == 1 ==> f.pending == Some(
                ResidentEffect::FutureAwait { target: cont.pending_target },
            )
            &&& cont.pending_opcode == 3 ==> f.pending == Some(
                ResidentEffect::MailboxSend {
                    target: cont.pending_target,
                    value: cont.pending_value,
                },
            )
            &&& cont.pending_opcode == 4 ==> f.pending == Some(
                ResidentEffect::MailboxReceive { target: cont.pending_target },
            )
        }),
{
}

/// A mailbox's messages are read from its head on, around its ring.
pub proof fn law_a_ring_is_read_from_its_head(
    mail: GpuMailbox,
    entries: Seq<GpuMailEntry>,
    first: int,
    stride: int,
    k: int,
)
    requires
        stride > 0,
        0 <= k < mail.count,
    ensures
        ({
            let messages = metal_resident_sync::ring_messages(mail, entries, first, stride);
            let slot = (mail.head + k) % stride;
            &&& messages.len() == mail.count
            &&& messages[k] == (entries[first + slot].sender, entries[first + slot].value)
        }),
{
}

/// A run is read from the device's tables: records, accesses and values in the device's
/// order, each object from its own row, each future where it is resolved.
pub proof fn law_a_readback_is_read_table_by_table(
    c: ConfigView,
    specs: Seq<ContinuationView>,
    back: Readback,
)
    ensures
        ({
            let d = metal_resident_sync::decoded(c, specs, back);
            &&& d.effects.len() == back.effects@.len()
            &&& d.accesses.len() == back.effects@.len()
            &&& forall|i: int|
                0 <= i < d.effects.len() ==> {
                    let r = back.effects@[i];
                    &&& (#[trigger] d.effects[i]).epoch == r.epoch
                    &&& d.effects[i].lane == r.lane
                    &&& d.effects[i].ordinal == r.ordinal
                    &&& d.effects[i].continuation == r.continuation
                    &&& d.effects[i].effect == metal_resident_sync::reported_effect(r)->0
                    &&& d.effects[i].outcome == metal_resident_sync::reported_outcome(r)->0
                }
            &&& forall|i: int|
                0 <= i < d.accesses.len() ==> {
                    let r = back.effects@[i];
                    let e = metal_resident_sync::reported_effect(r)->0;
                    &&& (#[trigger] d.accesses[i]).resource == r.target
                    &&& d.accesses[i].lane == r.lane
                    &&& d.accesses[i].ordinal == r.ordinal
                    &&& d.accesses[i].mode == if e is FutureObserve || e is ObjectRead {
                        1u32
                    } else {
                        2
                    }
                    &&& d.accesses[i].resource_kind == if e is ObjectRead || e is ObjectWrite {
                        1u32
                    } else if e is MailboxSend || e is MailboxReceive {
                        3
                    } else {
                        2
                    }
                }
            &&& d.trace == back.trace@
            &&& d.epochs == back.status.epochs
            &&& d.quiescent <==> back.status.quiescent != 0
            &&& d.completed == back.completed@
            &&& d.invocations == back.invocations@
            &&& d.wakes == back.wakes@
            &&& d.epoch_records == back.epoch_records@
            &&& d.future_values.len() == back.futures@.len()
            &&& forall|i: int|
                0 <= i < back.futures@.len() ==> #[trigger] d.future_values[i]
                    == if back.futures@[i].resolved != 0 {
                    Some(back.futures@[i].value)
                } else {
                    None
                }
            &&& d.object_values.len() == c.objects.len()
            &&& forall|i: int|
                0 <= i < c.objects.len() ==> #[trigger] d.object_values[i]
                    == back.object_bytes@.subrange(
                    i * c.max_frame_bytes,
                    i * c.max_frame_bytes + c.objects[i].bytes.len(),
                )
            &&& d.final_continuations.len() == back.continuations@.len()
            &&& forall|i: int|
                0 <= i < d.final_continuations.len() ==> (#[trigger] d.final_continuations[i]).id
                    == back.continuations@[i].id
        }),
{
}

/// A lane's journal holds the records of that lane, in the order of the records.
pub proof fn law_a_journal_holds_its_lane_s_records(
    specs: Seq<ContinuationView>,
    raw: Seq<GpuEffectRecord>,
    n: int,
    epoch: u32,
    lane: u32,
)
    requires
        0 <= n < raw.len(),
    ensures
        ({
            let key = metal_resident_sync::lane_key(epoch, lane);
            let before = metal_resident_sync::lane_journal(specs, raw, n, key);
            let after = metal_resident_sync::lane_journal(specs, raw, n + 1, key);
            let actor = metal_resident_sync::actor_from(specs, 0, raw[n].continuation)->0;
            &&& metal_resident_sync::lane_journal(specs, raw, 0, key).operations.len() == 0
            &&& raw[n].epoch == epoch && raw[n].lane == lane ==> after
                == metal_resident_sync::record_journalled(before, actor, raw[n])
            &&& !(raw[n].epoch == epoch && raw[n].lane == lane) ==> after == before
        }),
{
    law_lanes_are_told_apart(raw[n].epoch, raw[n].lane, epoch, lane);
}

} // verus!
