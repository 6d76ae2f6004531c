//! What every resident run keeps.

use crate::bytes;
use crate::executives::resident_model;
use crate::executives::resident_model::{ContView, EmissionView, FutureView, Slot, SyncView};
use crate::executives::resident_program;
use crate::executives::resident_program::{ResidentEffect, ResidentInstruction, ResidentOutcome};
use crate::executives::resident_types::{ConfigView, ProgramView};
use vstd::prelude::*;

verus! {

/// Whether `t` has the continuations, cells and records of `s` where settling
/// an effect may not touch them.
pub open spec fn same_shape(s: SyncView, t: SyncView) -> bool {
    &&& t.conts.len() == s.conts.len()
    &&& t.objects.len() == s.objects.len()
    &&& t.futures.len() == s.futures.len()
    &&& t.mails.len() == s.mails.len()
    &&& forall|i: int|
        #![trigger t.conts[i]]
        0 <= i < s.conts.len() ==> {
            &&& t.conts[i].id == s.conts[i].id
            &&& t.conts[i].actor == s.conts[i].actor
            &&& t.conts[i].mutable_access == s.conts[i].mutable_access
            &&& t.conts[i].frame.len() == s.conts[i].frame.len()
        }
    &&& forall|i: int|
        0 <= i < s.objects.len() ==> (#[trigger] t.objects[i]).len() == s.objects[i].len()
    &&& forall|i: int|
        0 <= i < s.futures.len() && s.futures[i].value is Some
            ==> (#[trigger] t.futures[i]).value == s.futures[i].value
    &&& forall|i: int|
        0 <= i < s.mails.len() ==> (#[trigger] t.mails[i]).capacity == s.mails[i].capacity
    &&& forall|i: int|
        0 <= i < s.mails.len() && s.mails[i].queue.len() <= s.mails[i].capacity
            ==> (#[trigger] t.mails[i]).queue.len() <= t.mails[i].capacity
}

pub proof fn lemma_same_shape_transitive(s: SyncView, t: SyncView, u: SyncView)
    requires
        same_shape(s, t),
        same_shape(t, u),
    ensures
        same_shape(s, u),
{
    assert forall|i: int| 0 <= i < s.conts.len() implies {
        &&& (#[trigger] u.conts[i]).id == s.conts[i].id
        &&& u.conts[i].actor == s.conts[i].actor
        &&& u.conts[i].mutable_access == s.conts[i].mutable_access
        &&& u.conts[i].frame.len() == s.conts[i].frame.len()
    } by {
        assert(t.conts[i].id == s.conts[i].id);
    }
    assert forall|i: int| 0 <= i < s.objects.len() implies (#[trigger] u.objects[i]).len()
        == s.objects[i].len() by {
        assert(t.objects[i].len() == s.objects[i].len());
    }
    assert forall|i: int|
        0 <= i < s.futures.len() && s.futures[i].value is Some implies (
    #[trigger] u.futures[i]).value == s.futures[i].value by {
        assert(t.futures[i].value == s.futures[i].value);
    }
    assert forall|i: int| 0 <= i < s.mails.len() implies (#[trigger] u.mails[i]).capacity
        == s.mails[i].capacity by {
        assert(t.mails[i].capacity == s.mails[i].capacity);
    }
    assert forall|i: int|
        0 <= i < s.mails.len() && s.mails[i].queue.len() <= s.mails[i].capacity implies (
    #[trigger] u.mails[i]).queue.len() <= u.mails[i].capacity by {
        assert(t.mails[i].queue.len() <= t.mails[i].capacity);
    }
}

proof fn lemma_delivered_keeps(
    s: SyncView,
    slot: Slot,
    ordinal: u32,
    target: u32,
    value: u64,
    waiters: Seq<usize>,
    n: int,
)
    requires
        resident_model::waiters_exist(s),
        slot.at < s.conts.len(),
        n <= waiters.len(),
        forall|w: int| 0 <= w < waiters.len() ==> waiters[w] < s.conts.len(),
    ensures
        ({
            let t = resident_model::delivered(s, slot, ordinal, target, value, waiters, n);
            &&& resident_model::waiters_exist(t)
            &&& same_shape(s, t)
            &&& t.futures == s.futures
            &&& t.mails == s.mails
            &&& t.objects == s.objects
            &&& t.invocations == s.invocations
            &&& t.epoch_records == s.epoch_records
            &&& t.operations == s.operations
            &&& t.completed == s.completed
            &&& t.effects == s.effects
            &&& t.accesses == s.accesses
            &&& t.trace == s.trace
        }),
    decreases n,
{
    if n > 0 {
        lemma_delivered_keeps(s, slot, ordinal, target, value, waiters, n - 1);
        let prior = resident_model::delivered(s, slot, ordinal, target, value, waiters, n - 1);
        let t = resident_model::delivered(s, slot, ordinal, target, value, waiters, n);
        assert(waiters[n - 1] < s.conts.len());
        assert(t.conts.len() == prior.conts.len());
    }
}

/// Settling one effect keeps the waiting lists in the run, and the shape of
/// the tables.
pub proof fn lemma_performed_keeps(
    c: ConfigView,
    s: SyncView,
    slot: Slot,
    ordinal: u32,
    e: ResidentEffect,
)
    requires
        resident_model::waiters_exist(s),
        slot.at < s.conts.len(),
    ensures
        ({
            let t = resident_model::performed(c, s, slot, ordinal, e).0;
            &&& resident_model::waiters_exist(t)
            &&& same_shape(s, t)
            &&& t.invocations == s.invocations
            &&& t.epoch_records == s.epoch_records
            &&& t.operations == s.operations
            &&& t.completed == s.completed
            &&& t.effects == s.effects
            &&& t.accesses == s.accesses
            &&& t.trace == s.trace
        }),
{
    let t = resident_model::performed(c, s, slot, ordinal, e).0;
    match e {
        ResidentEffect::FutureResolve { target, value } => {
            if target < s.futures.len() && s.futures[target as int].value is None {
                let cell = s.futures[target as int];
                let u = SyncView {
                    futures: s.futures.update(
                        target as int,
                        FutureView { value: Some(value), waiters: Seq::empty() },
                    ),
                    ..s
                };
                assert(resident_model::waiters_exist(u));
                assert(same_shape(s, u));
                assert forall|w: int| 0 <= w < cell.waiters.len() implies cell.waiters[w]
                    < s.conts.len() by {
                    assert(s.futures[target as int].waiters[w] < s.conts.len());
                }
                lemma_delivered_keeps(
                    u,
                    slot,
                    ordinal,
                    target,
                    value,
                    cell.waiters,
                    cell.waiters.len() as int,
                );
                let actor = s.conts[slot.at as int].actor;
                if resident_model::authorized(
                    c,
                    actor,
                    e,
                    (c.initial_epoch + slot.epoch) as u32,
                ) {
                    lemma_same_shape_transitive(s, u, t);
                }
            }
        },
        _ => {},
    }
}

/// Settling the effects of a lane keeps the waiting lists in the run, the
/// shape of the tables, and the records of lanes and epochs; it leaves one
/// operation, one access and one record for each effect, and a short arena.
pub proof fn lemma_settled_keeps(
    c: ConfigView,
    s: SyncView,
    slot: Slot,
    effects: Seq<ResidentEffect>,
    n: int,
)
    requires
        resident_model::waiters_exist(s),
        slot.at < s.conts.len(),
        0 <= n <= effects.len(),
    ensures
        ({
            let after = resident_model::settled(c, s, slot, effects, n);
            let t = after.state;
            &&& resident_model::waiters_exist(t)
            &&& same_shape(s, t)
            &&& t.invocations == s.invocations
            &&& t.epoch_records == s.epoch_records
            &&& t.operations == s.operations
            &&& t.completed == s.completed
            &&& t.effects.len() == s.effects.len() + n
            &&& t.accesses.len() == s.accesses.len() + n
            &&& after.journal.operations.len() == n
            &&& after.journal.payload.len() <= 8 * n
        }),
    decreases n,
{
    if n > 0 {
        lemma_settled_keeps(c, s, slot, effects, n - 1);
        let prior = resident_model::settled(c, s, slot, effects, n - 1);
        let e = effects[n - 1];
        let ordinal = (n - 1) as u32;
        lemma_performed_keeps(c, prior.state, slot, ordinal, e);
        let (t, o) = resident_model::performed(c, prior.state, slot, ordinal, e);
        let u = resident_model::noted(t, slot, ordinal, e, o);
        assert(same_shape(t, u));
        lemma_same_shape_transitive(s, prior.state, t);
        lemma_same_shape_transitive(s, t, u);
        lemma_payload_is_short(e, o);
    }
}

pub proof fn lemma_payload_is_short(e: ResidentEffect, o: ResidentOutcome)
    ensures
        resident_model::effect_payload(e, o).len() <= 8,
{
    match o {
        ResidentOutcome::ObjectRead(value) => {
            bytes::lemma_le_bytes_len(value as nat, 8);
        },
        ResidentOutcome::ObjectWritten => {
            bytes::lemma_le_bytes_len(resident_model::effect_value(e) as nat, 8);
        },
        _ => {},
    }
}

/// Settling a lane keeps the waiting lists in the run and the shape of the
/// tables, and leaves one journal.
pub proof fn lemma_lane_settled_keeps(
    c: ConfigView,
    s: SyncView,
    epoch: u32,
    lane: int,
    first: int,
    emission: EmissionView,
)
    requires
        resident_model::waiters_exist(s),
        emission.at < s.conts.len(),
        0 <= first + lane < s.invocations.len(),
    ensures
        ({
            let t = resident_model::lane_settled(c, s, epoch, lane, first, emission);
            &&& resident_model::waiters_exist(t)
            &&& same_shape(s, t)
            &&& t.invocations.len() == s.invocations.len()
            &&& t.epoch_records == s.epoch_records
            &&& t.operations.len() == s.operations.len() + 1
        }),
{
    let slot = Slot { epoch, lane: lane as u32, at: emission.at };
    lemma_settled_keeps(c, s, slot, emission.effects, emission.effects.len() as int);
    let mid = resident_model::settled(
        c,
        s,
        slot,
        emission.effects,
        emission.effects.len() as int,
    ).state;
    let t = resident_model::lane_settled(c, s, epoch, lane, first, emission);
    assert(same_shape(mid, t));
    lemma_same_shape_transitive(s, mid, t);
}

/// Settling the lanes of an epoch keeps the waiting lists in the run and the
/// shape of the tables, and leaves one journal for each lane.
pub proof fn lemma_lanes_settled_keeps(
    c: ConfigView,
    s: SyncView,
    epoch: u32,
    first: int,
    emissions: Seq<EmissionView>,
    n: int,
)
    requires
        resident_model::waiters_exist(s),
        0 <= n <= emissions.len(),
        0 <= first,
        first + emissions.len() <= s.invocations.len(),
        forall|i: int| 0 <= i < emissions.len() ==> (#[trigger] emissions[i]).at < s.conts.len(),
    ensures
        ({
            let t = resident_model::lanes_settled(c, s, epoch, first, emissions, n);
            &&& resident_model::waiters_exist(t)
            &&& same_shape(s, t)
            &&& t.invocations.len() == s.invocations.len()
            &&& t.epoch_records == s.epoch_records
            &&& t.operations.len() == s.operations.len() + n
        }),
    decreases n,
{
    if n > 0 {
        lemma_lanes_settled_keeps(c, s, epoch, first, emissions, n - 1);
        let prior = resident_model::lanes_settled(c, s, epoch, first, emissions, n - 1);
        assert(emissions[n - 1].at < s.conts.len());
        lemma_lane_settled_keeps(c, prior, epoch, n - 1, first, emissions[n - 1]);
        lemma_same_shape_transitive(
            s,
            prior,
            resident_model::lanes_settled(c, s, epoch, first, emissions, n),
        );
    }
}

/// A step of a program keeps the length of the frame and the bound on effects.
pub proof fn lemma_step_keeps_frame_length(
    program: Seq<ResidentInstruction>,
    pc: int,
    frame: Seq<u8>,
    effects: Seq<ResidentEffect>,
    previous: Seq<ResidentOutcome>,
    max_effects: int,
    max_frame: int,
)
    requires
        effects.len() <= max_effects,
        0 <= pc,
    ensures
        resident_program::step_from(
            program,
            pc,
            frame,
            effects,
            previous,
            max_effects,
            max_frame,
        ) matches Some(out) ==> {
            &&& out.frame.len() == frame.len()
            &&& out.effects.len() <= max_effects
            &&& pc + out.effects.len() <= program.len() + effects.len()
        },
    decreases program.len() - pc,
{
    if pc < program.len() {
        let instruction = program[pc];
        let at = instruction.argument as int;
        if resident_program::emitted(instruction) is Some {
            if effects.len() + 1 <= max_effects {
                lemma_step_keeps_frame_length(
                    program,
                    pc + 1,
                    frame,
                    effects.push(resident_program::emitted(instruction)->0),
                    previous,
                    max_effects,
                    max_frame,
                );
            }
        } else {
            let stored = if instruction.opcode == resident_program::HANDLER_STORE_IMMEDIATE_U64 {
                Some(instruction.value)
            } else {
                resident_program::last_carried(previous)
            };
            let sum = (bytes::word_at(frame, at, 8) + instruction.value as nat)
                % 0x1_0000_0000_0000_0000nat;
            if stored is Some {
                lemma_step_keeps_frame_length(
                    program,
                    pc + 1,
                    bytes::spliced(frame, at, bytes::le_bytes(stored->0 as nat, 8)),
                    effects,
                    previous,
                    max_effects,
                    max_frame,
                );
            }
            lemma_step_keeps_frame_length(
                program,
                pc + 1,
                bytes::spliced(frame, at, bytes::le_bytes(sum, 8)),
                effects,
                previous,
                max_effects,
                max_frame,
            );
            lemma_step_keeps_frame_length(
                program,
                pc + 1,
                frame,
                effects,
                previous,
                max_effects,
                max_frame,
            );
            if pc + 1 + at <= program.len() {
                lemma_step_keeps_frame_length(
                    program,
                    pc + 1 + at,
                    frame,
                    effects,
                    previous,
                    max_effects,
                    max_frame,
                );
            }
        }
    }
}

/// Evaluating the lanes of an epoch keeps the waiting lists in the run and the
/// shape of the tables, and leaves one invocation record for each lane. A lane
/// emits few effects.
pub proof fn lemma_lanes_evaluated_keeps(
    c: ConfigView,
    handlers: Map<u32, ProgramView>,
    s: SyncView,
    epoch: u32,
    lanes: Seq<usize>,
    n: int,
)
    requires
        resident_model::waiters_exist(s),
        0 <= n <= lanes.len(),
        forall|i: int| 0 <= i < lanes.len() ==> (#[trigger] lanes[i]) < s.conts.len(),
    ensures
        resident_model::lanes_evaluated(c, handlers, s, epoch, lanes, n) matches Some((
            t,
            emissions,
        )) ==> {
            &&& resident_model::waiters_exist(t)
            &&& same_shape(s, t)
            &&& t.invocations.len() == s.invocations.len() + n
            &&& t.epoch_records == s.epoch_records
            &&& t.operations == s.operations
            &&& emissions.len() == n
            &&& forall|i: int|
                0 <= i < n ==> (#[trigger] emissions[i]).at == lanes[i]
                    && emissions[i].effects.len()
                    <= resident_program::MAX_HANDLER_INSTRUCTIONS
        },
    decreases n,
{
    if n > 0 {
        lemma_lanes_evaluated_keeps(c, handlers, s, epoch, lanes, n - 1);
        if let Some((t, emissions)) = resident_model::lanes_evaluated(
            c,
            handlers,
            s,
            epoch,
            lanes,
            n - 1,
        ) {
            let at = lanes[n - 1];
            let cont = t.conts[at as int];
            if let Some((u, emission)) = resident_model::lane_evaluated(
                c,
                handlers,
                t,
                epoch,
                n - 1,
                at,
            ) {
                if cont.pending is None {
                    lemma_step_keeps_frame_length(
                        handlers[cont.run_class].instructions,
                        0,
                        cont.frame,
                        Seq::empty(),
                        cont.previous,
                        c.max_effects_per_step as int,
                        c.max_frame_bytes as int,
                    );
                }
                assert(same_shape(t, u));
                lemma_same_shape_transitive(s, t, u);
            }
        }
    }
}

pub proof fn lemma_lane_order_is_total(conts: Seq<ContView>)
    ensures
        vstd::relations::total_ordering(resident_model::lane_order(conts)),
{
}

proof fn lemma_admitted_positions(conts: Seq<ContView>, n: int)
    requires
        0 <= n <= conts.len() <= usize::MAX,
    ensures
        resident_model::admitted_positions(conts, n).len() <= n,
        forall|k: int|
            0 <= k < resident_model::admitted_positions(conts, n).len() ==> {
                &&& (#[trigger] resident_model::admitted_positions(conts, n)[k]) < n
                &&& resident_model::admitted(
                    conts,
                    resident_model::admitted_positions(conts, n)[k] as int,
                )
            },
        forall|p: int|
            0 <= p < n && #[trigger] resident_model::admitted(conts, p)
                ==> resident_model::admitted_positions(conts, n).contains(p as usize),
        forall|i: int, j: int|
            0 <= i < j < resident_model::admitted_positions(conts, n).len()
                ==> (#[trigger] resident_model::admitted_positions(conts, n)[i]) < (
            #[trigger] resident_model::admitted_positions(conts, n)[j]),
    decreases n,
{
    if n > 0 {
        lemma_admitted_positions(conts, n - 1);
        let before = resident_model::admitted_positions(conts, n - 1);
        let after = resident_model::admitted_positions(conts, n);
        assert forall|p: int| 0 <= p < n && #[trigger] resident_model::admitted(
            conts,
            p,
        ) implies after.contains(p as usize) by {
            if p == n - 1 {
                assert(after[after.len() - 1] == p as usize);
            } else {
                assert(before.contains(p as usize));
                let k = choose|k: int| 0 <= k < before.len() && before[k] == p as usize;
                assert(after[k] == p as usize);
            }
        }
    }
}

/// The lanes of an epoch are the admitted continuations, each once, in
/// increasing order of run class and, within it, of id.
pub proof fn law_lanes_are_the_admitted_in_order(conts: Seq<ContView>)
    requires
        conts.len() <= usize::MAX,
    ensures
        resident_model::lanes_of(conts).len() <= conts.len(),
        forall|k: int|
            0 <= k < resident_model::lanes_of(conts).len() ==> {
                &&& (#[trigger] resident_model::lanes_of(conts)[k]) < conts.len()
                &&& resident_model::admitted(conts, resident_model::lanes_of(conts)[k] as int)
            },
        forall|p: int| #[trigger]
            resident_model::admitted(conts, p) ==> resident_model::lanes_of(conts).contains(
                p as usize,
            ),
        forall|i: int, j: int|
            0 <= i < j < resident_model::lanes_of(conts).len() ==> {
                let a = #[trigger] resident_model::lanes_of(conts)[i] as int;
                let b = #[trigger] resident_model::lanes_of(conts)[j] as int;
                conts[a].run_class < conts[b].run_class || (conts[a].run_class
                    == conts[b].run_class && a < b)
            },
{
    broadcast use vstd::seq_lib::group_to_multiset_ensures;

    let picked = resident_model::admitted_positions(conts, conts.len() as int);
    let order = resident_model::lane_order(conts);
    let lanes = resident_model::lanes_of(conts);
    lemma_admitted_positions(conts, conts.len() as int);
    lemma_lane_order_is_total(conts);
    picked.lemma_sort_by_ensures(order);
    assert(lanes.to_multiset() =~= picked.to_multiset());
    picked.to_multiset_ensures();
    lanes.to_multiset_ensures();
    assert(lanes.len() == picked.len());
    assert forall|k: int| 0 <= k < lanes.len() implies {
        &&& (#[trigger] lanes[k]) < conts.len()
        &&& resident_model::admitted(conts, lanes[k] as int)
    } by {
        assert(lanes.contains(lanes[k]));
        assert(picked.contains(lanes[k]));
    }
    assert forall|p: int| #[trigger] resident_model::admitted(conts, p) implies lanes.contains(
        p as usize,
    ) by {
        assert(picked.contains(p as usize));
        assert(picked.to_multiset().count(p as usize) > 0);
    }
    assert(picked.no_duplicates());
    picked.lemma_multiset_has_no_duplicates();
    lanes.lemma_multiset_has_no_duplicates_conv();
    assert forall|i: int, j: int| 0 <= i < j < lanes.len() implies {
        let a = #[trigger] lanes[i] as int;
        let b = #[trigger] lanes[j] as int;
        conts[a].run_class < conts[b].run_class || (conts[a].run_class == conts[b].run_class && a
            < b)
    } by {
        assert(order(lanes[i], lanes[j]));
        assert(lanes[i] != lanes[j]);
    }
}

/// An epoch keeps the waiting lists in the run and the shape of the tables;
/// it leaves one epoch record, and one journal for each invocation.
pub proof fn lemma_epoch_keeps(
    c: ConfigView,
    handlers: Map<u32, ProgramView>,
    s: SyncView,
    epoch: u32,
)
    requires
        resident_model::waiters_exist(s),
        s.conts.len() <= usize::MAX,
    ensures
        resident_model::after_epoch(c, handlers, s, epoch) matches Some(t) ==> {
            &&& resident_model::waiters_exist(t)
            &&& same_shape(s, t)
            &&& t.epoch_records.len() == s.epoch_records.len() + 1
            &&& t.invocations.len() - s.invocations.len() == t.operations.len()
                - s.operations.len()
        },
{
    let lanes = resident_model::lanes_of(s.conts);
    law_lanes_are_the_admitted_in_order(s.conts);
    lemma_lanes_evaluated_keeps(c, handlers, s, epoch, lanes, lanes.len() as int);
    if let Some((t, emissions)) = resident_model::lanes_evaluated(
        c,
        handlers,
        s,
        epoch,
        lanes,
        lanes.len() as int,
    ) {
        assert forall|i: int| 0 <= i < emissions.len() implies (#[trigger] emissions[i]).at
            < t.conts.len() by {
            assert(emissions[i].at == lanes[i]);
        }
        let first = s.invocations.len() as int;
        lemma_lanes_settled_keeps(c, t, epoch, first, emissions, emissions.len() as int);
        let u = resident_model::lanes_settled(
            c,
            t,
            epoch,
            first,
            emissions,
            emissions.len() as int,
        );
        lemma_same_shape_transitive(s, t, u);
        if let Some(v) = resident_model::after_epoch(c, handlers, s, epoch) {
            assert(same_shape(u, v));
            lemma_same_shape_transitive(s, u, v);
        }
    }
}

/// A run keeps the shape of the tables. It leaves one epoch record for each
/// epoch, no more than the plan allows, and one journal for each invocation.
pub proof fn lemma_epochs_keep(
    c: ConfigView,
    handlers: Map<u32, ProgramView>,
    s: SyncView,
    epoch: int,
)
    requires
        resident_model::waiters_exist(s),
        s.conts.len() <= usize::MAX,
        0 <= epoch <= c.max_epochs,
        s.epoch_records.len() == epoch,
    ensures
        resident_model::after_epochs(c, handlers, s, epoch) matches Some(t) ==> {
            &&& resident_model::waiters_exist(t)
            &&& same_shape(s, t)
            &&& t.epoch_records.len() <= c.max_epochs
            &&& t.invocations.len() - s.invocations.len() == t.operations.len()
                - s.operations.len()
            &&& t.epoch_records.len() < c.max_epochs ==> resident_model::lanes_of(t.conts).len()
                == 0
        },
    decreases c.max_epochs - epoch,
{
    if epoch < c.max_epochs && resident_model::lanes_of(s.conts).len() != 0 {
        lemma_epoch_keeps(c, handlers, s, epoch as u32);
        if let Some(t) = resident_model::after_epoch(c, handlers, s, epoch as u32) {
            lemma_epochs_keep(c, handlers, t, epoch + 1);
            if let Some(u) = resident_model::after_epochs(c, handlers, t, epoch + 1) {
                lemma_same_shape_transitive(s, t, u);
            }
        }
    }
}

/// Where anything asks for a lane, something gets one.
pub proof fn law_admission_makes_progress(conts: Seq<ContView>, i: int)
    requires
        0 <= i < conts.len() <= usize::MAX,
        resident_model::eligible(conts[i]),
    ensures
        resident_model::lanes_of(conts).len() > 0,
{
    let winner = oldest_claim(conts, i, conts.len() as int);
    lemma_oldest_claim(conts, i, conts.len() as int);
    assert(resident_model::admitted(conts, winner));
    law_lanes_are_the_admitted_in_order(conts);
    assert(resident_model::lanes_of(conts).contains(winner as usize));
}

/// The position, `i` or among the first `n`, with the oldest claim on the
/// actor of `i`; `i` itself where it makes none.
spec fn oldest_claim(conts: Seq<ContView>, i: int, n: int) -> int
    decreases n,
{
    if n <= 0 {
        i
    } else {
        let best = oldest_claim(conts, i, n - 1);
        let rival = conts[n - 1];
        if conts[i].mutable_access && resident_model::eligible(rival) && rival.mutable_access
            && rival.actor == conts[i].actor && resident_model::claim_at_least_as_old(
            conts,
            n - 1,
            best,
        ) {
            n - 1
        } else {
            best
        }
    }
}

proof fn lemma_oldest_claim(conts: Seq<ContView>, i: int, n: int)
    requires
        0 <= i < conts.len(),
        0 <= n <= conts.len(),
        resident_model::eligible(conts[i]),
    ensures
        ({
            let best = oldest_claim(conts, i, n);
            &&& 0 <= best < conts.len()
            &&& resident_model::eligible(conts[best])
            &&& conts[best].actor == conts[i].actor
            &&& conts[best].mutable_access == conts[i].mutable_access
            &&& conts[i].mutable_access ==> forall|j: int|
                0 <= j < n && resident_model::eligible(#[trigger] conts[j])
                    && conts[j].mutable_access && conts[j].actor == conts[i].actor
                    ==> resident_model::claim_at_least_as_old(conts, best, j)
        }),
    decreases n,
{
    if n > 0 {
        lemma_oldest_claim(conts, i, n - 1);
    }
}

/// No two continuations that claim the same actor run in the same epoch.
pub proof fn law_one_claim_per_actor_and_epoch(conts: Seq<ContView>, i: int, j: int)
    requires
        resident_model::admitted(conts, i),
        resident_model::admitted(conts, j),
        conts[i].mutable_access,
        conts[j].mutable_access,
        conts[i].actor == conts[j].actor,
    ensures
        i == j,
{
    assert(resident_model::claim_at_least_as_old(conts, i, j));
    assert(resident_model::claim_at_least_as_old(conts, j, i));
}

/// An effect that its actor may not perform is answered so, and changes
/// nothing.
pub proof fn law_denied_effect_changes_nothing(
    c: ConfigView,
    s: SyncView,
    slot: Slot,
    ordinal: u32,
    e: ResidentEffect,
)
    requires
        !resident_model::authorized(
            c,
            s.conts[slot.at as int].actor,
            e,
            (c.initial_epoch + slot.epoch) as u32,
        ),
    ensures
        resident_model::performed(c, s, slot, ordinal, e) == (s, ResidentOutcome::CapabilityDenied),
{
}

/// A value that an earlier effect brought survives later outcomes that carry
/// none.
pub proof fn law_carried_value_survives(
    previous: Seq<ResidentOutcome>,
    later: ResidentOutcome,
)
    requires
        resident_program::carried(later) is None,
    ensures
        resident_program::last_carried(previous.push(later)) == resident_program::last_carried(
            previous,
        ),
{
    assert(previous.push(later).drop_last() =~= previous);
}

/// A future is assigned once: resolving it again is refused and changes
/// nothing.
pub proof fn law_second_resolve_is_refused(
    c: ConfigView,
    s: SyncView,
    slot: Slot,
    ordinal: u32,
    target: u32,
    value: u64,
)
    requires
        target < s.futures.len(),
        s.futures[target as int].value is Some,
        resident_model::authorized(
            c,
            s.conts[slot.at as int].actor,
            ResidentEffect::FutureResolve { target, value },
            (c.initial_epoch + slot.epoch) as u32,
        ),
    ensures
        resident_model::performed(
            c,
            s,
            slot,
            ordinal,
            ResidentEffect::FutureResolve { target, value },
        ) == (s, ResidentOutcome::DoubleResolve),
{
}

/// A word that was written to an object is the word that a read gives back.
pub proof fn law_object_read_gives_back_the_write(
    c: ConfigView,
    s: SyncView,
    writer: Slot,
    reader: Slot,
    target: u32,
    offset: u32,
    value: u64,
    first: u32,
    second: u32,
)
    requires
        target < s.objects.len(),
        offset + 8 <= s.objects[target as int].len(),
        resident_model::authorized(
            c,
            s.conts[writer.at as int].actor,
            ResidentEffect::ObjectWrite { target, offset, value },
            (c.initial_epoch + writer.epoch) as u32,
        ),
        resident_model::authorized(
            c,
            s.conts[reader.at as int].actor,
            ResidentEffect::ObjectRead { target, offset },
            (c.initial_epoch + reader.epoch) as u32,
        ),
    ensures
        ({
            let (t, written) = resident_model::performed(
                c,
                s,
                writer,
                first,
                ResidentEffect::ObjectWrite { target, offset, value },
            );
            &&& written == ResidentOutcome::ObjectWritten
            &&& resident_model::performed(
                c,
                t,
                reader,
                second,
                ResidentEffect::ObjectRead { target, offset },
            ) == (t, ResidentOutcome::ObjectRead(value))
        }),
{
    bytes::lemma_splice_then_read(s.objects[target as int], offset as int, value);
}

/// A message sent to an empty mailbox with room, and nobody waiting, is the
/// one that the next receive brings, with its sender.
pub proof fn law_mailbox_delivers_what_was_sent(
    c: ConfigView,
    s: SyncView,
    sender: Slot,
    receiver: Slot,
    target: u32,
    value: u64,
    first: u32,
    second: u32,
)
    requires
        target < s.mails.len(),
        s.mails[target as int].queue.len() == 0,
        s.mails[target as int].capacity > 0,
        s.mails[target as int].receivers.len() == 0,
        resident_model::authorized(
            c,
            s.conts[sender.at as int].actor,
            ResidentEffect::MailboxSend { target, value },
            (c.initial_epoch + sender.epoch) as u32,
        ),
        resident_model::authorized(
            c,
            s.conts[receiver.at as int].actor,
            ResidentEffect::MailboxReceive { target },
            (c.initial_epoch + receiver.epoch) as u32,
        ),
    ensures
        ({
            let (t, sent) = resident_model::performed(
                c,
                s,
                sender,
                first,
                ResidentEffect::MailboxSend { target, value },
            );
            &&& sent == ResidentOutcome::Sent
            &&& resident_model::performed(
                c,
                t,
                receiver,
                second,
                ResidentEffect::MailboxReceive { target },
            ).1 == (ResidentOutcome::Received { value, sender: s.conts[sender.at as int].actor })
        }),
{
}

/// No wake changes who a continuation is or the ticket that it holds, and
/// delivering to waiters changes no future and no mailbox.
proof fn lemma_delivery(
    s: SyncView,
    slot: Slot,
    ordinal: u32,
    target: u32,
    value: u64,
    waiters: Seq<usize>,
    n: int,
)
    requires
        0 <= n <= waiters.len(),
        forall|w: int| 0 <= w < waiters.len() ==> #[trigger] waiters[w] < s.conts.len(),
    ensures
        ({
            let t = resident_model::delivered(s, slot, ordinal, target, value, waiters, n);
            &&& t.futures == s.futures
            &&& t.mails == s.mails
            &&& t.tickets == s.tickets
            &&& t.conts.len() == s.conts.len()
            &&& forall|i: int|
                0 <= i < s.conts.len() ==> {
                    &&& (#[trigger] t.conts[i]).id == s.conts[i].id
                    &&& t.conts[i].waiter_order == s.conts[i].waiter_order
                }
            &&& t.wakes.len() == s.wakes.len() + n
            &&& t.wakes.take(s.wakes.len() as int) == s.wakes
            &&& forall|k: int|
                0 <= k < n ==> {
                    let wake = #[trigger] t.wakes[s.wakes.len() + k];
                    &&& wake.continuation == s.conts[waiters[k] as int].id
                    &&& wake.ticket == s.conts[waiters[k] as int].waiter_order
                    &&& wake.target == target
                }
            &&& forall|k: int|
                0 <= k < n ==> {
                    let cont = t.conts[(#[trigger] waiters[k]) as int];
                    &&& cont.runnable
                    &&& cont.pending is None
                    &&& cont.previous.len() > 0
                    &&& cont.previous.last() == ResidentOutcome::Resolved(value)
                }
        }),
    decreases n,
{
    let t = resident_model::delivered(s, slot, ordinal, target, value, waiters, n);
    if n > 0 {
        lemma_delivery(s, slot, ordinal, target, value, waiters, n - 1);
        let prior = resident_model::delivered(s, slot, ordinal, target, value, waiters, n - 1);
        assert(t.wakes.drop_last() =~= prior.wakes);
        assert(t.wakes.take(s.wakes.len() as int) =~= prior.wakes.take(s.wakes.len() as int));
        assert forall|k: int| 0 <= k < n implies {
            let wake = #[trigger] t.wakes[s.wakes.len() + k];
            &&& wake.continuation == s.conts[waiters[k] as int].id
            &&& wake.ticket == s.conts[waiters[k] as int].waiter_order
            &&& wake.target == target
        } by {
            if k < n - 1 {
                assert(t.wakes[s.wakes.len() + k] == prior.wakes[s.wakes.len() + k]);
            }
        }
    } else {
        assert(t.wakes.take(s.wakes.len() as int) =~= s.wakes);
    }
}

/// To resolve a future wakes everyone who waits for it, in the order in which
/// they registered, and hands each of them the value.
pub proof fn law_resolving_wakes_the_waiters_in_order(
    c: ConfigView,
    s: SyncView,
    slot: Slot,
    ordinal: u32,
    target: u32,
    value: u64,
)
    requires
        resident_model::waiters_exist(s),
        target < s.futures.len(),
        s.futures[target as int].value is None,
        resident_model::authorized(
            c,
            s.conts[slot.at as int].actor,
            ResidentEffect::FutureResolve { target, value },
            (c.initial_epoch + slot.epoch) as u32,
        ),
    ensures
        ({
            let waiters = s.futures[target as int].waiters;
            let (t, outcome) = resident_model::performed(
                c,
                s,
                slot,
                ordinal,
                ResidentEffect::FutureResolve { target, value },
            );
            &&& outcome == ResidentOutcome::Resolved(value)
            &&& t.futures[target as int] == (FutureView {
                value: Some(value),
                waiters: Seq::empty(),
            })
            &&& t.wakes.len() == s.wakes.len() + waiters.len()
            &&& forall|k: int|
                0 <= k < waiters.len() ==> {
                    let wake = #[trigger] t.wakes[s.wakes.len() + k];
                    &&& wake.continuation == s.conts[waiters[k] as int].id
                    &&& wake.ticket == s.conts[waiters[k] as int].waiter_order
                }
            &&& forall|k: int|
                0 <= k < waiters.len() ==> {
                    let cont = t.conts[(#[trigger] waiters[k]) as int];
                    &&& cont.runnable
                    &&& cont.pending is None
                    &&& cont.previous.len() > 0
                    &&& cont.previous.last() == ResidentOutcome::Resolved(value)
                }
        }),
{
    let waiters = s.futures[target as int].waiters;
    let marked = SyncView {
        futures: s.futures.update(
            target as int,
            FutureView { value: Some(value), waiters: Seq::empty() },
        ),
        ..s
    };
    assert forall|w: int| 0 <= w < waiters.len() implies #[trigger] waiters[w]
        < marked.conts.len() by {
        assert(s.futures[target as int].waiters[w] < s.conts.len());
    }
    lemma_delivery(marked, slot, ordinal, target, value, waiters, waiters.len() as int);
}

/// The tickets on a waiting list go up, and none is ahead of the last one given.
pub open spec fn is_in_ticket_order(s: SyncView, list: Seq<usize>) -> bool {
    &&& forall|i: int, j: int|
        0 <= i < j < list.len() ==> s.conts[(#[trigger] list[i]) as int].waiter_order
            <= s.conts[(#[trigger] list[j]) as int].waiter_order
    &&& forall|i: int|
        0 <= i < list.len() ==> s.conts[(#[trigger] list[i]) as int].waiter_order <= s.tickets
}

pub open spec fn waits_are_in_order(s: SyncView) -> bool {
    &&& forall|f: int|
        0 <= f < s.futures.len() ==> is_in_ticket_order(s, (#[trigger] s.futures[f]).waiters)
    &&& forall|m: int|
        0 <= m < s.mails.len() ==> is_in_ticket_order(s, (#[trigger] s.mails[m]).receivers)
    &&& forall|m: int|
        0 <= m < s.mails.len() ==> is_in_ticket_order(s, (#[trigger] s.mails[m]).senders)
}

pub open spec fn waits_nowhere(s: SyncView, at: usize) -> bool {
    &&& forall|f: int|
        0 <= f < s.futures.len() ==> !(#[trigger] s.futures[f]).waiters.contains(at)
    &&& forall|m: int| 0 <= m < s.mails.len() ==> !(#[trigger] s.mails[m]).receivers.contains(at)
    &&& forall|m: int| 0 <= m < s.mails.len() ==> !(#[trigger] s.mails[m]).senders.contains(at)
}

/// A list stays in order where no ticket on it changes and none is taken back.
proof fn lemma_order_stays(s: SyncView, t: SyncView, list: Seq<usize>)
    requires
        is_in_ticket_order(s, list),
        s.tickets <= t.tickets,
        forall|i: int|
            0 <= i < list.len() ==> t.conts[(#[trigger] list[i]) as int].waiter_order
                == s.conts[list[i] as int].waiter_order,
    ensures
        is_in_ticket_order(t, list),
{
}

/// The same for everything that waits, where the lists change as `performed`
/// changes them.
proof fn lemma_all_stay(s: SyncView, t: SyncView, at: usize)
    requires
        waits_are_in_order(s),
        resident_model::waiters_exist(s),
        waits_nowhere(s, at),
        s.tickets <= t.tickets,
        forall|i: int|
            0 <= i < s.conts.len() && i != at ==> (#[trigger] t.conts[i]).waiter_order
                == s.conts[i].waiter_order,
    ensures
        forall|f: int|
            0 <= f < s.futures.len() ==> is_in_ticket_order(t, (#[trigger] s.futures[f]).waiters),
        forall|m: int|
            0 <= m < s.mails.len() ==> is_in_ticket_order(t, (#[trigger] s.mails[m]).receivers),
        forall|m: int|
            0 <= m < s.mails.len() ==> is_in_ticket_order(t, (#[trigger] s.mails[m]).senders),
{
    assert forall|f: int| 0 <= f < s.futures.len() implies is_in_ticket_order(
        t,
        (#[trigger] s.futures[f]).waiters,
    ) by {
        let list = s.futures[f].waiters;
        assert forall|i: int| 0 <= i < list.len() implies t.conts[(
        #[trigger] list[i]) as int].waiter_order == s.conts[list[i] as int].waiter_order by {
            assert(s.futures[f].waiters[i] < s.conts.len());
            assert(list.contains(list[i]));
        }
        lemma_order_stays(s, t, list);
    }
    assert forall|m: int| 0 <= m < s.mails.len() implies is_in_ticket_order(
        t,
        (#[trigger] s.mails[m]).receivers,
    ) by {
        let list = s.mails[m].receivers;
        assert forall|i: int| 0 <= i < list.len() implies t.conts[(
        #[trigger] list[i]) as int].waiter_order == s.conts[list[i] as int].waiter_order by {
            assert(s.mails[m].receivers[i] < s.conts.len());
            assert(list.contains(list[i]));
        }
        lemma_order_stays(s, t, list);
    }
    assert forall|m: int| 0 <= m < s.mails.len() implies is_in_ticket_order(
        t,
        (#[trigger] s.mails[m]).senders,
    ) by {
        let list = s.mails[m].senders;
        assert forall|i: int| 0 <= i < list.len() implies t.conts[(
        #[trigger] list[i]) as int].waiter_order == s.conts[list[i] as int].waiter_order by {
            assert(s.mails[m].senders[i] < s.conts.len());
            assert(list.contains(list[i]));
        }
        lemma_order_stays(s, t, list);
    }
}

/// A list in order is in order without its first, and with the newest ticket at
/// its end.
proof fn lemma_order_of_parts(t: SyncView, list: Seq<usize>, at: usize)
    requires
        is_in_ticket_order(t, list),
    ensures
        list.len() > 0 ==> is_in_ticket_order(t, list.skip(1)),
        t.conts[at as int].waiter_order == t.tickets ==> is_in_ticket_order(
            t,
            resident_model::registered(list, at),
        ),
{
}

/// Whoever waits, waits in the order in which they registered, whatever effect a
/// continuation that waits nowhere performs: identities play no part in it.
pub proof fn law_waiters_are_served_in_registration_order(
    c: ConfigView,
    s: SyncView,
    slot: Slot,
    ordinal: u32,
    e: ResidentEffect,
)
    requires
        slot.at < s.conts.len(),
        resident_model::waiters_exist(s),
        waits_are_in_order(s),
        waits_nowhere(s, slot.at),
    ensures
        waits_are_in_order(resident_model::performed(c, s, slot, ordinal, e).0),
{
    let t = resident_model::performed(c, s, slot, ordinal, e).0;
    let at = slot.at;
    let actor = s.conts[at as int].actor;
    if resident_model::authorized(c, actor, e, (c.initial_epoch + slot.epoch) as u32) {
        if let ResidentEffect::FutureResolve { target, value } = e {
            if target < s.futures.len() && s.futures[target as int].value is None {
                let waiters = s.futures[target as int].waiters;
                let marked = SyncView {
                    futures: s.futures.update(
                        target as int,
                        FutureView { value: Some(value), waiters: Seq::empty() },
                    ),
                    ..s
                };
                assert forall|w: int| 0 <= w < waiters.len() implies #[trigger] waiters[w]
                    < marked.conts.len() by {
                    assert(s.futures[target as int].waiters[w] < s.conts.len());
                }
                lemma_delivery(
                    marked,
                    slot,
                    ordinal,
                    target,
                    value,
                    waiters,
                    waiters.len() as int,
                );
            }
        }
        lemma_all_stay(s, t, at);
        assert forall|f: int| 0 <= f < t.futures.len() implies is_in_ticket_order(
            t,
            (#[trigger] t.futures[f]).waiters,
        ) by {
            lemma_order_of_parts(t, s.futures[f].waiters, at);
        }
        assert forall|m: int| 0 <= m < t.mails.len() implies is_in_ticket_order(
            t,
            (#[trigger] t.mails[m]).receivers,
        ) by {
            lemma_order_of_parts(t, s.mails[m].receivers, at);
        }
        assert forall|m: int| 0 <= m < t.mails.len() implies is_in_ticket_order(
            t,
            (#[trigger] t.mails[m]).senders,
        ) by {
            lemma_order_of_parts(t, s.mails[m].senders, at);
        }
    }
}

/// Messages leave a mailbox in the order in which they came: a send with room
/// goes behind the last, and a receive takes the first, with its sender.
pub proof fn law_mailboxes_are_first_in_first_out(
    c: ConfigView,
    s: SyncView,
    slot: Slot,
    ordinal: u32,
    target: u32,
    value: u64,
)
    requires
        target < s.mails.len(),
    ensures
        ({
            let e = ResidentEffect::MailboxSend { target, value };
            let actor = s.conts[slot.at as int].actor;
            let mail = s.mails[target as int];
            let (t, outcome) = resident_model::performed(c, s, slot, ordinal, e);
            resident_model::authorized(c, actor, e, (c.initial_epoch + slot.epoch) as u32) ==> {
                &&& outcome == if mail.queue.len() < mail.capacity {
                    ResidentOutcome::Sent
                } else {
                    ResidentOutcome::Full
                }
                &&& t.mails[target as int].queue == if mail.queue.len() < mail.capacity {
                    mail.queue.push((actor, value))
                } else {
                    mail.queue
                }
            }
        }),
        ({
            let e = ResidentEffect::MailboxReceive { target };
            let actor = s.conts[slot.at as int].actor;
            let mail = s.mails[target as int];
            let (t, outcome) = resident_model::performed(c, s, slot, ordinal, e);
            resident_model::authorized(c, actor, e, (c.initial_epoch + slot.epoch) as u32) ==> if mail.queue.len()
                == 0 {
                outcome == ResidentOutcome::Empty && t.mails[target as int].queue == mail.queue
            } else {
                &&& outcome == (ResidentOutcome::Received {
                    value: mail.queue[0].1,
                    sender: mail.queue[0].0,
                })
                &&& t.mails[target as int].queue == mail.queue.skip(1)
            }
        }),
{
}

/// A valid program, on a frame of the full size and with a value carried by an
/// earlier effect, ends in a disposition.
pub proof fn law_valid_program_reaches_a_disposition(
    program: Seq<ResidentInstruction>,
    frame: Seq<u8>,
    previous: Seq<ResidentOutcome>,
    max_effects: int,
    max_frame: int,
)
    requires
        resident_program::program_is_valid(program, max_effects, max_frame),
        frame.len() >= max_frame,
        resident_program::last_carried(previous) is Some,
    ensures
        resident_program::program_step(program, frame, previous, max_effects, max_frame) is Some,
{
    lemma_bounded_paths_reach_a_disposition(
        program,
        0,
        frame,
        Seq::empty(),
        previous,
        max_effects,
        max_frame,
    );
}

proof fn lemma_bounded_paths_reach_a_disposition(
    program: Seq<ResidentInstruction>,
    pc: int,
    frame: Seq<u8>,
    effects: Seq<ResidentEffect>,
    previous: Seq<ResidentOutcome>,
    max_effects: int,
    max_frame: int,
)
    requires
        resident_program::paths_are_bounded(
            program,
            pc,
            effects.len() as int,
            max_effects,
            max_frame,
        ),
        frame.len() >= max_frame,
        resident_program::last_carried(previous) is Some,
    ensures
        resident_program::step_from(
            program,
            pc,
            frame,
            effects,
            previous,
            max_effects,
            max_frame,
        ) is Some,
    decreases program.len() - pc,
{
    let instruction = program[pc];
    let at = instruction.argument as int;
    let opcode = instruction.opcode;
    if resident_program::emitted(instruction) is Some {
        lemma_bounded_paths_reach_a_disposition(
            program,
            pc + 1,
            frame,
            effects.push(resident_program::emitted(instruction)->0),
            previous,
            max_effects,
            max_frame,
        );
    } else if opcode == resident_program::HANDLER_STORE_IMMEDIATE_U64 || opcode
        == resident_program::HANDLER_STORE_PREVIOUS_VALUE_U64 {
        let value = if opcode == resident_program::HANDLER_STORE_IMMEDIATE_U64 {
            Some(instruction.value)
        } else {
            resident_program::last_carried(previous)
        };
        lemma_bounded_paths_reach_a_disposition(
            program,
            pc + 1,
            bytes::spliced(frame, at, bytes::le_bytes(value->0 as nat, 8)),
            effects,
            previous,
            max_effects,
            max_frame,
        );
    } else if opcode == resident_program::HANDLER_ADD_FRAME_IMMEDIATE_U64 {
        let sum = (bytes::word_at(frame, at, 8) + instruction.value as nat)
            % 0x1_0000_0000_0000_0000nat;
        lemma_bounded_paths_reach_a_disposition(
            program,
            pc + 1,
            bytes::spliced(frame, at, bytes::le_bytes(sum, 8)),
            effects,
            previous,
            max_effects,
            max_frame,
        );
    } else if opcode == resident_program::HANDLER_COMPLETE_IF_FRAME_U64_EQ {
        lemma_bounded_paths_reach_a_disposition(
            program,
            pc + 1,
            frame,
            effects,
            previous,
            max_effects,
            max_frame,
        );
    } else if opcode == resident_program::HANDLER_IF_PREVIOUS_VALUE_NE_SKIP {
        lemma_bounded_paths_reach_a_disposition(
            program,
            pc + 1,
            frame,
            effects,
            previous,
            max_effects,
            max_frame,
        );
        lemma_bounded_paths_reach_a_disposition(
            program,
            pc + 1 + at,
            frame,
            effects,
            previous,
            max_effects,
            max_frame,
        );
    }
}

} // verus!
