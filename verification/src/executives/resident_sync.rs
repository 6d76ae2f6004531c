//! Reference implementation of the resident synchronization boundary.
//!
//! This is deliberately not a search or ping-pong kernel. Installed handlers
//! are arbitrary bounded state machines: the executive gives a handler its
//! private frame and the results of its previous effects, and the handler emits
//! a bounded list of synchronization effects plus a scheduling disposition.
//! Future, mailbox, and bounded object storage is owned by the executive and is
//! only mutated by the canonical lane-order applier.

use crate::executives::resident_engine;
use crate::executives::resident_engine::{Cont, Engine, FutureCell, Mail};
use crate::executives::resident_laws;
use crate::executives::resident_model;
use crate::executives::resident_model::{ContView, MailView};
use crate::executives::resident_program;
use crate::executives::resident_types;
use std::collections::{BTreeMap, VecDeque};
use vstd::prelude::*;

pub use crate::executives::resident_program::{
    execute_program, previous_value, validate_handler_program, HandlerOutput, ResidentDisposition,
    ResidentEffect, ResidentHandlerProgram, ResidentInstruction, ResidentOutcome,
    HANDLER_ADD_FRAME_IMMEDIATE_U64, HANDLER_COMPLETE, HANDLER_COMPLETE_IF_FRAME_U64_EQ,
    HANDLER_EFFECT_FUTURE_AWAIT, HANDLER_EFFECT_FUTURE_OBSERVE, HANDLER_EFFECT_FUTURE_RESOLVE,
    HANDLER_EFFECT_MAILBOX_RECEIVE, HANDLER_EFFECT_MAILBOX_SEND, HANDLER_EFFECT_OBJECT_READ,
    HANDLER_EFFECT_OBJECT_WRITE, HANDLER_IF_PREVIOUS_VALUE_NE_SKIP, HANDLER_STORE_IMMEDIATE_U64,
    HANDLER_STORE_PREVIOUS_VALUE_U64, HANDLER_YIELD, MAX_HANDLER_INSTRUCTIONS,
};
pub use crate::executives::resident_types::{
    ConfigView, ContinuationView, InitialFuture, ObjectView, ProgramView, ResidentCapability,
    ResidentContinuation, ResidentEffectRecord, ResidentEpochRecord, ResidentFinalContinuation,
    ResidentInvocationRecord, ResidentObject, ResidentObjectCapability, ResidentSyncConfig,
    ResidentSyncResult, ResidentSyncTrace, ResidentWakeRecord, ResultView, MAX_RESIDENT_OBJECTS,
    MAX_RESIDENT_OBJECT_ARENA_BYTES, MAX_RESIDENT_OBJECT_CAPABILITIES, RESOURCE_FUTURE,
    RESOURCE_MAILBOX, RESOURCE_OBJECT, RIGHT_READ, RIGHT_WRITE,
};

verus! {

/// What a list of continuations holds.
pub open spec fn continuation_views(conts: Seq<ResidentContinuation>) -> Seq<ContinuationView> {
    conts.map_values(|cont: ResidentContinuation| cont@)
}

/// The result of a run: that of its plan, unless the cohort width is zero.
pub open spec fn run_result(
    config: ResidentSyncConfig,
    continuations: Seq<ResidentContinuation>,
    handlers: Map<u32, ResidentHandlerProgram>,
) -> Option<ResultView> {
    if config.cohort_width == 0 {
        None
    } else {
        resident_model::sync_result(
            config@,
            continuation_views(continuations),
            resident_types::handlers_view(handlers),
        )
    }
}

/// Whether the objects of a plan and their capabilities respect the plan
/// bounds.
pub fn object_storage_is_bounded(config: &ResidentSyncConfig) -> (bounded: bool)
    ensures
        bounded == resident_model::storage_is_bounded(config@),
{
    let count: usize = config.objects.len();
    if count > MAX_RESIDENT_OBJECTS || config.object_capabilities.len()
        > MAX_RESIDENT_OBJECT_CAPABILITIES {
        return false;
    }
    let ghost objects = config@.objects;
    let mut total: usize = 0;
    let mut n: usize = 0;
    while n < count
        invariant
            n <= count,
            count == config.objects@.len(),
            objects == config@.objects,
            total == resident_model::object_bytes(objects, n as int),
            total <= MAX_RESIDENT_OBJECT_ARENA_BYTES,
        decreases count - n,
    {
        let len: usize = config.objects[n].bytes.len();
        assert(objects[n as int] == config.objects@[n as int]@);
        if len > MAX_RESIDENT_OBJECT_ARENA_BYTES - total {
            proof {
                lemma_object_bytes_monotone(objects, n + 1, count as int);
            }
            return false;
        }
        total = total + len;
        n = n + 1;
    }
    proof {
        let stride = config.max_frame_bytes;
        assert(count * stride <= 4_096 * 0xffff_ffff) by (nonlinear_arith)
            requires
                count <= 4_096,
                stride <= 0xffff_ffffu32,
        ;
    }
    let arena: u64 = count as u64 * config.max_frame_bytes as u64;
    arena <= MAX_RESIDENT_OBJECT_ARENA_BYTES as u64
}

proof fn lemma_object_bytes_monotone(objects: Seq<ObjectView>, a: int, b: int)
    requires
        a <= b,
    ensures
        resident_model::object_bytes(objects, a) <= resident_model::object_bytes(objects, b),
    decreases b - a,
{
    if a < b {
        lemma_object_bytes_monotone(objects, a, b - 1);
    }
}

pub(crate) fn objects_fit(config: &ResidentSyncConfig) -> (fit: bool)
    ensures
        fit <==> forall|i: int|
            0 <= i < config@.objects.len() ==> (#[trigger] config@.objects[i]).bytes.len()
                <= config.max_frame_bytes,
{
    let mut n: usize = 0;
    while n < config.objects.len()
        invariant
            n <= config.objects@.len(),
            forall|i: int|
                0 <= i < n ==> (#[trigger] config@.objects[i]).bytes.len()
                    <= config.max_frame_bytes,
        decreases config.objects@.len() - n,
    {
        assert(config@.objects[n as int] == config.objects@[n as int]@);
        if config.objects[n].bytes.len() > config.max_frame_bytes as usize {
            return false;
        }
        n = n + 1;
    }
    true
}

pub(crate) fn object_capabilities_are_valid(config: &ResidentSyncConfig) -> (valid: bool)
    ensures
        valid <==> forall|i: int|
            0 <= i < config@.object_capabilities.len()
                ==> resident_model::object_capability_is_valid(
                config@,
                #[trigger] config@.object_capabilities[i],
            ),
{
    let mut n: usize = 0;
    while n < config.object_capabilities.len()
        invariant
            n <= config.object_capabilities@.len(),
            forall|i: int|
                0 <= i < n ==> resident_model::object_capability_is_valid(
                    config@,
                    #[trigger] config@.object_capabilities[i],
                ),
        decreases config.object_capabilities@.len() - n,
    {
        let cap = config.object_capabilities[n];
        assert(config@.object_capabilities[n as int] == cap);
        if cap.target as usize >= config.objects.len() {
            return false;
        }
        let object = &config.objects[cap.target as usize];
        assert(config@.objects[cap.target as int] == object@);
        let len: u64 = object.bytes.len() as u64;
        let in_range: bool = match cap.offset.checked_add(cap.length) {
            Some(end) => end <= len,
            None => false,
        };
        if cap.object_version != object.version || !in_range {
            return false;
        }
        n = n + 1;
    }
    true
}

pub(crate) fn messages_fit(config: &ResidentSyncConfig) -> (fit: bool)
    ensures
        fit <==> config@.mailbox_messages.len() == config@.mailbox_capacities.len() && forall|
            i: int,
        |
            0 <= i < config@.mailbox_messages.len() ==> (#[trigger] config@.mailbox_messages[i]).len()
                <= config@.mailbox_capacities[i],
{
    if config.mailbox_messages.len() != config.mailbox_capacities.len() {
        return false;
    }
    let mut n: usize = 0;
    while n < config.mailbox_messages.len()
        invariant
            n <= config.mailbox_messages@.len(),
            config.mailbox_messages@.len() == config.mailbox_capacities@.len(),
            forall|i: int|
                0 <= i < n ==> (#[trigger] config@.mailbox_messages[i]).len()
                    <= config@.mailbox_capacities[i],
        decreases config.mailbox_messages@.len() - n,
    {
        assert(config@.mailbox_messages[n as int] == config.mailbox_messages@[n as int]@);
        if config.mailbox_messages[n].len() > config.mailbox_capacities[n] as usize {
            return false;
        }
        n = n + 1;
    }
    true
}

pub(crate) fn continuations_fit(
    continuations: &Vec<ResidentContinuation>,
    max_frame_bytes: u32,
    handlers: &BTreeMap<u32, ResidentHandlerProgram>,
) -> (fit: bool)
    ensures
        fit <==> forall|i: int|
            0 <= i < continuations@.len() ==> (#[trigger] continuation_views(
                continuations@,
            )[i]).frame.len() <= max_frame_bytes && handlers@.contains_key(
                continuation_views(continuations@)[i].run_class,
            ),
{
    let ghost views = continuation_views(continuations@);
    let mut n: usize = 0;
    while n < continuations.len()
        invariant
            n <= continuations@.len(),
            views == continuation_views(continuations@),
            forall|i: int|
                0 <= i < n ==> (#[trigger] views[i]).frame.len() <= max_frame_bytes
                    && handlers@.contains_key(views[i].run_class),
        decreases continuations@.len() - n,
    {
        assert(views[n as int] == continuations@[n as int]@);
        if continuations[n].frame.len() > max_frame_bytes as usize || !handlers.contains_key(
            &continuations[n].run_class,
        ) {
            return false;
        }
        n = n + 1;
    }
    true
}

/// Whether an installed handler serves the class that it is installed for, and
/// is bounded.
pub open spec fn handler_is_valid(
    run_class: u32,
    program: ResidentHandlerProgram,
    max_effects: u32,
    max_frame_bytes: u32,
) -> bool {
    program.run_class == run_class && resident_program::program_is_valid(
        program.instructions@,
        max_effects as int,
        max_frame_bytes as int,
    )
}

pub(crate) fn handlers_are_valid(
    handlers: &BTreeMap<u32, ResidentHandlerProgram>,
    max_effects: u32,
    max_frame_bytes: u32,
) -> (valid: bool)
    ensures
        valid <==> forall|run_class: u32| #[trigger]
            handlers@.contains_key(run_class) ==> handler_is_valid(
                run_class,
                handlers@[run_class],
                max_effects,
                max_frame_bytes,
            ),
{
    let ghost entries = vstd::std_specs::iter::IteratorSpec::remaining(&handlers.iter());
    for entry in it: handlers.iter()
        invariant
            it.seq() == entries,
            entries == vstd::std_specs::iter::IteratorSpec::remaining(&handlers.iter()),
            forall|i: int|
                0 <= i < it.index() ==> handler_is_valid(
                    *(#[trigger] entries[i]).0,
                    *entries[i].1,
                    max_effects,
                    max_frame_bytes,
                ),
    {
        let (run_class, program) = entry;
        assert(entries[it.index() as int] == entry);
        assert(handlers@.contains_key(*entries[it.index() as int].0));
        if *run_class != program.run_class || !validate_handler_program(
            program,
            max_effects,
            max_frame_bytes,
        ) {
            return false;
        }
    }
    assert forall|run_class: u32| #[trigger] handlers@.contains_key(run_class) implies handler_is_valid(
        run_class,
        handlers@[run_class],
        max_effects,
        max_frame_bytes,
    ) by {
        assert(entries.contains((&run_class, &handlers@[run_class])));
    }
    true
}

proof fn lemma_distinct_ids_follow_the_multiset(
    a: Seq<ContinuationView>,
    b: Seq<ContinuationView>,
)
    requires
        a.to_multiset() == b.to_multiset(),
        resident_model::ids_are_distinct(a),
    ensures
        resident_model::ids_are_distinct(b),
{
    broadcast use vstd::seq_lib::group_to_multiset_ensures;

    assert(a.no_duplicates()) by {
        assert forall|i: int, j: int| 0 <= i < a.len() && 0 <= j < a.len() && i != j implies a[i]
            != a[j] by {
            assert(a[i].id != a[j].id);
        }
    }
    a.lemma_multiset_has_no_duplicates();
    b.lemma_multiset_has_no_duplicates_conv();
    assert forall|i: int, j: int|
        0 <= i < b.len() && 0 <= j < b.len() && #[trigger] b[i].id
            == #[trigger] b[j].id implies i == j by {
        assert(b.contains(b[i]) && b.contains(b[j]));
        assert(b.to_multiset().count(b[i]) > 0 && b.to_multiset().count(b[j]) > 0);
        assert(a.contains(b[i]) && a.contains(b[j]));
        let p = choose|p: int| 0 <= p < a.len() && a[p] == b[i];
        let q = choose|q: int| 0 <= q < a.len() && a[q] == b[j];
        assert(a[p].id == a[q].id);
        assert(b[i] == b[j]);
    }
}

proof fn lemma_id_order_is_unique(a: Seq<ContinuationView>, b: Seq<ContinuationView>)
    requires
        a.to_multiset() == b.to_multiset(),
        resident_model::ids_increase(a),
        resident_model::ids_increase(b),
    ensures
        a == b,
    decreases a.len(),
{
    broadcast use vstd::seq_lib::group_to_multiset_ensures;

    assert(a.len() == b.len()) by {
        a.to_multiset_ensures();
        b.to_multiset_ensures();
    }
    if a.len() > 0 {
        let x = a.last();
        let y = b.last();
        assert(a.contains(x) && b.contains(y));
        assert(a.to_multiset().count(x) > 0 && b.to_multiset().count(y) > 0);
        assert(b.contains(x) && a.contains(y));
        let j = choose|j: int| 0 <= j < b.len() && b[j] == x;
        let k = choose|k: int| 0 <= k < a.len() && a[k] == y;
        assert(x.id <= y.id) by {
            if j < b.len() - 1 {
                assert(b[j].id < b[b.len() - 1].id);
            }
        }
        assert(y.id <= x.id) by {
            if k < a.len() - 1 {
                assert(a[k].id < a[a.len() - 1].id);
            }
        }
        assert(x == y) by {
            if k < a.len() - 1 {
                assert(a[k].id < a[a.len() - 1].id);
            }
        }
        assert(a =~= a.drop_last().push(x));
        assert(b =~= b.drop_last().push(y));
        assert(a.drop_last().to_multiset() =~= a.to_multiset().remove(x)) by {
            assert(a.drop_last() =~= a.remove(a.len() - 1));
            a.to_multiset_ensures();
        }
        assert(b.drop_last().to_multiset() =~= b.to_multiset().remove(y)) by {
            assert(b.drop_last() =~= b.remove(b.len() - 1));
            b.to_multiset_ensures();
        }
        lemma_id_order_is_unique(a.drop_last(), b.drop_last());
    } else {
        assert(a =~= b);
    }
}

spec fn first_greater(sorted: Seq<ContinuationView>, id: u64) -> int
    decreases sorted.len(),
{
    if sorted.len() == 0 || sorted.last().id < id {
        sorted.len() as int
    } else {
        first_greater(sorted.drop_last(), id)
    }
}

proof fn lemma_first_greater(sorted: Seq<ContinuationView>, id: u64)
    requires
        resident_model::ids_increase(sorted),
        forall|i: int| 0 <= i < sorted.len() ==> (#[trigger] sorted[i]).id != id,
    ensures
        0 <= first_greater(sorted, id) <= sorted.len(),
        forall|i: int|
            0 <= i < first_greater(sorted, id) ==> (#[trigger] sorted[i]).id < id,
        forall|i: int|
            first_greater(sorted, id) <= i < sorted.len() ==> (#[trigger] sorted[i]).id > id,
    decreases sorted.len(),
{
    if sorted.len() > 0 && sorted.last().id > id {
        let rest = sorted.drop_last();
        assert forall|i: int, j: int| 0 <= i < j < rest.len() implies (#[trigger] rest[i]).id < (
        #[trigger] rest[j]).id by {
            assert(sorted[i].id < sorted[j].id);
        }
        assert forall|i: int| 0 <= i < rest.len() implies (#[trigger] rest[i]).id != id by {
            assert(sorted[i].id != id);
        }
        lemma_first_greater(rest, id);
        assert forall|i: int| 0 <= i < first_greater(sorted, id) implies (#[trigger] sorted[i]).id
            < id by {
            assert(rest[i].id < id);
        }
        assert forall|i: int| first_greater(sorted, id) <= i < sorted.len() implies (
        #[trigger] sorted[i]).id > id by {
            if i < rest.len() {
                assert(rest[i].id > id);
            }
        }
    } else if sorted.len() > 0 {
        assert(sorted[sorted.len() - 1].id != id);
        assert forall|i: int| 0 <= i < sorted.len() implies (#[trigger] sorted[i]).id < id by {
            if i < sorted.len() - 1 {
                assert(sorted[i].id < sorted[sorted.len() - 1].id);
            }
        }
    }
}

/// Continuations with distinct ids can be put in increasing order of id.
pub proof fn lemma_id_order_exists(conts: Seq<ContinuationView>)
    requires
        resident_model::ids_are_distinct(conts),
    ensures
        resident_model::is_in_id_order(conts, resident_model::in_id_order(conts)),
        resident_model::in_id_order(conts).len() == conts.len(),
    decreases conts.len(),
{
    broadcast use vstd::seq_lib::group_to_multiset_ensures;

    if conts.len() == 0 {
        assert(resident_model::is_in_id_order(conts, Seq::empty())) by {
            assert(conts =~= Seq::empty());
        }
    } else {
        let rest = conts.drop_last();
        let x = conts.last();
        assert(resident_model::ids_are_distinct(rest)) by {
            assert forall|i: int, j: int|
                0 <= i < rest.len() && 0 <= j < rest.len() && #[trigger] rest[i].id
                    == #[trigger] rest[j].id implies i == j by {
                assert(conts[i].id == conts[j].id);
            }
        }
        lemma_id_order_exists(rest);
        let sorted = resident_model::in_id_order(rest);
        assert forall|i: int| 0 <= i < sorted.len() implies (#[trigger] sorted[i]).id != x.id by {
            assert(sorted.contains(sorted[i]));
            assert(sorted.to_multiset().count(sorted[i]) > 0);
            assert(rest.contains(sorted[i]));
            let k = choose|k: int| 0 <= k < rest.len() && rest[k] == sorted[i];
            assert(conts[k].id == rest[k].id);
            assert(conts[conts.len() - 1].id == x.id);
        }
        lemma_first_greater(sorted, x.id);
        let p = first_greater(sorted, x.id);
        let next = sorted.insert(p, x);
        vstd::seq_lib::to_multiset_insert(sorted, p, x);
        assert(conts =~= rest.push(x));
        assert(next.to_multiset() =~= conts.to_multiset());
        assert forall|i: int, j: int| 0 <= i < j < next.len() implies (#[trigger] next[i]).id < (
        #[trigger] next[j]).id by {
            let a = if i < p {
                i
            } else {
                i - 1
            };
            let b = if j < p {
                j
            } else {
                j - 1
            };
            if i != p && j != p {
                assert(sorted[a].id < sorted[b].id);
            } else if i == p {
                assert(sorted[b].id > x.id);
            } else {
                assert(sorted[a].id < x.id);
            }
        }
        assert(resident_model::is_in_id_order(conts, next));
    }
    let sorted = resident_model::in_id_order(conts);
    assert(resident_model::is_in_id_order(conts, sorted));
    sorted.to_multiset_ensures();
    conts.to_multiset_ensures();
}

/// The positions of the continuations in increasing order of id, or `None`
/// where an id occurs twice.
pub fn id_order(continuations: &Vec<ResidentContinuation>) -> (order: Option<Vec<usize>>)
    ensures
        order is Some <==> resident_model::ids_are_distinct(continuation_views(continuations@)),
        order matches Some(positions) ==> {
            &&& positions@.no_duplicates()
            &&& positions@.len() == continuations@.len()
            &&& forall|k: int|
                0 <= k < positions@.len() ==> (#[trigger] positions@[k]) < continuations@.len()
            &&& positions@.map_values(|i: usize| continuations@[i as int]@)
                == resident_model::in_id_order(continuation_views(continuations@))
        },
{
    let ghost all = continuation_views(continuations@);
    let ghost pick = |i: usize| continuations@[i as int]@;
    let mut order: Vec<usize> = Vec::new();
    let ghost mut sorted: Seq<ContinuationView> = Seq::empty();
    let mut n: usize = 0;
    assert(all.take(0) =~= Seq::empty());
    assert(order@.map_values(pick) =~= sorted);
    while n < continuations.len()
        invariant
            n <= continuations@.len(),
            all == continuation_views(continuations@),
            pick == (|i: usize| continuations@[i as int]@),
            sorted.to_multiset() == all.take(n as int).to_multiset(),
            resident_model::ids_increase(sorted),
            order@.len() == n,
            order@.no_duplicates(),
            forall|k: int| 0 <= k < order@.len() ==> (#[trigger] order@[k]) < n,
            order@.map_values(pick) == sorted,
        decreases continuations@.len() - n,
    {
        let id: u64 = continuations[n].id;
        let ghost view = all[n as int];
        proof {
            assert(all.take(n + 1) =~= all.take(n as int).push(view));
            all.take(n as int).to_multiset_ensures();
            assert(order@.map_values(pick).len() == sorted.len());
        }
        let mut p: usize = n;
        while p > 0 && continuations[order[p - 1]].id > id
            invariant
                p <= n,
                n < continuations@.len(),
                order@.len() == n,
                sorted.len() == n,
                id == view.id,
                pick == (|i: usize| continuations@[i as int]@),
                order@.map_values(pick) == sorted,
                forall|k: int| 0 <= k < order@.len() ==> (#[trigger] order@[k]) < n,
                forall|k: int| p <= k < sorted.len() ==> (#[trigger] sorted[k]).id > view.id,
            decreases p,
        {
            assert(order@[p - 1] < n);
            assert(order@.map_values(pick)[p - 1] == pick(order@[p - 1]));
            p = p - 1;
        }
        if p > 0 {
            assert(order@[p - 1] < n);
            assert(order@.map_values(pick)[p - 1] == pick(order@[p - 1]));
            assert(sorted[p - 1].id == continuations@[order@[p - 1] as int].id);
        }
        if p > 0 && continuations[order[p - 1]].id == id {
            proof {
                let first = order@[p - 1] as int;
                assert(all[first].id == all[n as int].id);
                assert(first != n);
            }
            return None;
        }
        proof {
            vstd::seq_lib::to_multiset_insert(sorted, p as int, view);
            let next = sorted.insert(p as int, view);
            assert forall|i: int, j: int| 0 <= i < j < next.len() implies (#[trigger] next[i]).id
                < (#[trigger] next[j]).id by {
                if i < p && j == p && i < p - 1 {
                    assert(sorted[i].id < sorted[p - 1].id);
                } else if i == p {
                    assert(sorted[j - 1].id > view.id);
                } else if i != p && j != p {
                    let x = if i < p {
                        i
                    } else {
                        i - 1
                    };
                    let y = if j < p {
                        j
                    } else {
                        j - 1
                    };
                    assert(sorted[x].id < sorted[y].id);
                }
            }
        }
        let ghost before = order@;
        order.insert(p, n);
        proof {
            let next = sorted.insert(p as int, view);
            assert forall|i: int| 0 <= i < next.len() implies pick(order@[i])
                == #[trigger] next[i] by {
                if i < p {
                    assert(before.map_values(pick)[i] == sorted[i]);
                } else if i > p {
                    assert(before.map_values(pick)[i - 1] == sorted[i - 1]);
                }
            }
            assert(order@.map_values(pick) =~= next);
            assert forall|i: int, j: int|
                0 <= i < order@.len() && 0 <= j < order@.len() && i != j implies order@[i]
                != order@[j] by {
                let x = if i < p {
                    i
                } else {
                    i - 1
                };
                let y = if j < p {
                    j
                } else {
                    j - 1
                };
                if i != p {
                    assert(order@[i] == before[x]);
                    assert(before[x] < n);
                }
                if j != p {
                    assert(order@[j] == before[y]);
                    assert(before[y] < n);
                }
            }
            assert forall|k: int| 0 <= k < order@.len() implies (#[trigger] order@[k]) < n + 1 by {
                if k < p {
                    assert(before[k] < n);
                } else if k > p {
                    assert(before[k - 1] < n);
                }
            }
            sorted = next;
        }
        n = n + 1;
    }
    proof {
        assert(all.take(n as int) =~= all);
        assert(resident_model::is_in_id_order(all, sorted));
        lemma_id_order_is_unique(sorted, resident_model::in_id_order(all));
        assert(resident_model::ids_are_distinct(sorted)) by {
            assert forall|i: int, j: int|
                0 <= i < sorted.len() && 0 <= j < sorted.len() && #[trigger] sorted[i].id
                    == #[trigger] sorted[j].id implies i == j by {
                if i < j {
                    assert(sorted[i].id < sorted[j].id);
                } else if j < i {
                    assert(sorted[j].id < sorted[i].id);
                }
            }
        }
        lemma_distinct_ids_follow_the_multiset(sorted, all);
    }
    Some(order)
}

/// The continuations in increasing order of id, as they enter a run, or `None`
/// where an id occurs twice.
fn order_by_id(continuations: Vec<ResidentContinuation>) -> (ordered: Option<Vec<Cont>>)
    ensures
        ordered is Some <==> resident_model::ids_are_distinct(continuation_views(continuations@)),
        ordered matches Some(conts) ==> resident_engine::cont_views(conts@)
            == resident_model::in_id_order(continuation_views(continuations@)).map_values(
            |cont: ContinuationView| resident_model::entered(cont),
        ),
{
    let ghost all = continuation_views(continuations@);
    let order = match id_order(&continuations) {
        None => {
            return None;
        },
        Some(order) => order,
    };
    let ghost sorted = resident_model::in_id_order(all);
    let ghost pick = |i: usize| continuations@[i as int]@;
    assert(order@.map_values(pick) == sorted);
    let mut rest = continuations;
    let mut conts: Vec<Cont> = Vec::new();
    let mut n: usize = 0;
    while n < order.len()
        invariant
            n <= order@.len(),
            order@.len() == rest@.len(),
            sorted.len() == order@.len(),
            order@.no_duplicates(),
            forall|k: int| 0 <= k < order@.len() ==> (#[trigger] order@[k]) < rest@.len(),
            conts@.len() == n,
            forall|k: int|
                n <= k < order@.len() ==> rest@[(#[trigger] order@[k]) as int]@ == sorted[k],
            forall|k: int|
                0 <= k < n ==> (#[trigger] conts@[k])@ == resident_model::entered(sorted[k]),
        decreases order@.len() - n,
    {
        let i: usize = order[n];
        let ghost before = rest@;
        let mut frame: Vec<u8> = Vec::new();
        std::mem::swap(&mut frame, &mut rest[i].frame);
        let entry = Cont {
            id: rest[i].id,
            actor: rest[i].actor,
            run_class: rest[i].run_class,
            mutable_access: rest[i].mutable_access,
            waiting_since: rest[i].waiting_since,
            frame,
            previous: Vec::new(),
            runnable: true,
            completed: false,
            pending: None,
            waiter_order: 0,
        };
        assert(before[i as int]@ == sorted[n as int]);
        assert(entry@ =~= resident_model::entered(sorted[n as int]));
        conts.push(entry);
        assert forall|k: int| n + 1 <= k < order@.len() implies rest@[(
        #[trigger] order@[k]) as int]@ == sorted[k] by {
            assert(order@[k] != order@[n as int]);
            assert(rest@[order@[k] as int] == before[order@[k] as int]);
        }
        n = n + 1;
    }
    assert(resident_engine::cont_views(conts@) =~= sorted.map_values(
        |cont: ContinuationView| resident_model::entered(cont),
    ));
    Some(conts)
}

fn start_objects(config: &ResidentSyncConfig) -> (objects: Vec<Vec<u8>>)
    ensures
        objects@.map_values(|o: Vec<u8>| o@) == config@.objects.map_values(
            |o: ObjectView| o.bytes,
        ),
{
    let mut objects: Vec<Vec<u8>> = Vec::new();
    let mut n: usize = 0;
    while n < config.objects.len()
        invariant
            n <= config.objects@.len(),
            objects@.len() == n,
            forall|i: int| 0 <= i < n ==> (#[trigger] objects@[i])@ == config.objects@[i].bytes@,
        decreases config.objects@.len() - n,
    {
        objects.push(vstd::slice::slice_to_vec(config.objects[n].bytes.as_slice()));
        n = n + 1;
    }
    assert(objects@.map_values(|o: Vec<u8>| o@) =~= config@.objects.map_values(
        |o: ObjectView| o.bytes,
    ));
    objects
}

fn start_futures(config: &ResidentSyncConfig) -> (futures: Vec<FutureCell>)
    ensures
        futures@.map_values(|f: FutureCell| f@) == config@.futures.map_values(
            |f: InitialFuture| resident_model::entered_future(f),
        ),
{
    let mut futures: Vec<FutureCell> = Vec::new();
    let mut n: usize = 0;
    while n < config.futures.len()
        invariant
            n <= config.futures@.len(),
            futures@.len() == n,
            forall|i: int|
                0 <= i < n ==> (#[trigger] futures@[i])@ == resident_model::entered_future(
                    config.futures@[i],
                ),
        decreases config.futures@.len() - n,
    {
        let value: Option<u64> = match config.futures[n] {
            InitialFuture::Pending => None,
            InitialFuture::Resolved(value) => Some(value),
        };
        let cell = FutureCell { value, waiters: Vec::new() };
        assert(cell@ =~= resident_model::entered_future(config.futures@[n as int]));
        futures.push(cell);
        n = n + 1;
    }
    assert(futures@.map_values(|f: FutureCell| f@) =~= config@.futures.map_values(
        |f: InitialFuture| resident_model::entered_future(f),
    ));
    futures
}

fn start_mails(config: &ResidentSyncConfig) -> (mails: Vec<Mail>)
    requires
        config.mailbox_messages@.len() == config.mailbox_capacities@.len(),
    ensures
        mails@.map_values(|m: Mail| m@) == Seq::new(
            config@.mailbox_capacities.len(),
            |i: int|
                MailView {
                    capacity: config@.mailbox_capacities[i],
                    queue: config@.mailbox_messages[i],
                    receivers: Seq::empty(),
                    senders: Seq::empty(),
                },
        ),
{
    let mut mails: Vec<Mail> = Vec::new();
    let mut n: usize = 0;
    while n < config.mailbox_capacities.len()
        invariant
            n <= config.mailbox_capacities@.len(),
            config.mailbox_messages@.len() == config.mailbox_capacities@.len(),
            mails@.len() == n,
            forall|i: int|
                0 <= i < n ==> (#[trigger] mails@[i])@ == (MailView {
                    capacity: config.mailbox_capacities@[i],
                    queue: config.mailbox_messages@[i]@,
                    receivers: Seq::empty(),
                    senders: Seq::empty(),
                }),
        decreases config.mailbox_capacities@.len() - n,
    {
        let messages = &config.mailbox_messages[n];
        let mut queue: VecDeque<(u64, u64)> = VecDeque::new();
        let mut k: usize = 0;
        while k < messages.len()
            invariant
                k <= messages@.len(),
                queue@ =~= messages@.take(k as int),
            decreases messages@.len() - k,
        {
            queue.push_back(messages[k]);
            k = k + 1;
        }
        assert(messages@.take(k as int) =~= messages@);
        let mail = Mail {
            capacity: config.mailbox_capacities[n],
            queue,
            receivers: Vec::new(),
            senders: Vec::new(),
        };
        assert(mail@ =~= (MailView {
            capacity: config.mailbox_capacities@[n as int],
            queue: config.mailbox_messages@[n as int]@,
            receivers: Seq::empty(),
            senders: Seq::empty(),
        }));
        mails.push(mail);
        n = n + 1;
    }
    assert(mails@.map_values(|m: Mail| m@) =~= Seq::new(
        config@.mailbox_capacities.len(),
        |i: int|
            MailView {
                capacity: config@.mailbox_capacities[i],
                queue: config@.mailbox_messages[i],
                receivers: Seq::empty(),
                senders: Seq::empty(),
            },
    ));
    mails
}

fn final_continuations(conts: &Vec<Cont>) -> (out: (Vec<ResidentFinalContinuation>, bool))
    ensures
        out.0@ == resident_engine::cont_views(conts@).map_values(
            |cont: ContView| resident_model::left(cont),
        ),
        out.1 <==> forall|i: int|
            0 <= i < conts@.len() ==> !resident_model::eligible(
                #[trigger] resident_engine::cont_views(conts@)[i],
            ),
{
    let ghost views = resident_engine::cont_views(conts@);
    let mut out: Vec<ResidentFinalContinuation> = Vec::new();
    let mut quiescent: bool = true;
    let mut n: usize = 0;
    while n < conts.len()
        invariant
            n <= conts@.len(),
            views == resident_engine::cont_views(conts@),
            out@.len() == n,
            forall|i: int| 0 <= i < n ==> #[trigger] out@[i] == resident_model::left(views[i]),
            quiescent <==> forall|i: int|
                0 <= i < n ==> !resident_model::eligible(#[trigger] views[i]),
        decreases conts@.len() - n,
    {
        let cont = &conts[n];
        assert(views[n as int] == cont@);
        let waiter_order: u32 = if cont.pending.is_some() {
            cont.waiter_order
        } else {
            0
        };
        out.push(
            ResidentFinalContinuation {
                id: cont.id,
                run_class: cont.run_class,
                completed: cont.completed,
                pending: cont.pending,
                waiter_order,
            },
        );
        if cont.runnable && !cont.completed {
            quiescent = false;
        }
        n = n + 1;
    }
    assert(out@ =~= views.map_values(|cont: ContView| resident_model::left(cont)));
    (out, quiescent)
}

fn final_frames(conts: &mut Vec<Cont>) -> (frames: BTreeMap<u64, Vec<u8>>)
    ensures
        frames@.map_values(|f: Vec<u8>| f@) == resident_model::frames_of(
            resident_engine::cont_views(old(conts)@),
            old(conts)@.len() as int,
        ),
{
    let ghost views = resident_engine::cont_views(conts@);
    let mut frames: BTreeMap<u64, Vec<u8>> = BTreeMap::new();
    let mut n: usize = 0;
    assert(frames@.map_values(|f: Vec<u8>| f@) =~= Map::empty());
    while n < conts.len()
        invariant
            n <= conts@.len(),
            conts@.len() == views.len(),
            views == resident_engine::cont_views(old(conts)@),
            forall|i: int| n <= i < conts@.len() ==> (#[trigger] conts@[i])@ == views[i],
            frames@.map_values(|f: Vec<u8>| f@) == resident_model::frames_of(views, n as int),
        decreases conts@.len() - n,
    {
        let ghost before = frames@;
        let id: u64 = conts[n].id;
        let mut frame: Vec<u8> = Vec::new();
        std::mem::swap(&mut frame, &mut conts[n].frame);
        assert(frame@ == views[n as int].frame);
        frames.insert(id, frame);
        n = n + 1;
        assert(frames@.map_values(|f: Vec<u8>| f@) =~= before.map_values(|f: Vec<u8>| f@).insert(
            id,
            frame@,
        ));
    }
    frames
}

fn final_futures(futures: &Vec<FutureCell>) -> (values: Vec<Option<u64>>)
    ensures
        values@ == futures@.map_values(|f: FutureCell| f@).map_values(
            |f: resident_model::FutureView| f.value,
        ),
{
    let mut values: Vec<Option<u64>> = Vec::new();
    let mut n: usize = 0;
    while n < futures.len()
        invariant
            n <= futures@.len(),
            values@.len() == n,
            forall|i: int| 0 <= i < n ==> #[trigger] values@[i] == futures@[i].value,
        decreases futures@.len() - n,
    {
        values.push(futures[n].value);
        n = n + 1;
    }
    assert(values@ =~= futures@.map_values(|f: FutureCell| f@).map_values(
        |f: resident_model::FutureView| f.value,
    ));
    values
}

fn final_mailboxes(mails: &Vec<Mail>) -> (mailboxes: Vec<Vec<(u64, u64)>>)
    ensures
        mailboxes@.map_values(|m: Vec<(u64, u64)>| m@) == mails@.map_values(
            |m: Mail| m@,
        ).map_values(|m: MailView| m.queue),
{
    let mut mailboxes: Vec<Vec<(u64, u64)>> = Vec::new();
    let mut n: usize = 0;
    while n < mails.len()
        invariant
            n <= mails@.len(),
            mailboxes@.len() == n,
            forall|i: int| 0 <= i < n ==> (#[trigger] mailboxes@[i])@ == mails@[i].queue@,
        decreases mails@.len() - n,
    {
        let queue = &mails[n].queue;
        let mut messages: Vec<(u64, u64)> = Vec::new();
        let mut k: usize = 0;
        while k < queue.len()
            invariant
                k <= queue@.len(),
                messages@ =~= queue@.take(k as int),
            decreases queue@.len() - k,
        {
            messages.push(queue[k]);
            k = k + 1;
        }
        assert(queue@.take(k as int) =~= queue@);
        mailboxes.push(messages);
        n = n + 1;
    }
    assert(mailboxes@.map_values(|m: Vec<(u64, u64)>| m@) =~= mails@.map_values(
        |m: Mail| m@,
    ).map_values(|m: MailView| m.queue));
    mailboxes
}

/// The result of a run that stopped in `engine`.
fn finish(engine: Engine) -> (result: ResidentSyncResult)
    requires
        engine.epoch_records@.len() <= u32::MAX,
    ensures
        result@ == resident_model::result_of(engine@),
{
    let ghost state = engine@;
    let mut engine = engine;
    let (final_continuations, quiescent) = final_continuations(&engine.conts);
    let frames = final_frames(&mut engine.conts);
    let future_values = final_futures(&engine.futures);
    let mailboxes = final_mailboxes(&engine.mails);
    let epochs: u32 = engine.epoch_records.len() as u32;
    let result = ResidentSyncResult {
        frames,
        effects: engine.effects,
        accesses: engine.accesses,
        operations: engine.operations,
        trace: engine.trace,
        epochs,
        quiescent,
        completed: engine.completed,
        object_values: engine.objects,
        future_values,
        mailboxes,
        final_continuations,
        invocations: engine.invocations,
        wakes: engine.wakes,
        epoch_records: engine.epoch_records,
    };
    assert(result@ =~= resident_model::result_of(state));
    result
}

/// Runs installed handlers and canonically applies their effects.
/// `cohort_width` affects packing only; changing it cannot change any returned
/// semantic field.
pub fn run_resident_sync(
    config: &ResidentSyncConfig,
    continuations: Vec<ResidentContinuation>,
    handlers: &BTreeMap<u32, ResidentHandlerProgram>,
) -> (result: Option<ResidentSyncResult>)
    ensures
        match run_result(*config, continuations@, handlers@) {
            None => result is None,
            Some(view) => result matches Some(r) && r@ == view,
        },
{
    let ghost views = continuation_views(continuations@);
    let ghost table = resident_types::handlers_view(handlers@);
    if config.max_epochs == 0 || config.cohort_width == 0 || config.max_effects_per_step == 0
        || config.max_frame_bytes == 0 || config.max_continuations == 0 {
        return None;
    }
    if config.max_epochs > u32::MAX - config.initial_epoch {
        return None;
    }
    if !object_storage_is_bounded(config) || !objects_fit(config)
        || !object_capabilities_are_valid(config) || !messages_fit(config) {
        return None;
    }
    if continuations.len() > config.max_continuations as usize || !continuations_fit(
        &continuations,
        config.max_frame_bytes,
        handlers,
    ) {
        assert(!resident_model::plan_is_valid(config@, views, table));
        return None;
    }
    if !handlers_are_valid(handlers, config.max_effects_per_step, config.max_frame_bytes) {
        proof {
            let run_class = choose|run_class: u32|
                handlers@.contains_key(run_class) && !handler_is_valid(
                    run_class,
                    handlers@[run_class],
                    config.max_effects_per_step,
                    config.max_frame_bytes,
                );
            assert(table.contains_key(run_class));
        }
        return None;
    }
    let conts = match order_by_id(continuations) {
        None => {
            return None;
        },
        Some(conts) => conts,
    };
    proof {
        assert forall|run_class: u32| #[trigger] table.contains_key(run_class) implies {
            &&& table[run_class].run_class == run_class
            &&& resident_program::program_is_valid(
                table[run_class].instructions,
                config.max_effects_per_step as int,
                config.max_frame_bytes as int,
            )
        } by {
            assert(handlers@.contains_key(run_class));
        }
        assert(resident_model::plan_is_valid(config@, views, table));
    }
    let mut engine = Engine {
        conts,
        objects: start_objects(config),
        futures: start_futures(config),
        mails: start_mails(config),
        tickets: 0,
        effects: Vec::new(),
        accesses: Vec::new(),
        operations: Vec::new(),
        trace: Vec::new(),
        completed: Vec::new(),
        invocations: Vec::new(),
        wakes: Vec::new(),
        epoch_records: Vec::new(),
    };
    proof {
        assert(engine@ =~= resident_model::initial(config@, views));
        assert(resident_model::waiters_exist(engine@));
        lemma_id_order_exists(views);
        assert(engine.conts@.len() == engine@.conts.len());
    }
    if engine.run(config, handlers) {
        Some(finish(engine))
    } else {
        None
    }
}

/// The cohort width packs lanes and nothing else: two runs that differ in it
/// alone, with neither width zero, have the same result.
pub proof fn law_cohort_width_is_not_observed(
    config: ResidentSyncConfig,
    width: u32,
    continuations: Seq<ResidentContinuation>,
    handlers: Map<u32, ResidentHandlerProgram>,
)
    requires
        config.cohort_width != 0,
        width != 0,
    ensures
        run_result(
            (ResidentSyncConfig { cohort_width: width, ..config }),
            continuations,
            handlers,
        ) == run_result(config, continuations, handlers),
{
    assert((ResidentSyncConfig { cohort_width: width, ..config })@ =~= config@);
}

/// The order in which the continuations are handed over is not observed.
pub proof fn law_continuation_order_is_not_observed(
    config: ConfigView,
    a: Seq<ContinuationView>,
    b: Seq<ContinuationView>,
    handlers: Map<u32, ProgramView>,
)
    requires
        a.to_multiset() == b.to_multiset(),
    ensures
        resident_model::sync_result(config, a, handlers) == resident_model::sync_result(
            config,
            b,
            handlers,
        ),
{
    lemma_valid_plan_in_any_order(config, a, b, handlers);
    lemma_valid_plan_in_any_order(config, b, a, handlers);
    if resident_model::plan_is_valid(config, a, handlers) {
        lemma_id_order_exists(a);
        lemma_id_order_exists(b);
        lemma_id_order_is_unique(resident_model::in_id_order(a), resident_model::in_id_order(b));
    }
}

proof fn lemma_valid_plan_in_any_order(
    config: ConfigView,
    a: Seq<ContinuationView>,
    b: Seq<ContinuationView>,
    handlers: Map<u32, ProgramView>,
)
    requires
        a.to_multiset() == b.to_multiset(),
    ensures
        resident_model::plan_is_valid(config, a, handlers) ==> resident_model::plan_is_valid(
            config,
            b,
            handlers,
        ),
{
    broadcast use vstd::seq_lib::group_to_multiset_ensures;

    if resident_model::plan_is_valid(config, a, handlers) {
        lemma_distinct_ids_follow_the_multiset(a, b);
        a.to_multiset_ensures();
        b.to_multiset_ensures();
        assert(a.len() == b.len());
        assert forall|i: int| 0 <= i < b.len() implies (#[trigger] b[i]).frame.len()
            <= config.max_frame_bytes && handlers.contains_key(b[i].run_class) by {
            assert(b.contains(b[i]));
            assert(b.to_multiset().count(b[i]) > 0);
            assert(a.contains(b[i]));
            let k = choose|k: int| 0 <= k < a.len() && a[k] == b[i];
            assert(a[k].frame.len() <= config.max_frame_bytes);
        }
    }
}

/// What every run that gives a result keeps: each continuation has its frame,
/// of the length that it came with; objects keep their length; a future that
/// came resolved keeps its value; mailboxes stay within their capacity; there
/// is one epoch record for each epoch, no more than the plan allows, and one
/// journal for each invocation; and a run that stops early is quiescent.
pub proof fn law_run_keeps_its_bounds(
    config: ConfigView,
    conts: Seq<ContinuationView>,
    handlers: Map<u32, ProgramView>,
)
    requires
        conts.len() <= usize::MAX,
    ensures
        resident_model::sync_result(config, conts, handlers) matches Some(r) ==> {
            &&& forall|i: int|
                0 <= i < conts.len() ==> r.frames.contains_key((#[trigger] conts[i]).id)
                    && r.frames[conts[i].id].len() == conts[i].frame.len()
            &&& r.final_continuations.len() == conts.len()
            &&& r.object_values.len() == config.objects.len()
            &&& forall|i: int|
                0 <= i < config.objects.len() ==> (#[trigger] r.object_values[i]).len()
                    == config.objects[i].bytes.len()
            &&& r.future_values.len() == config.futures.len()
            &&& forall|i: int|
                0 <= i < config.futures.len() ==> (config.futures[i] matches InitialFuture::Resolved(
                    value,
                ) ==> #[trigger] r.future_values[i] == Some(value))
            &&& r.mailboxes.len() == config.mailbox_capacities.len()
            &&& forall|i: int|
                0 <= i < config.mailbox_capacities.len() ==> (#[trigger] r.mailboxes[i]).len()
                    <= config.mailbox_capacities[i]
            &&& r.epochs == r.epoch_records.len()
            &&& r.epochs <= config.max_epochs
            &&& r.invocations.len() == r.operations.len()
            &&& r.epochs < config.max_epochs ==> r.quiescent
        },
{
    if resident_model::plan_is_valid(config, conts, handlers) {
        let start = resident_model::initial(config, conts);
        lemma_id_order_exists(conts);
        assert(resident_model::waiters_exist(start));
        resident_laws::lemma_epochs_keep(config, handlers, start, 0);
        if let Some(t) = resident_model::after_epochs(config, handlers, start, 0) {
            let r = resident_model::result_of(t);
            let sorted = resident_model::in_id_order(conts);
            assert forall|i: int, j: int|
                0 <= i < t.conts.len() && 0 <= j < t.conts.len() && #[trigger] t.conts[i].id
                    == #[trigger] t.conts[j].id implies i == j by {
                assert(start.conts[i].id == sorted[i].id && start.conts[j].id == sorted[j].id);
                if i < j {
                    assert(sorted[i].id < sorted[j].id);
                } else if j < i {
                    assert(sorted[j].id < sorted[i].id);
                }
            }
            assert forall|i: int| 0 <= i < conts.len() implies r.frames.contains_key(
                (#[trigger] conts[i]).id,
            ) && r.frames[conts[i].id].len() == conts[i].frame.len() by {
                broadcast use vstd::seq_lib::group_to_multiset_ensures;

                assert(conts.contains(conts[i]));
                assert(conts.to_multiset().count(conts[i]) > 0);
                assert(sorted.contains(conts[i]));
                let k = choose|k: int| 0 <= k < sorted.len() && sorted[k] == conts[i];
                assert(start.conts[k] == resident_model::entered(sorted[k]));
                assert(t.conts[k].id == conts[i].id);
                lemma_frames_by_id(t.conts, t.conts.len() as int, k);
            }
            assert forall|i: int| 0 <= i < config.objects.len() implies (
            #[trigger] r.object_values[i]).len() == config.objects[i].bytes.len() by {
                assert(start.objects[i] == config.objects[i].bytes);
                assert(t.objects[i].len() == start.objects[i].len());
            }
            assert forall|i: int|
                0 <= i < config.futures.len() implies (config.futures[i] matches InitialFuture::Resolved(
                value,
            ) ==> #[trigger] r.future_values[i] == Some(value)) by {
                assert(start.futures[i] == resident_model::entered_future(config.futures[i]));
                assert(r.future_values[i] == t.futures[i].value);
            }
            assert forall|i: int| 0 <= i < config.mailbox_capacities.len() implies (
            #[trigger] r.mailboxes[i]).len() <= config.mailbox_capacities[i] by {
                assert(start.mails[i].queue == config.mailbox_messages[i]);
                assert(start.mails[i].capacity == config.mailbox_capacities[i]);
                assert(r.mailboxes[i] == t.mails[i].queue);
                assert(t.mails[i].capacity == start.mails[i].capacity);
            }
            if t.epoch_records.len() < config.max_epochs {
                assert forall|i: int| 0 <= i < t.conts.len() implies !resident_model::eligible(
                    #[trigger] t.conts[i],
                ) by {
                    if resident_model::eligible(t.conts[i]) {
                        resident_laws::law_admission_makes_progress(t.conts, i);
                    }
                }
            }
        }
    }
}

proof fn lemma_frames_by_id(conts: Seq<ContView>, n: int, k: int)
    requires
        0 <= k < n <= conts.len(),
        forall|i: int, j: int|
            0 <= i < conts.len() && 0 <= j < conts.len() && #[trigger] conts[i].id
                == #[trigger] conts[j].id ==> i == j,
    ensures
        resident_model::frames_of(conts, n).contains_key(conts[k].id),
        resident_model::frames_of(conts, n)[conts[k].id] == conts[k].frame,
    decreases n,
{
    if k < n - 1 {
        lemma_frames_by_id(conts, n - 1, k);
        assert(conts[n - 1].id != conts[k].id);
    }
}

} // verus!
