//! Device lowering of the resident synchronization boundary.
//!
//! The complete epoch loop runs in one command buffer on the device. This
//! module is the host's half of it: it refuses plans that the device's 32-bit
//! tables cannot hold, lays an accepted plan out in the device's buffers, and
//! turns the single final readback into the records of a run.

use crate::bytes;
use crate::device;
use crate::device::{
    DeviceLaneAccess, DeviceLaneOperation, DeviceOperationJournal, JournalView,
    DEVICE_ACCESS_READ, DEVICE_ACCESS_WRITE,
};
use crate::executives::batch::BackendError;
use crate::executives::resident_engine;
use crate::executives::resident_model;
use crate::executives::resident_model::Slot;
use crate::executives::resident_program;
use crate::executives::resident_sync;
use crate::executives::resident_sync::{
    id_order, object_storage_is_bounded, ConfigView, ContinuationView, InitialFuture, ObjectView,
    ProgramView, ResidentCapability, ResidentContinuation, ResidentEffect, ResidentEffectRecord,
    ResidentEpochRecord, ResidentFinalContinuation, ResidentHandlerProgram, ResidentInstruction,
    ResidentInvocationRecord, ResidentObjectCapability, ResidentOutcome, ResidentSyncConfig,
    ResidentSyncResult, ResidentSyncTrace, ResidentWakeRecord, ResultView,
};
use crate::executives::resident_types;
use crate::ordered;
use std::collections::BTreeMap;
use vstd::prelude::*;

verus! {

#[derive(Clone, Copy, Debug, Default, PartialEq, Eq, Structural)]
pub struct GpuConfig {
    pub continuation_count: u32,
    pub handler_count: u32,
    pub instruction_count: u32,
    pub future_count: u32,
    pub mailbox_count: u32,
    pub capability_count: u32,
    pub max_epochs: u32,
    pub max_effects: u32,
    pub frame_stride: u32,
    pub effect_capacity: u32,
    pub trace_capacity: u32,
    pub mailbox_stride: u32,
    pub invocation_capacity: u32,
    pub wake_capacity: u32,
    pub epoch_capacity: u32,
    pub object_count: u32,
    pub object_capability_count: u32,
    pub object_stride: u32,
    pub initial_epoch: u32,
}

#[derive(Clone, Copy, Debug, Default, PartialEq, Eq, Structural)]
pub struct GpuContinuation {
    pub id: u64,
    pub actor: u64,
    pub run_class: u32,
    pub frame_len: u32,
    pub state: u32,
    pub last_epoch: u32,
    pub previous_kind: u32,
    pub pending_opcode: u32,
    pub pending_target: u32,
    /// The registration ticket of a parked continuation.
    pub reserved: u32,
    pub previous_value: u64,
    pub previous_sender: u64,
    pub pending_value: u64,
}

#[derive(Clone, Copy, Debug, Default, PartialEq, Eq, Structural)]
pub struct GpuHandler {
    pub run_class: u32,
    pub instruction_offset: u32,
    pub instruction_count: u32,
    pub reserved: u32,
}

#[derive(Clone, Copy, Debug, Default, PartialEq, Eq, Structural)]
pub struct GpuFuture {
    pub resolved: u32,
    pub reserved: u32,
    pub value: u64,
}

#[derive(Clone, Copy, Debug, Default, PartialEq, Eq, Structural)]
pub struct GpuMailbox {
    pub capacity: u32,
    pub head: u32,
    pub count: u32,
    pub reserved: u32,
}

#[derive(Clone, Copy, Debug, Default, PartialEq, Eq, Structural)]
pub struct GpuMailEntry {
    pub sender: u64,
    pub value: u64,
}

#[derive(Clone, Copy, Debug, Default, PartialEq, Eq, Structural)]
pub struct GpuObject {
    pub len: u32,
    pub version: u32,
}

#[derive(Clone, Copy, Debug, Default, PartialEq, Eq, Structural)]
pub struct GpuObjectCapability {
    pub actor: u64,
    pub offset: u64,
    pub length: u64,
    pub target: u32,
    pub rights: u32,
    pub object_version: u32,
    pub valid_until_epoch: u32,
}

#[derive(Clone, Copy, Debug, Default, PartialEq, Eq, Structural)]
pub struct GpuCapability {
    pub actor: u64,
    pub kind: u32,
    pub target: u32,
    pub rights: u32,
    pub reserved: u32,
}

#[derive(Clone, Copy, Debug, Default, PartialEq, Eq, Structural)]
pub struct GpuEffectRecord {
    pub epoch: u32,
    pub lane: u32,
    pub ordinal: u32,
    pub opcode: u32,
    pub continuation: u64,
    pub target: u32,
    pub outcome: u32,
    pub value: u64,
    pub result_value: u64,
    pub result_sender: u64,
    pub run_class: u32,
    /// The byte offset of an object effect.
    pub reserved: u32,
}

#[derive(Clone, Copy, Debug, Default, PartialEq, Eq, Structural)]
pub struct GpuStatus {
    pub effect_count: u32,
    pub trace_count: u32,
    pub completed_count: u32,
    pub epochs: u32,
    pub quiescent: u32,
    pub error: u32,
    pub invocation_count: u32,
    pub wake_count: u32,
    pub epoch_count: u32,
    pub ticket: u32,
    pub reserved0: u32,
    pub reserved1: u32,
}

/// What the device allows: the threads of one threadgroup, and the bytes of
/// one buffer.
#[derive(Clone, Copy, Debug, PartialEq, Eq, Structural)]
pub struct DeviceLimits {
    pub max_threads_per_threadgroup: u64,
    pub max_buffer_length: u64,
}

/// The widest cohort that the device program holds in its threadgroup table.
pub const MAX_DEVICE_COHORT_WIDTH: u32 = 32;

pub const BYTES_OF_CONFIG: usize = 76;

pub const BYTES_OF_CONTINUATION: usize = 72;

pub const BYTES_OF_HANDLER: usize = 16;

pub const BYTES_OF_INSTRUCTION: usize = 24;

pub const BYTES_OF_FUTURE: usize = 16;

pub const BYTES_OF_MAILBOX: usize = 16;

pub const BYTES_OF_MAIL_ENTRY: usize = 16;

pub const BYTES_OF_CAPABILITY: usize = 24;

pub const BYTES_OF_EFFECT_RECORD: usize = 64;

pub const BYTES_OF_TRACE: usize = 32;

pub const BYTES_OF_STATUS: usize = 48;

pub const BYTES_OF_STAGE: usize = 32;

pub const BYTES_OF_INVOCATION: usize = 32;

pub const BYTES_OF_WAKE: usize = 48;

pub const BYTES_OF_EPOCH: usize = 16;

pub const BYTES_OF_OBJECT: usize = 8;

pub const BYTES_OF_OBJECT_CAPABILITY: usize = 40;

/// The number of instructions of the first `n` handlers in `classes`.
pub open spec fn instruction_total(
    classes: Seq<u32>,
    table: Map<u32, ProgramView>,
    n: int,
) -> nat
    decreases n,
{
    if n <= 0 {
        0
    } else {
        instruction_total(classes, table, n - 1) + table[classes[n - 1]].instructions.len()
    }
}

pub open spec fn classes_increase(classes: Seq<u32>) -> bool {
    forall|i: int, j: int|
        0 <= i < j < classes.len() ==> (#[trigger] classes[i]) < (#[trigger] classes[j])
}

/// Whether `classes` are the installed run classes in increasing order.
pub open spec fn is_class_order(table: Map<u32, ProgramView>, classes: Seq<u32>) -> bool {
    &&& classes_increase(classes)
    &&& forall|c: u32| #[trigger] classes.contains(c) <==> table.contains_key(c)
}

/// The installed run classes in increasing order.
pub open spec fn class_order(table: Map<u32, ProgramView>) -> Seq<u32> {
    choose|classes: Seq<u32>| is_class_order(table, classes)
}

/// The most effects that a run of `count` continuations can leave.
pub open spec fn effect_bound(c: ConfigView, count: int) -> int {
    c.max_epochs * count * c.max_effects_per_step
}

/// The most invocations that a run of `count` continuations can leave.
pub open spec fn invocation_bound(c: ConfigView, count: int) -> int {
    c.max_epochs * count
}

/// Whether the device's 32-bit tables can hold a plan.
pub open spec fn device_plan_is_valid(
    c: ConfigView,
    width: u32,
    conts: Seq<ContinuationView>,
    table: Map<u32, ProgramView>,
) -> bool {
    let classes = class_order(table);
    &&& width != 0
    &&& resident_model::plan_is_valid(c, conts, table)
    &&& classes.len() <= u32::MAX
    &&& c.futures.len() <= u32::MAX
    &&& c.mailbox_capacities.len() <= u32::MAX
    &&& c.capabilities.len() <= u32::MAX
    &&& forall|i: int|
        0 <= i < c.mailbox_capacities.len() ==> #[trigger] c.mailbox_capacities[i]
            <= c.max_continuations
    &&& instruction_total(classes, table, classes.len() as int) <= u32::MAX
    &&& effect_bound(c, conts.len() as int) <= u32::MAX
    &&& effect_bound(c, conts.len() as int) + invocation_bound(c, conts.len() as int)
        <= u32::MAX
    &&& c.mailbox_capacities.len() * c.max_continuations <= usize::MAX
}

/// Whether a buffer of `count` records of `size` bytes can be had.
pub open spec fn buffer_fits(limits: DeviceLimits, count: int, size: int) -> bool {
    let records = if count < 1 {
        1
    } else {
        count
    };
    records * size <= usize::MAX && records * size <= limits.max_buffer_length
}

proof fn lemma_class_order_is_unique(
    table: Map<u32, ProgramView>,
    a: Seq<u32>,
    b: Seq<u32>,
)
    requires
        is_class_order(table, a),
        is_class_order(table, b),
    ensures
        a == b,
{
    let x = Seq::new(a.len(), |i: int| a[i] as int);
    let y = Seq::new(b.len(), |i: int| b[i] as int);
    assert forall|v: int| #[trigger] x.contains(v) <==> y.contains(v) by {
        if x.contains(v) {
            let i = choose|i: int| 0 <= i < x.len() && x[i] == v;
            assert(a.contains(a[i]));
            assert(b.contains(a[i]));
            let j = choose|j: int| 0 <= j < b.len() && b[j] == a[i];
            assert(y[j] == v);
        }
        if y.contains(v) {
            let i = choose|i: int| 0 <= i < y.len() && y[i] == v;
            assert(b.contains(b[i]));
            assert(a.contains(b[i]));
            let j = choose|j: int| 0 <= j < a.len() && a[j] == b[i];
            assert(x[j] == v);
        }
    }
    ordered::lemma_increasing_is_unique(x, y);
    assert forall|i: int| 0 <= i < a.len() implies a[i] == b[i] by {
        assert(x[i] == y[i]);
    }
    assert(a.len() == x.len() && b.len() == y.len());
    assert(a =~= b);
}

proof fn lemma_increasing_keys(keys: Seq<u32>)
    requires
        vstd::std_specs::btree::increasing_seq(keys),
    ensures
        classes_increase(keys),
{
    broadcast use vstd::std_specs::btree::group_btree_axioms;

    assert forall|i: int, j: int| 0 <= i < j < keys.len() implies (#[trigger] keys[i]) < (
    #[trigger] keys[j]) by {
        assert(vstd::std_specs::cmp::OrdSpec::cmp_spec(&keys[i], &keys[j]) is Less);
    }
}

/// The installed run classes in increasing order.
fn classes_of(programs: &BTreeMap<u32, ResidentHandlerProgram>) -> (classes: Vec<u32>)
    ensures
        is_class_order(resident_types::handlers_view(programs@), classes@),
        classes@ == class_order(resident_types::handlers_view(programs@)),
{
    broadcast use vstd::std_specs::btree::group_btree_axioms;

    let ghost table = resident_types::handlers_view(programs@);
    let ghost keys = vstd::std_specs::iter::IteratorSpec::remaining(&programs.iter());
    let mut classes: Vec<u32> = Vec::new();
    for entry in it: programs.iter()
        invariant
            it.seq() == keys,
            keys == vstd::std_specs::iter::IteratorSpec::remaining(&programs.iter()),
            classes@.len() == it.index(),
            forall|i: int| 0 <= i < classes@.len() ==> #[trigger] classes@[i] == *keys[i].0,
    {
        let (run_class, _program) = entry;
        classes.push(*run_class);
    }
    proof {
        let by_key = keys.map_values(|kv: (&u32, &ResidentHandlerProgram)| *kv.0);
        assert(classes@ =~= by_key);
        assert(vstd::std_specs::btree::increasing_seq(by_key));
        lemma_increasing_keys(by_key);
        assert forall|c: u32| #[trigger] classes@.contains(c) <==> table.contains_key(c) by {
            if classes@.contains(c) {
                let i = choose|i: int| 0 <= i < classes@.len() && classes@[i] == c;
                assert(programs@.contains_key(*keys[i].0));
            }
            if programs@.contains_key(c) {
                assert(keys.contains((&c, &programs@[c])));
                let i = choose|i: int| 0 <= i < keys.len() && keys[i] == (&c, &programs@[c]);
                assert(classes@[i] == c);
            }
        }
        assert(is_class_order(table, classes@));
        lemma_class_order_is_unique(table, classes@, class_order(table));
    }
    classes
}

/// The effect records that `count` continuations need, where they fit in 32
/// bits.
pub fn checked_capacity(config: &ResidentSyncConfig, count: usize, effects: u32) -> (capacity:
    Result<usize, BackendError>)
    ensures
        match capacity {
            Ok(records) => records == config.max_epochs * count * effects && records <= u32::MAX
                && config.max_epochs * count <= usize::MAX,
            Err(error) => error == BackendError::InvalidInput && (config.max_epochs * count
                > usize::MAX || config.max_epochs * count * effects > u32::MAX),
        },
{
    match (config.max_epochs as usize).checked_mul(count) {
        None => Err(BackendError::InvalidInput),
        Some(invocations) => match invocations.checked_mul(effects as usize) {
            None => Err(BackendError::InvalidInput),
            Some(records) => {
                if records <= u32::MAX as usize {
                    Ok(records)
                } else {
                    Err(BackendError::InvalidInput)
                }
            },
        },
    }
}

fn capacities_are_bounded(config: &ResidentSyncConfig) -> (bounded: bool)
    ensures
        bounded <==> forall|i: int|
            0 <= i < config@.mailbox_capacities.len() ==> #[trigger] config@.mailbox_capacities[i]
                <= config.max_continuations,
{
    let mut n: usize = 0;
    while n < config.mailbox_capacities.len()
        invariant
            n <= config.mailbox_capacities@.len(),
            forall|i: int|
                0 <= i < n ==> #[trigger] config@.mailbox_capacities[i]
                    <= config.max_continuations,
        decreases config.mailbox_capacities@.len() - n,
    {
        assert(config@.mailbox_capacities[n as int] == config.mailbox_capacities@[n as int]);
        if config.mailbox_capacities[n] > config.max_continuations {
            return false;
        }
        n = n + 1;
    }
    true
}

proof fn lemma_instruction_total_monotone(
    classes: Seq<u32>,
    table: Map<u32, ProgramView>,
    a: int,
    b: int,
)
    requires
        a <= b,
    ensures
        instruction_total(classes, table, a) <= instruction_total(classes, table, b),
    decreases b - a,
{
    if a < b {
        lemma_instruction_total_monotone(classes, table, a, b - 1);
    }
}

/// The number of installed instructions, where it fits in 32 bits.
fn count_instructions(
    programs: &BTreeMap<u32, ResidentHandlerProgram>,
    classes: &Vec<u32>,
) -> (count: Option<usize>)
    requires
        is_class_order(resident_types::handlers_view(programs@), classes@),
    ensures
        match count {
            Some(total) => total == instruction_total(
                classes@,
                resident_types::handlers_view(programs@),
                classes@.len() as int,
            ) && total <= u32::MAX,
            None => instruction_total(
                classes@,
                resident_types::handlers_view(programs@),
                classes@.len() as int,
            ) > u32::MAX,
        },
{
    let ghost table = resident_types::handlers_view(programs@);
    let mut total: usize = 0;
    let mut n: usize = 0;
    while n < classes.len()
        invariant
            n <= classes@.len(),
            table == resident_types::handlers_view(programs@),
            is_class_order(table, classes@),
            total == instruction_total(classes@, table, n as int),
            total <= u32::MAX,
        decreases classes@.len() - n,
    {
        assert(classes@.contains(classes@[n as int]));
        assert(table.contains_key(classes@[n as int]));
        if let Some(program) = programs.get(&classes[n]) {
            let len: usize = program.instructions.len();
            assert(table[classes@[n as int]].instructions.len() == len);
            if len > u32::MAX as usize - total {
                proof {
                    lemma_instruction_total_monotone(
                        classes@,
                        table,
                        n + 1,
                        classes@.len() as int,
                    );
                }
                return None;
            }
            total = total + len;
        }
        n = n + 1;
    }
    Some(total)
}

/// Refuses the plans that the device cannot hold.
pub fn validate(
    config: &ResidentSyncConfig,
    continuations: &Vec<ResidentContinuation>,
    programs: &BTreeMap<u32, ResidentHandlerProgram>,
) -> (verdict: Result<(), BackendError>)
    ensures
        verdict is Ok <==> device_plan_is_valid(
            config@,
            config.cohort_width,
            resident_sync::continuation_views(continuations@),
            resident_types::handlers_view(programs@),
        ),
        verdict matches Err(error) ==> error == BackendError::InvalidInput,
{
    let ghost views = resident_sync::continuation_views(continuations@);
    let ghost table = resident_types::handlers_view(programs@);
    let ghost c = config@;
    if config.max_epochs == 0 || config.max_effects_per_step == 0 || config.max_frame_bytes == 0
        || config.max_continuations == 0 || config.cohort_width == 0 {
        return Err(BackendError::InvalidInput);
    }
    let count: usize = continuations.len();
    if count > config.max_continuations as usize || config.max_epochs > u32::MAX
        - config.initial_epoch {
        return Err(BackendError::InvalidInput);
    }
    if id_order(continuations).is_none() {
        return Err(BackendError::InvalidInput);
    }
    if !object_storage_is_bounded(config) || !resident_sync::objects_fit(config)
        || !resident_sync::object_capabilities_are_valid(config) || !resident_sync::messages_fit(
        config,
    ) {
        return Err(BackendError::InvalidInput);
    }
    if !resident_sync::continuations_fit(continuations, config.max_frame_bytes, programs) {
        assert(!resident_model::plan_is_valid(c, views, table));
        return Err(BackendError::InvalidInput);
    }
    if !resident_sync::handlers_are_valid(
        programs,
        config.max_effects_per_step,
        config.max_frame_bytes,
    ) {
        proof {
            let run_class = choose|run_class: u32|
                programs@.contains_key(run_class) && !resident_sync::handler_is_valid(
                    run_class,
                    programs@[run_class],
                    config.max_effects_per_step,
                    config.max_frame_bytes,
                );
            assert(table.contains_key(run_class));
        }
        return Err(BackendError::InvalidInput);
    }
    proof {
        assert forall|run_class: u32| #[trigger] table.contains_key(run_class) implies {
            &&& table[run_class].run_class == run_class
            &&& resident_program::program_is_valid(
                table[run_class].instructions,
                config.max_effects_per_step as int,
                config.max_frame_bytes as int,
            )
        } by {
            assert(programs@.contains_key(run_class));
        }
        assert(resident_model::plan_is_valid(c, views, table));
    }
    if config.futures.len() > u32::MAX as usize || config.mailbox_capacities.len()
        > u32::MAX as usize || config.capabilities.len() > u32::MAX as usize {
        return Err(BackendError::InvalidInput);
    }
    if !capacities_are_bounded(config) {
        return Err(BackendError::InvalidInput);
    }
    let classes = classes_of(programs);
    if classes.len() > u32::MAX as usize || count_instructions(programs, &classes).is_none() {
        return Err(BackendError::InvalidInput);
    }
    proof {
        lemma_bounds_grow(c, count as int);
    }
    let effects: usize = match checked_capacity(config, count, config.max_effects_per_step) {
        Err(error) => {
            return Err(error);
        },
        Ok(effects) => effects,
    };
    let invocations: usize = match (config.max_epochs as usize).checked_mul(count) {
        None => {
            return Err(BackendError::InvalidInput);
        },
        Some(invocations) => invocations,
    };
    if invocations > u32::MAX as usize - effects {
        return Err(BackendError::InvalidInput);
    }
    if config.mailbox_capacities.len().checked_mul(config.max_continuations as usize).is_none() {
        return Err(BackendError::InvalidInput);
    }
    Ok(())
}

proof fn lemma_bounds_grow(c: ConfigView, count: int)
    requires
        c.max_effects_per_step != 0,
        0 <= count,
    ensures
        invocation_bound(c, count) <= effect_bound(c, count),
        0 <= invocation_bound(c, count),
{
    let invocations = c.max_epochs * count;
    assert(0 <= invocations) by (nonlinear_arith)
        requires
            0 <= count,
            0 <= c.max_epochs,
            invocations == c.max_epochs * count,
    ;
    assert(invocations <= invocations * c.max_effects_per_step) by (nonlinear_arith)
        requires
            0 <= invocations,
            c.max_effects_per_step >= 1,
    ;
}

/// `row`, filled up to `stride` entries.
pub open spec fn padded_row<T>(row: Seq<T>, stride: nat, blank: T) -> Seq<T> {
    Seq::new(
        stride,
        |k: int|
            if k < row.len() {
                row[k]
            } else {
                blank
            },
    )
}

/// The first `n` rows one after the other, each filled up to `stride` entries.
pub open spec fn padded<T>(rows: Seq<Seq<T>>, n: int, stride: nat, blank: T) -> Seq<T>
    decreases n,
{
    if n <= 0 {
        Seq::empty()
    } else {
        padded(rows, n - 1, stride, blank) + padded_row(rows[n - 1], stride, blank)
    }
}

/// A row of a padded table, cut to its length, is the row that was laid out.
pub proof fn lemma_padded_row_is_found<T>(
    rows: Seq<Seq<T>>,
    n: int,
    stride: nat,
    blank: T,
    i: int,
)
    requires
        0 <= i < n <= rows.len(),
        rows[i].len() <= stride,
    ensures
        padded(rows, n, stride, blank).len() == n * stride,
        0 <= i * stride,
        i * stride + rows[i].len() <= n * stride,
        padded(rows, n, stride, blank).subrange(i * stride, i * stride + rows[i].len()) == rows[i],
    decreases n,
{
    lemma_padded_len(rows, n, stride, blank);
    lemma_padded_len(rows, n - 1, stride, blank);
    assert(n * stride == (n - 1) * stride + stride) by (nonlinear_arith);
    assert(0 <= i * stride) by (nonlinear_arith)
        requires
            0 <= i,
            0 <= stride,
    ;
    let all = padded(rows, n, stride, blank);
    if i == n - 1 {
        assert(all.subrange(i * stride, i * stride + rows[i].len()) =~= rows[i]);
    } else {
        lemma_padded_row_is_found(rows, n - 1, stride, blank, i);
        let rest = padded(rows, n - 1, stride, blank);
        assert(all.subrange(i * stride, i * stride + rows[i].len()) =~= rest.subrange(
            i * stride,
            i * stride + rows[i].len(),
        ));
    }
}

pub proof fn lemma_padded_len<T>(rows: Seq<Seq<T>>, n: int, stride: nat, blank: T)
    requires
        0 <= n,
    ensures
        padded(rows, n, stride, blank).len() == n * stride,
    decreases n,
{
    if n > 0 {
        lemma_padded_len(rows, n - 1, stride, blank);
        assert(n * stride == (n - 1) * stride + stride) by (nonlinear_arith);
    } else {
        assert(0 * stride == 0) by (nonlinear_arith);
    }
}

/// What the device's buffers hold when a run starts.
#[verifier::ext_equal]
pub struct PlanView {
    pub config: GpuConfig,
    pub continuations: Seq<GpuContinuation>,
    pub frames: Seq<u8>,
    pub handlers: Seq<GpuHandler>,
    pub instructions: Seq<ResidentInstruction>,
    pub futures: Seq<GpuFuture>,
    pub mailboxes: Seq<GpuMailbox>,
    pub mailbox_entries: Seq<GpuMailEntry>,
    pub capabilities: Seq<GpuCapability>,
    pub objects: Seq<GpuObject>,
    pub object_bytes: Seq<u8>,
    pub object_capabilities: Seq<GpuObjectCapability>,
    pub effect_capacity: usize,
    pub trace_capacity: usize,
    pub invocation_capacity: usize,
    pub scratch_count: usize,
}

/// The device's buffers when a run starts, and the room for what it leaves.
#[derive(Clone, Debug, PartialEq, Eq)]
pub struct ResidentPlan {
    pub config: GpuConfig,
    pub continuations: Vec<GpuContinuation>,
    pub frames: Vec<u8>,
    pub handlers: Vec<GpuHandler>,
    pub instructions: Vec<ResidentInstruction>,
    pub futures: Vec<GpuFuture>,
    pub mailboxes: Vec<GpuMailbox>,
    pub mailbox_entries: Vec<GpuMailEntry>,
    pub capabilities: Vec<GpuCapability>,
    pub objects: Vec<GpuObject>,
    pub object_bytes: Vec<u8>,
    pub object_capabilities: Vec<GpuObjectCapability>,
    pub effect_capacity: usize,
    pub trace_capacity: usize,
    pub invocation_capacity: usize,
    pub scratch_count: usize,
}

impl View for ResidentPlan {
    type V = PlanView;

    open spec fn view(&self) -> PlanView {
        PlanView {
            config: self.config,
            continuations: self.continuations@,
            frames: self.frames@,
            handlers: self.handlers@,
            instructions: self.instructions@,
            futures: self.futures@,
            mailboxes: self.mailboxes@,
            mailbox_entries: self.mailbox_entries@,
            capabilities: self.capabilities@,
            objects: self.objects@,
            object_bytes: self.object_bytes@,
            object_capabilities: self.object_capabilities@,
            effect_capacity: self.effect_capacity,
            trace_capacity: self.trace_capacity,
            invocation_capacity: self.invocation_capacity,
            scratch_count: self.scratch_count,
        }
    }
}

/// A continuation as the device sees it first: runnable, in no epoch yet.
pub open spec fn device_continuation(cont: ContinuationView) -> GpuContinuation {
    GpuContinuation {
        id: cont.id,
        actor: cont.actor,
        run_class: cont.run_class,
        frame_len: cont.frame.len() as u32,
        state: 1,
        last_epoch: u32::MAX,
        previous_kind: 0,
        pending_opcode: 0,
        pending_target: 0,
        reserved: 0,
        previous_value: 0,
        previous_sender: 0,
        pending_value: 0,
    }
}

pub open spec fn device_future(future: InitialFuture) -> GpuFuture {
    match future {
        InitialFuture::Pending => GpuFuture { resolved: 0, reserved: 0, value: 0 },
        InitialFuture::Resolved(value) => GpuFuture { resolved: 1, reserved: 0, value },
    }
}

pub open spec fn device_entry(message: (u64, u64)) -> GpuMailEntry {
    GpuMailEntry { sender: message.0, value: message.1 }
}

pub open spec fn device_capability(cap: ResidentCapability) -> GpuCapability {
    GpuCapability {
        actor: cap.actor,
        kind: cap.resource_kind,
        target: cap.target,
        rights: cap.rights,
        reserved: 0,
    }
}

pub open spec fn device_object(object: ObjectView) -> GpuObject {
    GpuObject { len: object.bytes.len() as u32, version: object.version }
}

pub open spec fn device_object_capability(cap: ResidentObjectCapability) -> GpuObjectCapability {
    GpuObjectCapability {
        actor: cap.actor,
        offset: cap.offset,
        length: cap.length,
        target: cap.target,
        rights: cap.rights,
        object_version: cap.object_version,
        valid_until_epoch: cap.valid_until_epoch,
    }
}

/// The instructions of the first `n` handlers, one after the other.
pub open spec fn device_instructions(
    classes: Seq<u32>,
    table: Map<u32, ProgramView>,
    n: int,
) -> Seq<ResidentInstruction>
    decreases n,
{
    if n <= 0 {
        Seq::empty()
    } else {
        device_instructions(classes, table, n - 1) + table[classes[n - 1]].instructions
    }
}

/// The handler of the `i`th run class: where its instructions lie.
pub open spec fn device_handler(
    classes: Seq<u32>,
    table: Map<u32, ProgramView>,
    i: int,
) -> GpuHandler {
    GpuHandler {
        run_class: classes[i],
        instruction_offset: instruction_total(classes, table, i) as u32,
        instruction_count: table[classes[i]].instructions.len() as u32,
        reserved: 0,
    }
}

/// The device's buffers for a plan.
pub open spec fn laid_out(
    c: ConfigView,
    conts: Seq<ContinuationView>,
    table: Map<u32, ProgramView>,
) -> PlanView {
    let sorted = resident_model::in_id_order(conts);
    let classes = class_order(table);
    let count = conts.len() as int;
    let effects = effect_bound(c, count);
    let invocations = invocation_bound(c, count);
    let blank = GpuMailEntry { sender: 0, value: 0 };
    PlanView {
        config: GpuConfig {
            continuation_count: count as u32,
            handler_count: classes.len() as u32,
            instruction_count: instruction_total(classes, table, classes.len() as int) as u32,
            future_count: c.futures.len() as u32,
            mailbox_count: c.mailbox_capacities.len() as u32,
            capability_count: c.capabilities.len() as u32,
            max_epochs: c.max_epochs,
            max_effects: c.max_effects_per_step,
            frame_stride: c.max_frame_bytes,
            effect_capacity: effects as u32,
            trace_capacity: (effects + invocations) as u32,
            mailbox_stride: c.max_continuations,
            invocation_capacity: invocations as u32,
            wake_capacity: invocations as u32,
            epoch_capacity: c.max_epochs,
            object_count: c.objects.len() as u32,
            object_capability_count: c.object_capabilities.len() as u32,
            object_stride: c.max_frame_bytes,
            initial_epoch: c.initial_epoch,
        },
        continuations: sorted.map_values(|cont: ContinuationView| device_continuation(cont)),
        frames: padded(
            sorted.map_values(|cont: ContinuationView| cont.frame),
            count,
            c.max_frame_bytes as nat,
            0u8,
        ),
        handlers: Seq::new(classes.len(), |i: int| device_handler(classes, table, i)),
        instructions: device_instructions(classes, table, classes.len() as int),
        futures: c.futures.map_values(|f: InitialFuture| device_future(f)),
        mailboxes: Seq::new(
            c.mailbox_capacities.len(),
            |i: int|
                GpuMailbox {
                    capacity: c.mailbox_capacities[i],
                    head: 0,
                    count: c.mailbox_messages[i].len() as u32,
                    reserved: 0,
                },
        ),
        mailbox_entries: padded(
            c.mailbox_messages.map_values(
                |m: Seq<(u64, u64)>| m.map_values(|e: (u64, u64)| device_entry(e)),
            ),
            c.mailbox_messages.len() as int,
            c.max_continuations as nat,
            blank,
        ),
        capabilities: c.capabilities.map_values(|cap: ResidentCapability| device_capability(cap)),
        objects: c.objects.map_values(|o: ObjectView| device_object(o)),
        object_bytes: padded(
            c.objects.map_values(|o: ObjectView| o.bytes),
            c.objects.len() as int,
            c.max_frame_bytes as nat,
            0u8,
        ),
        object_capabilities: c.object_capabilities.map_values(
            |cap: ResidentObjectCapability| device_object_capability(cap),
        ),
        effect_capacity: effects as usize,
        trace_capacity: (effects + invocations) as usize,
        invocation_capacity: invocations as usize,
        scratch_count: (count * c.max_effects_per_step) as usize,
    }
}

/// The record counts and record sizes of the device's buffers.
pub open spec fn buffer_sizes(
    c: ConfigView,
    width: u32,
    count: int,
    table: Map<u32, ProgramView>,
) -> Seq<(int, int)> {
    let classes = class_order(table);
    let effects = effect_bound(c, count);
    let invocations = invocation_bound(c, count);
    seq![
        (1, BYTES_OF_CONFIG as int),
        (count, BYTES_OF_CONTINUATION as int),
        (count * c.max_frame_bytes, 1),
        (classes.len() as int, BYTES_OF_HANDLER as int),
        (
            instruction_total(classes, table, classes.len() as int) as int,
            BYTES_OF_INSTRUCTION as int,
        ),
        (c.futures.len() as int, BYTES_OF_FUTURE as int),
        (c.mailbox_capacities.len() as int, BYTES_OF_MAILBOX as int),
        (c.mailbox_capacities.len() * c.max_continuations, BYTES_OF_MAIL_ENTRY as int),
        (c.capabilities.len() as int, BYTES_OF_CAPABILITY as int),
        (effects, BYTES_OF_EFFECT_RECORD as int),
        (effects + invocations, BYTES_OF_TRACE as int),
        (count, 8),
        (1, BYTES_OF_STATUS as int),
        (count, BYTES_OF_STAGE as int),
        (invocations, BYTES_OF_INVOCATION as int),
        (invocations, BYTES_OF_WAKE as int),
        (c.max_epochs as int, BYTES_OF_EPOCH as int),
        (c.objects.len() as int, BYTES_OF_OBJECT as int),
        (c.objects.len() * c.max_frame_bytes, 1),
        (c.object_capabilities.len() as int, BYTES_OF_OBJECT_CAPABILITY as int),
        (count * c.max_effects_per_step, BYTES_OF_EFFECT_RECORD as int),
        (width as int, 4),
    ]
}

/// Whether the device accepts a plan: it is valid, its cohort fits a
/// threadgroup, its padded tables have 32-bit offsets, and every buffer can be
/// had.
pub open spec fn device_accepts(
    c: ConfigView,
    width: u32,
    conts: Seq<ContinuationView>,
    table: Map<u32, ProgramView>,
    limits: DeviceLimits,
) -> bool {
    let count = conts.len() as int;
    let sizes = buffer_sizes(c, width, count, table);
    &&& device_plan_is_valid(c, width, conts, table)
    &&& width <= MAX_DEVICE_COHORT_WIDTH
    &&& width <= limits.max_threads_per_threadgroup
    &&& count * c.max_frame_bytes <= u32::MAX
    &&& c.mailbox_capacities.len() * c.max_continuations <= u32::MAX
    &&& c.objects.len() * c.max_frame_bytes <= u32::MAX
    &&& count * c.max_effects_per_step <= u32::MAX
    &&& forall|i: int|
        0 <= i < sizes.len() ==> buffer_fits(limits, (#[trigger] sizes[i]).0, sizes[i].1)
}

/// Refuses a buffer that the device cannot give.
pub fn check_buffer(limits: DeviceLimits, count: usize, size: usize) -> (verdict: Result<
    (),
    BackendError,
>)
    ensures
        verdict is Ok <==> buffer_fits(limits, count as int, size as int),
        verdict matches Err(error) ==> error == BackendError::InvalidInput,
{
    let records: usize = if count < 1 {
        1
    } else {
        count
    };
    match records.checked_mul(size) {
        None => Err(BackendError::InvalidInput),
        Some(len) => {
            if len as u64 > limits.max_buffer_length {
                Err(BackendError::InvalidInput)
            } else {
                Ok(())
            }
        },
    }
}

/// Appends `row`, filled up to `stride` entries.
fn push_padded<T: Copy>(out: &mut Vec<T>, row: &Vec<T>, stride: usize, blank: T)
    requires
        row@.len() <= stride,
    ensures
        final(out)@ == old(out)@ + padded_row(row@, stride as nat, blank),
{
    let ghost start = out@;
    let ghost full = padded_row(row@, stride as nat, blank);
    let mut k: usize = 0;
    while k < stride
        invariant
            k <= stride,
            row@.len() <= stride,
            full == padded_row(row@, stride as nat, blank),
            out@ == start + full.take(k as int),
        decreases stride - k,
    {
        if k < row.len() {
            out.push(row[k]);
        } else {
            out.push(blank);
        }
        assert(full.take(k + 1) =~= full.take(k as int).push(full[k as int]));
        assert(out@ =~= start + full.take(k + 1));
        k = k + 1;
    }
    assert(full.take(k as int) =~= full);
}

fn lay_out_continuations(
    continuations: &Vec<ResidentContinuation>,
    order: &Vec<usize>,
    stride: u32,
) -> (laid: (Vec<GpuContinuation>, Vec<u8>))
    requires
        forall|k: int| 0 <= k < order@.len() ==> (#[trigger] order@[k]) < continuations@.len(),
        forall|i: int|
            0 <= i < continuations@.len() ==> (#[trigger] continuations@[i]).frame@.len() <= stride,
    ensures
        ({
            let sorted = order@.map_values(|i: usize| continuations@[i as int]@);
            &&& laid.0@ == sorted.map_values(|cont: ContinuationView| device_continuation(cont))
            &&& laid.1@ == padded(
                sorted.map_values(|cont: ContinuationView| cont.frame),
                sorted.len() as int,
                stride as nat,
                0u8,
            )
        }),
{
    let ghost sorted = order@.map_values(|i: usize| continuations@[i as int]@);
    let ghost rows = sorted.map_values(|cont: ContinuationView| cont.frame);
    let mut conts: Vec<GpuContinuation> = Vec::new();
    let mut frames: Vec<u8> = Vec::new();
    let mut n: usize = 0;
    while n < order.len()
        invariant
            n <= order@.len(),
            sorted == order@.map_values(|i: usize| continuations@[i as int]@),
            rows == sorted.map_values(|cont: ContinuationView| cont.frame),
            forall|k: int| 0 <= k < order@.len() ==> (#[trigger] order@[k]) < continuations@.len(),
            forall|i: int|
                0 <= i < continuations@.len() ==> (#[trigger] continuations@[i]).frame@.len()
                    <= stride,
            conts@.len() == n,
            forall|k: int|
                0 <= k < n ==> #[trigger] conts@[k] == device_continuation(sorted[k]),
            frames@ == padded(rows, n as int, stride as nat, 0u8),
        decreases order@.len() - n,
    {
        let cont = &continuations[order[n]];
        assert(sorted[n as int] == cont@);
        assert(rows[n as int] == cont.frame@);
        conts.push(
            GpuContinuation {
                id: cont.id,
                actor: cont.actor,
                run_class: cont.run_class,
                frame_len: cont.frame.len() as u32,
                state: 1,
                last_epoch: u32::MAX,
                previous_kind: 0,
                pending_opcode: 0,
                pending_target: 0,
                reserved: 0,
                previous_value: 0,
                previous_sender: 0,
                pending_value: 0,
            },
        );
        push_padded(&mut frames, &cont.frame, stride as usize, 0u8);
        n = n + 1;
    }
    assert(conts@ =~= sorted.map_values(|cont: ContinuationView| device_continuation(cont)));
    (conts, frames)
}

fn lay_out_handlers(
    programs: &BTreeMap<u32, ResidentHandlerProgram>,
    classes: &Vec<u32>,
) -> (laid: (Vec<GpuHandler>, Vec<ResidentInstruction>))
    requires
        is_class_order(resident_types::handlers_view(programs@), classes@),
        instruction_total(
            classes@,
            resident_types::handlers_view(programs@),
            classes@.len() as int,
        ) <= u32::MAX,
    ensures
        ({
            let table = resident_types::handlers_view(programs@);
            &&& laid.0@ == Seq::new(classes@.len(), |i: int| device_handler(classes@, table, i))
            &&& laid.1@ == device_instructions(classes@, table, classes@.len() as int)
            &&& laid.1@.len() == instruction_total(classes@, table, classes@.len() as int)
        }),
{
    let ghost table = resident_types::handlers_view(programs@);
    let mut handlers: Vec<GpuHandler> = Vec::new();
    let mut instructions: Vec<ResidentInstruction> = Vec::new();
    let mut n: usize = 0;
    while n < classes.len()
        invariant
            n <= classes@.len(),
            table == resident_types::handlers_view(programs@),
            is_class_order(table, classes@),
            instruction_total(classes@, table, classes@.len() as int) <= u32::MAX,
            handlers@.len() == n,
            forall|i: int|
                0 <= i < n ==> #[trigger] handlers@[i] == device_handler(classes@, table, i),
            instructions@ == device_instructions(classes@, table, n as int),
            instructions@.len() == instruction_total(classes@, table, n as int),
        decreases classes@.len() - n,
    {
        assert(classes@.contains(classes@[n as int]));
        assert(table.contains_key(classes@[n as int]));
        proof {
            lemma_instruction_total_monotone(classes@, table, n as int, classes@.len() as int);
            lemma_instruction_total_monotone(classes@, table, n + 1, classes@.len() as int);
        }
        if let Some(program) = programs.get(&classes[n]) {
            assert(table[classes@[n as int]].instructions == program.instructions@);
            handlers.push(
                GpuHandler {
                    run_class: classes[n],
                    instruction_offset: instructions.len() as u32,
                    instruction_count: program.instructions.len() as u32,
                    reserved: 0,
                },
            );
            let ghost before = instructions@;
            let mut k: usize = 0;
            while k < program.instructions.len()
                invariant
                    k <= program.instructions@.len(),
                    instructions@ =~= before + program.instructions@.take(k as int),
                decreases program.instructions@.len() - k,
            {
                instructions.push(program.instructions[k]);
                assert(program.instructions@.take(k + 1) =~= program.instructions@.take(
                    k as int,
                ).push(program.instructions@[k as int]));
                k = k + 1;
            }
            assert(program.instructions@.take(k as int) =~= program.instructions@);
        }
        n = n + 1;
    }
    assert(handlers@ =~= Seq::new(classes@.len(), |i: int| device_handler(classes@, table, i)));
    (handlers, instructions)
}

fn lay_out_futures(config: &ResidentSyncConfig) -> (futures: Vec<GpuFuture>)
    ensures
        futures@ == config@.futures.map_values(|f: InitialFuture| device_future(f)),
{
    let mut futures: Vec<GpuFuture> = Vec::new();
    let mut n: usize = 0;
    while n < config.futures.len()
        invariant
            n <= config.futures@.len(),
            futures@.len() == n,
            forall|i: int|
                0 <= i < n ==> #[trigger] futures@[i] == device_future(config.futures@[i]),
        decreases config.futures@.len() - n,
    {
        let cell = match config.futures[n] {
            InitialFuture::Pending => GpuFuture { resolved: 0, reserved: 0, value: 0 },
            InitialFuture::Resolved(value) => GpuFuture { resolved: 1, reserved: 0, value },
        };
        futures.push(cell);
        n = n + 1;
    }
    assert(futures@ =~= config@.futures.map_values(|f: InitialFuture| device_future(f)));
    futures
}

fn lay_out_mailboxes(config: &ResidentSyncConfig) -> (laid: (Vec<GpuMailbox>, Vec<GpuMailEntry>))
    requires
        config.mailbox_messages@.len() == config.mailbox_capacities@.len(),
        forall|i: int|
            0 <= i < config.mailbox_messages@.len() ==> (
            #[trigger] config.mailbox_messages@[i])@.len() <= config.max_continuations,
    ensures
        ({
            let c = config@;
            &&& laid.0@ == Seq::new(
                c.mailbox_capacities.len(),
                |i: int|
                    GpuMailbox {
                        capacity: c.mailbox_capacities[i],
                        head: 0,
                        count: c.mailbox_messages[i].len() as u32,
                        reserved: 0,
                    },
            )
            &&& laid.1@ == padded(
                c.mailbox_messages.map_values(
                    |m: Seq<(u64, u64)>| m.map_values(|e: (u64, u64)| device_entry(e)),
                ),
                c.mailbox_messages.len() as int,
                c.max_continuations as nat,
                (GpuMailEntry { sender: 0, value: 0 }),
            )
        }),
{
    let ghost c = config@;
    let ghost rows = c.mailbox_messages.map_values(
        |m: Seq<(u64, u64)>| m.map_values(|e: (u64, u64)| device_entry(e)),
    );
    let blank = GpuMailEntry { sender: 0, value: 0 };
    let stride: usize = config.max_continuations as usize;
    let mut mailboxes: Vec<GpuMailbox> = Vec::new();
    let mut entries: Vec<GpuMailEntry> = Vec::new();
    let mut n: usize = 0;
    while n < config.mailbox_capacities.len()
        invariant
            n <= config.mailbox_capacities@.len(),
            c == config@,
            stride == config.max_continuations,
            blank == (GpuMailEntry { sender: 0, value: 0 }),
            rows == c.mailbox_messages.map_values(
                |m: Seq<(u64, u64)>| m.map_values(|e: (u64, u64)| device_entry(e)),
            ),
            config.mailbox_messages@.len() == config.mailbox_capacities@.len(),
            forall|i: int|
                0 <= i < config.mailbox_messages@.len() ==> (
                #[trigger] config.mailbox_messages@[i])@.len() <= config.max_continuations,
            mailboxes@.len() == n,
            forall|i: int|
                0 <= i < n ==> #[trigger] mailboxes@[i] == (GpuMailbox {
                    capacity: c.mailbox_capacities[i],
                    head: 0,
                    count: c.mailbox_messages[i].len() as u32,
                    reserved: 0,
                }),
            entries@ == padded(rows, n as int, c.max_continuations as nat, blank),
        decreases config.mailbox_capacities@.len() - n,
    {
        let messages = &config.mailbox_messages[n];
        assert(c.mailbox_messages[n as int] == messages@);
        mailboxes.push(
            GpuMailbox {
                capacity: config.mailbox_capacities[n],
                head: 0,
                count: messages.len() as u32,
                reserved: 0,
            },
        );
        let mut row: Vec<GpuMailEntry> = Vec::new();
        let mut k: usize = 0;
        while k < messages.len()
            invariant
                k <= messages@.len(),
                row@.len() == k,
                forall|i: int| 0 <= i < k ==> #[trigger] row@[i] == device_entry(messages@[i]),
            decreases messages@.len() - k,
        {
            let (sender, value) = messages[k];
            row.push(GpuMailEntry { sender, value });
            k = k + 1;
        }
        assert(row@ =~= rows[n as int]);
        push_padded(&mut entries, &row, stride, blank);
        n = n + 1;
    }
    assert(mailboxes@ =~= Seq::new(
        c.mailbox_capacities.len(),
        |i: int|
            GpuMailbox {
                capacity: c.mailbox_capacities[i],
                head: 0,
                count: c.mailbox_messages[i].len() as u32,
                reserved: 0,
            },
    ));
    (mailboxes, entries)
}

fn lay_out_capabilities(config: &ResidentSyncConfig) -> (laid: (
    Vec<GpuCapability>,
    Vec<GpuObjectCapability>,
))
    ensures
        laid.0@ == config@.capabilities.map_values(
            |cap: ResidentCapability| device_capability(cap),
        ),
        laid.1@ == config@.object_capabilities.map_values(
            |cap: ResidentObjectCapability| device_object_capability(cap),
        ),
{
    let mut capabilities: Vec<GpuCapability> = Vec::new();
    let mut n: usize = 0;
    while n < config.capabilities.len()
        invariant
            n <= config.capabilities@.len(),
            capabilities@.len() == n,
            forall|i: int|
                0 <= i < n ==> #[trigger] capabilities@[i] == device_capability(
                    config.capabilities@[i],
                ),
        decreases config.capabilities@.len() - n,
    {
        let cap = config.capabilities[n];
        capabilities.push(
            GpuCapability {
                actor: cap.actor,
                kind: cap.resource_kind,
                target: cap.target,
                rights: cap.rights,
                reserved: 0,
            },
        );
        n = n + 1;
    }
    let mut ranges: Vec<GpuObjectCapability> = Vec::new();
    let mut k: usize = 0;
    while k < config.object_capabilities.len()
        invariant
            k <= config.object_capabilities@.len(),
            ranges@.len() == k,
            forall|i: int|
                0 <= i < k ==> #[trigger] ranges@[i] == device_object_capability(
                    config.object_capabilities@[i],
                ),
        decreases config.object_capabilities@.len() - k,
    {
        let cap = config.object_capabilities[k];
        ranges.push(
            GpuObjectCapability {
                actor: cap.actor,
                offset: cap.offset,
                length: cap.length,
                target: cap.target,
                rights: cap.rights,
                object_version: cap.object_version,
                valid_until_epoch: cap.valid_until_epoch,
            },
        );
        k = k + 1;
    }
    assert(capabilities@ =~= config@.capabilities.map_values(
        |cap: ResidentCapability| device_capability(cap),
    ));
    assert(ranges@ =~= config@.object_capabilities.map_values(
        |cap: ResidentObjectCapability| device_object_capability(cap),
    ));
    (capabilities, ranges)
}

fn lay_out_objects(config: &ResidentSyncConfig) -> (laid: (Vec<GpuObject>, Vec<u8>))
    requires
        forall|i: int|
            0 <= i < config.objects@.len() ==> (#[trigger] config.objects@[i]).bytes@.len()
                <= config.max_frame_bytes,
    ensures
        laid.0@ == config@.objects.map_values(|o: ObjectView| device_object(o)),
        laid.1@ == padded(
            config@.objects.map_values(|o: ObjectView| o.bytes),
            config@.objects.len() as int,
            config.max_frame_bytes as nat,
            0u8,
        ),
{
    let ghost rows = config@.objects.map_values(|o: ObjectView| o.bytes);
    let mut objects: Vec<GpuObject> = Vec::new();
    let mut object_bytes: Vec<u8> = Vec::new();
    let mut n: usize = 0;
    while n < config.objects.len()
        invariant
            n <= config.objects@.len(),
            rows == config@.objects.map_values(|o: ObjectView| o.bytes),
            forall|i: int|
                0 <= i < config.objects@.len() ==> (#[trigger] config.objects@[i]).bytes@.len()
                    <= config.max_frame_bytes,
            objects@.len() == n,
            forall|i: int|
                0 <= i < n ==> #[trigger] objects@[i] == device_object(config.objects@[i]@),
            object_bytes@ == padded(rows, n as int, config.max_frame_bytes as nat, 0u8),
        decreases config.objects@.len() - n,
    {
        let object = &config.objects[n];
        assert(rows[n as int] == object.bytes@);
        objects.push(GpuObject { len: object.bytes.len() as u32, version: object.version });
        push_padded(&mut object_bytes, &object.bytes, config.max_frame_bytes as usize, 0u8);
        n = n + 1;
    }
    assert(objects@ =~= config@.objects.map_values(|o: ObjectView| device_object(o)));
    (objects, object_bytes)
}

fn all_buffers_fit(limits: DeviceLimits, sizes: &Vec<(usize, usize)>) -> (fit: bool)
    ensures
        fit <==> forall|i: int|
            0 <= i < sizes@.len() ==> buffer_fits(
                limits,
                (#[trigger] sizes@[i]).0 as int,
                sizes@[i].1 as int,
            ),
{
    let mut n: usize = 0;
    while n < sizes.len()
        invariant
            n <= sizes@.len(),
            forall|i: int|
                0 <= i < n ==> buffer_fits(
                    limits,
                    (#[trigger] sizes@[i]).0 as int,
                    sizes@[i].1 as int,
                ),
        decreases sizes@.len() - n,
    {
        let (count, size) = sizes[n];
        if check_buffer(limits, count, size).is_err() {
            return false;
        }
        n = n + 1;
    }
    true
}

/// Lays an accepted plan out in the device's buffers.
pub fn prepare(
    config: &ResidentSyncConfig,
    continuations: &Vec<ResidentContinuation>,
    programs: &BTreeMap<u32, ResidentHandlerProgram>,
    limits: DeviceLimits,
) -> (plan: Result<ResidentPlan, BackendError>)
    ensures
        plan is Ok <==> device_accepts(
            config@,
            config.cohort_width,
            resident_sync::continuation_views(continuations@),
            resident_types::handlers_view(programs@),
            limits,
        ),
        plan matches Ok(p) ==> p@ == laid_out(
            config@,
            resident_sync::continuation_views(continuations@),
            resident_types::handlers_view(programs@),
        ),
        plan matches Err(error) ==> error == BackendError::InvalidInput,
{
    let ghost views = resident_sync::continuation_views(continuations@);
    let ghost table = resident_types::handlers_view(programs@);
    let ghost c = config@;
    let width: u32 = config.cohort_width;
    if validate(config, continuations, programs).is_err() {
        return Err(BackendError::InvalidInput);
    }
    if width > MAX_DEVICE_COHORT_WIDTH || width as u64 > limits.max_threads_per_threadgroup {
        return Err(BackendError::InvalidInput);
    }
    let count: usize = continuations.len();
    proof {
        lemma_bounds_grow(c, count as int);
    }
    let effect_capacity: usize = match checked_capacity(
        config,
        count,
        config.max_effects_per_step,
    ) {
        Err(error) => {
            return Err(error);
        },
        Ok(records) => records,
    };
    let invocation_capacity: usize = config.max_epochs as usize * count;
    let trace_capacity: usize = effect_capacity + invocation_capacity;
    let (frame_count, entry_count, object_byte_count, scratch_count) = match (
        count.checked_mul(config.max_frame_bytes as usize),
        config.mailbox_capacities.len().checked_mul(config.max_continuations as usize),
        config.objects.len().checked_mul(config.max_frame_bytes as usize),
        count.checked_mul(config.max_effects_per_step as usize),
    ) {
        (Some(frames), Some(entries), Some(objects), Some(scratch)) => (
            frames,
            entries,
            objects,
            scratch,
        ),
        _ => {
            return Err(BackendError::InvalidInput);
        },
    };
    if frame_count > u32::MAX as usize || entry_count > u32::MAX as usize || object_byte_count
        > u32::MAX as usize || scratch_count > u32::MAX as usize {
        return Err(BackendError::InvalidInput);
    }
    let classes = classes_of(programs);
    let instruction_count: usize = match count_instructions(programs, &classes) {
        None => {
            return Err(BackendError::InvalidInput);
        },
        Some(total) => total,
    };
    let sizes: Vec<(usize, usize)> = vec![
        (1, BYTES_OF_CONFIG),
        (count, BYTES_OF_CONTINUATION),
        (frame_count, 1),
        (classes.len(), BYTES_OF_HANDLER),
        (instruction_count, BYTES_OF_INSTRUCTION),
        (config.futures.len(), BYTES_OF_FUTURE),
        (config.mailbox_capacities.len(), BYTES_OF_MAILBOX),
        (entry_count, BYTES_OF_MAIL_ENTRY),
        (config.capabilities.len(), BYTES_OF_CAPABILITY),
        (effect_capacity, BYTES_OF_EFFECT_RECORD),
        (trace_capacity, BYTES_OF_TRACE),
        (count, 8),
        (1, BYTES_OF_STATUS),
        (count, BYTES_OF_STAGE),
        (invocation_capacity, BYTES_OF_INVOCATION),
        (invocation_capacity, BYTES_OF_WAKE),
        (config.max_epochs as usize, BYTES_OF_EPOCH),
        (config.objects.len(), BYTES_OF_OBJECT),
        (object_byte_count, 1),
        (config.object_capabilities.len(), BYTES_OF_OBJECT_CAPABILITY),
        (scratch_count, BYTES_OF_EFFECT_RECORD),
        (width as usize, 4),
    ];
    let ghost wanted = buffer_sizes(c, width, count as int, table);
    proof {
        assert(sizes@.len() == wanted.len());
        assert forall|i: int| 0 <= i < wanted.len() implies (#[trigger] wanted[i]).0 == sizes@[i].0
            && wanted[i].1 == sizes@[i].1 by {}
    }
    if !all_buffers_fit(limits, &sizes) {
        proof {
            let i = choose|i: int|
                0 <= i < sizes@.len() && !buffer_fits(
                    limits,
                    (#[trigger] sizes@[i]).0 as int,
                    sizes@[i].1 as int,
                );
            assert(!buffer_fits(limits, wanted[i].0, wanted[i].1));
        }
        return Err(BackendError::InvalidInput);
    }
    assert forall|i: int| 0 <= i < wanted.len() implies buffer_fits(
        limits,
        (#[trigger] wanted[i]).0,
        wanted[i].1,
    ) by {
        assert(buffer_fits(limits, sizes@[i].0 as int, sizes@[i].1 as int));
    }
    let order = match id_order(continuations) {
        None => {
            return Err(BackendError::InvalidInput);
        },
        Some(order) => order,
    };
    assert forall|i: int| 0 <= i < continuations@.len() implies (
    #[trigger] continuations@[i]).frame@.len() <= config.max_frame_bytes by {
        assert(views[i] == continuations@[i]@);
    }
    assert forall|i: int| 0 <= i < config.objects@.len() implies (
    #[trigger] config.objects@[i]).bytes@.len() <= config.max_frame_bytes by {
        assert(c.objects[i] == config.objects@[i]@);
    }
    assert forall|i: int| 0 <= i < config.mailbox_messages@.len() implies (
    #[trigger] config.mailbox_messages@[i])@.len() <= config.max_continuations by {
        assert(c.mailbox_messages[i] == config.mailbox_messages@[i]@);
        assert(c.mailbox_capacities[i] <= c.max_continuations);
    }
    let (gpu_conts, frames) = lay_out_continuations(
        continuations,
        &order,
        config.max_frame_bytes,
    );
    let (handlers, instructions) = lay_out_handlers(programs, &classes);
    let futures = lay_out_futures(config);
    let (mailboxes, mailbox_entries) = lay_out_mailboxes(config);
    let (capabilities, object_capabilities) = lay_out_capabilities(config);
    let (objects, object_bytes) = lay_out_objects(config);
    let gpu_config = GpuConfig {
        continuation_count: count as u32,
        handler_count: classes.len() as u32,
        instruction_count: instruction_count as u32,
        future_count: futures.len() as u32,
        mailbox_count: mailboxes.len() as u32,
        capability_count: capabilities.len() as u32,
        max_epochs: config.max_epochs,
        max_effects: config.max_effects_per_step,
        frame_stride: config.max_frame_bytes,
        effect_capacity: effect_capacity as u32,
        trace_capacity: trace_capacity as u32,
        mailbox_stride: config.max_continuations,
        invocation_capacity: invocation_capacity as u32,
        wake_capacity: invocation_capacity as u32,
        epoch_capacity: config.max_epochs,
        object_count: objects.len() as u32,
        object_capability_count: object_capabilities.len() as u32,
        object_stride: config.max_frame_bytes,
        initial_epoch: config.initial_epoch,
    };
    let plan = ResidentPlan {
        config: gpu_config,
        continuations: gpu_conts,
        frames,
        handlers,
        instructions,
        futures,
        mailboxes,
        mailbox_entries,
        capabilities,
        objects,
        object_bytes,
        object_capabilities,
        effect_capacity,
        trace_capacity,
        invocation_capacity,
        scratch_count,
    };
    assert(plan@ =~= laid_out(c, views, table));
    Ok(plan)
}

/// The outcome that a device record reports.
pub open spec fn reported_outcome(r: GpuEffectRecord) -> Option<ResidentOutcome> {
    if r.outcome == 1 {
        Some(ResidentOutcome::Resolved(r.result_value))
    } else if r.outcome == 2 {
        Some(ResidentOutcome::Registered)
    } else if r.outcome == 3 {
        Some(ResidentOutcome::Sent)
    } else if r.outcome == 4 {
        Some(ResidentOutcome::Received { value: r.result_value, sender: r.result_sender })
    } else if r.outcome == 5 {
        Some(ResidentOutcome::CapabilityDenied)
    } else if r.outcome == 6 {
        Some(ResidentOutcome::InvalidTarget)
    } else if r.outcome == 7 {
        Some(ResidentOutcome::Full)
    } else if r.outcome == 8 {
        Some(ResidentOutcome::Empty)
    } else if r.outcome == 9 {
        Some(ResidentOutcome::DoubleResolve)
    } else if r.outcome == 10 {
        Some(ResidentOutcome::Pending)
    } else if r.outcome == 11 {
        Some(ResidentOutcome::ObjectRead(r.result_value))
    } else if r.outcome == 12 {
        Some(ResidentOutcome::ObjectWritten)
    } else {
        None
    }
}

/// The effect that a device record reports.
pub open spec fn reported_effect(r: GpuEffectRecord) -> Option<ResidentEffect> {
    if r.opcode == device::OP_READ_OBJECT {
        Some(ResidentEffect::ObjectRead { target: r.target, offset: r.reserved })
    } else if r.opcode == device::OP_WRITE_OBJECT {
        Some(
            ResidentEffect::ObjectWrite { target: r.target, offset: r.reserved, value: r.value },
        )
    } else if r.opcode == device::OP_OBSERVE_FUTURE {
        Some(ResidentEffect::FutureObserve { target: r.target })
    } else if r.opcode == device::OP_AWAIT_FUTURE {
        Some(ResidentEffect::FutureAwait { target: r.target })
    } else if r.opcode == device::OP_RESOLVE_FUTURE {
        Some(ResidentEffect::FutureResolve { target: r.target, value: r.value })
    } else if r.opcode == device::OP_ENQUEUE_MESSAGE {
        Some(ResidentEffect::MailboxSend { target: r.target, value: r.value })
    } else if r.opcode == device::OP_RECEIVE_MESSAGE {
        Some(ResidentEffect::MailboxReceive { target: r.target })
    } else {
        None
    }
}

pub fn raw_outcome(r: &GpuEffectRecord) -> (outcome: Result<ResidentOutcome, BackendError>)
    ensures
        match reported_outcome(*r) {
            Some(o) => outcome == Ok::<ResidentOutcome, BackendError>(o),
            None => outcome == Err::<ResidentOutcome, BackendError>(BackendError::ExecutionFailed),
        },
{
    Ok(
        match r.outcome {
            1 => ResidentOutcome::Resolved(r.result_value),
            2 => ResidentOutcome::Registered,
            3 => ResidentOutcome::Sent,
            4 => ResidentOutcome::Received { value: r.result_value, sender: r.result_sender },
            5 => ResidentOutcome::CapabilityDenied,
            6 => ResidentOutcome::InvalidTarget,
            7 => ResidentOutcome::Full,
            8 => ResidentOutcome::Empty,
            9 => ResidentOutcome::DoubleResolve,
            10 => ResidentOutcome::Pending,
            11 => ResidentOutcome::ObjectRead(r.result_value),
            12 => ResidentOutcome::ObjectWritten,
            _ => {
                return Err(BackendError::ExecutionFailed);
            },
        },
    )
}

pub fn raw_effect(r: &GpuEffectRecord) -> (effect: Result<ResidentEffect, BackendError>)
    ensures
        match reported_effect(*r) {
            Some(e) => effect == Ok::<ResidentEffect, BackendError>(e),
            None => effect == Err::<ResidentEffect, BackendError>(BackendError::ExecutionFailed),
        },
{
    if r.opcode == device::OP_READ_OBJECT {
        Ok(ResidentEffect::ObjectRead { target: r.target, offset: r.reserved })
    } else if r.opcode == device::OP_WRITE_OBJECT {
        Ok(ResidentEffect::ObjectWrite { target: r.target, offset: r.reserved, value: r.value })
    } else if r.opcode == device::OP_OBSERVE_FUTURE {
        Ok(ResidentEffect::FutureObserve { target: r.target })
    } else if r.opcode == device::OP_AWAIT_FUTURE {
        Ok(ResidentEffect::FutureAwait { target: r.target })
    } else if r.opcode == device::OP_RESOLVE_FUTURE {
        Ok(ResidentEffect::FutureResolve { target: r.target, value: r.value })
    } else if r.opcode == device::OP_ENQUEUE_MESSAGE {
        Ok(ResidentEffect::MailboxSend { target: r.target, value: r.value })
    } else if r.opcode == device::OP_RECEIVE_MESSAGE {
        Ok(ResidentEffect::MailboxReceive { target: r.target })
    } else {
        Err(BackendError::ExecutionFailed)
    }
}

/// The lane of an epoch as one number, ordered by epoch and then by lane.
pub open spec fn lane_key(epoch: u32, lane: u32) -> u64 {
    (epoch * 0x1_0000_0000 + lane) as u64
}

/// Whether the trace shows that the lane `key` was evaluated.
pub open spec fn lane_ran(trace: Seq<ResidentSyncTrace>, n: int, key: u64) -> bool {
    exists|i: int|
        0 <= i < n && (#[trigger] trace[i]).event == 0 && lane_key(trace[i].epoch, trace[i].lane)
            == key
}

pub open spec fn keys_increase(keys: Seq<u64>) -> bool {
    forall|i: int, j: int|
        0 <= i < j < keys.len() ==> (#[trigger] keys[i]) < (#[trigger] keys[j])
}

/// Whether `keys` are the lanes of the first `n` trace records, in order.
pub open spec fn is_lane_order(trace: Seq<ResidentSyncTrace>, n: int, keys: Seq<u64>) -> bool {
    &&& keys_increase(keys)
    &&& forall|key: u64| #[trigger] keys.contains(key) <==> lane_ran(trace, n, key)
}

/// The evaluated lanes in increasing order of epoch and lane.
pub open spec fn lane_keys(trace: Seq<ResidentSyncTrace>) -> Seq<u64> {
    choose|keys: Seq<u64>| is_lane_order(trace, trace.len() as int, keys)
}

/// The actor of the first continuation, from `i` on, with this id.
pub open spec fn actor_from(specs: Seq<ContinuationView>, i: int, id: u64) -> Option<u64>
    decreases specs.len() - i,
{
    if i >= specs.len() {
        None
    } else if specs[i].id == id {
        Some(specs[i].actor)
    } else {
        actor_from(specs, i + 1, id)
    }
}

/// The payload bytes of a device record.
pub open spec fn reported_payload(r: GpuEffectRecord) -> Seq<u8> {
    match reported_outcome(r) {
        Some(ResidentOutcome::ObjectRead(value)) => bytes::le_bytes(value as nat, 8),
        Some(ResidentOutcome::ObjectWritten) => bytes::le_bytes(r.value as nat, 8),
        _ => Seq::empty(),
    }
}

/// The journal with the operation of one more device record.
pub open spec fn record_journalled(
    j: JournalView,
    actor: u64,
    r: GpuEffectRecord,
) -> JournalView {
    let payload = reported_payload(r);
    JournalView {
        operations: j.operations.push(
            DeviceLaneOperation {
                lane: r.lane,
                ordinal: r.ordinal,
                opcode: r.opcode,
                flags: 0,
                actor,
                target: r.target as u64,
                value: r.value,
                auxiliary: r.reserved as u64,
                result_ref: if reported_outcome(r) == Some(ResidentOutcome::ObjectWritten) {
                    0
                } else {
                    r.result_value
                },
                payload_offset: j.payload.len() as u32,
                payload_len: payload.len() as u32,
                result_code: resident_model::result_code(reported_outcome(r)->0),
                result_aux: 0,
            },
        ),
        payload: j.payload + payload,
    }
}

/// The journal of the lane `key` after the first `n` device records.
pub open spec fn lane_journal(
    specs: Seq<ContinuationView>,
    raw: Seq<GpuEffectRecord>,
    n: int,
    key: u64,
) -> JournalView
    decreases n,
{
    if n <= 0 {
        JournalView { operations: Seq::empty(), payload: Seq::empty() }
    } else {
        let r = raw[n - 1];
        let before = lane_journal(specs, raw, n - 1, key);
        if lane_key(r.epoch, r.lane) == key {
            record_journalled(before, actor_from(specs, 0, r.continuation)->0, r)
        } else {
            before
        }
    }
}

/// Whether the `k`th device record can be read: its codes are known, its
/// continuation and its lane are those of the run, and its payload fits.
pub open spec fn record_is_sound(
    specs: Seq<ContinuationView>,
    raw: Seq<GpuEffectRecord>,
    trace: Seq<ResidentSyncTrace>,
    k: int,
) -> bool {
    let r = raw[k];
    let key = lane_key(r.epoch, r.lane);
    &&& reported_effect(r) is Some
    &&& reported_outcome(r) is Some
    &&& actor_from(specs, 0, r.continuation) is Some
    &&& lane_ran(trace, trace.len() as int, key)
    &&& lane_journal(specs, raw, k, key).payload.len() + reported_payload(r).len() <= u32::MAX
}

/// The access record of a device record.
pub open spec fn reported_access(r: GpuEffectRecord) -> DeviceLaneAccess {
    DeviceLaneAccess {
        resource: r.target as u64,
        lane: r.lane,
        resource_kind: resident_model::effect_resource(reported_effect(r)->0),
        mode: if reported_effect(r)->0 is FutureObserve || reported_effect(r)->0 is ObjectRead {
            DEVICE_ACCESS_READ
        } else {
            DEVICE_ACCESS_WRITE
        },
        ordinal: r.ordinal,
    }
}

/// The effect record of a device record.
pub open spec fn reported_record(r: GpuEffectRecord) -> ResidentEffectRecord {
    ResidentEffectRecord {
        epoch: r.epoch,
        lane: r.lane,
        ordinal: r.ordinal,
        continuation: r.continuation,
        effect: reported_effect(r)->0,
        outcome: reported_outcome(r)->0,
    }
}

/// A continuation as the device leaves it.
pub open spec fn left_by_device(cont: GpuContinuation) -> ResidentFinalContinuation {
    ResidentFinalContinuation {
        id: cont.id,
        run_class: cont.run_class,
        completed: cont.state == 3,
        pending: if cont.pending_opcode == 1 {
            Some(ResidentEffect::FutureAwait { target: cont.pending_target })
        } else if cont.pending_opcode == 3 {
            Some(
                ResidentEffect::MailboxSend {
                    target: cont.pending_target,
                    value: cont.pending_value,
                },
            )
        } else if cont.pending_opcode == 4 {
            Some(ResidentEffect::MailboxReceive { target: cont.pending_target })
        } else {
            None
        },
        waiter_order: if cont.pending_opcode == 0 {
            0
        } else {
            cont.reserved
        },
    }
}

/// The frames of the first `n` continuations, by id, cut from their rows.
pub open spec fn frames_by_id(
    cs: Seq<GpuContinuation>,
    frames: Seq<u8>,
    stride: int,
    n: int,
) -> Map<u64, Seq<u8>>
    decreases n,
{
    if n <= 0 {
        Map::empty()
    } else {
        let cont = cs[n - 1];
        frames_by_id(cs, frames, stride, n - 1).insert(
            cont.id,
            frames.subrange((n - 1) * stride, (n - 1) * stride + cont.frame_len),
        )
    }
}

/// The messages of a mailbox, oldest first, from its ring.
pub open spec fn ring_messages(
    mail: GpuMailbox,
    entries: Seq<GpuMailEntry>,
    first: int,
    stride: int,
) -> Seq<(u64, u64)> {
    Seq::new(
        mail.count as nat,
        |k: int|
            {
                let entry = entries[first + (mail.head + k) % stride];
                (entry.sender, entry.value)
            },
    )
}

/// What the host reads back when the device has finished.
#[derive(Clone, Debug, PartialEq, Eq)]
pub struct Readback {
    pub continuations: Vec<GpuContinuation>,
    pub frames: Vec<u8>,
    pub object_bytes: Vec<u8>,
    pub futures: Vec<GpuFuture>,
    pub mailboxes: Vec<GpuMailbox>,
    pub mailbox_entries: Vec<GpuMailEntry>,
    pub effects: Vec<GpuEffectRecord>,
    pub trace: Vec<ResidentSyncTrace>,
    pub completed: Vec<u64>,
    pub invocations: Vec<ResidentInvocationRecord>,
    pub wakes: Vec<ResidentWakeRecord>,
    pub epoch_records: Vec<ResidentEpochRecord>,
    pub status: GpuStatus,
}

/// Whether the rows and rings of a readback lie within their buffers.
pub open spec fn readback_is_in_bounds(c: ConfigView, back: Readback) -> bool {
    let stride = c.max_frame_bytes as int;
    &&& c.max_continuations != 0
    &&& forall|i: int|
        0 <= i < back.continuations@.len() ==> i * stride + (
        #[trigger] back.continuations@[i]).frame_len <= back.frames@.len()
    &&& forall|i: int|
        0 <= i < c.objects.len() ==> i * stride + (#[trigger] c.objects[i]).bytes.len()
            <= back.object_bytes@.len()
    &&& forall|i: int|
        0 <= i < back.mailboxes@.len() && (#[trigger] back.mailboxes@[i]).count > 0
            ==> back.mailboxes@[i].head + back.mailboxes@[i].count - 1 <= u32::MAX
    &&& back.mailboxes@.len() * c.max_continuations <= back.mailbox_entries@.len()
}

/// The result of a run that left `back` on the device.
pub open spec fn decoded(
    c: ConfigView,
    specs: Seq<ContinuationView>,
    back: Readback,
) -> ResultView {
    let stride = c.max_frame_bytes as int;
    let raw = back.effects@;
    ResultView {
        frames: frames_by_id(
            back.continuations@,
            back.frames@,
            stride,
            back.continuations@.len() as int,
        ),
        effects: raw.map_values(|r: GpuEffectRecord| reported_record(r)),
        accesses: raw.map_values(|r: GpuEffectRecord| reported_access(r)),
        operations: lane_keys(back.trace@).map_values(
            |key: u64| lane_journal(specs, raw, raw.len() as int, key),
        ),
        trace: back.trace@,
        epochs: back.status.epochs,
        quiescent: back.status.quiescent != 0,
        completed: back.completed@,
        object_values: Seq::new(
            c.objects.len(),
            |i: int|
                back.object_bytes@.subrange(
                    i * stride,
                    i * stride + c.objects[i].bytes.len(),
                ),
        ),
        future_values: back.futures@.map_values(
            |f: GpuFuture|
                if f.resolved != 0 {
                    Some(f.value)
                } else {
                    None
                },
        ),
        mailboxes: Seq::new(
            back.mailboxes@.len(),
            |i: int|
                ring_messages(
                    back.mailboxes@[i],
                    back.mailbox_entries@,
                    i * c.max_continuations,
                    c.max_continuations as int,
                ),
        ),
        final_continuations: back.continuations@.map_values(
            |cont: GpuContinuation| left_by_device(cont),
        ),
        invocations: back.invocations@,
        wakes: back.wakes@,
        epoch_records: back.epoch_records@,
    }
}

proof fn lemma_lane_order_is_unique(
    trace: Seq<ResidentSyncTrace>,
    n: int,
    a: Seq<u64>,
    b: Seq<u64>,
)
    requires
        is_lane_order(trace, n, a),
        is_lane_order(trace, n, b),
    ensures
        a == b,
{
    let x = Seq::new(a.len(), |i: int| a[i] as int);
    let y = Seq::new(b.len(), |i: int| b[i] as int);
    assert forall|v: int| #[trigger] x.contains(v) <==> y.contains(v) by {
        if x.contains(v) {
            let i = choose|i: int| 0 <= i < x.len() && x[i] == v;
            assert(a.contains(a[i]));
            assert(b.contains(a[i]));
            let j = choose|j: int| 0 <= j < b.len() && b[j] == a[i];
            assert(y[j] == v);
        }
        if y.contains(v) {
            let i = choose|i: int| 0 <= i < y.len() && y[i] == v;
            assert(b.contains(b[i]));
            assert(a.contains(b[i]));
            let j = choose|j: int| 0 <= j < a.len() && a[j] == b[i];
            assert(x[j] == v);
        }
    }
    ordered::lemma_increasing_is_unique(x, y);
    assert forall|i: int| 0 <= i < a.len() implies a[i] == b[i] by {
        assert(x[i] == y[i]);
    }
    assert(a.len() == x.len() && b.len() == y.len());
    assert(a =~= b);
}

fn key_of(epoch: u32, lane: u32) -> (key: u64)
    ensures
        key == lane_key(epoch, lane),
{
    epoch as u64 * 0x1_0000_0000 + lane as u64
}

/// The evaluated lanes in increasing order.
fn keys_of(trace: &Vec<ResidentSyncTrace>) -> (keys: Vec<u64>)
    ensures
        keys@ == lane_keys(trace@),
        is_lane_order(trace@, trace@.len() as int, keys@),
{
    let mut keys: Vec<u64> = Vec::new();
    let mut n: usize = 0;
    while n < trace.len()
        invariant
            n <= trace@.len(),
            is_lane_order(trace@, n as int, keys@),
        decreases trace@.len() - n,
    {
        let ghost before = keys@;
        let entry = trace[n];
        if entry.event == 0 {
            let key: u64 = key_of(entry.epoch, entry.lane);
            let mut p: usize = keys.len();
            while p > 0 && keys[p - 1] > key
                invariant
                    p <= keys@.len(),
                    forall|k: int| p <= k < keys@.len() ==> (#[trigger] keys@[k]) > key,
                decreases p,
            {
                p = p - 1;
            }
            if p > 0 && keys[p - 1] == key {
                assert(keys@[p - 1] == key);
                assert(before.contains(key));
            } else {
                keys.insert(p, key);
                assert forall|i: int, j: int| 0 <= i < j < keys@.len() implies (
                #[trigger] keys@[i]) < (#[trigger] keys@[j]) by {
                    let x = if i < p {
                        i
                    } else {
                        i - 1
                    };
                    let y = if j < p {
                        j
                    } else {
                        j - 1
                    };
                    if i != p && j != p {
                        assert(before[x] < before[y]);
                    } else if j == p && i < p - 1 {
                        assert(before[i] < before[p - 1]);
                    }
                }
                assert(keys@[p as int] == key);
            }
            assert forall|k: u64| #[trigger] keys@.contains(k) <==> (before.contains(k) || k
                == key) by {
                if before.contains(k) {
                    let i = choose|i: int| 0 <= i < before.len() && before[i] == k;
                    if keys@.len() == before.len() {
                        assert(keys@[i] == k);
                    } else if i < p {
                        assert(keys@[i] == k);
                    } else {
                        assert(keys@[i + 1] == k);
                    }
                }
                if k == key {
                    assert(keys@.contains(key));
                }
                if keys@.contains(k) && k != key {
                    let i = choose|i: int| 0 <= i < keys@.len() && keys@[i] == k;
                    if keys@.len() == before.len() {
                        assert(before[i] == k);
                    } else if i < p {
                        assert(before[i] == k);
                    } else {
                        assert(before[i - 1] == k);
                    }
                }
            }
        }
        assert forall|k: u64| #[trigger] keys@.contains(k) <==> lane_ran(
            trace@,
            n + 1,
            k,
        ) by {
            if lane_ran(trace@, n as int, k) {
                let i = choose|i: int|
                    0 <= i < n && (#[trigger] trace@[i]).event == 0 && lane_key(
                        trace@[i].epoch,
                        trace@[i].lane,
                    ) == k;
                assert(trace@[i].event == 0);
                assert(lane_ran(trace@, n + 1, k));
            }
            assert(before.contains(k) <==> lane_ran(trace@, n as int, k));
            if entry.event == 0 && k == lane_key(entry.epoch, entry.lane) {
                assert(trace@[n as int].event == 0);
            }
        }
        n = n + 1;
    }
    proof {
        lemma_lane_order_is_unique(
            trace@,
            trace@.len() as int,
            keys@,
            lane_keys(trace@),
        );
    }
    keys
}

fn find_key(keys: &Vec<u64>, key: u64) -> (at: Option<usize>)
    requires
        keys_increase(keys@),
    ensures
        match at {
            Some(i) => i < keys@.len() && keys@[i as int] == key,
            None => !keys@.contains(key),
        },
{
    let mut low: usize = 0;
    let mut high: usize = keys.len();
    while low < high
        invariant
            low <= high <= keys@.len(),
            keys_increase(keys@),
            forall|i: int| 0 <= i < low ==> (#[trigger] keys@[i]) < key,
            forall|i: int| high <= i < keys@.len() ==> (#[trigger] keys@[i]) > key,
        decreases high - low,
    {
        let mid: usize = low + (high - low) / 2;
        if keys[mid] == key {
            return Some(mid);
        }
        if keys[mid] < key {
            assert forall|i: int| 0 <= i < mid + 1 implies (#[trigger] keys@[i]) < key by {
                if i < mid {
                    assert(keys@[i] < keys@[mid as int]);
                }
            }
            low = mid + 1;
        } else {
            assert forall|i: int| mid <= i < keys@.len() implies (#[trigger] keys@[i]) > key by {
                if mid < i {
                    assert(keys@[mid as int] < keys@[i]);
                }
            }
            high = mid;
        }
    }
    None
}

fn find_actor(specs: &Vec<ResidentContinuation>, id: u64) -> (actor: Option<u64>)
    ensures
        actor == actor_from(resident_sync::continuation_views(specs@), 0, id),
{
    let ghost views = resident_sync::continuation_views(specs@);
    let mut n: usize = 0;
    while n < specs.len()
        invariant
            n <= specs@.len(),
            views == resident_sync::continuation_views(specs@),
            actor_from(views, 0, id) == actor_from(views, n as int, id),
        decreases specs@.len() - n,
    {
        assert(views[n as int] == specs@[n as int]@);
        if specs[n].id == id {
            return Some(specs[n].actor);
        }
        n = n + 1;
    }
    None
}

/// Appends the operation of one device record to the journal of its lane.
fn write_record(
    journal: &mut DeviceOperationJournal,
    actor: u64,
    r: &GpuEffectRecord,
    outcome: ResidentOutcome,
) -> (fits: bool)
    requires
        reported_outcome(*r) == Some(outcome),
    ensures
        fits <==> old(journal)@.payload.len() + reported_payload(*r).len() <= u32::MAX,
        fits ==> final(journal)@ == record_journalled(old(journal)@, actor, *r),
{
    let mut payload: Vec<u8> = Vec::new();
    match outcome {
        ResidentOutcome::ObjectRead(value) => {
            bytes::put_le(&mut payload, value, 8);
        },
        ResidentOutcome::ObjectWritten => {
            bytes::put_le(&mut payload, r.value, 8);
        },
        _ => {},
    }
    assert(payload@ =~= reported_payload(*r));
    let (payload_offset, payload_len) = match journal.append_payload(payload.as_slice()) {
        None => {
            return false;
        },
        Some(range) => range,
    };
    let result_ref: u64 = match outcome {
        ResidentOutcome::ObjectWritten => 0,
        _ => r.result_value,
    };
    journal.operations.push(
        DeviceLaneOperation {
            lane: r.lane,
            ordinal: r.ordinal,
            opcode: r.opcode,
            flags: 0,
            actor,
            target: r.target as u64,
            value: r.value,
            auxiliary: r.reserved as u64,
            result_ref,
            payload_offset,
            payload_len,
            result_code: resident_engine::outcome_code(outcome),
            result_aux: 0,
        },
    );
    assert(journal@ =~= record_journalled(old(journal)@, actor, *r));
    true
}

/// The records of the device's effects: the effects, their accesses, and one
/// journal for each evaluated lane.
fn decode_effects(
    specs: &Vec<ResidentContinuation>,
    raw: &Vec<GpuEffectRecord>,
    trace: &Vec<ResidentSyncTrace>,
) -> (records: Result<
    (Vec<ResidentEffectRecord>, Vec<DeviceLaneAccess>, Vec<DeviceOperationJournal>),
    BackendError,
>)
    ensures
        records is Ok <==> forall|k: int|
            0 <= k < raw@.len() ==> #[trigger] record_is_sound(
                resident_sync::continuation_views(specs@),
                raw@,
                trace@,
                k,
            ),
        records matches Err(error) ==> error == BackendError::ExecutionFailed,
        records matches Ok((effects, accesses, journals)) ==> {
            &&& effects@ == raw@.map_values(|r: GpuEffectRecord| reported_record(r))
            &&& accesses@ == raw@.map_values(|r: GpuEffectRecord| reported_access(r))
            &&& journals@.map_values(|j: DeviceOperationJournal| j@) == lane_keys(
                trace@,
            ).map_values(
                |key: u64|
                    lane_journal(
                        resident_sync::continuation_views(specs@),
                        raw@,
                        raw@.len() as int,
                        key,
                    ),
            )
        },
{
    let ghost views = resident_sync::continuation_views(specs@);
    let keys = keys_of(trace);
    let mut effects: Vec<ResidentEffectRecord> = Vec::new();
    let mut accesses: Vec<DeviceLaneAccess> = Vec::new();
    let mut journals: Vec<DeviceOperationJournal> = Vec::new();
    let mut m: usize = 0;
    while m < keys.len()
        invariant
            m <= keys@.len(),
            journals@.len() == m,
            forall|i: int|
                0 <= i < m ==> (#[trigger] journals@[i])@ == (JournalView {
                    operations: Seq::empty(),
                    payload: Seq::empty(),
                }),
        decreases keys@.len() - m,
    {
        journals.push(DeviceOperationJournal::new());
        m = m + 1;
    }
    let mut n: usize = 0;
    while n < raw.len()
        invariant
            n <= raw@.len(),
            views == resident_sync::continuation_views(specs@),
            is_lane_order(trace@, trace@.len() as int, keys@),
            journals@.len() == keys@.len(),
            effects@.len() == n,
            accesses@.len() == n,
            forall|k: int| 0 <= k < n ==> #[trigger] record_is_sound(views, raw@, trace@, k),
            forall|k: int| 0 <= k < n ==> #[trigger] effects@[k] == reported_record(raw@[k]),
            forall|k: int| 0 <= k < n ==> #[trigger] accesses@[k] == reported_access(raw@[k]),
            forall|i: int|
                0 <= i < keys@.len() ==> (#[trigger] journals@[i])@ == lane_journal(
                    views,
                    raw@,
                    n as int,
                    keys@[i],
                ),
        decreases raw@.len() - n,
    {
        let r = &raw[n];
        let ghost key = lane_key(r.epoch, r.lane);
        let ghost sound = record_is_sound(views, raw@, trace@, n as int);
        let effect = match raw_effect(r) {
            Err(error) => {
                assert(!sound);
                return Err(error);
            },
            Ok(effect) => effect,
        };
        let outcome = match raw_outcome(r) {
            Err(error) => {
                assert(!sound);
                return Err(error);
            },
            Ok(outcome) => outcome,
        };
        let actor: u64 = match find_actor(specs, r.continuation) {
            None => {
                assert(!sound);
                return Err(BackendError::ExecutionFailed);
            },
            Some(actor) => actor,
        };
        let at: usize = match find_key(&keys, key_of(r.epoch, r.lane)) {
            None => {
                assert(!keys@.contains(key));
                assert(!sound);
                return Err(BackendError::ExecutionFailed);
            },
            Some(at) => at,
        };
        assert(keys@.contains(key));
        let ghost before = journals@;
        let fits = write_record(&mut journals[at], actor, r, outcome);
        if !fits {
            assert(!sound);
            return Err(BackendError::ExecutionFailed);
        }
        let mode: u32 = match effect {
            ResidentEffect::FutureObserve { .. } => DEVICE_ACCESS_READ,
            ResidentEffect::ObjectRead { .. } => DEVICE_ACCESS_READ,
            _ => DEVICE_ACCESS_WRITE,
        };
        accesses.push(
            DeviceLaneAccess::new(
                r.lane,
                resident_engine::resource(effect),
                r.target as u64,
                mode,
                r.ordinal,
            ),
        );
        effects.push(
            ResidentEffectRecord {
                epoch: r.epoch,
                lane: r.lane,
                ordinal: r.ordinal,
                continuation: r.continuation,
                effect,
                outcome,
            },
        );
        assert(sound);
        assert forall|i: int| 0 <= i < keys@.len() implies (#[trigger] journals@[i])@
            == lane_journal(views, raw@, n + 1, keys@[i]) by {
            if i != at {
                assert(keys@[i] != key) by {
                    if i < at {
                        assert(keys@[i] < keys@[at as int]);
                    } else {
                        assert(keys@[at as int] < keys@[i]);
                    }
                }
                assert(journals@[i] == before[i]);
            }
        }
        n = n + 1;
    }
    assert(effects@ =~= raw@.map_values(|r: GpuEffectRecord| reported_record(r)));
    assert(accesses@ =~= raw@.map_values(|r: GpuEffectRecord| reported_access(r)));
    assert(journals@.map_values(|j: DeviceOperationJournal| j@) =~= lane_keys(trace@).map_values(
        |key: u64| lane_journal(views, raw@, raw@.len() as int, key),
    ));
    Ok((effects, accesses, journals))
}

/// The first `len` bytes of `from` at `start`.
fn copy_range(from: &Vec<u8>, start: usize, len: usize) -> (out: Vec<u8>)
    requires
        start + len <= from@.len(),
    ensures
        out@ == from@.subrange(start as int, start + len),
{
    let mut out: Vec<u8> = Vec::new();
    let mut k: usize = 0;
    while k < len
        invariant
            k <= len,
            start + len <= from.len(),
            out@ =~= from@.subrange(start as int, start + k),
        decreases len - k,
    {
        out.push(from[start + k]);
        k = k + 1;
    }
    out
}

fn decode_frames(conts: &Vec<GpuContinuation>, frames: &Vec<u8>, stride: usize) -> (out: BTreeMap<
    u64,
    Vec<u8>,
>)
    requires
        forall|i: int|
            0 <= i < conts@.len() ==> i * stride + (#[trigger] conts@[i]).frame_len
                <= frames@.len(),
    ensures
        out@.map_values(|f: Vec<u8>| f@) == frames_by_id(
            conts@,
            frames@,
            stride as int,
            conts@.len() as int,
        ),
{
    let mut out: BTreeMap<u64, Vec<u8>> = BTreeMap::new();
    let mut n: usize = 0;
    assert(out@.map_values(|f: Vec<u8>| f@) =~= Map::empty());
    while n < conts.len()
        invariant
            n <= conts@.len(),
            forall|i: int|
                0 <= i < conts@.len() ==> i * stride + (#[trigger] conts@[i]).frame_len
                    <= frames.len(),
            out@.map_values(|f: Vec<u8>| f@) == frames_by_id(
                conts@,
                frames@,
                stride as int,
                n as int,
            ),
        decreases conts@.len() - n,
    {
        let ghost before = out@;
        let cont = conts[n];
        assert(n * stride + conts@[n as int].frame_len <= frames.len());
        assert(0 <= n * stride) by (nonlinear_arith);
        let frame = copy_range(frames, n * stride, cont.frame_len as usize);
        out.insert(cont.id, frame);
        assert(out@.map_values(|f: Vec<u8>| f@) =~= before.map_values(|f: Vec<u8>| f@).insert(
            cont.id,
            frame@,
        ));
        n = n + 1;
    }
    out
}

fn decode_objects(config: &ResidentSyncConfig, object_bytes: &Vec<u8>) -> (out: Vec<Vec<u8>>)
    requires
        forall|i: int|
            0 <= i < config@.objects.len() ==> i * config.max_frame_bytes + (
            #[trigger] config@.objects[i]).bytes.len() <= object_bytes@.len(),
    ensures
        out@.map_values(|o: Vec<u8>| o@) == Seq::new(
            config@.objects.len(),
            |i: int|
                object_bytes@.subrange(
                    i * config.max_frame_bytes,
                    i * config.max_frame_bytes + config@.objects[i].bytes.len(),
                ),
        ),
{
    let ghost objects = config@.objects;
    let stride: usize = config.max_frame_bytes as usize;
    let mut out: Vec<Vec<u8>> = Vec::new();
    let mut n: usize = 0;
    while n < config.objects.len()
        invariant
            n <= config.objects@.len(),
            objects == config@.objects,
            stride == config.max_frame_bytes,
            forall|i: int|
                0 <= i < objects.len() ==> i * stride + (#[trigger] objects[i]).bytes.len()
                    <= object_bytes.len(),
            out@.len() == n,
            forall|i: int|
                0 <= i < n ==> (#[trigger] out@[i])@ == object_bytes@.subrange(
                    i * stride,
                    i * stride + objects[i].bytes.len(),
                ),
        decreases config.objects@.len() - n,
    {
        assert(objects[n as int] == config.objects@[n as int]@);
        assert(n * stride + objects[n as int].bytes.len() <= object_bytes.len());
        assert(0 <= n * stride) by (nonlinear_arith);
        out.push(copy_range(object_bytes, n * stride, config.objects[n].bytes.len()));
        n = n + 1;
    }
    assert(out@.map_values(|o: Vec<u8>| o@) =~= Seq::new(
        objects.len(),
        |i: int|
            object_bytes@.subrange(
                i * config.max_frame_bytes,
                i * config.max_frame_bytes + objects[i].bytes.len(),
            ),
    ));
    out
}

fn decode_continuations(conts: &Vec<GpuContinuation>) -> (out: Vec<ResidentFinalContinuation>)
    ensures
        out@ == conts@.map_values(|cont: GpuContinuation| left_by_device(cont)),
{
    let mut out: Vec<ResidentFinalContinuation> = Vec::new();
    let mut n: usize = 0;
    while n < conts.len()
        invariant
            n <= conts@.len(),
            out@.len() == n,
            forall|i: int| 0 <= i < n ==> #[trigger] out@[i] == left_by_device(conts@[i]),
        decreases conts@.len() - n,
    {
        let cont = conts[n];
        let pending: Option<ResidentEffect> = match cont.pending_opcode {
            1 => Some(ResidentEffect::FutureAwait { target: cont.pending_target }),
            3 => Some(
                ResidentEffect::MailboxSend {
                    target: cont.pending_target,
                    value: cont.pending_value,
                },
            ),
            4 => Some(ResidentEffect::MailboxReceive { target: cont.pending_target }),
            _ => None,
        };
        let waiter_order: u32 = if cont.pending_opcode == 0 {
            0
        } else {
            cont.reserved
        };
        out.push(
            ResidentFinalContinuation {
                id: cont.id,
                run_class: cont.run_class,
                completed: cont.state == 3,
                pending,
                waiter_order,
            },
        );
        n = n + 1;
    }
    assert(out@ =~= conts@.map_values(|cont: GpuContinuation| left_by_device(cont)));
    out
}

fn decode_futures(futures: &Vec<GpuFuture>) -> (out: Vec<Option<u64>>)
    ensures
        out@ == futures@.map_values(
            |f: GpuFuture|
                if f.resolved != 0 {
                    Some(f.value)
                } else {
                    None
                },
        ),
{
    let mut out: Vec<Option<u64>> = Vec::new();
    let mut n: usize = 0;
    while n < futures.len()
        invariant
            n <= futures@.len(),
            out@.len() == n,
            forall|i: int|
                0 <= i < n ==> #[trigger] out@[i] == if futures@[i].resolved != 0 {
                    Some(futures@[i].value)
                } else {
                    None
                },
        decreases futures@.len() - n,
    {
        let cell = futures[n];
        out.push(
            if cell.resolved != 0 {
                Some(cell.value)
            } else {
                None
            },
        );
        n = n + 1;
    }
    assert(out@ =~= futures@.map_values(
        |f: GpuFuture|
            if f.resolved != 0 {
                Some(f.value)
            } else {
                None
            },
    ));
    out
}

fn decode_ring(
    mail: GpuMailbox,
    entries: &Vec<GpuMailEntry>,
    first: usize,
    stride: u32,
) -> (out: Vec<(u64, u64)>)
    requires
        stride != 0,
        first + stride <= entries@.len(),
        mail.count > 0 ==> mail.head + mail.count - 1 <= u32::MAX,
    ensures
        out@ == ring_messages(mail, entries@, first as int, stride as int),
{
    let mut out: Vec<(u64, u64)> = Vec::new();
    let mut k: u32 = 0;
    while k < mail.count
        invariant
            k <= mail.count,
            stride != 0,
            first + stride <= entries.len(),
            mail.count > 0 ==> mail.head + mail.count - 1 <= u32::MAX,
            out@.len() == k,
            forall|i: int|
                0 <= i < k ==> #[trigger] out@[i] == ({
                    let entry = entries@[first + (mail.head + i) % (stride as int)];
                    (entry.sender, entry.value)
                }),
        decreases mail.count - k,
    {
        let slot: u32 = (mail.head + k) % stride;
        let entry = entries[first + slot as usize];
        out.push((entry.sender, entry.value));
        k = k + 1;
    }
    assert(out@ =~= ring_messages(mail, entries@, first as int, stride as int));
    out
}

fn decode_mailboxes(
    mails: &Vec<GpuMailbox>,
    entries: &Vec<GpuMailEntry>,
    stride: u32,
) -> (out: Vec<Vec<(u64, u64)>>)
    requires
        stride != 0,
        mails@.len() * stride <= entries@.len(),
        forall|i: int|
            0 <= i < mails@.len() && (#[trigger] mails@[i]).count > 0 ==> mails@[i].head
                + mails@[i].count - 1 <= u32::MAX,
    ensures
        out@.map_values(|m: Vec<(u64, u64)>| m@) == Seq::new(
            mails@.len(),
            |i: int| ring_messages(mails@[i], entries@, i * stride, stride as int),
        ),
{
    let mut out: Vec<Vec<(u64, u64)>> = Vec::new();
    let mut n: usize = 0;
    while n < mails.len()
        invariant
            n <= mails@.len(),
            stride != 0,
            mails@.len() * stride <= entries.len(),
            forall|i: int|
                0 <= i < mails@.len() && (#[trigger] mails@[i]).count > 0 ==> mails@[i].head
                    + mails@[i].count - 1 <= u32::MAX,
            out@.len() == n,
            forall|i: int|
                0 <= i < n ==> (#[trigger] out@[i])@ == ring_messages(
                    mails@[i],
                    entries@,
                    i * stride,
                    stride as int,
                ),
        decreases mails@.len() - n,
    {
        let ghost len = mails@.len() as int;
        assert(n * stride + stride <= len * stride) by (nonlinear_arith)
            requires
                n + 1 <= len,
                0 <= n,
        ;
        assert(0 <= n * stride) by (nonlinear_arith);
        out.push(decode_ring(mails[n], entries, n * stride as usize, stride));
        n = n + 1;
    }
    assert(out@.map_values(|m: Vec<(u64, u64)>| m@) =~= Seq::new(
        mails@.len(),
        |i: int| ring_messages(mails@[i], entries@, i * stride, stride as int),
    ));
    out
}

/// Refuses a readback that reports a device error, or more records than there
/// was room for.
pub fn accept_status(plan: &ResidentPlan, status: &GpuStatus) -> (verdict: Result<
    (),
    BackendError,
>)
    ensures
        verdict is Ok <==> status_is_sound(plan@, *status),
        verdict matches Err(error) ==> error == BackendError::ExecutionFailed,
{
    if status.error != 0 || status.effect_count as usize > plan.effect_capacity
        || status.trace_count as usize > plan.trace_capacity || status.completed_count as usize
        > plan.continuations.len() || status.invocation_count as usize > plan.invocation_capacity
        || status.wake_count as usize > plan.invocation_capacity || status.epoch_count
        > plan.config.max_epochs {
        Err(BackendError::ExecutionFailed)
    } else {
        Ok(())
    }
}

/// Whether a device status reports success, and no more records than fit.
pub open spec fn status_is_sound(plan: PlanView, status: GpuStatus) -> bool {
    &&& status.error == 0
    &&& status.effect_count <= plan.effect_capacity
    &&& status.trace_count <= plan.trace_capacity
    &&& status.completed_count <= plan.continuations.len()
    &&& status.invocation_count <= plan.invocation_capacity
    &&& status.wake_count <= plan.invocation_capacity
    &&& status.epoch_count <= plan.config.max_epochs
}

/// Turns the final readback into the records of the run.
pub fn decode(
    config: &ResidentSyncConfig,
    specs: &Vec<ResidentContinuation>,
    back: Readback,
) -> (result: Result<ResidentSyncResult, BackendError>)
    requires
        readback_is_in_bounds(config@, back),
    ensures
        result is Ok <==> forall|k: int|
            0 <= k < back.effects@.len() ==> #[trigger] record_is_sound(
                resident_sync::continuation_views(specs@),
                back.effects@,
                back.trace@,
                k,
            ),
        result matches Ok(r) ==> r@ == decoded(
            config@,
            resident_sync::continuation_views(specs@),
            back,
        ),
        result matches Err(error) ==> error == BackendError::ExecutionFailed,
{
    let (effects, accesses, operations) = match decode_effects(specs, &back.effects, &back.trace) {
        Err(error) => {
            return Err(error);
        },
        Ok(records) => records,
    };
    let frames = decode_frames(
        &back.continuations,
        &back.frames,
        config.max_frame_bytes as usize,
    );
    let object_values = decode_objects(config, &back.object_bytes);
    let future_values = decode_futures(&back.futures);
    let mailboxes = decode_mailboxes(
        &back.mailboxes,
        &back.mailbox_entries,
        config.max_continuations,
    );
    let final_continuations = decode_continuations(&back.continuations);
    let ghost goal = decoded(config@, resident_sync::continuation_views(specs@), back);
    let result = ResidentSyncResult {
        frames,
        effects,
        accesses,
        operations,
        trace: back.trace,
        epochs: back.status.epochs,
        quiescent: back.status.quiescent != 0,
        completed: back.completed,
        object_values,
        future_values,
        mailboxes,
        final_continuations,
        invocations: back.invocations,
        wakes: back.wakes,
        epoch_records: back.epoch_records,
    };
    assert(result@ =~= goal);
    Ok(result)
}

/// The device record of an effect and its outcome.
pub open spec fn record_of(
    slot: Slot,
    ordinal: u32,
    continuation: u64,
    run_class: u32,
    e: ResidentEffect,
    o: ResidentOutcome,
) -> GpuEffectRecord {
    GpuEffectRecord {
        epoch: slot.epoch,
        lane: slot.lane,
        ordinal,
        opcode: resident_model::effect_opcode(e),
        continuation,
        target: resident_model::effect_target(e),
        outcome: match o {
            ResidentOutcome::Resolved(_) => 1,
            ResidentOutcome::Registered => 2,
            ResidentOutcome::Sent => 3,
            ResidentOutcome::Received { .. } => 4,
            ResidentOutcome::CapabilityDenied => 5,
            ResidentOutcome::InvalidTarget => 6,
            ResidentOutcome::Full => 7,
            ResidentOutcome::Empty => 8,
            ResidentOutcome::DoubleResolve => 9,
            ResidentOutcome::Pending => 10,
            ResidentOutcome::ObjectRead(_) => 11,
            ResidentOutcome::ObjectWritten => 12,
        },
        value: resident_model::effect_value(e),
        result_value: match resident_program::carried(o) {
            Some(value) => value,
            None => if o is ObjectWritten {
                resident_model::effect_value(e)
            } else {
                0
            },
        },
        result_sender: match o {
            ResidentOutcome::Received { sender, .. } => sender,
            _ => 0,
        },
        run_class,
        reserved: resident_model::effect_offset(e) as u32,
    }
}

/// The device record of an effect decodes to the effect, the outcome, the
/// access record and the journal operation that the reference executive leaves
/// for it.
pub proof fn law_device_record_decodes_to_the_reference(
    slot: Slot,
    ordinal: u32,
    continuation: u64,
    run_class: u32,
    actor: u64,
    j: JournalView,
    e: ResidentEffect,
    o: ResidentOutcome,
)
    ensures
        ({
            let r = record_of(slot, ordinal, continuation, run_class, e, o);
            &&& reported_effect(r) == Some(e)
            &&& reported_outcome(r) == Some(o)
            &&& reported_access(r) == resident_model::access_of(slot, ordinal, e)
            &&& record_journalled(j, actor, r) == resident_model::journalled(
                j,
                actor,
                slot,
                ordinal,
                e,
                o,
            )
        }),
{
    let r = record_of(slot, ordinal, continuation, run_class, e, o);
    assert(record_journalled(j, actor, r) =~= resident_model::journalled(
        j,
        actor,
        slot,
        ordinal,
        e,
        o,
    ));
}

/// A device that leaves its buffers as they were laid out gives back every
/// frame that it was given.
pub proof fn law_untouched_frames_come_back(
    c: ConfigView,
    conts: Seq<ContinuationView>,
    table: Map<u32, ProgramView>,
    i: int,
)
    requires
        resident_model::plan_is_valid(c, conts, table),
        0 <= i < conts.len(),
    ensures
        ({
            let plan = laid_out(c, conts, table);
            let sorted = resident_model::in_id_order(conts);
            let stride = c.max_frame_bytes as int;
            &&& plan.continuations[i].id == sorted[i].id
            &&& plan.frames.subrange(i * stride, i * stride + plan.continuations[i].frame_len)
                == sorted[i].frame
        }),
{
    resident_sync::lemma_id_order_exists(conts);
    let sorted = resident_model::in_id_order(conts);
    let rows = sorted.map_values(|cont: ContinuationView| cont.frame);
    assert(sorted[i].frame.len() <= c.max_frame_bytes) by {
        broadcast use vstd::seq_lib::group_to_multiset_ensures;

        assert(sorted.contains(sorted[i]));
        assert(sorted.to_multiset().count(sorted[i]) > 0);
        assert(conts.contains(sorted[i]));
        let k = choose|k: int| 0 <= k < conts.len() && conts[k] == sorted[i];
        assert(conts[k].frame.len() <= c.max_frame_bytes);
    }
    lemma_padded_row_is_found(rows, conts.len() as int, c.max_frame_bytes as nat, 0u8, i);
}

/// Whether the rows and rings of a readback lie within their buffers.
fn is_in_bounds(config: &ResidentSyncConfig, back: &Readback) -> (fits: bool)
    ensures
        fits == readback_is_in_bounds(config@, *back),
{
    let stride: u128 = config.max_frame_bytes as u128;
    if config.max_continuations == 0 {
        return false;
    }
    let mut i: usize = 0;
    while i < back.continuations.len()
        invariant
            i <= back.continuations.len(),
            stride == config@.max_frame_bytes,
            forall|j: int|
                0 <= j < i ==> j * (stride as int) + (
                #[trigger] back.continuations@[j]).frame_len <= back.frames@.len(),
        decreases back.continuations.len() - i,
    {
        proof {
            assert(i * stride <= 0xffff_ffff_ffff_ffff * 0xffff_ffff) by (nonlinear_arith)
                requires
                    0 <= i <= 0xffff_ffff_ffff_ffff,
                    0 <= stride <= 0xffff_ffff,
            ;
            assert(0 <= i * stride) by (nonlinear_arith);
        }
        if i as u128 * stride + back.continuations[i].frame_len as u128 > back.frames.len() as u128 {
            assert(!readback_is_in_bounds(config@, *back)) by {
                assert(i * (stride as int) + back.continuations@[i as int].frame_len
                    > back.frames@.len());
            }
            return false;
        }
        i = i + 1;
    }
    let mut i: usize = 0;
    while i < config.objects.len()
        invariant
            i <= config.objects.len(),
            stride == config@.max_frame_bytes,
            config@.objects.len() == config.objects@.len(),
            forall|j: int| 0 <= j < config@.objects.len() ==> #[trigger] config@.objects[j]
                == config.objects@[j]@,
            forall|j: int|
                0 <= j < i ==> j * (stride as int) + (
                #[trigger] config@.objects[j]).bytes.len() <= back.object_bytes@.len(),
        decreases config.objects.len() - i,
    {
        proof {
            assert(i * stride <= 0xffff_ffff_ffff_ffff * 0xffff_ffff) by (nonlinear_arith)
                requires
                    0 <= i <= 0xffff_ffff_ffff_ffff,
                    0 <= stride <= 0xffff_ffff,
            ;
            assert(0 <= i * stride) by (nonlinear_arith);
            assert(config@.objects[i as int] == config.objects@[i as int]@);
        }
        let len: usize = config.objects[i].bytes.len();
        if i as u128 * stride + len as u128 > back.object_bytes.len() as u128 {
            assert(!readback_is_in_bounds(config@, *back)) by {
                assert(i * (stride as int) + config@.objects[i as int].bytes.len()
                    > back.object_bytes@.len());
            }
            return false;
        }
        i = i + 1;
    }
    let mut i: usize = 0;
    while i < back.mailboxes.len()
        invariant
            i <= back.mailboxes.len(),
            forall|j: int|
                0 <= j < i && (#[trigger] back.mailboxes@[j]).count > 0 ==> back.mailboxes@[j].head
                    + back.mailboxes@[j].count - 1 <= u32::MAX,
        decreases back.mailboxes.len() - i,
    {
        let mail: GpuMailbox = back.mailboxes[i];
        if mail.count > 0 && mail.head as u64 + mail.count as u64 - 1 > u32::MAX as u64 {
            assert(!readback_is_in_bounds(config@, *back)) by {
                assert(back.mailboxes@[i as int].count > 0);
            }
            return false;
        }
        i = i + 1;
    }
    let rings: usize = back.mailboxes.len();
    proof {
        let n = config.max_continuations as int;
        assert(rings * n <= 0xffff_ffff_ffff_ffff * 0xffff_ffff) by (nonlinear_arith)
            requires
                0 <= rings <= 0xffff_ffff_ffff_ffff,
                0 <= n <= 0xffff_ffff,
        ;
        assert(0 <= rings * n) by (nonlinear_arith)
            requires
                0 <= rings,
                0 <= n,
        ;
    }
    rings as u128 * config.max_continuations as u128 <= back.mailbox_entries.len() as u128
}

/// The place of invocation `i` among those of its epoch and run class that stand
/// next to each other: cohorts are cut from these.
pub open spec fn place_in_class(invocations: Seq<ResidentInvocationRecord>, i: int) -> int
    decreases i,
{
    if i > 0 && invocations[i - 1].epoch == invocations[i].epoch && invocations[i - 1].run_class
        == invocations[i].run_class {
        place_in_class(invocations, i - 1) + 1
    } else {
        0
    }
}

/// How many of the first `n` invocations thread `t` of a cohort evaluates.
pub open spec fn evaluated_by(
    invocations: Seq<ResidentInvocationRecord>,
    width: int,
    t: int,
    n: int,
) -> int
    decreases n,
{
    if n <= 0 {
        0
    } else {
        evaluated_by(invocations, width, t, n - 1) + if place_in_class(invocations, n - 1) % width
            == t {
            1int
        } else {
            0
        }
    }
}

/// How many lanes each thread of a cohort evaluates in a run: a cohort has lanes
/// of one run class, one to a thread.
pub fn evaluation_counts(invocations: &Vec<ResidentInvocationRecord>, cohort_width: u32) -> (counts:
    Vec<u32>)
    requires
        cohort_width > 0,
        invocations@.len() <= u32::MAX,
    ensures
        counts@.len() == cohort_width,
        forall|t: int|
            0 <= t < cohort_width ==> #[trigger] counts@[t] == evaluated_by(
                invocations@,
                cohort_width as int,
                t,
                invocations@.len() as int,
            ),
{
    let mut counts: Vec<u32> = vec![0u32; cohort_width as usize];
    let mut place: u32 = 0;
    let mut i: usize = 0;
    while i < invocations.len()
        invariant
            i <= invocations.len() <= u32::MAX,
            cohort_width > 0,
            counts@.len() == cohort_width,
            i > 0 ==> place == place_in_class(invocations@, i - 1),
            place <= i,
            forall|t: int|
                0 <= t < cohort_width ==> #[trigger] counts@[t] == evaluated_by(
                    invocations@,
                    cohort_width as int,
                    t,
                    i as int,
                ) && counts@[t] <= i,
        decreases invocations.len() - i,
    {
        if i > 0 && invocations[i - 1].epoch == invocations[i].epoch && invocations[i
            - 1].run_class == invocations[i].run_class {
            place = place + 1;
        } else {
            place = 0;
        }
        let t: usize = (place % cohort_width) as usize;
        let count: u32 = counts[t];
        assert(counts@[t as int] == count);
        counts.set(t, count + 1);
        i = i + 1;
    }
    counts
}

/// What the first `k` threads evaluate of the first `n` invocations.
pub open spec fn evaluated_by_all(
    invocations: Seq<ResidentInvocationRecord>,
    width: int,
    k: int,
    n: int,
) -> int
    decreases k,
{
    if k <= 0 {
        0
    } else {
        evaluated_by_all(invocations, width, k - 1, n) + evaluated_by(invocations, width, k - 1, n)
    }
}

proof fn lemma_one_thread(invocations: Seq<ResidentInvocationRecord>, width: int, k: int, n: int)
    requires
        width > 0,
        0 < n,
    ensures
        evaluated_by_all(invocations, width, k, n) == evaluated_by_all(
            invocations,
            width,
            k,
            n - 1,
        ) + if 0 <= place_in_class(invocations, n - 1) % width < k {
            1int
        } else {
            0
        },
    decreases k,
{
    if k > 0 {
        lemma_one_thread(invocations, width, k - 1, n);
    } else {
        assert(0 <= place_in_class(invocations, n - 1) % width) by (nonlinear_arith)
            requires
                width > 0,
        ;
    }
}

proof fn lemma_none_evaluated(invocations: Seq<ResidentInvocationRecord>, width: int, k: int)
    ensures
        evaluated_by_all(invocations, width, k, 0) == 0,
    decreases k,
{
    if k > 0 {
        lemma_none_evaluated(invocations, width, k - 1);
    }
}

/// The threads of a cohort together evaluate every invocation, and each once.
pub proof fn law_threads_evaluate_every_invocation(
    invocations: Seq<ResidentInvocationRecord>,
    width: int,
    n: int,
)
    requires
        width > 0,
        0 <= n <= invocations.len(),
    ensures
        evaluated_by_all(invocations, width, width, n) == n,
    decreases n,
{
    if n > 0 {
        law_threads_evaluate_every_invocation(invocations, width, n - 1);
        lemma_one_thread(invocations, width, width, n);
        assert(0 <= place_in_class(invocations, n - 1) % width < width) by (nonlinear_arith)
            requires
                width > 0,
        ;
    } else {
        lemma_none_evaluated(invocations, width, width);
    }
}

/// The host's side of the resident executive on one device.
#[derive(Clone, Copy, Debug)]
pub struct MetalResidentSync {
    pub limits: DeviceLimits,
}

impl MetalResidentSync {
    pub fn new(limits: DeviceLimits) -> (executive: Self)
        ensures
            executive.limits == limits,
    {
        MetalResidentSync { limits }
    }

    /// What a run is on this device, before it is committed.
    pub fn plan(
        &self,
        config: &ResidentSyncConfig,
        continuations: &Vec<ResidentContinuation>,
        programs: &BTreeMap<u32, ResidentHandlerProgram>,
    ) -> (plan: Result<ResidentPlan, BackendError>)
        ensures
            plan is Ok <==> device_accepts(
                config@,
                config.cohort_width,
                resident_sync::continuation_views(continuations@),
                resident_types::handlers_view(programs@),
                self.limits,
            ),
            plan matches Ok(p) ==> p@ == laid_out(
                config@,
                resident_sync::continuation_views(continuations@),
                resident_types::handlers_view(programs@),
            ),
            plan matches Err(error) ==> error == BackendError::InvalidInput,
    {
        prepare(config, continuations, programs, self.limits)
    }

    /// What a run comes to once the device has finished. A readback that reports
    /// an error, does not lie within its buffers, or holds a record that cannot
    /// be read is a failed execution.
    pub fn finish(
        &self,
        plan: &ResidentPlan,
        config: &ResidentSyncConfig,
        specs: &Vec<ResidentContinuation>,
        back: Readback,
    ) -> (result: Result<ResidentSyncResult, BackendError>)
        ensures
            result is Ok <==> status_is_sound(plan@, back.status) && readback_is_in_bounds(
                config@,
                back,
            ) && forall|k: int|
                0 <= k < back.effects@.len() ==> #[trigger] record_is_sound(
                    resident_sync::continuation_views(specs@),
                    back.effects@,
                    back.trace@,
                    k,
                ),
            result matches Ok(r) ==> r@ == decoded(
                config@,
                resident_sync::continuation_views(specs@),
                back,
            ),
            result matches Err(error) ==> error == BackendError::ExecutionFailed,
    {
        match accept_status(plan, &back.status) {
            Ok(_) => {},
            Err(error) => {
                return Err(error);
            },
        }
        if !is_in_bounds(config, &back) {
            return Err(BackendError::ExecutionFailed);
        }
        decode(config, specs, back)
    }
}

} // verus!
