//! The resident synchronization boundary: what a run is given, and the records
//! that it leaves.

use crate::device::{DeviceLaneAccess, DeviceOperationJournal, JournalView};
use crate::executives::resident_program::{
    ResidentEffect, ResidentHandlerProgram, ResidentInstruction, ResidentOutcome,
};
use std::collections::BTreeMap;
use vstd::prelude::*;

verus! {

pub const RESOURCE_OBJECT: u32 = 1;

pub const RESOURCE_FUTURE: u32 = 2;

pub const RESOURCE_MAILBOX: u32 = 3;

pub const RIGHT_READ: u32 = 1;

pub const RIGHT_WRITE: u32 = 2;

/// Hard plan bounds, checked before anything is copied or allocated.
pub const MAX_RESIDENT_OBJECTS: usize = 4_096;

pub const MAX_RESIDENT_OBJECT_CAPABILITIES: usize = 16_384;

pub const MAX_RESIDENT_OBJECT_ARENA_BYTES: usize = 16_777_216;

#[derive(Clone, Debug, PartialEq, Eq)]
pub struct ResidentContinuation {
    pub id: u64,
    pub actor: u64,
    pub run_class: u32,
    /// Whether this continuation claims mutable access to its actor process.
    pub mutable_access: bool,
    /// Absolute epoch used by deterministic longest-waiting admission.
    pub waiting_since: u32,
    pub frame: Vec<u8>,
}

/// What a [`ResidentContinuation`] holds.
#[verifier::ext_equal]
pub struct ContinuationView {
    pub id: u64,
    pub actor: u64,
    pub run_class: u32,
    pub mutable_access: bool,
    pub waiting_since: u32,
    pub frame: Seq<u8>,
}

impl View for ResidentContinuation {
    type V = ContinuationView;

    open spec fn view(&self) -> ContinuationView {
        ContinuationView {
            id: self.id,
            actor: self.actor,
            run_class: self.run_class,
            mutable_access: self.mutable_access,
            waiting_since: self.waiting_since,
            frame: self.frame@,
        }
    }
}

#[derive(Clone, Copy, Debug, PartialEq, Eq, Structural)]
pub struct ResidentCapability {
    pub actor: u64,
    pub resource_kind: u32,
    pub target: u32,
    pub rights: u32,
}

#[derive(Clone, Copy, Debug, PartialEq, Eq, Structural)]
pub enum InitialFuture {
    Pending,
    Resolved(u64),
}

#[derive(Clone, Debug, PartialEq, Eq)]
pub struct ResidentObject {
    pub version: u32,
    pub bytes: Vec<u8>,
}

/// What a [`ResidentObject`] holds.
#[verifier::ext_equal]
pub struct ObjectView {
    pub version: u32,
    pub bytes: Seq<u8>,
}

impl View for ResidentObject {
    type V = ObjectView;

    open spec fn view(&self) -> ObjectView {
        ObjectView { version: self.version, bytes: self.bytes@ }
    }
}

#[derive(Clone, Copy, Debug, PartialEq, Eq, Structural)]
pub struct ResidentObjectCapability {
    pub actor: u64,
    pub target: u32,
    pub offset: u64,
    pub length: u64,
    pub rights: u32,
    pub object_version: u32,
    pub valid_until_epoch: u32,
}

#[derive(Clone, Debug, PartialEq, Eq)]
pub struct ResidentSyncConfig {
    pub max_epochs: u32,
    pub max_effects_per_step: u32,
    /// Fixed frame-stride bound.
    pub max_frame_bytes: u32,
    /// Bounds all continuation, waiter, and wake tables.
    pub max_continuations: u32,
    pub cohort_width: u32,
    pub initial_epoch: u32,
    pub objects: Vec<ResidentObject>,
    pub object_capabilities: Vec<ResidentObjectCapability>,
    pub futures: Vec<InitialFuture>,
    pub mailbox_capacities: Vec<u32>,
    /// Canonical FIFO `(sender, value)` entries present at the resident boundary.
    /// The outer vector is exactly parallel to `mailbox_capacities`.
    pub mailbox_messages: Vec<Vec<(u64, u64)>>,
    pub capabilities: Vec<ResidentCapability>,
}

/// What a run reads of a [`ResidentSyncConfig`]: all of it but the cohort
/// width, which only packs lanes.
#[verifier::ext_equal]
pub struct ConfigView {
    pub max_epochs: u32,
    pub max_effects_per_step: u32,
    pub max_frame_bytes: u32,
    pub max_continuations: u32,
    pub initial_epoch: u32,
    pub objects: Seq<ObjectView>,
    pub object_capabilities: Seq<ResidentObjectCapability>,
    pub futures: Seq<InitialFuture>,
    pub mailbox_capacities: Seq<u32>,
    pub mailbox_messages: Seq<Seq<(u64, u64)>>,
    pub capabilities: Seq<ResidentCapability>,
}

impl View for ResidentSyncConfig {
    type V = ConfigView;

    open spec fn view(&self) -> ConfigView {
        ConfigView {
            max_epochs: self.max_epochs,
            max_effects_per_step: self.max_effects_per_step,
            max_frame_bytes: self.max_frame_bytes,
            max_continuations: self.max_continuations,
            initial_epoch: self.initial_epoch,
            objects: self.objects@.map_values(|o: ResidentObject| o@),
            object_capabilities: self.object_capabilities@,
            futures: self.futures@,
            mailbox_capacities: self.mailbox_capacities@,
            mailbox_messages: self.mailbox_messages@.map_values(|m: Vec<(u64, u64)>| m@),
            capabilities: self.capabilities@,
        }
    }
}

#[derive(Clone, Copy, Debug, Default, PartialEq, Eq, Structural)]
pub struct ResidentSyncTrace {
    pub epoch: u32,
    pub lane: u32,
    pub continuation: u64,
    pub run_class: u32,
    pub event: u32,
    pub word: u32,
}

#[derive(Clone, Copy, Debug, PartialEq, Eq, Structural)]
pub struct ResidentEffectRecord {
    pub epoch: u32,
    pub lane: u32,
    pub ordinal: u32,
    pub continuation: u64,
    pub effect: ResidentEffect,
    pub outcome: ResidentOutcome,
}

#[derive(Clone, Copy, Debug, Default, PartialEq, Eq)]
pub struct ResidentFinalContinuation {
    pub id: u64,
    pub run_class: u32,
    pub completed: bool,
    pub pending: Option<ResidentEffect>,
    /// Monotonic registration ticket used to reconstruct mailbox FIFO waiters.
    pub waiter_order: u32,
}

#[derive(Clone, Copy, Debug, Default, PartialEq, Eq, Structural)]
pub struct ResidentInvocationRecord {
    pub epoch: u32,
    pub lane: u32,
    pub continuation: u64,
    pub run_class: u32,
    /// 1 = Yield, 2 = Complete, 3 = Parked.
    pub disposition: u32,
    pub next_run_class: u32,
}

#[derive(Clone, Copy, Debug, Default, PartialEq, Eq, Structural)]
pub struct ResidentWakeRecord {
    pub epoch: u32,
    pub lane: u32,
    pub cause_opcode: u32,
    pub target: u32,
    pub cause_continuation: u64,
    pub continuation: u64,
    pub run_class: u32,
    pub ticket: u32,
    pub ordinal: u32,
    pub reserved: u32,
}

#[derive(Clone, Copy, Debug, Default, PartialEq, Eq, Structural)]
pub struct ResidentEpochRecord {
    pub epoch: u32,
    pub invocations: u32,
    pub runnable_after: u32,
    pub completed_after: u32,
}

#[derive(Clone, Debug, Default, PartialEq, Eq)]
pub struct ResidentSyncResult {
    pub frames: BTreeMap<u64, Vec<u8>>,
    pub effects: Vec<ResidentEffectRecord>,
    pub accesses: Vec<DeviceLaneAccess>,
    pub operations: Vec<DeviceOperationJournal>,
    pub trace: Vec<ResidentSyncTrace>,
    pub epochs: u32,
    pub quiescent: bool,
    pub completed: Vec<u64>,
    pub object_values: Vec<Vec<u8>>,
    pub future_values: Vec<Option<u64>>,
    pub mailboxes: Vec<Vec<(u64, u64)>>,
    pub final_continuations: Vec<ResidentFinalContinuation>,
    pub invocations: Vec<ResidentInvocationRecord>,
    pub wakes: Vec<ResidentWakeRecord>,
    pub epoch_records: Vec<ResidentEpochRecord>,
}

/// What a [`ResidentSyncResult`] holds.
#[verifier::ext_equal]
pub struct ResultView {
    pub frames: Map<u64, Seq<u8>>,
    pub effects: Seq<ResidentEffectRecord>,
    pub accesses: Seq<DeviceLaneAccess>,
    pub operations: Seq<JournalView>,
    pub trace: Seq<ResidentSyncTrace>,
    pub epochs: u32,
    pub quiescent: bool,
    pub completed: Seq<u64>,
    pub object_values: Seq<Seq<u8>>,
    pub future_values: Seq<Option<u64>>,
    pub mailboxes: Seq<Seq<(u64, u64)>>,
    pub final_continuations: Seq<ResidentFinalContinuation>,
    pub invocations: Seq<ResidentInvocationRecord>,
    pub wakes: Seq<ResidentWakeRecord>,
    pub epoch_records: Seq<ResidentEpochRecord>,
}

impl View for ResidentSyncResult {
    type V = ResultView;

    open spec fn view(&self) -> ResultView {
        ResultView {
            frames: self.frames@.map_values(|f: Vec<u8>| f@),
            effects: self.effects@,
            accesses: self.accesses@,
            operations: self.operations@.map_values(|j: DeviceOperationJournal| j@),
            trace: self.trace@,
            epochs: self.epochs,
            quiescent: self.quiescent,
            completed: self.completed@,
            object_values: self.object_values@.map_values(|o: Vec<u8>| o@),
            future_values: self.future_values@,
            mailboxes: self.mailboxes@.map_values(|m: Vec<(u64, u64)>| m@),
            final_continuations: self.final_continuations@,
            invocations: self.invocations@,
            wakes: self.wakes@,
            epoch_records: self.epoch_records@,
        }
    }
}

/// What a [`ResidentHandlerProgram`] holds.
#[verifier::ext_equal]
pub struct ProgramView {
    pub run_class: u32,
    pub instructions: Seq<ResidentInstruction>,
}

/// What a table of installed handlers holds.
pub open spec fn handlers_view(handlers: Map<u32, ResidentHandlerProgram>) -> Map<
    u32,
    ProgramView,
> {
    handlers.map_values(
        |p: ResidentHandlerProgram|
            ProgramView { run_class: p.run_class, instructions: p.instructions@ },
    )
}

} // verus!
