//! Fixed-width records shared with the device: lane accesses, operation
//! records and the byte arena that carries their payloads.

use vstd::prelude::*;

verus! {

pub const DEVICE_ACCESS_READ: u32 = 1;

pub const DEVICE_ACCESS_WRITE: u32 = 2;

pub const OP_OBSERVE_FUTURE: u32 = 1;

pub const OP_READ_OBJECT: u32 = 2;

pub const OP_WRITE_OBJECT: u32 = 7;

pub const OP_ENQUEUE_MESSAGE: u32 = 8;

pub const OP_RECEIVE_MESSAGE: u32 = 9;

pub const OP_RESOLVE_FUTURE: u32 = 10;

pub const OP_AWAIT_FUTURE: u32 = 11;

/// One resource that a lane touched, in the order in which it touched it.
#[derive(Clone, Copy, Debug, Default, PartialEq, Eq, Structural)]
pub struct DeviceLaneAccess {
    pub resource: u64,
    pub lane: u32,
    pub resource_kind: u32,
    pub mode: u32,
    pub ordinal: u32,
}

impl DeviceLaneAccess {
    pub fn new(lane: u32, resource_kind: u32, resource: u64, mode: u32, ordinal: u32) -> (access:
        DeviceLaneAccess)
        ensures
            access == (DeviceLaneAccess { resource, lane, resource_kind, mode, ordinal }),
    {
        DeviceLaneAccess { resource, lane, resource_kind, mode, ordinal }
    }
}

/// One operation that a lane performed, with what it returned.
#[derive(Clone, Copy, Debug, Default, PartialEq, Eq, Structural)]
pub struct DeviceLaneOperation {
    pub lane: u32,
    pub ordinal: u32,
    pub opcode: u32,
    pub flags: u32,
    pub actor: u64,
    pub target: u64,
    pub value: u64,
    pub auxiliary: u64,
    pub result_ref: u64,
    pub payload_offset: u32,
    pub payload_len: u32,
    pub result_code: u32,
    pub result_aux: u32,
}

/// What a [`DeviceOperationJournal`] holds.
#[verifier::ext_equal]
pub struct JournalView {
    pub operations: Seq<DeviceLaneOperation>,
    pub payload: Seq<u8>,
}

/// The operations of one lane and the arena of their payload bytes.
#[derive(Clone, Debug, Default, PartialEq, Eq)]
pub struct DeviceOperationJournal {
    pub operations: Vec<DeviceLaneOperation>,
    pub payload: Vec<u8>,
}

impl View for DeviceOperationJournal {
    type V = JournalView;

    open spec fn view(&self) -> JournalView {
        JournalView { operations: self.operations@, payload: self.payload@ }
    }
}

impl DeviceOperationJournal {
    /// A journal without operations and payload.
    pub fn new() -> (journal: DeviceOperationJournal)
        ensures
            journal@ == (JournalView { operations: Seq::empty(), payload: Seq::empty() }),
    {
        let journal = DeviceOperationJournal { operations: Vec::new(), payload: Vec::new() };
        assert(journal@ =~= (JournalView { operations: Seq::empty(), payload: Seq::empty() }));
        journal
    }

    /// Appends `bytes` to the arena and returns their offset and length, or
    /// `None`, with the arena unchanged, where the arena would outgrow 32 bits.
    pub fn append_payload(&mut self, bytes: &[u8]) -> (range: Option<(u32, u32)>)
        ensures
            final(self).operations == old(self).operations,
            range is Some <==> old(self).payload@.len() + bytes@.len() <= u32::MAX,
            range is Some ==> {
                &&& range == Some((old(self).payload@.len() as u32, bytes@.len() as u32))
                &&& final(self).payload@ =~= old(self).payload@ + bytes@
            },
            range is None ==> final(self).payload == old(self).payload,
    {
        let offset: usize = self.payload.len();
        let len: usize = bytes.len();
        if offset > u32::MAX as usize || len > u32::MAX as usize - offset {
            return None;
        }
        let ghost start = self.payload@;
        let mut i: usize = 0;
        while i < len
            invariant
                i <= len,
                len == bytes@.len(),
                self.operations == old(self).operations,
                self.payload@ =~= start + bytes@.take(i as int),
            decreases len - i,
        {
            self.payload.push(bytes[i]);
            assert(bytes@.take(i + 1) =~= bytes@.take(i as int).push(bytes@[i as int]));
            i = i + 1;
        }
        assert(bytes@.take(len as int) =~= bytes@);
        Some((offset as u32, len as u32))
    }
}

} // verus!
