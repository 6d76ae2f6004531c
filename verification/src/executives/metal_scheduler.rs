//! The host side of scheduling, journal validation and frame evaluation on a
//! Metal device.
//!
//! The device ranks, validates and evaluates; it is outside this library. What
//! it is handed, and what its answers come to, is decided here.

use crate::compiler::body::{EvaluatorProgram, Op};
use crate::device::{DeviceLaneAccess, DeviceLaneOperation, DeviceOperationJournal, JournalView};
use crate::executives::batch::BackendError;
pub use crate::executives::metal_search::{
    MetalResidentSearch, ResidentFrameBinding, ResidentFrameGraphConfig, ResidentFrameGraphResult,
    ResidentFrameTraceEvent, ResidentSearchConfig, ResidentSearchResult, ResidentTraceEvent,
};
pub use crate::scheduler::PartialCohortPolicy;
use std::collections::BTreeMap;
use vstd::prelude::*;

verus! {

/// The widest cohort that a device runs.
pub const MAX_COHORT_WIDTH: u32 = 64;

/// The first run class that a frame evaluator may be installed for.
pub const FIRST_FRAME_CLASS: u32 = 1024;

/// From this many mutable candidates on, admission sorts them first.
pub const SORTED_ADMISSION: usize = 128;

#[derive(Clone, Copy, Debug, PartialEq, Eq, Structural)]
pub enum LaneValidationError {
    InvalidInput,
    Unavailable,
    ExecutionFailed,
    ProtocolError,
}

pub open spec fn as_validation_error(error: BackendError) -> LaneValidationError {
    match error {
        BackendError::InvalidInput => LaneValidationError::InvalidInput,
        BackendError::Unavailable => LaneValidationError::Unavailable,
        _ => LaneValidationError::ExecutionFailed,
    }
}

pub fn lane_validation_error(error: BackendError) -> (e: LaneValidationError)
    ensures
        e == as_validation_error(error),
{
    match error {
        BackendError::InvalidInput => LaneValidationError::InvalidInput,
        BackendError::Unavailable => LaneValidationError::Unavailable,
        _ => LaneValidationError::ExecutionFailed,
    }
}

/// The policy as the device reads it.
pub open spec fn code_of(policy: PartialCohortPolicy) -> u32 {
    match policy {
        PartialCohortPolicy::Defer => 0u32,
        PartialCohortPolicy::SendToCpu => 1,
        PartialCohortPolicy::RunPartial => 2,
        PartialCohortPolicy::MergeWithGenericClass => 3,
    }
}

pub fn policy_code(policy: PartialCohortPolicy) -> (code: u32)
    ensures
        code == code_of(policy),
{
    match policy {
        PartialCohortPolicy::Defer => 0,
        PartialCohortPolicy::SendToCpu => 1,
        PartialCohortPolicy::RunPartial => 2,
        PartialCohortPolicy::MergeWithGenericClass => 3,
    }
}

// ---- powers of two ---------------------------------------------------------

/// The least doubling of `p` that reaches `n`.
pub open spec fn doubled_to(n: int, p: int) -> int
    decreases
            if p < n {
                n - p
            } else {
                0
            },
{
    if p >= n || p <= 0 {
        p
    } else {
        doubled_to(n, 2 * p)
    }
}

/// The least power of two that is at least `n`, and at least one.
pub open spec fn power_at_least(n: int) -> int {
    doubled_to(n, 1)
}

pub proof fn lemma_doubled(n: int, p: int)
    requires
        0 < p,
    ensures
        doubled_to(n, p) >= n,
        doubled_to(n, p) >= p,
        p < n ==> doubled_to(n, p) < 2 * n,
    decreases
            if p < n {
                n - p
            } else {
                0
            },
{
    if p < n {
        lemma_doubled(n, 2 * p);
    }
}

/// How large a buffer for `n` items is made.
pub fn capacity_for(n: usize) -> (capacity: usize)
    requires
        n <= usize::MAX / 2,
    ensures
        capacity == power_at_least(n as int),
        capacity >= n,
        capacity >= 1,
{
    let mut p: usize = 1;
    while p < n
        invariant
            p >= 1,
            n <= usize::MAX / 2,
            p < 2 * n || p == 1,
            power_at_least(n as int) == doubled_to(n as int, p as int),
        decreases
                if p < n {
                    n - p
                } else {
                    0
                },
    {
        p = 2 * p;
    }
    p
}

// ---- the scheduler ---------------------------------------------------------

/// A frame evaluator as it was installed: the length of a frame, and whether
/// lanes may share one dispatch.
#[derive(Clone, Copy, Debug, PartialEq, Eq, Structural)]
pub struct FrameEvaluator {
    pub stride: u32,
    pub batchable: bool,
}

/// The host's record of a device scheduler: how large its resident buffers
/// are, and the frame evaluators it has pipelines for.
pub struct MetalDeviceScheduler {
    pub resident: Option<usize>,
    pub journal_resident: Option<(usize, usize)>,
    pub operation_resident: Option<(usize, usize)>,
    pub handlers: BTreeMap<u32, FrameEvaluator>,
}

/// An operation that reads its element's place in the array, or another
/// element.
pub open spec fn depends_on_place(op: Op) -> bool {
    match op {
        Op::Index | Op::Gather(_, _) | Op::GatherAux(_, _) => true,
        _ => false,
    }
}

pub open spec fn gathers(op: Op) -> bool {
    match op {
        Op::Gather(_, _) | Op::GatherAux(_, _) => true,
        _ => false,
    }
}

pub open spec fn any_depends_on_place(ops: Seq<Op>) -> bool {
    exists|i: int| 0 <= i < ops.len() && depends_on_place(#[trigger] ops[i])
}

pub open spec fn any_gathers(ops: Seq<Op>) -> bool {
    exists|i: int| 0 <= i < ops.len() && gathers(#[trigger] ops[i])
}

pub(crate) fn reads_place(ops: &Vec<Op>, index_too: bool) -> (any: bool)
    ensures
        any == if index_too {
            any_depends_on_place(ops@)
        } else {
            any_gathers(ops@)
        },
{
    let mut i: usize = 0;
    while i < ops.len()
        invariant
            i <= ops.len(),
            forall|j: int|
                0 <= j < i ==> !gathers(#[trigger] ops@[j]) && (index_too ==> !depends_on_place(
                    ops@[j],
                )),
        decreases ops.len() - i,
    {
        match ops[i] {
            Op::Gather(_, _) | Op::GatherAux(_, _) => {
                assert(gathers(ops@[i as int]));
                assert(depends_on_place(ops@[i as int]));
                return true;
            },
            Op::Index => {
                if index_too {
                    assert(depends_on_place(ops@[i as int]));
                    return true;
                }
            },
            _ => {},
        }
        i = i + 1;
    }
    false
}

/// A buffer pair of given capacities has no room for this many items.
pub open spec fn is_short(resident: Option<(usize, usize)>, first: usize, second: usize) -> bool {
    match resident {
        None => true,
        Some((a, b)) => a < first || b < second,
    }
}

impl MetalDeviceScheduler {
    pub fn new() -> (scheduler: Self)
        ensures
            scheduler.resident is None,
            scheduler.journal_resident is None,
            scheduler.operation_resident is None,
            scheduler.handlers@ == Map::<u32, FrameEvaluator>::empty(),
    {
        MetalDeviceScheduler {
            resident: None,
            journal_resident: None,
            operation_resident: None,
            handlers: BTreeMap::new(),
        }
    }

    pub fn resident_capacity(&self) -> (capacity: usize)
        ensures
            capacity == match self.resident {
                Some(capacity) => capacity,
                None => 0,
            },
    {
        match self.resident {
            Some(capacity) => capacity,
            None => 0,
        }
    }

    pub fn journal_resident_capacity(&self) -> (capacities: (usize, usize))
        ensures
            capacities == match self.journal_resident {
                Some(capacities) => capacities,
                None => (0usize, 0usize),
            },
    {
        match self.journal_resident {
            Some(capacities) => capacities,
            None => (0, 0),
        }
    }

    /// Records a frame evaluator that the device has compiled. Low run classes
    /// are the runtime's own, a frame must have bytes, and a frame has no second
    /// array to gather from.
    pub fn install_frame_evaluator(&mut self, run_class: u32, program: &EvaluatorProgram) -> (result:
        Result<(), BackendError>)
        requires
            program.well_formed(),
        ensures
            ({
                let refused = run_class < 1024 || program@.aux is Some || program@.stride() == 0;
                &&& result == if refused {
                    Err::<(), _>(BackendError::InvalidInput)
                } else {
                    Ok(())
                }
                &&& final(self).handlers@ == if refused {
                    old(self).handlers@
                } else {
                    old(self).handlers@.insert(
                        run_class,
                        FrameEvaluator {
                            stride: program@.stride() as u32,
                            batchable: !any_depends_on_place(program@.ops),
                        },
                    )
                }
            }),
            final(self).resident == old(self).resident,
            final(self).journal_resident == old(self).journal_resident,
            final(self).operation_resident == old(self).operation_resident,
    {
        if run_class < FIRST_FRAME_CLASS || program.binds_aux() || program.stride() == 0 {
            return Err(BackendError::InvalidInput);
        }
        let batchable: bool = !reads_place(&program.ops, true);
        self.handlers.insert(run_class, FrameEvaluator { stride: program.stride(), batchable });
        Ok(())
    }

    /// Room for `count` candidates: buffers that are too small are replaced by
    /// ones of the next power of two. Hands back the new capacity, if any.
    pub fn buffers(&mut self, count: usize) -> (grown: Option<usize>)
        requires
            count <= usize::MAX / 2,
        ensures
            grown == if old(self).resident matches Some(capacity) && capacity >= count {
                None
            } else {
                Some(power_at_least(count as int) as usize)
            },
            final(self).resident == if grown is Some {
                grown
            } else {
                old(self).resident
            },
            final(self).journal_resident == old(self).journal_resident,
            final(self).operation_resident == old(self).operation_resident,
            final(self).handlers == old(self).handlers,
    {
        if let Some(capacity) = self.resident {
            if capacity >= count {
                return None;
            }
        }
        let capacity: usize = capacity_for(count);
        self.resident = Some(capacity);
        Some(capacity)
    }

    pub fn journal_buffers(&mut self, accesses: usize, lanes: usize) -> (grown: Option<
        (usize, usize),
    >)
        requires
            accesses <= usize::MAX / 2,
            lanes <= usize::MAX / 2,
        ensures
            grown == if is_short(old(self).journal_resident, accesses, lanes) {
                Some(
                    (
                        power_at_least(accesses as int) as usize,
                        power_at_least(lanes as int) as usize,
                    ),
                )
            } else {
                None
            },
            final(self).journal_resident == if grown is Some {
                grown
            } else {
                old(self).journal_resident
            },
            final(self).resident == old(self).resident,
            final(self).operation_resident == old(self).operation_resident,
            final(self).handlers == old(self).handlers,
    {
        if let Some((a, b)) = self.journal_resident {
            if a >= accesses && b >= lanes {
                return None;
            }
        }
        let grown = (capacity_for(accesses), capacity_for(lanes));
        self.journal_resident = Some(grown);
        Some(grown)
    }

    pub fn operation_buffers(&mut self, operations: usize, slices: usize) -> (grown: Option<
        (usize, usize),
    >)
        requires
            operations <= usize::MAX / 2,
            slices <= usize::MAX / 2,
        ensures
            grown == if is_short(old(self).operation_resident, operations, slices) {
                Some(
                    (
                        power_at_least(operations as int) as usize,
                        power_at_least(slices as int) as usize,
                    ),
                )
            } else {
                None
            },
            final(self).operation_resident == if grown is Some {
                grown
            } else {
                old(self).operation_resident
            },
            final(self).resident == old(self).resident,
            final(self).journal_resident == old(self).journal_resident,
            final(self).handlers == old(self).handlers,
    {
        if let Some((a, b)) = self.operation_resident {
            if a >= operations && b >= slices {
                return None;
            }
        }
        let grown = (capacity_for(operations), capacity_for(slices));
        self.operation_resident = Some(grown);
        Some(grown)
    }
}

// ---- lane journals ---------------------------------------------------------

/// A run of accesses to one resource.
#[derive(Clone, Copy, Debug, PartialEq, Eq, Structural)]
pub struct DeviceResourceGroup {
    pub offset: u32,
    pub count: u32,
}

pub open spec fn same_resource(a: DeviceLaneAccess, b: DeviceLaneAccess) -> bool {
    a.resource_kind == b.resource_kind && a.resource == b.resource
}

/// Accesses are ordered by resource, and those of one resource by lane.
pub open spec fn comes_first(a: DeviceLaneAccess, b: DeviceLaneAccess) -> bool {
    if a.resource_kind != b.resource_kind {
        a.resource_kind < b.resource_kind
    } else if a.resource != b.resource {
        a.resource < b.resource
    } else {
        a.lane <= b.lane
    }
}

pub open spec fn in_order(accesses: Seq<DeviceLaneAccess>) -> bool {
    forall|i: int, j: int|
        0 <= i < j < accesses.len() ==> comes_first(#[trigger] accesses[i], #[trigger] accesses[j])
}

/// Group `g` is a maximal run of accesses to one resource that starts where
/// the one before it ends.
pub open spec fn is_group(
    groups: Seq<DeviceResourceGroup>,
    accesses: Seq<DeviceLaneAccess>,
    g: int,
) -> bool {
    let start = groups[g].offset as int;
    let end = groups[g].offset + groups[g].count;
    &&& start < end <= accesses.len()
    &&& start == if g == 0 {
        0
    } else {
        groups[g - 1].offset + groups[g - 1].count
    }
    &&& forall|i: int|
        start <= i < end ==> same_resource(#[trigger] accesses[i], accesses[start])
    &&& end < accesses.len() ==> !same_resource(accesses[end], accesses[start])
}

/// `groups` are the runs of accesses to one resource, in order, up to `end`.
pub open spec fn are_groups(
    groups: Seq<DeviceResourceGroup>,
    accesses: Seq<DeviceLaneAccess>,
    end: int,
) -> bool {
    &&& forall|g: int| 0 <= g < groups.len() ==> #[trigger] is_group(groups, accesses, g)
    &&& end == if groups.len() == 0 {
        0
    } else {
        groups.last().offset + groups.last().count
    }
}

/// What the device is handed to validate lane journals.
#[derive(Debug)]
pub struct JournalPlan {
    pub sorted: Vec<DeviceLaneAccess>,
    pub groups: Vec<DeviceResourceGroup>,
}

/// Some access names a lane that is not there.
pub open spec fn names_missing_lane(accesses: Seq<DeviceLaneAccess>, lanes: u32) -> bool {
    exists|i: int| 0 <= i < accesses.len() && (#[trigger] accesses[i]).lane >= lanes
}

fn goes_before(a: &DeviceLaneAccess, b: &DeviceLaneAccess) -> (first: bool)
    ensures
        first == comes_first(*a, *b),
{
    if a.resource_kind != b.resource_kind {
        a.resource_kind < b.resource_kind
    } else if a.resource != b.resource {
        a.resource < b.resource
    } else {
        a.lane <= b.lane
    }
}

fn sort_accesses(accesses: &Vec<DeviceLaneAccess>) -> (sorted: Vec<DeviceLaneAccess>)
    ensures
        in_order(sorted@),
        sorted@.to_multiset() == accesses@.to_multiset(),
        sorted@.len() == accesses@.len(),
{
    let mut sorted: Vec<DeviceLaneAccess> = Vec::new();
    let mut i: usize = 0;
    assert(accesses@.take(0) =~= sorted@);
    while i < accesses.len()
        invariant
            i <= accesses.len(),
            sorted@.len() == i,
            in_order(sorted@),
            sorted@.to_multiset() == accesses@.take(i as int).to_multiset(),
        decreases accesses.len() - i,
    {
        let access: DeviceLaneAccess = accesses[i];
        let ghost before = sorted@;
        let mut at: usize = sorted.len();
        while at > 0 && !goes_before(&sorted[at - 1], &access)
            invariant
                at <= sorted@.len(),
                sorted@ == before,
                in_order(before),
                forall|j: int| at <= j < before.len() ==> comes_first(access, #[trigger] before[j]),
            decreases at,
        {
            at = at - 1;
        }
        proof {
            assert forall|j: int| 0 <= j < at implies comes_first(#[trigger] before[j], access) by {
                if j < at - 1 {
                    assert(comes_first(before[j], before[at - 1]));
                }
            }
        }
        sorted.insert(at, access);
        proof {
            vstd::seq_lib::to_multiset_insert(before, at as int, access);
            assert(accesses@.take(i + 1) =~= accesses@.take(i as int).push(access));
            vstd::seq_lib::to_multiset_build(accesses@.take(i as int), access);
            assert(sorted@ =~= before.insert(at as int, access));
            assert forall|a: int, b: int| 0 <= a < b < sorted@.len() implies comes_first(
                #[trigger] sorted@[a],
                #[trigger] sorted@[b],
            ) by {
                let x = if a < at {
                    before[a]
                } else if a == at {
                    access
                } else {
                    before[a - 1]
                };
                let y = if b < at {
                    before[b]
                } else if b == at {
                    access
                } else {
                    before[b - 1]
                };
                assert(sorted@[a] == x && sorted@[b] == y);
            }
        }
        i = i + 1;
    }
    assert(accesses@.take(i as int) =~= accesses@);
    sorted
}

fn group_accesses(sorted: &Vec<DeviceLaneAccess>) -> (groups: Vec<DeviceResourceGroup>)
    requires
        sorted@.len() <= u32::MAX,
    ensures
        are_groups(groups@, sorted@, sorted@.len() as int),
{
    let mut groups: Vec<DeviceResourceGroup> = Vec::new();
    let mut start: usize = 0;
    while start < sorted.len()
        invariant
            start <= sorted.len() <= u32::MAX,
            are_groups(groups@, sorted@, start as int),
        decreases sorted.len() - start,
    {
        let mut end: usize = start + 1;
        while end < sorted.len() && sorted[end].resource_kind == sorted[start].resource_kind
            && sorted[end].resource == sorted[start].resource
            invariant
                start < end <= sorted.len(),
                forall|i: int|
                    start <= i < end ==> same_resource(
                        #[trigger] sorted@[i],
                        sorted@[start as int],
                    ),
            decreases sorted.len() - end,
        {
            end = end + 1;
        }
        let ghost before = groups@;
        groups.push(DeviceResourceGroup { offset: start as u32, count: (end - start) as u32 });
        proof {
            assert forall|g: int| 0 <= g < groups@.len() implies #[trigger] is_group(
                groups@,
                sorted@,
                g,
            ) by {
                if g < before.len() {
                    assert(is_group(before, sorted@, g));
                    assert(groups@[g] == before[g]);
                    if g > 0 {
                        assert(groups@[g - 1] == before[g - 1]);
                    }
                } else if g > 0 {
                    assert(groups@[g - 1] == before.last());
                }
            }
        }
        start = end;
    }
    groups
}

/// What the device is handed to find conflicts between lanes: the accesses by
/// resource and lane, and where each resource's run starts. Nothing is handed
/// over where there are no lanes.
pub fn plan_lane_journals(accesses: &Vec<DeviceLaneAccess>, lane_count: u32) -> (plan: Result<
    Option<JournalPlan>,
    BackendError,
>)
    ensures
        match plan {
            Err(error) => {
                &&& error == BackendError::InvalidInput
                &&& accesses@.len() > u32::MAX || names_missing_lane(accesses@, lane_count)
            },
            Ok(plan) => {
                &&& accesses@.len() <= u32::MAX
                &&& !names_missing_lane(accesses@, lane_count)
                &&& plan is None <==> lane_count == 0
                &&& plan matches Some(plan) ==> {
                    &&& in_order(plan.sorted@)
                    &&& plan.sorted@.to_multiset() == accesses@.to_multiset()
                    &&& are_groups(plan.groups@, plan.sorted@, plan.sorted@.len() as int)
                }
            },
        },
{
    if accesses.len() > u32::MAX as usize {
        return Err(BackendError::InvalidInput);
    }
    let mut i: usize = 0;
    while i < accesses.len()
        invariant
            i <= accesses.len(),
            forall|j: int| 0 <= j < i ==> (#[trigger] accesses@[j]).lane < lane_count,
        decreases accesses.len() - i,
    {
        if accesses[i].lane >= lane_count {
            assert(accesses@[i as int].lane >= lane_count);
            return Err(BackendError::InvalidInput);
        }
        i = i + 1;
    }
    if lane_count == 0 {
        return Ok(None);
    }
    let sorted: Vec<DeviceLaneAccess> = sort_accesses(accesses);
    let groups: Vec<DeviceResourceGroup> = group_accesses(&sorted);
    Ok(Some(JournalPlan { sorted, groups }))
}

/// Whether a lane clashed, and the least lane it clashed with.
#[derive(Clone, Copy, Debug, PartialEq, Eq, Structural)]
pub struct DeviceLaneConflict {
    pub lane: u32,
    pub conflicts: u32,
    pub first_other_lane: u32,
    pub reserved: u32,
}

/// Two lanes touched one resource and one of them wrote it.
pub open spec fn clash(a: DeviceLaneAccess, b: DeviceLaneAccess) -> bool {
    &&& a.lane != b.lane
    &&& same_resource(a, b)
    &&& a.mode == 2 || b.mode == 2
}

/// Lane `lane` clashes with lane `other`.
pub open spec fn lanes_clash(accesses: Seq<DeviceLaneAccess>, lane: u32, other: u32) -> bool {
    exists|i: int, j: int|
        0 <= i < accesses.len() && 0 <= j < accesses.len() && (#[trigger] accesses[i]).lane == lane
            && (#[trigger] accesses[j]).lane == other && clash(accesses[i], accesses[j])
}

/// `first` is the least lane that `lane` clashes with, or all ones where it
/// clashes with none.
pub open spec fn is_first_clash(accesses: Seq<DeviceLaneAccess>, lane: u32, first: u32) -> bool {
    if first == u32::MAX {
        forall|other: u32| !#[trigger] lanes_clash(accesses, lane, other) || other == u32::MAX
    } else {
        &&& lanes_clash(accesses, lane, first)
        &&& forall|other: u32| #[trigger] lanes_clash(accesses, lane, other) ==> first <= other
    }
}

/// The conflicts between lanes, lane by lane.
pub open spec fn are_conflicts(
    conflicts: Seq<DeviceLaneConflict>,
    accesses: Seq<DeviceLaneAccess>,
    lane_count: u32,
) -> bool {
    &&& conflicts.len() == lane_count
    &&& forall|l: int|
        0 <= l < lane_count ==> {
            &&& (#[trigger] conflicts[l]).lane == l
            &&& conflicts[l].reserved == 0
            &&& is_first_clash(accesses, l as u32, conflicts[l].first_other_lane)
            &&& conflicts[l].conflicts == if conflicts[l].first_other_lane != u32::MAX {
                1u32
            } else {
                0
            }
        }
}

pub fn reference_lane_conflicts(accesses: &Vec<DeviceLaneAccess>, lane_count: u32) -> (conflicts: Vec<
    DeviceLaneConflict,
>)
    ensures
        are_conflicts(conflicts@, accesses@, lane_count),
{
    let mut conflicts: Vec<DeviceLaneConflict> = Vec::new();
    let mut lane: u32 = 0;
    while lane < lane_count
        invariant
            lane <= lane_count,
            conflicts@.len() == lane,
            forall|l: int|
                0 <= l < lane ==> {
                    &&& (#[trigger] conflicts@[l]).lane == l
                    &&& conflicts@[l].reserved == 0
                    &&& is_first_clash(accesses@, l as u32, conflicts@[l].first_other_lane)
                    &&& conflicts@[l].conflicts == if conflicts@[l].first_other_lane != u32::MAX {
                        1u32
                    } else {
                        0
                    }
                },
        decreases lane_count - lane,
    {
        let first: u32 = first_clash(accesses, lane);
        conflicts.push(
            DeviceLaneConflict {
                lane,
                conflicts: if first != u32::MAX {
                    1
                } else {
                    0
                },
                first_other_lane: first,
                reserved: 0,
            },
        );
        lane = lane + 1;
    }
    conflicts
}

fn first_clash(accesses: &Vec<DeviceLaneAccess>, lane: u32) -> (first: u32)
    ensures
        is_first_clash(accesses@, lane, first),
{
    let mut first: u32 = u32::MAX;
    let mut i: usize = 0;
    while i < accesses.len()
        invariant
            i <= accesses.len(),
            first != u32::MAX ==> lanes_clash(accesses@, lane, first),
            forall|a: int, b: int|
                0 <= a < i && 0 <= b < accesses@.len() && (#[trigger] accesses@[a]).lane == lane
                    && clash(accesses@[a], #[trigger] accesses@[b]) ==> first <= accesses@[b].lane,
        decreases accesses.len() - i,
    {
        if accesses[i].lane == lane {
            let mut j: usize = 0;
            while j < accesses.len()
                invariant
                    i < accesses.len(),
                    j <= accesses.len(),
                    accesses@[i as int].lane == lane,
                    first != u32::MAX ==> lanes_clash(accesses@, lane, first),
                    forall|a: int, b: int|
                        0 <= a < i && 0 <= b < accesses@.len() && (#[trigger] accesses@[a]).lane
                            == lane && clash(accesses@[a], #[trigger] accesses@[b]) ==> first
                            <= accesses@[b].lane,
                    forall|b: int|
                        0 <= b < j && clash(accesses@[i as int], #[trigger] accesses@[b]) ==> first
                            <= accesses@[b].lane,
                decreases accesses.len() - j,
            {
                let a: DeviceLaneAccess = accesses[i];
                let b: DeviceLaneAccess = accesses[j];
                if a.lane != b.lane && a.resource_kind == b.resource_kind && a.resource
                    == b.resource && (a.mode == 2 || b.mode == 2) && b.lane < first {
                    first = b.lane;
                    assert(clash(accesses@[i as int], accesses@[j as int]));
                    assert(lanes_clash(accesses@, lane, first));
                }
                j = j + 1;
            }
        }
        i = i + 1;
    }
    assert forall|other: u32| #[trigger] lanes_clash(accesses@, lane, other) implies first
        <= other by {
        let (a, b) = choose|a: int, b: int|
            0 <= a < accesses@.len() && 0 <= b < accesses@.len() && (#[trigger] accesses@[a]).lane
                == lane && (#[trigger] accesses@[b]).lane == other && clash(
                accesses@[a],
                accesses@[b],
            );
        assert(first <= accesses@[b].lane);
    }
    first
}

/// A clash is mutual: a lane that clashes with another is one that the other
/// clashes with.
pub proof fn law_clashes_are_mutual(accesses: Seq<DeviceLaneAccess>, lane: u32, other: u32)
    ensures
        lanes_clash(accesses, lane, other) == lanes_clash(accesses, other, lane),
        !lanes_clash(accesses, lane, lane),
{
    if lanes_clash(accesses, lane, other) {
        let (i, j) = choose|i: int, j: int|
            0 <= i < accesses.len() && 0 <= j < accesses.len() && (#[trigger] accesses[i]).lane
                == lane && (#[trigger] accesses[j]).lane == other && clash(
                accesses[i],
                accesses[j],
            );
        assert(clash(accesses[j], accesses[i]));
    }
    if lanes_clash(accesses, other, lane) {
        let (i, j) = choose|i: int, j: int|
            0 <= i < accesses.len() && 0 <= j < accesses.len() && (#[trigger] accesses[i]).lane
                == other && (#[trigger] accesses[j]).lane == lane && clash(
                accesses[i],
                accesses[j],
            );
        assert(clash(accesses[j], accesses[i]));
    }
}

// ---- operation journals ----------------------------------------------------

/// Where the operations of one journal lie among all of them.
#[derive(Clone, Copy, Debug, PartialEq, Eq, Structural)]
pub struct DeviceOperationSlice {
    pub operation_offset: u32,
    pub operation_count: u32,
    pub payload_len: u32,
    /// The lane that every operation must name: that of the first one.
    pub expected_lane: u32,
}

/// The operations of the first `n` journals, one after the other.
pub open spec fn operations_of(journals: Seq<&DeviceOperationJournal>, n: int) -> Seq<
    DeviceLaneOperation,
>
    decreases n,
{
    if n <= 0 {
        Seq::empty()
    } else {
        operations_of(journals, n - 1) + journals[n - 1]@.operations
    }
}

pub open spec fn slice_of(journals: Seq<&DeviceOperationJournal>, i: int) -> DeviceOperationSlice {
    DeviceOperationSlice {
        operation_offset: operations_of(journals, i).len() as u32,
        operation_count: journals[i]@.operations.len() as u32,
        payload_len: journals[i]@.payload.len() as u32,
        expected_lane: if journals[i]@.operations.len() == 0 {
            u32::MAX
        } else {
            journals[i]@.operations[0].lane
        },
    }
}

/// The journals can be numbered in 32 bits.
pub open spec fn journals_fit(journals: Seq<&DeviceOperationJournal>) -> bool {
    &&& journals.len() <= u32::MAX
    &&& operations_of(journals, journals.len() as int).len() <= u32::MAX
    &&& forall|i: int|
        0 <= i < journals.len() ==> (#[trigger] journals[i])@.payload.len() <= u32::MAX
}

#[derive(Debug)]
pub struct OperationPlan {
    pub operations: Vec<DeviceLaneOperation>,
    pub slices: Vec<DeviceOperationSlice>,
}

proof fn lemma_operations_grow(journals: Seq<&DeviceOperationJournal>, i: int, n: int)
    requires
        0 <= i <= n,
    ensures
        operations_of(journals, i).len() <= operations_of(journals, n).len(),
    decreases n - i,
{
    if i < n {
        lemma_operations_grow(journals, i, n - 1);
    }
}

/// What the device is handed to validate operation journals. It is not asked about
/// none.
pub fn plan_operation_journals(journals: &[&DeviceOperationJournal]) -> (plan: Result<
    Option<OperationPlan>,
    BackendError,
>)
    ensures
        match plan {
            Err(error) => error == BackendError::InvalidInput && !journals_fit(journals@),
            Ok(plan) => {
                &&& journals_fit(journals@)
                &&& plan is None <==> journals@.len() == 0
                &&& plan matches Some(plan) ==> {
                    &&& plan.operations@ == operations_of(journals@, journals@.len() as int)
                    &&& plan.slices@ == Seq::new(
                        journals@.len(),
                        |i: int| slice_of(journals@, i),
                    )
                }
            },
        },
{
    let ghost n = journals@.len() as int;
    if journals.len() > u32::MAX as usize {
        return Err(BackendError::InvalidInput);
    }
    if journals.len() == 0 {
        return Ok(None);
    }
    let mut operations: Vec<DeviceLaneOperation> = Vec::new();
    let mut slices: Vec<DeviceOperationSlice> = Vec::new();
    let mut i: usize = 0;
    while i < journals.len()
        invariant
            i <= journals.len(),
            n == journals@.len(),
            n <= u32::MAX,
            operations@ == operations_of(journals@, i as int),
            operations@.len() <= u32::MAX,
            forall|j: int| 0 <= j < i ==> (#[trigger] journals@[j])@.payload.len() <= u32::MAX,
            slices@ =~= Seq::new(i as nat, |j: int| slice_of(journals@, j)),
        decreases journals.len() - i,
    {
        let journal: &DeviceOperationJournal = journals[i];
        let count: usize = journal.operations.len();
        if count > u32::MAX as usize - operations.len() {
            proof {
                lemma_operations_grow(journals@, i + 1, n);
            }
            return Err(BackendError::InvalidInput);
        }
        if journal.payload.len() > u32::MAX as usize {
            assert(journals@[i as int]@.payload.len() > u32::MAX);
            return Err(BackendError::InvalidInput);
        }
        let expected_lane: u32 = if count == 0 {
            u32::MAX
        } else {
            journal.operations[0].lane
        };
        slices.push(
            DeviceOperationSlice {
                operation_offset: operations.len() as u32,
                operation_count: count as u32,
                payload_len: journal.payload.len() as u32,
                expected_lane,
            },
        );
        let ghost before = operations@;
        let mut m: usize = 0;
        assert(before + journal@.operations.take(0) =~= before);
        while m < count
            invariant
                m <= count == journal.operations@.len(),
                operations@ =~= before + journal@.operations.take(m as int),
            decreases count - m,
        {
            operations.push(journal.operations[m]);
            m = m + 1;
        }
        assert(journal@.operations.take(m as int) =~= journal@.operations);
        i = i + 1;
    }
    Ok(Some(OperationPlan { operations, slices }))
}

/// One operation of a journal is sound: numbered in order, of a known kind, of
/// the journal's lane, with its payload inside the journal's.
pub open spec fn operation_is_sound(
    operation: DeviceLaneOperation,
    ordinal: int,
    lane: u32,
    payload: nat,
) -> bool {
    &&& operation.ordinal == ordinal
    &&& 1 <= operation.opcode <= 11
    &&& operation.lane == lane
    &&& operation.payload_offset + operation.payload_len <= payload
}

pub open spec fn journal_is_sound(journal: JournalView) -> bool {
    forall|i: int|
        0 <= i < journal.operations.len() ==> operation_is_sound(
            #[trigger] journal.operations[i],
            i,
            journal.operations[0].lane,
            journal.payload.len(),
        )
}

/// Whether a journal is sound, as the device's validation decides it.
pub fn reference_journal_is_sound(journal: &DeviceOperationJournal) -> (sound: bool)
    ensures
        sound == journal_is_sound(journal@),
{
    let mut i: usize = 0;
    while i < journal.operations.len()
        invariant
            i <= journal.operations.len(),
            forall|j: int|
                0 <= j < i ==> operation_is_sound(
                    #[trigger] journal@.operations[j],
                    j,
                    journal@.operations[0].lane,
                    journal@.payload.len(),
                ),
        decreases journal.operations.len() - i,
    {
        let operation: DeviceLaneOperation = journal.operations[i];
        let end: u64 = operation.payload_offset as u64 + operation.payload_len as u64;
        if operation.ordinal as usize != i || operation.opcode < 1 || operation.opcode > 11
            || operation.lane != journal.operations[0].lane || end
            > journal.payload.len() as u64 {
            assert(!operation_is_sound(
                journal@.operations[i as int],
                i as int,
                journal@.operations[0].lane,
                journal@.payload.len(),
            ));
            return false;
        }
        i = i + 1;
    }
    true
}

/// The device found every journal sound.
pub open spec fn all_valid(valid: Seq<u32>) -> bool {
    forall|i: int| 0 <= i < valid.len() ==> #[trigger] valid[i] == 1
}

/// What the device's verdicts on the journals come to.
pub fn finish_operation_journals(completed: bool, valid: &Vec<u32>) -> (result: Result<
    (),
    BackendError,
>)
    ensures
        result == if !completed {
            Err::<(), _>(BackendError::ExecutionFailed)
        } else if all_valid(valid@) {
            Ok(())
        } else {
            Err(BackendError::InvalidInput)
        },
{
    if !completed {
        return Err(BackendError::ExecutionFailed);
    }
    let mut i: usize = 0;
    while i < valid.len()
        invariant
            i <= valid.len(),
            completed,
            forall|j: int| 0 <= j < i ==> #[trigger] valid@[j] == 1,
        decreases valid.len() - i,
    {
        if valid[i] != 1 {
            assert(valid@[i as int] != 1);
            return Err(BackendError::InvalidInput);
        }
        i = i + 1;
    }
    Ok(())
}

/// What the device's conflicts come to: it has to complete, and to answer for every
/// lane.
pub fn finish_lane_journals(completed: bool, lane_count: u32, conflicts: Vec<DeviceLaneConflict>) -> (result:
    Result<Vec<DeviceLaneConflict>, BackendError>)
    ensures
        match result {
            Ok(found) => completed && conflicts@.len() == lane_count && found@ == conflicts@,
            Err(error) => error == BackendError::ExecutionFailed && (!completed
                || conflicts@.len() != lane_count),
        },
{
    if !completed || conflicts.len() != lane_count as usize {
        return Err(BackendError::ExecutionFailed);
    }
    Ok(conflicts)
}

/// Whether an epoch has one operation journal for each lane. Nothing is asked of
/// the device about an epoch that has not.
pub fn has_journal_per_lane(operations: &[&DeviceOperationJournal], lane_count: u32) -> (has: bool)
    ensures
        has == (operations@.len() == lane_count),
{
    operations.len() == lane_count as usize
}

/// What the validation of an epoch comes to, where its operation journals were
/// found to be `journals` and its lanes to have `conflicts`: an epoch without a
/// journal for each lane is invalid, then the journals decide, then the conflicts.
pub fn epoch_verdict(
    operations: &[&DeviceOperationJournal],
    lane_count: u32,
    journals: Result<(), BackendError>,
    conflicts: Result<Vec<DeviceLaneConflict>, BackendError>,
) -> (verdict: Result<Vec<DeviceLaneConflict>, LaneValidationError>)
    ensures
        if operations@.len() != lane_count {
            verdict == Err::<Vec<DeviceLaneConflict>, _>(LaneValidationError::InvalidInput)
        } else {
            match (journals, conflicts) {
                (Err(error), _) => verdict == Err::<Vec<DeviceLaneConflict>, _>(
                    as_validation_error(error),
                ),
                (Ok(_), Err(error)) => verdict == Err::<Vec<DeviceLaneConflict>, _>(
                    as_validation_error(error),
                ),
                (Ok(_), Ok(found)) => verdict matches Ok(given) && given@ == found@,
            }
        },
{
    if !has_journal_per_lane(operations, lane_count) {
        return Err(LaneValidationError::InvalidInput);
    }
    if let Err(error) = journals {
        return Err(lane_validation_error(error));
    }
    match conflicts {
        Ok(found) => Ok(found),
        Err(error) => Err(lane_validation_error(error)),
    }
}

// ---- scheduling ------------------------------------------------------------

/// How the device is to schedule: which admission it runs, how far indices are
/// padded for sorting, and how wide a cohort is.
#[derive(Clone, Copy, Debug, PartialEq, Eq, Structural)]
pub struct SchedulePlan {
    pub count: u32,
    pub padded: u64,
    pub width: u32,
    pub policy: u32,
    pub sorted_admission: bool,
}

/// What is asked of the device to schedule this many candidates, `mutable` of
/// which claim their process. Nothing is asked for none.
pub fn plan_schedule(candidates: usize, mutable: usize, width: u16, policy: PartialCohortPolicy) -> (plan:
    Result<Option<SchedulePlan>, BackendError>)
    ensures
        match plan {
            Err(error) => error == BackendError::InvalidInput && candidates > u32::MAX,
            Ok(None) => candidates == 0,
            Ok(Some(plan)) => {
                &&& 0 < candidates <= u32::MAX
                &&& plan.count == candidates
                &&& plan.padded == power_at_least(candidates as int)
                &&& plan.width == if width < 1 {
                    1
                } else if width > MAX_COHORT_WIDTH {
                    MAX_COHORT_WIDTH
                } else {
                    width as u32
                }
                &&& plan.policy == code_of(policy)
                &&& plan.sorted_admission == (mutable >= 128)
            },
        },
{
    if candidates > u32::MAX as usize {
        return Err(BackendError::InvalidInput);
    }
    if candidates == 0 {
        return Ok(None);
    }
    let mut padded: u64 = 1;
    while padded < candidates as u64
        invariant
            padded >= 1,
            candidates <= u32::MAX,
            padded < 2 * candidates || padded == 1,
            power_at_least(candidates as int) == doubled_to(candidates as int, padded as int),
        decreases
                if padded < candidates {
                    candidates - padded
                } else {
                    0
                },
    {
        padded = 2 * padded;
    }
    let wide: u32 = if width < 1 {
        1
    } else if width as u32 > MAX_COHORT_WIDTH {
        MAX_COHORT_WIDTH
    } else {
        width as u32
    };
    Ok(
        Some(
            SchedulePlan {
                count: candidates as u32,
                padded,
                width: wide,
                policy: policy_code(policy),
                sorted_admission: mutable >= SORTED_ADMISSION,
            },
        ),
    )
}

/// The comparisons of one merge, at halving distances.
pub open spec fn merge_passes(merge: nat, distance: nat) -> Seq<(nat, nat)>
    decreases distance,
{
    if distance == 0 {
        Seq::empty()
    } else {
        seq![(merge, distance)] + merge_passes(merge, distance / 2)
    }
}

/// The passes of a bitonic sort over `padded` indices, from merge width `merge`
/// on.
pub open spec fn sort_passes_from(padded: nat, merge: nat) -> Seq<(nat, nat)>
    decreases
            if merge <= padded {
                padded + 1 - merge
            } else {
                0
            },
{
    if merge > padded || merge == 0 {
        Seq::empty()
    } else {
        merge_passes(merge, merge / 2) + sort_passes_from(padded, 2 * merge)
    }
}

pub open spec fn passes_view(passes: Seq<(u64, u64)>) -> Seq<(nat, nat)> {
    Seq::new(passes.len(), |i: int| (passes[i].0 as nat, passes[i].1 as nat))
}

/// The dispatches that sort `padded` indices on the device.
pub fn sort_passes(padded: u64) -> (passes: Vec<(u64, u64)>)
    requires
        padded <= u64::MAX / 2,
    ensures
        passes_view(passes@) == sort_passes_from(padded as nat, 2),
{
    let mut passes: Vec<(u64, u64)> = Vec::new();
    let mut merge: u64 = 2;
    assert(passes_view(passes@) + sort_passes_from(padded as nat, 2) =~= sort_passes_from(
        padded as nat,
        2,
    ));
    while merge <= padded
        invariant
            merge >= 2,
            padded <= u64::MAX / 2,
            passes_view(passes@) + sort_passes_from(padded as nat, merge as nat)
                == sort_passes_from(padded as nat, 2),
        decreases
                if merge <= padded {
                    padded + 1 - merge
                } else {
                    0
                },
    {
        let mut distance: u64 = merge / 2;
        let ghost before = passes_view(passes@);
        let ghost all = merge_passes(merge as nat, (merge / 2) as nat);
        assert(before + all =~= passes_view(passes@) + merge_passes(
            merge as nat,
            distance as nat,
        ));
        while distance > 0
            invariant
                before + all == passes_view(passes@) + merge_passes(
                    merge as nat,
                    distance as nat,
                ),
            decreases distance,
        {
            let ghost held = passes_view(passes@);
            passes.push((merge, distance));
            proof {
                let one = (merge as nat, distance as nat);
                assert(passes_view(passes@) =~= held.push(one));
                assert(held + (seq![one] + merge_passes(merge as nat, (distance / 2) as nat))
                    =~= held.push(one) + merge_passes(merge as nat, (distance / 2) as nat));
            }
            distance = distance / 2;
        }
        proof {
            assert(passes_view(passes@) =~= before + all);
            let rest = sort_passes_from(padded as nat, (2 * merge) as nat);
            assert(sort_passes_from(padded as nat, merge as nat) == all + rest);
            assert(before + (all + rest) =~= before + all + rest);
        }
        merge = 2 * merge;
    }
    assert(passes_view(passes@) =~= passes_view(passes@) + sort_passes_from(
        padded as nat,
        merge as nat,
    ));
    passes
}

// ---- frame evaluation ------------------------------------------------------

/// One lane whose frame the device evaluates.
#[derive(Clone, Copy, Debug, PartialEq, Eq, Structural)]
pub struct DeviceEvaluatorLane {
    pub continuation: u64,
    pub process: u64,
    pub frame: u64,
    pub lane: u32,
    pub run_class: u32,
    pub frame_offset: u32,
    pub frame_len: u32,
}

/// What a lane's evaluation comes to.
#[derive(Clone, Copy, Debug, PartialEq, Eq, Structural)]
pub struct DeviceEvaluatorResult {
    pub target: u64,
    pub value: u64,
    pub lane: u32,
    pub status: u32,
    pub step_kind: u32,
    pub next_run_class: u32,
    pub consumed_steps: u32,
    pub flags: u32,
    pub frame_offset: u32,
    pub frame_len: u32,
}

/// The result of a lane that completed in one step.
pub open spec fn completed_lane(lane: u32, frame_offset: u32, frame_len: u32) -> DeviceEvaluatorResult {
    DeviceEvaluatorResult {
        target: 0,
        value: 0,
        lane,
        status: 1,
        step_kind: 1,
        next_run_class: 0,
        consumed_steps: 1,
        flags: 0,
        frame_offset,
        frame_len,
    }
}

#[derive(Debug)]
pub struct DeviceEvaluation {
    pub results: Vec<DeviceEvaluatorResult>,
    pub frames: Vec<u8>,
}

/// How lanes are evaluated.
#[derive(Debug)]
pub enum LanePlan {
    /// There are none.
    Nothing,
    /// By an installed evaluator: one dispatch of `count` elements at each of
    /// these frame offsets.
    Installed { stride: u32, count: u32, offsets: Vec<u32> },
    /// By the device's own search evaluator.
    Search,
}

/// Lane `i` is of the class, and its frame lies at its place in a packed array.
pub open spec fn is_packed(lanes: Seq<DeviceEvaluatorLane>, stride: u32, i: int) -> bool {
    &&& lanes[i].run_class == lanes[0].run_class
    &&& lanes[i].frame_len == stride
    &&& lanes[i].frame_offset == i * stride
}

pub open spec fn all_packed(lanes: Seq<DeviceEvaluatorLane>, stride: u32, frames: int) -> bool {
    &&& forall|i: int| 0 <= i < lanes.len() ==> #[trigger] is_packed(lanes, stride, i)
    &&& frames == lanes.len() * stride
}

/// The plan for evaluating lanes: those of an installed class must be packed;
/// bodies that read their place run one lane at a time.
pub open spec fn lane_plan_is(
    handlers: Map<u32, FrameEvaluator>,
    lanes: Seq<DeviceEvaluatorLane>,
    frames: int,
    plan: Result<LanePlan, LaneValidationError>,
) -> bool {
    if lanes.len() == 0 {
        plan matches Ok(LanePlan::Nothing)
    } else if lanes.len() > u32::MAX || frames > u32::MAX {
        plan == Err::<LanePlan, _>(LaneValidationError::InvalidInput)
    } else if !handlers.dom().contains(lanes[0].run_class) {
        plan matches Ok(LanePlan::Search)
    } else {
        let handler = handlers[lanes[0].run_class];
        if !all_packed(lanes, handler.stride, frames) {
            plan == Err::<LanePlan, _>(LaneValidationError::InvalidInput)
        } else {
            plan matches Ok(LanePlan::Installed { stride, count, offsets }) && {
                &&& stride == handler.stride
                &&& count == if handler.batchable {
                    lanes.len() as u32
                } else {
                    1
                }
                &&& offsets@ == if handler.batchable {
                    seq![0u32]
                } else {
                    Seq::new(lanes.len(), |i: int| lanes[i].frame_offset)
                }
            }
        }
    }
}

impl MetalDeviceScheduler {
    pub fn plan_lanes(&self, lanes: &Vec<DeviceEvaluatorLane>, frames: usize) -> (plan: Result<
        LanePlan,
        LaneValidationError,
    >)
        ensures
            lane_plan_is(self.handlers@, lanes@, frames as int, plan),
    {
        if lanes.len() == 0 {
            return Ok(LanePlan::Nothing);
        }
        if lanes.len() > u32::MAX as usize || frames > u32::MAX as usize {
            return Err(LaneValidationError::InvalidInput);
        }
        let run_class: u32 = lanes[0].run_class;
        let handler: FrameEvaluator = match self.handlers.get(&run_class) {
            Some(handler) => *handler,
            None => {
                return Ok(LanePlan::Search);
            },
        };
        let stride: u64 = handler.stride as u64;
        let mut at: u64 = 0;
        let mut i: usize = 0;
        while i < lanes.len()
            invariant
                i <= lanes.len() <= u32::MAX,
                lanes@.len() > 0,
                frames <= u32::MAX,
                run_class == lanes@[0].run_class,
                stride == handler.stride,
                at == i * stride,
                at <= i * 0xffff_ffff,
                self.handlers@.dom().contains(run_class),
                handler == self.handlers@[run_class],
                forall|j: int| 0 <= j < i ==> #[trigger] is_packed(lanes@, handler.stride, j),
            decreases lanes.len() - i,
        {
            let lane: DeviceEvaluatorLane = lanes[i];
            if lane.run_class != run_class || lane.frame_len != handler.stride
                || lane.frame_offset as u64 != at {
                assert(!is_packed(lanes@, handler.stride, i as int));
                return Err(LaneValidationError::InvalidInput);
            }
            proof {
                assert((i + 1) * stride == i * stride + stride) by (nonlinear_arith);
            }
            i = i + 1;
            at = at + stride;
        }
        if at != frames as u64 {
            return Err(LaneValidationError::InvalidInput);
        }
        let mut offsets: Vec<u32> = Vec::new();
        if handler.batchable {
            offsets.push(0);
            assert(offsets@ =~= seq![0u32]);
            return Ok(
                LanePlan::Installed {
                    stride: handler.stride,
                    count: lanes.len() as u32,
                    offsets,
                },
            );
        }
        let mut n: usize = 0;
        while n < lanes.len()
            invariant
                n <= lanes.len(),
                offsets@ =~= Seq::new(n as nat, |j: int| lanes@[j].frame_offset),
            decreases lanes.len() - n,
        {
            offsets.push(lanes[n].frame_offset);
            n = n + 1;
        }
        Ok(LanePlan::Installed { stride: handler.stride, count: 1, offsets })
    }
}

/// What installed lanes come to once the device has completed them and left as many
/// bytes as it was given: each took one step and left its frame where it was.
pub fn finish_installed(
    lanes: &Vec<DeviceEvaluatorLane>,
    frame_bytes: usize,
    completed: bool,
    frames: Vec<u8>,
) -> (result: Result<DeviceEvaluation, LaneValidationError>)
    ensures
        match result {
            Ok(evaluation) => {
                &&& completed
                &&& frames@.len() == frame_bytes
                &&& evaluation.frames@ == frames@
                &&& evaluation.results@ == Seq::new(
                    lanes@.len(),
                    |i: int|
                        completed_lane(lanes@[i].lane, lanes@[i].frame_offset, lanes@[i].frame_len),
                )
            },
            Err(error) => (!completed || frames@.len() != frame_bytes) && error
                == LaneValidationError::ExecutionFailed,
        },
{
    if !completed || frames.len() != frame_bytes {
        return Err(LaneValidationError::ExecutionFailed);
    }
    let mut results: Vec<DeviceEvaluatorResult> = Vec::new();
    let mut i: usize = 0;
    while i < lanes.len()
        invariant
            i <= lanes.len(),
            results@ =~= Seq::new(
                i as nat,
                |j: int|
                    completed_lane(lanes@[j].lane, lanes@[j].frame_offset, lanes@[j].frame_len),
            ),
        decreases lanes.len() - i,
    {
        let lane: DeviceEvaluatorLane = lanes[i];
        results.push(finished(lane.lane, lane.frame_offset, lane.frame_len));
        i = i + 1;
    }
    Ok(DeviceEvaluation { results, frames })
}

pub(crate) fn finished(lane: u32, frame_offset: u32, frame_len: u32) -> (result: DeviceEvaluatorResult)
    ensures
        result == completed_lane(lane, frame_offset, frame_len),
{
    DeviceEvaluatorResult {
        target: 0,
        value: 0,
        lane,
        status: 1,
        step_kind: 1,
        next_run_class: 0,
        consumed_steps: 1,
        flags: 0,
        frame_offset,
        frame_len,
    }
}

/// Every lane that the device's own evaluator answered was one it could run.
pub open spec fn all_ran(results: Seq<DeviceEvaluatorResult>) -> bool {
    forall|i: int| 0 <= i < results.len() ==> (#[trigger] results[i]).status == 1
}

/// The device completed, and left a result for each lane and as many bytes as it was
/// given.
pub open spec fn search_is_whole(
    lanes: int,
    frame_bytes: int,
    completed: bool,
    results: Seq<DeviceEvaluatorResult>,
    frames: Seq<u8>,
) -> bool {
    completed && results.len() == lanes && frames.len() == frame_bytes
}

/// What the device's own search evaluator comes to.
pub fn finish_search_lanes(
    lanes: usize,
    frame_bytes: usize,
    completed: bool,
    results: Vec<DeviceEvaluatorResult>,
    frames: Vec<u8>,
) -> (result: Result<DeviceEvaluation, LaneValidationError>)
    ensures
        match result {
            Ok(evaluation) => {
                &&& search_is_whole(
                    lanes as int,
                    frame_bytes as int,
                    completed,
                    results@,
                    frames@,
                )
                &&& all_ran(results@)
                &&& evaluation.results@ == results@
                &&& evaluation.frames@ == frames@
            },
            Err(error) => {
                let whole = search_is_whole(
                    lanes as int,
                    frame_bytes as int,
                    completed,
                    results@,
                    frames@,
                );
                &&& !whole || !all_ran(results@)
                &&& error == if !whole {
                    LaneValidationError::ExecutionFailed
                } else {
                    LaneValidationError::InvalidInput
                }
            },
        },
{
    if !completed || results.len() != lanes || frames.len() != frame_bytes {
        return Err(LaneValidationError::ExecutionFailed);
    }
    let mut i: usize = 0;
    while i < results.len()
        invariant
            i <= results.len(),
            search_is_whole(
                lanes as int,
                frame_bytes as int,
                completed,
                results@,
                frames@,
            ),
            forall|j: int| 0 <= j < i ==> (#[trigger] results@[j]).status == 1,
        decreases results.len() - i,
    {
        if results[i].status != 1 {
            assert(results@[i as int].status != 1);
            return Err(LaneValidationError::InvalidInput);
        }
        i = i + 1;
    }
    Ok(DeviceEvaluation { results, frames })
}

} // verus!
