//! What a device is handed, and how what it leaves is read.

use crate::compiler::body::Op;
use crate::device::{DeviceLaneAccess, DeviceLaneOperation, DeviceOperationJournal, JournalView};
use crate::executives::batch::{BackendError, RequestView};
use crate::executives::metal;
use crate::executives::metal::{EpochPlan, Pipeline};
use crate::executives::metal_scheduler;
use crate::executives::metal_scheduler::{
    DeviceEvaluatorLane, DeviceLaneConflict, DeviceResourceGroup, FrameEvaluator, LanePlan,
    LaneValidationError,
};
use crate::executives::metal_search;
use crate::executives::metal_search::{
    ResidentFrameGraphConfig, ResidentSearchConfig, SearchPlan,
};
use vstd::prelude::*;

verus! {

// ---- batches ---------------------------------------------------------------

/// A request is taken where its body is known with the request's strides and both arrays
/// are as long as their elements ask for, and refused otherwise.
pub proof fn law_a_device_takes_what_fits(pipelines: Map<u32, Pipeline>, r: RequestView)
    ensures
        metal::refusal_of(pipelines, r) is None <==> {
            &&& pipelines.contains_key(r.evaluator_id)
            &&& pipelines[r.evaluator_id].stride == r.element_stride
            &&& pipelines[r.evaluator_id].aux_stride == r.aux.element_stride
            &&& r.inputs.len() >= r.element_count * r.element_stride
            &&& r.aux.bytes.len() >= r.aux.element_count * r.aux.element_stride
        },
        metal::refusal_of(pipelines, r) == Some(BackendError::UnsupportedEvaluator)
            <==> !pipelines.contains_key(r.evaluator_id),
        metal::refusal_of(pipelines, r) is None || metal::refusal_of(pipelines, r) == Some(
            BackendError::UnsupportedEvaluator,
        ) || metal::refusal_of(pipelines, r) == Some(BackendError::InvalidInput),
{
}

/// Inputs are staged one behind the other, each at a multiple of 256 and less than 256
/// bytes behind the one before.
pub proof fn law_inputs_are_staged_in_order(requests: Seq<RequestView>, i: int)
    requires
        0 <= i < requests.len(),
    ensures
        ({
            let here = metal::staged_at(requests, i);
            let end = here + requests[i].element_count * requests[i].element_stride;
            let next = metal::staged_at(requests, i + 1);
            &&& metal::staged_at(requests, 0) == 0
            &&& here % 256 == 0
            &&& next % 256 == 0
            &&& end <= next < end + 256
        }),
    decreases i,
{
    if i > 0 {
        law_inputs_are_staged_in_order(requests, i - 1);
    }
}

/// A staged buffer holds each request's input from the place of that request on.
pub proof fn law_a_staged_input_lies_at_its_place(
    buffer: Seq<u8>,
    requests: Seq<RequestView>,
    i: int,
    k: int,
)
    requires
        metal::is_staged(buffer, requests, requests.len() as int),
        0 <= i < requests.len(),
        0 <= k < requests[i].element_count * requests[i].element_stride,
        requests[i].element_count * requests[i].element_stride <= requests[i].inputs.len(),
        0 <= metal::staged_at(requests, i),
        metal::staged_at(requests, i) + requests[i].element_count * requests[i].element_stride
            <= buffer.len(),
    ensures
        buffer[metal::staged_at(requests, i) + k] == requests[i].inputs[k],
{
    let n = metal::bytes_of(requests[i]);
    let at = metal::staged_at(requests, i);
    assert(buffer.subrange(at, at + n)[k] == requests[i].inputs.take(n)[k]);
}

/// An epoch's outputs are handed on as they came, one for each request. They are refused
/// where the device did not complete, or an output has another length than was asked for.
pub proof fn law_outputs_are_handed_on_whole(
    plan: EpochPlan,
    completed: bool,
    outputs: Seq<Seq<u8>>,
)
    ensures
        match metal::epoch_outputs(plan, completed, outputs) {
            Ok(lists) => {
                &&& completed || plan.staged == 0
                &&& outputs.len() == plan.dispatches@.len()
                &&& lists.len() == outputs.len()
                &&& forall|i: int|
                    0 <= i < lists.len() ==> (#[trigger] lists[i]).len()
                        == plan.dispatches@[i].required
                &&& forall|i: int|
                    0 <= i < lists.len() && plan.dispatches@[i].required != 0 ==> (
                    #[trigger] lists[i]) == outputs[i]
            },
            Err(error) => {
                &&& error == BackendError::ExecutionFailed
                &&& (plan.staged != 0 && !completed) || outputs.len() != plan.dispatches@.len()
                    || exists|i: int|
                    0 <= i < outputs.len() && plan.dispatches@[i].required != 0 && (
                    #[trigger] outputs[i]).len() != plan.dispatches@[i].required
            },
        },
{
}

// ---- scheduling ------------------------------------------------------------

/// `p` is a power of two.
pub open spec fn is_power_of_two(p: int) -> bool
    decreases p,
{
    p == 1 || (p > 1 && p % 2 == 0 && is_power_of_two(p / 2))
}

proof fn lemma_doubled(n: int, p: int)
    requires
        is_power_of_two(p),
        p > 0,
        p == 1 || p / 2 < n,
    ensures
        ({
            let q = metal_scheduler::doubled_to(n, p);
            &&& is_power_of_two(q)
            &&& q >= n
            &&& q >= p
            &&& q == 1 || q / 2 < n
        }),
    decreases
            if p < n {
                n - p
            } else {
                0
            },
{
    if p < n {
        assert(is_power_of_two(2 * p));
        lemma_doubled(n, 2 * p);
    }
}

/// Capacities and sorts are padded to the least power of two that is large enough.
pub proof fn law_a_capacity_is_the_next_power_of_two(n: int)
    ensures
        ({
            let q = metal_scheduler::power_at_least(n);
            &&& is_power_of_two(q)
            &&& q >= n
            &&& q == 1 || q / 2 < n
        }),
{
    lemma_doubled(n, 1);
}

/// Failures of a backend, and what to do with a partial cohort, have these names on the
/// device's side.
pub proof fn law_device_codes(error: BackendError)
    ensures
        error == BackendError::InvalidInput ==> metal_scheduler::as_validation_error(error)
            == LaneValidationError::InvalidInput,
        error == BackendError::Unavailable ==> metal_scheduler::as_validation_error(error)
            == LaneValidationError::Unavailable,
        error != BackendError::InvalidInput && error != BackendError::Unavailable
            ==> metal_scheduler::as_validation_error(error)
            == LaneValidationError::ExecutionFailed,
        metal_scheduler::code_of(crate::scheduler::PartialCohortPolicy::Defer) == 0,
        metal_scheduler::code_of(crate::scheduler::PartialCohortPolicy::SendToCpu) == 1,
        metal_scheduler::code_of(crate::scheduler::PartialCohortPolicy::RunPartial) == 2,
        metal_scheduler::code_of(crate::scheduler::PartialCohortPolicy::MergeWithGenericClass) == 3,
{
}

/// A body's answer depends on where its element lies exactly where it asks for the index or
/// reads another element, of its own array or of the other.
pub proof fn law_what_depends_on_place(ops: Seq<Op>)
    ensures
        metal_scheduler::any_depends_on_place(ops) <==> exists|i: int|
            0 <= i < ops.len() && ((#[trigger] ops[i]) is Index || ops[i] is Gather
                || ops[i] is GatherAux),
        metal_scheduler::any_gathers(ops) <==> exists|i: int|
            0 <= i < ops.len() && ((#[trigger] ops[i]) is Gather || ops[i] is GatherAux),
{
    assert forall|i: int| 0 <= i < ops.len() implies metal_scheduler::depends_on_place(
        #[trigger] ops[i],
    ) == (ops[i] is Index || ops[i] is Gather || ops[i] is GatherAux) by {}
    assert forall|i: int| 0 <= i < ops.len() implies metal_scheduler::gathers(#[trigger] ops[i])
        == (ops[i] is Gather || ops[i] is GatherAux) by {}
    if metal_scheduler::any_depends_on_place(ops) {
        let i = choose|i: int|
            0 <= i < ops.len() && metal_scheduler::depends_on_place(#[trigger] ops[i]);
        assert(ops[i] is Index || ops[i] is Gather || ops[i] is GatherAux);
    }
    if metal_scheduler::any_gathers(ops) {
        let i = choose|i: int| 0 <= i < ops.len() && metal_scheduler::gathers(#[trigger] ops[i]);
        assert(ops[i] is Gather || ops[i] is GatherAux);
    }
}

/// Two accesses to one thing from two lanes, of which one writes.
pub open spec fn collide(a: DeviceLaneAccess, b: DeviceLaneAccess) -> bool {
    a.lane != b.lane && a.resource_kind == b.resource_kind && a.resource == b.resource && (a.mode
        == 2 || b.mode == 2)
}

/// A lane is in conflict exactly where one of its accesses collides with one of another
/// lane, and the first of those lanes is named.
pub proof fn law_a_conflict_is_a_write_to_what_another_uses(
    conflicts: Seq<DeviceLaneConflict>,
    accesses: Seq<DeviceLaneAccess>,
    lanes: u32,
    lane: int,
)
    requires
        metal_scheduler::are_conflicts(conflicts, accesses, lanes),
        forall|i: int| 0 <= i < accesses.len() ==> (#[trigger] accesses[i]).lane < lanes,
        0 <= lane < lanes,
    ensures
        conflicts.len() == lanes,
        conflicts[lane].lane == lane,
        conflicts[lane].conflicts == 1 <==> exists|i: int, j: int|
            0 <= i < accesses.len() && 0 <= j < accesses.len() && (#[trigger] accesses[i]).lane
                == lane && collide(accesses[i], #[trigger] accesses[j]),
        conflicts[lane].conflicts == 0 || conflicts[lane].conflicts == 1,
        conflicts[lane].conflicts == 1 ==> forall|i: int, j: int|
            0 <= i < accesses.len() && 0 <= j < accesses.len() && (#[trigger] accesses[i]).lane
                == lane && collide(accesses[i], #[trigger] accesses[j])
                ==> conflicts[lane].first_other_lane <= accesses[j].lane,
        conflicts[lane].conflicts == 1 ==> exists|i: int, j: int|
            0 <= i < accesses.len() && 0 <= j < accesses.len() && (#[trigger] accesses[i]).lane
                == lane && collide(accesses[i], #[trigger] accesses[j]) && accesses[j].lane
                == conflicts[lane].first_other_lane,
        conflicts[lane].conflicts == 0 ==> conflicts[lane].first_other_lane == u32::MAX,
{
    let l = lane as u32;
    let first = conflicts[lane].first_other_lane;
    assert(metal_scheduler::is_first_clash(accesses, l, first));
    assert forall|i: int, j: int|
        0 <= i < accesses.len() && 0 <= j < accesses.len() && (#[trigger] accesses[i]).lane == lane
            && collide(accesses[i], #[trigger] accesses[j]) implies {
        &&& first != u32::MAX
        &&& first <= accesses[j].lane
    } by {
        assert(metal_scheduler::clash(accesses[i], accesses[j]));
        assert(metal_scheduler::lanes_clash(accesses, l, accesses[j].lane));
    }
    if first != u32::MAX {
        assert(metal_scheduler::lanes_clash(accesses, l, first));
        let (i, j) = choose|i: int, j: int|
            0 <= i < accesses.len() && 0 <= j < accesses.len() && (#[trigger] accesses[i]).lane
                == l && (#[trigger] accesses[j]).lane == first && metal_scheduler::clash(
                accesses[i],
                accesses[j],
            );
        assert(collide(accesses[i], accesses[j]));
    }
}

/// Accesses are ordered by kind, then by what they are to, then by lane, and cut where the
/// thing changes: a group holds every access to one thing.
pub proof fn law_a_group_holds_every_access_to_one_thing(
    groups: Seq<DeviceResourceGroup>,
    accesses: Seq<DeviceLaneAccess>,
    g: int,
    i: int,
)
    requires
        metal_scheduler::in_order(accesses),
        metal_scheduler::are_groups(groups, accesses, accesses.len() as int),
        0 <= g < groups.len(),
        0 <= i < accesses.len(),
    ensures
        ({
            let start = groups[g].offset as int;
            let end = groups[g].offset + groups[g].count;
            let same = accesses[i].resource_kind == accesses[start].resource_kind
                && accesses[i].resource == accesses[start].resource;
            start <= i < end <==> same
        }),
{
    let start = groups[g].offset as int;
    let end = groups[g].offset + groups[g].count;
    assert(metal_scheduler::is_group(groups, accesses, g));
    if start <= i < end {
        assert(metal_scheduler::same_resource(accesses[i], accesses[start]));
    } else if i >= end {
        assert(!metal_scheduler::same_resource(accesses[end], accesses[start]));
        assert(metal_scheduler::comes_first(accesses[start], accesses[end]));
        if i > end {
            assert(metal_scheduler::comes_first(accesses[end], accesses[i]));
        }
    } else {
        assert(g > 0);
        assert(metal_scheduler::is_group(groups, accesses, g - 1));
        let before = groups[g - 1].offset as int;
        assert(!metal_scheduler::same_resource(accesses[start], accesses[before]));
        assert(metal_scheduler::same_resource(accesses[start - 1], accesses[before]));
        assert(metal_scheduler::comes_first(accesses[start - 1], accesses[start]));
        if i < start - 1 {
            assert(metal_scheduler::comes_first(accesses[i], accesses[start - 1]));
        }
    }
}

/// Accesses are ordered by kind, by thing and by lane, in this order of weight.
pub proof fn law_accesses_are_ordered_by_thing_and_lane(a: DeviceLaneAccess, b: DeviceLaneAccess)
    ensures
        a.resource_kind < b.resource_kind ==> metal_scheduler::comes_first(a, b)
            && !metal_scheduler::comes_first(b, a),
        a.resource_kind == b.resource_kind && a.resource < b.resource
            ==> metal_scheduler::comes_first(a, b) && !metal_scheduler::comes_first(b, a),
        a.resource_kind == b.resource_kind && a.resource == b.resource ==> (
        metal_scheduler::comes_first(a, b) <==> a.lane <= b.lane),
{
}

/// A journal is sound where its operations are numbered from zero, are known ones, belong
/// to one lane and have their payload within the journal's.
pub proof fn law_a_sound_journal_is_one_lane_s_in_order(journal: JournalView)
    ensures
        metal_scheduler::journal_is_sound(journal) <==> forall|i: int|
            0 <= i < journal.operations.len() ==> {
                let o = #[trigger] journal.operations[i];
                &&& o.ordinal == i
                &&& o.opcode >= 1
                &&& o.opcode <= 11
                &&& o.lane == journal.operations[0].lane
                &&& o.payload_offset + o.payload_len <= journal.payload.len()
            },
{
    if metal_scheduler::journal_is_sound(journal) {
        assert forall|i: int| 0 <= i < journal.operations.len() implies {
            let o = #[trigger] journal.operations[i];
            &&& o.ordinal == i
            &&& o.opcode >= 1
            &&& o.opcode <= 11
            &&& o.lane == journal.operations[0].lane
            &&& o.payload_offset + o.payload_len <= journal.payload.len()
        } by {
            assert(metal_scheduler::operation_is_sound(
                journal.operations[i],
                i,
                journal.operations[0].lane,
                journal.payload.len(),
            ));
        }
    }
}

proof fn lemma_operations(journals: Seq<&DeviceOperationJournal>, n: int, i: int, k: int)
    requires
        0 <= i < n <= journals.len(),
        0 <= k < journals[i]@.operations.len(),
    ensures
        ({
            let at = metal_scheduler::operations_of(journals, i).len() + k;
            &&& at < metal_scheduler::operations_of(journals, n).len()
            &&& metal_scheduler::operations_of(journals, n)[at] == journals[i]@.operations[k]
        }),
    decreases n,
{
    if i < n - 1 {
        lemma_operations(journals, n - 1, i, k);
    }
}

/// Journals are sent as one list of operations, and each journal's operations are found
/// where its slice says.
pub proof fn law_a_slice_finds_its_journal(
    journals: Seq<&DeviceOperationJournal>,
    i: int,
    k: int,
)
    requires
        metal_scheduler::journals_fit(journals),
        0 <= i < journals.len(),
        0 <= k < journals[i]@.operations.len(),
    ensures
        ({
            let all = metal_scheduler::operations_of(journals, journals.len() as int);
            let slice = metal_scheduler::slice_of(journals, i);
            &&& all[slice.operation_offset + k] == journals[i]@.operations[k]
            &&& slice.operation_count == journals[i]@.operations.len()
            &&& slice.payload_len == journals[i]@.payload.len()
            &&& slice.expected_lane == journals[i]@.operations[0].lane
        }),
{
    lemma_operations(journals, journals.len() as int, i, k);
    lemma_operations(journals, journals.len() as int, i, journals[i]@.operations.len() - 1);
}

/// A bitonic sort merges runs of two, then four, up to the whole, and within a merge
/// compares at half the run, then at half of that, down to one.
pub proof fn law_a_sort_halves_and_doubles(padded: nat, merge: nat, distance: nat)
    ensures
        distance > 0 ==> metal_scheduler::merge_passes(merge, distance).len() > 0
            && metal_scheduler::merge_passes(merge, distance)[0] == (merge, distance)
            && metal_scheduler::merge_passes(merge, distance).skip(1)
            == metal_scheduler::merge_passes(merge, distance / 2),
        metal_scheduler::merge_passes(merge, 0).len() == 0,
        0 < merge <= padded ==> metal_scheduler::sort_passes_from(padded, merge)
            == metal_scheduler::merge_passes(merge, merge / 2) + metal_scheduler::sort_passes_from(
            padded,
            2 * merge,
        ),
        merge > padded ==> metal_scheduler::sort_passes_from(padded, merge).len() == 0,
{
    if distance > 0 {
        assert(metal_scheduler::merge_passes(merge, distance).skip(1)
            =~= metal_scheduler::merge_passes(merge, distance / 2));
    }
}

/// A lane that ran is reported as complete after one step, with its frame in place.
pub proof fn law_a_completed_lane_took_one_step(lane: u32, offset: u32, len: u32)
    ensures
        ({
            let r = metal_scheduler::completed_lane(lane, offset, len);
            &&& r.lane == lane
            &&& r.frame_offset == offset
            &&& r.frame_len == len
            &&& r.status == 1
            &&& r.step_kind == 1
            &&& r.consumed_steps == 1
            &&& r.next_run_class == 0
            &&& r.flags == 0
            &&& r.target == 0
            &&& r.value == 0
        }),
{
}

/// Lanes of an installed class run in one dispatch, or one by one where the body depends on
/// place. They must be of one class, and their frames lie one behind the other.
pub proof fn law_lanes_run_together_where_place_does_not_matter(
    handlers: Map<u32, FrameEvaluator>,
    lanes: Seq<DeviceEvaluatorLane>,
    frames: int,
    plan: Result<LanePlan, LaneValidationError>,
)
    requires
        metal_scheduler::lane_plan_is(handlers, lanes, frames, plan),
        0 < lanes.len() <= u32::MAX,
        frames <= u32::MAX,
        handlers.contains_key(lanes[0].run_class),
    ensures
        ({
            let h = handlers[lanes[0].run_class];
            let packed = frames == lanes.len() * h.stride && forall|i: int|
                0 <= i < lanes.len() ==> (#[trigger] lanes[i]).run_class == lanes[0].run_class
                    && lanes[i].frame_len == h.stride && lanes[i].frame_offset == i * h.stride;
            &&& !packed ==> plan == Err::<LanePlan, _>(LaneValidationError::InvalidInput)
            &&& packed ==> (plan matches Ok(LanePlan::Installed { stride, count, offsets })
                && stride == h.stride && (h.batchable ==> count == lanes.len() && offsets@
                == seq![0u32]) && (!h.batchable ==> count == 1 && offsets@.len() == lanes.len()
                && forall|i: int|
                0 <= i < lanes.len() ==> #[trigger] offsets@[i] == lanes[i].frame_offset))
        }),
{
    let h = handlers[lanes[0].run_class];
    if metal_scheduler::all_packed(lanes, h.stride, frames) {
        assert forall|i: int| 0 <= i < lanes.len() implies (#[trigger] lanes[i]).run_class
            == lanes[0].run_class && lanes[i].frame_len == h.stride && lanes[i].frame_offset == i
            * h.stride by {
            assert(metal_scheduler::is_packed(lanes, h.stride, i));
        }
    } else if frames == lanes.len() * h.stride {
        let i = choose|i: int|
            0 <= i < lanes.len() && !#[trigger] metal_scheduler::is_packed(lanes, h.stride, i);
        assert(!(lanes[i].run_class == lanes[0].run_class && lanes[i].frame_len == h.stride
            && lanes[i].frame_offset == i * h.stride));
    }
}

// ---- resident searches -----------------------------------------------------

/// A tree has as many roots as it is told, and each node below them as many children.
pub proof fn law_levels_grow_by_branching(config: ResidentSearchConfig, n: nat)
    ensures
        metal_search::level_size(config, 0) == config.roots,
        metal_search::level_size(config, n + 1) == metal_search::level_size(config, n)
            * config.branching,
        metal_search::nodes_above(config, 0) == 0,
        metal_search::nodes_above(config, n + 1) == metal_search::nodes_above(config, n)
            + metal_search::level_size(config, n),
        metal_search::node_total(config) == metal_search::nodes_above(
            config,
            (config.depth + 1) as nat,
        ),
{
}

/// A search starts from roots numbered from one, each with the whole depth below it, and
/// takes one epoch for each level, whose events lie behind those of the levels above.
pub proof fn law_a_search_goes_level_by_level(
    config: ResidentSearchConfig,
    plan: SearchPlan,
    r: int,
    e: int,
)
    requires
        metal_search::search_plan_is(config, plan),
        0 <= r < config.roots,
        0 <= e <= config.depth,
    ensures
        plan.roots@.len() == config.roots,
        plan.roots@[r].value == r + 1,
        plan.roots@[r].depth == config.depth,
        plan.roots@[r].branching == config.branching,
        plan.roots@[r].work_iters == config.work_iters,
        plan.roots@[r].class_count == config.class_count,
        plan.epochs@.len() == config.depth + 1,
        plan.epochs@[e].epoch == e,
        plan.epochs@[e].trace_offset == metal_search::nodes_above(config, e as nat) as u32,
        plan.constants.branching == config.branching,
        plan.constants.work_iters == config.work_iters,
        plan.constants.class_count == config.class_count,
        plan.constants.cohort_width == if config.cohort_width == 0 {
            1
        } else {
            config.cohort_width
        },
{
}

/// The device's counters are read from these words.
pub proof fn law_where_a_search_s_counters_lie(words: Seq<u32>)
    ensures
        ({
            let r = metal_search::search_result(words);
            &&& r.nodes == words[3]
            &&& r.epochs == words[4]
            &&& r.checksum_sum == words[5]
            &&& r.checksum_xor == words[6]
            &&& r.overflow == words[7]
            &&& r.cohorts == words[8]
            &&& r.lane_slots == words[9]
            &&& r.useful_lane_slots == words[10]
        }),
{
}

/// A graph of frames is taken where its class has a handler, its cohorts have a width,
/// there is one whole frame for each binding, and its trace can be addressed.
pub proof fn law_a_graph_has_a_frame_for_each_binding(
    handlers: Map<u32, u32>,
    config: ResidentFrameGraphConfig,
    bindings: int,
    frames: int,
)
    requires
        0 <= bindings,
    ensures
        metal_search::graph_refusal(handlers, config, bindings, frames) is None <==> {
            &&& handlers.contains_key(config.run_class)
            &&& config.cohort_width > 0
            &&& frames == bindings * handlers[config.run_class]
            &&& bindings <= u32::MAX
            &&& bindings == 0 || bindings * config.epochs * 16 <= usize::MAX
        },
        !handlers.contains_key(config.run_class) <==> metal_search::graph_refusal(
            handlers,
            config,
            bindings,
            frames,
        ) == Some(BackendError::UnsupportedEvaluator),
{
}

/// The device records two operations for each continuation, and they are its journal.
pub proof fn law_a_journal_is_a_pair_of_operations(operations: Seq<DeviceLaneOperation>, i: int)
    requires
        0 <= i,
        2 * i + 1 < operations.len(),
    ensures
        ({
            let j = metal_search::pair_journal(operations, i);
            &&& j.operations.len() == 2
            &&& j.operations[0] == operations[2 * i]
            &&& j.operations[1] == operations[2 * i + 1]
            &&& j.payload.len() == 0
        }),
{
}

/// A lane acts as its process on its frame.
pub proof fn law_a_lane_acts_on_its_own_frame(lane: DeviceEvaluatorLane)
    ensures
        ({
            let b = metal_search::binding_of(lane);
            &&& b.continuation == lane.continuation
            &&& b.process == lane.process
            &&& b.frame == lane.frame
            &&& b.actor == lane.process
            &&& b.target == lane.frame
        }),
{
}

/// Frames are packed in the order of their lanes, each as it lies at its offset.
pub proof fn law_frames_are_packed_in_order(
    lanes: Seq<DeviceEvaluatorLane>,
    frames: Seq<u8>,
    stride: int,
    n: int,
    i: int,
    k: int,
)
    requires
        0 <= i < n <= lanes.len(),
        0 <= k < stride,
        forall|l: int|
            0 <= l < lanes.len() ==> (#[trigger] lanes[l]).frame_offset + stride <= frames.len(),
    ensures
        metal_search::packed_frames(lanes, frames, stride, n).len() == n * stride,
        0 <= i * stride + k < n * stride,
        metal_search::packed_frames(lanes, frames, stride, n)[i * stride + k]
            == frames[lanes[i].frame_offset + k],
    decreases n,
{
    assert((n - 1) * stride + stride == n * stride && 0 <= i * stride) by (nonlinear_arith)
        requires
            0 <= i,
            0 <= stride,
    ;
    if n == 1 {
        assert(metal_search::packed_frames(lanes, frames, stride, 0).len() == 0);
        assert(0 * stride == 0) by (nonlinear_arith);
    } else {
        law_frames_are_packed_in_order(
            lanes,
            frames,
            stride,
            n - 1,
            if i < n - 1 {
                i
            } else {
                0
            },
            k,
        );
    }
}

/// A journal that is handed on names its caller's lane, and is otherwise as it was.
pub proof fn law_only_the_lane_is_relabelled(journal: JournalView, lane: u32, i: int)
    requires
        0 <= i < journal.operations.len(),
    ensures
        ({
            let after = metal_search::relabelled(journal, lane);
            &&& after.operations.len() == journal.operations.len()
            &&& after.payload == journal.payload
            &&& after.operations[i].lane == lane
            &&& after.operations[i].ordinal == journal.operations[i].ordinal
            &&& after.operations[i].opcode == journal.operations[i].opcode
            &&& after.operations[i].actor == journal.operations[i].actor
            &&& after.operations[i].target == journal.operations[i].target
            &&& after.operations[i].value == journal.operations[i].value
            &&& after.operations[i].result_ref == journal.operations[i].result_ref
            &&& after.operations[i].result_code == journal.operations[i].result_code
            &&& after.operations[i].payload_offset == journal.operations[i].payload_offset
            &&& after.operations[i].payload_len == journal.operations[i].payload_len
        }),
{
}

} // verus!
