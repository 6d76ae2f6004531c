//! What an epoch of batches publishes, and what a device refuses.

use crate::compiler::body::EvaluatorProgram;
use crate::executives::batch;
use crate::executives::batch::{BackendError, BackendKind, RequestView, Served, StatsView};
use crate::executives::metal;
use crate::executives::metal::{EpochPlan, MetalBatchBackend, Pipeline};
use crate::executives::metal_resident_sync;
use crate::executives::metal_resident_sync::{DeviceLimits, GpuStatus, PlanView};
use crate::executives::metal_scheduler;
use crate::executives::metal_search;
use crate::executives::metal_search::ResidentSearchConfig;
use crate::executives::placement;
use crate::executives::placement::Placed;
use crate::executives::resident_sync::{ConfigView, ContinuationView, ProgramView};
use crate::kernel::{Call, ObjectKind, Ref64};
use vstd::prelude::*;

verus! {

// ---- epochs of batches -----------------------------------------------------

/// An epoch that succeeds publishes one output for each collective, in order: a new frozen
/// array of what its own request was answered, which completes that collective. Each is
/// counted once.
pub proof fn law_an_epoch_publishes_each_output(
    actor: Ref64,
    collectives: Seq<Ref64>,
    requests: Seq<RequestView>,
    outputs: Seq<Option<Placed>>,
    k: Seq<Call>,
    before: StatsView,
    after: StatsView,
    refs: Seq<Ref64>,
    i: int,
)
    requires
        placement::epoch_published(
            actor,
            collectives,
            requests,
            outputs,
            k,
            before,
            after,
            Ok(refs),
        ),
        0 <= i < collectives.len(),
    ensures
        refs.len() == collectives.len(),
        k.len() == 3 * collectives.len(),
        outputs[i] matches Some(placed) && k[3 * i] == (Call::CreateObject {
            actor,
            kind: ObjectKind::FrozenArray,
            bytes: placed.bytes,
            reply: refs[i],
        }) && placed.bytes.len() >= requests[i].element_count * requests[i].element_stride,
        k[3 * i + 1] matches Call::Freeze { actor: by, object, reply } && by == actor && object
            == refs[i] && reply is Ok,
        k[3 * i + 2] matches Call::CompleteBatch { actor: by, collective, output, reply } && by
            == actor && collective == collectives[i] && output == refs[i] && reply is Ok,
        after == placement::recorded_upto(before, requests, outputs, refs.len() as int),
{
    assert(placement::published_at(actor, collectives, requests, outputs, k, i, refs[i]));
    let own = k.subrange(3 * i, 3 * i + 3);
    assert(own[0] == k[3 * i]);
    assert(own[1] == k[3 * i + 1]);
    assert(own[2] == k[3 * i + 2]);
}

/// Executions are counted one by one, each for the body it ran and where it ran.
pub proof fn law_executions_are_counted_one_by_one(
    before: StatsView,
    requests: Seq<RequestView>,
    outputs: Seq<Option<Placed>>,
    n: int,
)
    requires
        0 <= n < requests.len(),
        n < outputs.len(),
        outputs[n] is Some,
    ensures
        placement::recorded_upto(before, requests, outputs, 0) == before,
        placement::recorded_upto(before, requests, outputs, n + 1) == placement::recorded_upto(
            before,
            requests,
            outputs,
            n,
        ).recorded(requests[n].evaluator_id, outputs[n]->0.kind, outputs[n]->0.spilled),
{
}

/// An epoch without collectives asks for nothing. One that makes no call beyond those for
/// its inputs has failed, and counts nothing. Backends are asked no more than they have to
/// be.
pub proof fn law_a_refused_epoch_publishes_nothing(
    actor: Ref64,
    collectives: Seq<Ref64>,
    minimum: u32,
    k: Seq<Call>,
    accelerator: BackendKind,
    a: Seq<Served>,
    cpu: BackendKind,
    c: Seq<Served>,
    before: StatsView,
    after: StatsView,
    result: Result<Seq<Ref64>, BackendError>,
)
    requires
        placement::epoch_executed(
            actor,
            collectives,
            minimum,
            k,
            accelerator,
            a,
            cpu,
            c,
            before,
            after,
            result,
        ),
    ensures
        collectives.len() == 0 ==> k.len() == 0 && a.len() == 0 && c.len() == 0 && after == before
            && result == Ok::<Seq<Ref64>, BackendError>(Seq::empty()),
        collectives.len() > 0 && k.len() <= 2 * collectives.len() + 1 ==> after == before && result
            is Err,
        a.len() <= 1,
        c.len() <= 2,
{
    if collectives.len() > 0 {
        let n = collectives.len() as int;
        let opening = placement::epoch_opening(k, n);
        match placement::fetch_result(opening, n) {
            Err(_) => {},
            Ok(requests) => {
                let p = choose|p: Result<placement::EpochPlaced, BackendError>| #[trigger]
                    placement::epoch_finished(
                        actor,
                        collectives,
                        minimum,
                        requests,
                        k,
                        accelerator,
                        a,
                        cpu,
                        c,
                        before,
                        after,
                        result,
                        p,
                    );
                assert(placement::epoch_finished(
                    actor,
                    collectives,
                    minimum,
                    requests,
                    k,
                    accelerator,
                    a,
                    cpu,
                    c,
                    before,
                    after,
                    result,
                    p,
                ));
                if k.len() <= 2 * n + 1 && p is Ok {
                    let outputs = placement::slots(requests, minimum, p->Ok_0);
                    let rest = k.skip(2 * n + 1);
                    if result is Err {
                        let refs = choose|refs: Seq<Ref64>| #[trigger]
                            placement::stopped(
                                actor,
                                collectives,
                                requests,
                                outputs,
                                rest,
                                before,
                                after,
                                refs,
                                result->Err_0,
                            );
                        assert(refs.len() == 0);
                    }
                }
            },
        }
    }
}

/// Work is shared out over threads in equal parts, rounded up, so that no more than all
/// threads are needed.
pub proof fn law_shares_are_equal_and_enough(count: int, threads: int)
    requires
        count >= 0,
    ensures
        threads <= 1 ==> batch::share_length(count, threads) == count,
        threads > 1 ==> {
            let share = batch::share_length(count, threads);
            &&& share * threads >= count
            &&& count > 0 ==> (share - 1) * threads < count
        },
{
    if threads > 1 {
        let share = (count + threads - 1) / threads;
        assert(share * threads >= count && (count > 0 ==> (share - 1) * threads < count))
            by (nonlinear_arith)
            requires
                share == (count + threads - 1) / threads,
                threads > 1,
                count >= 0,
        ;
    }
}

/// A body that is installed twice is the later one.
pub proof fn law_the_last_installed_body_counts(
    programs: Seq<&EvaluatorProgram>,
    program: &EvaluatorProgram,
    id: u32,
)
    ensures
        ({
            let before = batch::CpuReferenceBackend::installed_from(programs);
            let after = batch::CpuReferenceBackend::installed_from(programs.push(program));
            &&& after.contains_key(program@.id)
            &&& after[program@.id] == program@
            &&& id != program@.id ==> (after.contains_key(id) <==> before.contains_key(id))
            &&& id != program@.id && before.contains_key(id) ==> after[id] == before[id]
        }),
        ({
            let before = MetalBatchBackend::recorded_from(programs);
            let after = MetalBatchBackend::recorded_from(programs.push(program));
            &&& after.contains_key(program@.id)
            &&& after[program@.id].stride == program@.stride() as u32
            &&& after[program@.id].aux_stride == program@.aux_stride() as u32
            &&& id != program@.id && before.contains_key(id) ==> after[id] == before[id]
        }),
{
    assert(programs.push(program).drop_last() =~= programs);
}

// ---- what a device refuses -------------------------------------------------

/// An epoch is refused for the first request that does not fit, and otherwise where its
/// staging cannot be addressed.
pub proof fn law_an_epoch_is_refused_for_its_first_misfit(
    pipelines: Map<u32, Pipeline>,
    requests: Seq<RequestView>,
    from: int,
)
    requires
        0 <= from < requests.len(),
    ensures
        ({
            let refusal = metal::refusal_of(pipelines, requests[from]);
            let whole = metal::epoch_refusal(pipelines, requests, from);
            &&& refusal is Some ==> whole == refusal
            &&& refusal is None && metal::staged_at(requests, from + 1) > usize::MAX ==> whole
                == Some(BackendError::InvalidInput)
            &&& refusal is None && metal::staged_at(requests, from + 1) <= usize::MAX ==> whole
                == metal::epoch_refusal(pipelines, requests, from + 1)
            &&& metal::epoch_refusal(pipelines, requests, requests.len() as int) is None
        }),
{
}

/// A plan dispatches each request over its own bytes, at its own place.
pub proof fn law_a_plan_dispatches_each_request(plan: EpochPlan, requests: Seq<RequestView>, i: int)
    requires
        plan.is_for(requests),
        0 <= i < requests.len(),
    ensures
        plan.dispatches@.len() == requests.len(),
        plan.dispatches@[i].required == requests[i].element_count * requests[i].element_stride,
        plan.dispatches@[i].aux_required == requests[i].aux.element_count
            * requests[i].aux.element_stride,
        plan.offsets@[i] == metal::staged_at(requests, i),
        plan.staged == metal::staged_at(requests, requests.len() as int),
{
    assert(plan.dispatches@[i].required == metal::bytes_of(requests[i]));
    assert(plan.offsets@[i] == metal::staged_at(requests, i));
}

/// A device takes a run only where its cohorts fit a threadgroup and its table of lanes, and
/// its tables can be numbered.
pub proof fn law_a_device_s_cohorts_are_bounded(
    c: ConfigView,
    width: u32,
    conts: Seq<ContinuationView>,
    table: Map<u32, ProgramView>,
    limits: DeviceLimits,
)
    requires
        metal_resident_sync::device_accepts(c, width, conts, table, limits),
    ensures
        1 <= width <= 32,
        width <= limits.max_threads_per_threadgroup,
        conts.len() * c.max_frame_bytes <= u32::MAX,
        c.mailbox_capacities.len() * c.max_continuations <= u32::MAX,
        c.objects.len() * c.max_frame_bytes <= u32::MAX,
        conts.len() * c.max_effects_per_step <= u32::MAX,
        c.max_epochs * conts.len() * c.max_effects_per_step + c.max_epochs * conts.len()
            <= u32::MAX,
{
}

/// A buffer holds one record at least, and fits where all of its bytes can be addressed and
/// the device has room for them.
pub proof fn law_a_buffer_fits_where_its_bytes_do(limits: DeviceLimits, count: int, size: int)
    requires
        size > 0,
    ensures
        count >= 1 ==> (metal_resident_sync::buffer_fits(limits, count, size) <==> count * size
            <= limits.max_buffer_length && count * size <= usize::MAX),
        count <= 0 ==> (metal_resident_sync::buffer_fits(limits, count, size) <==> size
            <= limits.max_buffer_length && size <= usize::MAX),
{
}

/// The device's buffers are these, each with so many records of so many bytes.
pub proof fn law_the_device_s_buffers(
    c: ConfigView,
    width: u32,
    count: int,
    table: Map<u32, ProgramView>,
)
    ensures
        ({
            let s = metal_resident_sync::buffer_sizes(c, width, count, table);
            let classes = metal_resident_sync::class_order(table);
            let effects = c.max_epochs * count * c.max_effects_per_step;
            let invocations = c.max_epochs * count;
            &&& s.len() == 22
            &&& s[0] == (1int, 76int)
            &&& s[1] == (count, 72int)
            &&& s[2] == (count * c.max_frame_bytes, 1int)
            &&& s[3] == (classes.len() as int, 16int)
            &&& s[5] == (c.futures.len() as int, 16int)
            &&& s[6] == (c.mailbox_capacities.len() as int, 16int)
            &&& s[7] == (c.mailbox_capacities.len() * c.max_continuations, 16int)
            &&& s[8] == (c.capabilities.len() as int, 24int)
            &&& s[9] == (effects, 64int)
            &&& s[10] == (effects + invocations, 32int)
            &&& s[11] == (count, 8int)
            &&& s[12] == (1int, 48int)
            &&& s[13] == (count, 32int)
            &&& s[14] == (invocations, 32int)
            &&& s[15] == (invocations, 48int)
            &&& s[16] == (c.max_epochs as int, 16int)
            &&& s[17] == (c.objects.len() as int, 8int)
            &&& s[18] == (c.objects.len() * c.max_frame_bytes, 1int)
            &&& s[19] == (c.object_capabilities.len() as int, 40int)
            &&& s[20] == (count * c.max_effects_per_step, 64int)
            &&& s[21] == (width as int, 4int)
        }),
{
}

/// What a device reports is taken where it reports no error and no more of anything than
/// there is room for.
pub proof fn law_a_status_is_within_its_plan(plan: PlanView, status: GpuStatus)
    ensures
        metal_resident_sync::status_is_sound(plan, status) <==> {
            &&& status.error == 0
            &&& status.effect_count <= plan.effect_capacity
            &&& status.trace_count <= plan.trace_capacity
            &&& status.completed_count <= plan.continuations.len()
            &&& status.invocation_count <= plan.invocation_capacity
            &&& status.wake_count <= plan.invocation_capacity
            &&& status.epoch_count <= plan.config.max_epochs
        },
{
}

/// Buffers are made anew exactly where there are none or one of them is too short.
pub proof fn law_short_buffers_are_made_anew(a: usize, b: usize, first: usize, second: usize)
    ensures
        metal_scheduler::is_short(None, first, second),
        metal_scheduler::is_short(Some((a, b)), first, second) <==> a < first || b < second,
{
}

/// A journal verdict is good where every one is.
pub proof fn law_every_journal_is_to_be_valid(valid: Seq<u32>, i: int)
    requires
        metal_scheduler::all_valid(valid),
        0 <= i < valid.len(),
    ensures
        valid[i] == 1,
{
}

/// A tree is too large where it, or one of its levels, cannot be counted in 32 bits.
pub proof fn law_a_tree_that_cannot_be_counted_is_too_large(config: ResidentSearchConfig, n: nat)
    requires
        n <= config.depth + 1,
    ensures
        metal_search::level_size(config, n) > u32::MAX ==> metal_search::is_too_large(config),
        metal_search::node_total(config) > u32::MAX ==> metal_search::is_too_large(config),
        !metal_search::is_too_large(config) ==> metal_search::node_total(config) <= u32::MAX
            && metal_search::level_size(config, n) <= u32::MAX,
{
}

} // verus!
