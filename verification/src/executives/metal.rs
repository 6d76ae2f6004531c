//! The host side of a batch backend on a Metal device.
//!
//! What is decided before a command buffer is committed and after it completed
//! stands here: which requests are refused, how an epoch's inputs are staged,
//! what each dispatch is given, and what its outputs come to. The device itself
//! is outside this library.

use crate::bytes;
use crate::compiler::body::EvaluatorProgram;
use crate::executives::batch;
use crate::executives::batch::{BackendError, BatchRequest, RequestView};
use crate::experiments::ant_colony::overwrite;
use std::collections::BTreeMap;
use vstd::prelude::*;

verus! {

/// Dispatch-time choices. They change no byte of an answer.
#[derive(Clone, Copy, Debug, PartialEq, Eq, Structural)]
pub struct MetalTuning {
    /// Threads per group, or the device's own width where none is asked for.
    pub threadgroup_width: Option<u64>,
    /// Whether staging buffers are kept from one call to the next.
    pub reuse_scratch_buffers: bool,
}

impl Default for MetalTuning {
    fn default() -> (tuning: Self)
        ensures
            tuning == (MetalTuning { threadgroup_width: None, reuse_scratch_buffers: true }),
    {
        MetalTuning { threadgroup_width: None, reuse_scratch_buffers: true }
    }
}

/// What a body's pipeline was declared with.
#[derive(Clone, Copy, Debug, PartialEq, Eq, Structural)]
pub struct Pipeline {
    pub stride: u32,
    pub aux_stride: u32,
}

/// The host's record of a Metal backend: the bodies it has pipelines for, its
/// tuning, and how large its staging buffers are.
pub struct MetalBatchBackend {
    pub pipelines: BTreeMap<u32, Pipeline>,
    pub tuning: MetalTuning,
    pub scratch: Option<u64>,
}

/// What a request that was accepted needs of the device.
#[derive(Clone, Copy, Debug, PartialEq, Eq, Structural)]
pub struct Dispatch {
    /// Bytes of input, and of output.
    pub required: usize,
    pub aux_required: usize,
}

/// Why a request is refused, if it is. Refusals are the ones that the reference
/// backend makes, but that an empty body is allowed.
pub open spec fn refusal_of(pipelines: Map<u32, Pipeline>, request: RequestView) -> Option<
    BackendError,
> {
    if !pipelines.dom().contains(request.evaluator_id) {
        Some(BackendError::UnsupportedEvaluator)
    } else {
        let pipeline = pipelines[request.evaluator_id];
        if pipeline.stride != request.element_stride || pipeline.aux_stride
            != request.aux.element_stride || request.aux.bytes.len() < aux_bytes_of(request)
            || request.inputs.len() < bytes_of(request) {
            Some(BackendError::InvalidInput)
        } else {
            None
        }
    }
}

pub open spec fn bytes_of(request: RequestView) -> int {
    request.element_count * request.element_stride
}

pub open spec fn aux_bytes_of(request: RequestView) -> int {
    request.aux.element_count * request.aux.element_stride
}

/// `n` rounded up to the alignment of a buffer offset.
pub open spec fn aligned(n: int) -> int {
    ((n + 255) / 256) * 256
}

/// Where the input of request `i` is staged: each starts aligned, past the ones
/// before it.
pub open spec fn staged_at(requests: Seq<RequestView>, i: int) -> int
    decreases i,
{
    if i <= 0 {
        0
    } else {
        staged_at(requests, i - 1) + aligned(bytes_of(requests[i - 1]))
    }
}

/// The first refusal among the requests from `i` on, in order. A request whose
/// staged input passes what can be addressed is refused too.
pub open spec fn epoch_refusal(
    pipelines: Map<u32, Pipeline>,
    requests: Seq<RequestView>,
    i: int,
) -> Option<BackendError>
    decreases requests.len() - i,
{
    if i >= requests.len() {
        None
    } else if refusal_of(pipelines, requests[i]) is Some {
        refusal_of(pipelines, requests[i])
    } else if staged_at(requests, i + 1) > usize::MAX {
        Some(BackendError::InvalidInput)
    } else {
        epoch_refusal(pipelines, requests, i + 1)
    }
}

pub proof fn lemma_aligned(n: int)
    requires
        0 <= n,
    ensures
        n <= aligned(n) < n + 256,
        aligned(n) % 256 == 0,
        n == 0 ==> aligned(n) == 0,
{
}

pub proof fn lemma_staged_grows(requests: Seq<RequestView>, i: int, j: int)
    requires
        0 <= i <= j <= requests.len(),
    ensures
        staged_at(requests, i) <= staged_at(requests, j),
        i < j ==> staged_at(requests, i) + bytes_of(requests[i]) <= staged_at(requests, j),
    decreases j - i,
{
    if i < j {
        lemma_staged_grows(requests, i, j - 1);
        assert(0 <= bytes_of(requests[j - 1])) by (nonlinear_arith);
        assert(0 <= bytes_of(requests[i])) by (nonlinear_arith);
        lemma_aligned(bytes_of(requests[j - 1]));
        lemma_aligned(bytes_of(requests[i]));
    }
}

/// The staged inputs of an epoch do not overlap, and each starts aligned.
pub proof fn law_staged_inputs_do_not_overlap(requests: Seq<RequestView>, i: int, j: int)
    requires
        0 <= i < j < requests.len(),
    ensures
        staged_at(requests, i) + bytes_of(requests[i]) <= staged_at(requests, j),
        staged_at(requests, j) % 256 == 0,
{
    lemma_staged_grows(requests, i, j);
    lemma_staged_aligned(requests, j);
}

proof fn lemma_staged_aligned(requests: Seq<RequestView>, j: int)
    requires
        0 <= j <= requests.len(),
    ensures
        staged_at(requests, j) % 256 == 0,
    decreases j,
{
    if j > 0 {
        lemma_staged_aligned(requests, j - 1);
        assert(0 <= bytes_of(requests[j - 1])) by (nonlinear_arith);
        lemma_aligned(bytes_of(requests[j - 1]));
    }
}

/// What an epoch of accepted requests needs of the device.
#[derive(Debug)]
pub struct EpochPlan {
    pub dispatches: Vec<Dispatch>,
    pub offsets: Vec<usize>,
    /// Bytes of the staging buffer.
    pub staged: usize,
}

impl EpochPlan {
    /// The plan is the one for `requests`.
    pub open spec fn is_for(&self, requests: Seq<RequestView>) -> bool {
        &&& self.dispatches@.len() == requests.len()
        &&& self.offsets@.len() == requests.len()
        &&& self.staged == staged_at(requests, requests.len() as int)
        &&& forall|i: int|
            0 <= i < requests.len() ==> {
                &&& (#[trigger] self.dispatches@[i]).required == bytes_of(requests[i])
                &&& self.dispatches@[i].aux_required == aux_bytes_of(requests[i])
                &&& requests[i].inputs.len() >= bytes_of(requests[i])
            }
        &&& forall|i: int|
            0 <= i < requests.len() ==> #[trigger] self.offsets@[i] == staged_at(requests, i)
    }
}

/// What is done about the staging buffers.
#[derive(Clone, Copy, Debug, PartialEq, Eq, Structural)]
pub enum Staging {
    /// The buffers at hand are large enough.
    Keep,
    /// New ones of this size are made and kept.
    Grow(u64),
    /// New ones of this size are made for this call alone.
    Fresh(u64),
}

impl MetalBatchBackend {
    pub fn new() -> (backend: Self)
        ensures
            backend.pipelines@ == Map::<u32, Pipeline>::empty(),
            backend.tuning == (MetalTuning {
                threadgroup_width: None,
                reuse_scratch_buffers: true,
            }),
            backend.scratch is None,
    {
        Self::new_with_tuning(
            MetalTuning { threadgroup_width: None, reuse_scratch_buffers: true },
        )
    }

    pub fn new_with_tuning(tuning: MetalTuning) -> (backend: Self)
        ensures
            backend.pipelines@ == Map::<u32, Pipeline>::empty(),
            backend.tuning == tuning,
            backend.scratch is None,
    {
        MetalBatchBackend { pipelines: BTreeMap::new(), tuning, scratch: None }
    }

    pub fn tuning(&self) -> (tuning: MetalTuning)
        ensures
            tuning == self.tuning,
    {
        self.tuning
    }

    /// Changes dispatch-time choices without touching compiled pipelines.
    pub fn set_tuning(&mut self, tuning: MetalTuning)
        ensures
            final(self).tuning == tuning,
            final(self).pipelines == old(self).pipelines,
            final(self).scratch == old(self).scratch,
    {
        self.tuning = tuning;
    }

    /// Records that the device compiled a pipeline for `program`.
    pub fn record_pipeline(&mut self, program: &EvaluatorProgram)
        requires
            program.well_formed(),
        ensures
            final(self).pipelines@ == old(self).pipelines@.insert(
                program@.id,
                Pipeline {
                    stride: program@.stride() as u32,
                    aux_stride: program@.aux_stride() as u32,
                },
            ),
            final(self).tuning == old(self).tuning,
            final(self).scratch == old(self).scratch,
    {
        let pipeline = Pipeline { stride: program.stride(), aux_stride: program.aux_stride() };
        self.pipelines.insert(program.id(), pipeline);
    }

    /// Bodies recorded in the order given.
    pub open spec fn recorded_from(programs: Seq<&EvaluatorProgram>) -> Map<u32, Pipeline>
        decreases programs.len(),
    {
        if programs.len() == 0 {
            Map::empty()
        } else {
            Self::recorded_from(programs.drop_last()).insert(
                programs.last()@.id,
                Pipeline {
                    stride: programs.last()@.stride() as u32,
                    aux_stride: programs.last()@.aux_stride() as u32,
                },
            )
        }
    }

    pub fn with(programs: &[&EvaluatorProgram]) -> (backend: Self)
        requires
            forall|i: int| 0 <= i < programs@.len() ==> (#[trigger] programs@[i]).well_formed(),
        ensures
            backend.pipelines@ == Self::recorded_from(programs@),
            backend.tuning == (MetalTuning {
                threadgroup_width: None,
                reuse_scratch_buffers: true,
            }),
    {
        Self::with_tuning(
            programs,
            MetalTuning { threadgroup_width: None, reuse_scratch_buffers: true },
        )
    }

    pub fn with_tuning(programs: &[&EvaluatorProgram], tuning: MetalTuning) -> (backend: Self)
        requires
            forall|i: int| 0 <= i < programs@.len() ==> (#[trigger] programs@[i]).well_formed(),
        ensures
            backend.pipelines@ == Self::recorded_from(programs@),
            backend.tuning == tuning,
    {
        let mut backend = Self::new_with_tuning(tuning);
        let mut i: usize = 0;
        assert(programs@.take(0) =~= Seq::<&EvaluatorProgram>::empty());
        while i < programs.len()
            invariant
                i <= programs.len(),
                backend.pipelines@ == Self::recorded_from(programs@.take(i as int)),
                backend.tuning == tuning,
                forall|i: int| 0 <= i < programs@.len() ==> (#[trigger] programs@[i]).well_formed(),
            decreases programs.len() - i,
        {
            assert(programs@.take(i + 1).drop_last() =~= programs@.take(i as int));
            backend.record_pipeline(programs[i]);
            i = i + 1;
        }
        assert(programs@.take(i as int) =~= programs@);
        backend
    }

    /// Threads per group: what was asked for, or the device's own width, at
    /// least one, at most what the device allows, and no more than there are
    /// elements.
    pub fn threadgroup_width(&self, own_width: u64, device_limit: u64, elements: u32) -> (width: u64)
        ensures
            ({
                let asked = match self.tuning.threadgroup_width {
                    Some(width) => width,
                    None => own_width,
                };
                let least = if asked < 1 {
                    1
                } else {
                    asked as int
                };
                let allowed = if least < device_limit {
                    least
                } else {
                    device_limit as int
                };
                let work = if elements < 1 {
                    1
                } else {
                    elements as int
                };
                width == if allowed < work {
                    allowed
                } else {
                    work
                }
            }),
    {
        let asked: u64 = match self.tuning.threadgroup_width {
            Some(width) => width,
            None => own_width,
        };
        let least: u64 = if asked < 1 {
            1
        } else {
            asked
        };
        let allowed: u64 = if least < device_limit {
            least
        } else {
            device_limit
        };
        let work: u64 = if elements < 1 {
            1
        } else {
            elements as u64
        };
        if allowed < work {
            allowed
        } else {
            work
        }
    }

    /// Staging buffers for `needed` bytes: the ones at hand where they are kept
    /// and large enough.
    pub fn scratch_for(&mut self, needed: u64) -> (staging: Staging)
        ensures
            final(self).tuning == old(self).tuning,
            final(self).pipelines == old(self).pipelines,
            staging == if !old(self).tuning.reuse_scratch_buffers {
                Staging::Fresh(needed)
            } else if old(self).scratch matches Some(capacity) && capacity >= needed {
                Staging::Keep
            } else {
                Staging::Grow(needed)
            },
            final(self).scratch == if staging is Grow {
                Some(needed)
            } else {
                old(self).scratch
            },
    {
        if !self.tuning.reuse_scratch_buffers {
            return Staging::Fresh(needed);
        }
        if let Some(capacity) = self.scratch {
            if capacity >= needed {
                return Staging::Keep;
            }
        }
        self.scratch = Some(needed);
        Staging::Grow(needed)
    }

    /// What running one request needs of the device. A batch without bytes
    /// needs nothing.
    pub fn plan(&self, request: &BatchRequest<'_>) -> (plan: Result<Option<Dispatch>, BackendError>)
        ensures
            match plan {
                Err(error) => refusal_of(self.pipelines@, request@) == Some(error),
                Ok(planned) => {
                    &&& refusal_of(self.pipelines@, request@) is None
                    &&& planned is None <==> bytes_of(request@) == 0
                    &&& planned matches Some(dispatch) ==> dispatch.required == bytes_of(request@)
                        && dispatch.aux_required == aux_bytes_of(request@)
                },
            },
    {
        match self.accept(request) {
            Err(error) => Err(error),
            Ok(dispatch) => if dispatch.required == 0 {
                Ok(None)
            } else {
                Ok(Some(dispatch))
            },
        }
    }

    fn accept(&self, request: &BatchRequest<'_>) -> (plan: Result<Dispatch, BackendError>)
        ensures
            match plan {
                Err(error) => refusal_of(self.pipelines@, request@) == Some(error),
                Ok(dispatch) => {
                    &&& refusal_of(self.pipelines@, request@) is None
                    &&& dispatch.required == bytes_of(request@)
                    &&& dispatch.aux_required == aux_bytes_of(request@)
                },
            },
    {
        let pipeline: Pipeline = match self.pipelines.get(&request.evaluator_id) {
            Some(pipeline) => *pipeline,
            None => {
                return Err(BackendError::UnsupportedEvaluator);
            },
        };
        if pipeline.stride != request.element_stride || pipeline.aux_stride
            != request.aux.element_stride {
            return Err(BackendError::InvalidInput);
        }
        let aux_len: usize = request.aux.bytes.len();
        let len: usize = request.inputs.len();
        assert(request.aux.bytes@.len() == aux_len && request.inputs@.len() == len);
        let aux_required: usize = match (request.aux.element_count as usize).checked_mul(
            request.aux.element_stride as usize,
        ) {
            Some(required) => required,
            None => {
                return Err(BackendError::InvalidInput);
            },
        };
        if aux_len < aux_required {
            return Err(BackendError::InvalidInput);
        }
        let required: usize = match (request.element_count as usize).checked_mul(
            request.element_stride as usize,
        ) {
            Some(required) => required,
            None => {
                return Err(BackendError::InvalidInput);
            },
        };
        if len < required {
            return Err(BackendError::InvalidInput);
        }
        Ok(Dispatch { required, aux_required })
    }

    /// What running an epoch of requests as one command buffer needs of the
    /// device: all of them are accepted or the epoch is refused.
    pub fn plan_epoch(&self, requests: &Vec<BatchRequest<'_>>) -> (plan: Result<
        EpochPlan,
        BackendError,
    >)
        ensures
            match plan {
                Err(error) => epoch_refusal(
                    self.pipelines@,
                    batch::request_views(requests@),
                    0,
                ) == Some(error),
                Ok(plan) => {
                    &&& epoch_refusal(self.pipelines@, batch::request_views(requests@), 0) is None
                    &&& plan.is_for(batch::request_views(requests@))
                },
            },
    {
        let ghost views = batch::request_views(requests@);
        let ghost pipelines = self.pipelines@;
        let mut dispatches: Vec<Dispatch> = Vec::new();
        let mut offsets: Vec<usize> = Vec::new();
        let mut staged: usize = 0;
        let mut i: usize = 0;
        while i < requests.len()
            invariant
                i <= requests.len(),
                views == batch::request_views(requests@),
                pipelines == self.pipelines@,
                epoch_refusal(pipelines, views, 0) == epoch_refusal(pipelines, views, i as int),
                dispatches@.len() == i,
                offsets@.len() == i,
                staged == staged_at(views, i as int),
                forall|j: int|
                    0 <= j < i ==> (#[trigger] dispatches@[j]).required == bytes_of(views[j]),
                forall|j: int|
                    0 <= j < i ==> (#[trigger] dispatches@[j]).aux_required == aux_bytes_of(
                        views[j],
                    ),
                forall|j: int|
                    0 <= j < i ==> (#[trigger] views[j]).inputs.len() >= bytes_of(views[j]),
                forall|j: int| 0 <= j < i ==> #[trigger] offsets@[j] == staged_at(views, j),
            decreases requests.len() - i,
        {
            assert(views[i as int] == requests@[i as int]@);
            let dispatch: Dispatch = match self.accept(&requests[i]) {
                Ok(dispatch) => dispatch,
                Err(error) => {
                    return Err(error);
                },
            };
            proof {
                lemma_aligned(dispatch.required as int);
                assert(refusal_of(pipelines, views[i as int]) is None);
                assert(views[i as int].inputs.len() >= bytes_of(views[i as int]));
            }
            let blocks: usize = dispatch.required / 256 + if dispatch.required % 256 == 0 {
                0
            } else {
                1
            };
            assert(aligned(dispatch.required as int) == blocks * 256);
            let next: Option<usize> = match blocks.checked_mul(256) {
                Some(padded) => staged.checked_add(padded),
                None => None,
            };
            match next {
                Some(next) => {
                    dispatches.push(dispatch);
                    offsets.push(staged);
                    staged = next;
                },
                None => {
                    return Err(BackendError::InvalidInput);
                },
            }
            i = i + 1;
        }
        Ok(EpochPlan { dispatches, offsets, staged })
    }
}

/// The staging buffer of an epoch: each input at its offset.
pub open spec fn is_staged(buffer: Seq<u8>, requests: Seq<RequestView>, n: int) -> bool {
    forall|i: int|
        0 <= i < n ==> buffer.subrange(
            staged_at(requests, i),
            staged_at(requests, i) + bytes_of(requests[i]),
        ) == (#[trigger] requests[i]).inputs.take(bytes_of(requests[i]))
}

/// Lays the inputs of an epoch out as its plan says.
pub fn stage(plan: &EpochPlan, requests: &Vec<BatchRequest<'_>>) -> (buffer: Vec<u8>)
    requires
        plan.is_for(batch::request_views(requests@)),
    ensures
        buffer@.len() == plan.staged,
        is_staged(buffer@, batch::request_views(requests@), requests@.len() as int),
{
    let ghost views = batch::request_views(requests@);
    let mut buffer: Vec<u8> = vec![0u8; plan.staged];
    let mut i: usize = 0;
    while i < requests.len()
        invariant
            i <= requests.len(),
            views == batch::request_views(requests@),
            plan.is_for(views),
            buffer@.len() == plan.staged,
            is_staged(buffer@, views, i as int),
        decreases requests.len() - i,
    {
        assert(views[i as int] == requests@[i as int]@);
        assert(plan.dispatches@[i as int].required == bytes_of(views[i as int]));
        assert(plan.offsets@[i as int] == staged_at(views, i as int));
        let required: usize = plan.dispatches[i].required;
        let offset: usize = plan.offsets[i];
        let ghost before = buffer@;
        let input: Vec<u8> = vstd::slice::slice_to_vec(
            vstd::slice::slice_subrange(requests[i].inputs, 0, required),
        );
        proof {
            lemma_staged_grows(views, i as int, views.len() as int);
            assert(input@ =~= views[i as int].inputs.take(required as int));
        }
        overwrite(buffer.as_mut_slice(), offset, &input);
        proof {
            assert(buffer@.subrange(offset as int, offset + required) =~= input@);
            assert forall|j: int| 0 <= j < i + 1 implies buffer@.subrange(
                staged_at(views, j),
                staged_at(views, j) + bytes_of(views[j]),
            ) == (#[trigger] views[j]).inputs.take(bytes_of(views[j])) by {
                if j < i {
                    lemma_staged_grows(views, j, i as int);
                    lemma_staged_grows(views, 0, j);
                    assert(0 <= bytes_of(views[j])) by (nonlinear_arith);
                    assert(buffer@.subrange(
                        staged_at(views, j),
                        staged_at(views, j) + bytes_of(views[j]),
                    ) =~= before.subrange(
                        staged_at(views, j),
                        staged_at(views, j) + bytes_of(views[j]),
                    ));
                }
            }
        }
        i = i + 1;
    }
    buffer
}

/// Each request that has bytes left as many as it took.
pub open spec fn outputs_fit(plan: EpochPlan, outputs: Seq<Seq<u8>>) -> bool {
    &&& outputs.len() == plan.dispatches@.len()
    &&& forall|i: int|
        0 <= i < outputs.len() && plan.dispatches@[i].required != 0 ==> (
        #[trigger] outputs[i]).len() == plan.dispatches@[i].required
}

/// What an epoch comes to, where the device did or did not complete it and
/// left `outputs`: a request without bytes has an empty output, and one whose
/// output has another length than its input fails the epoch.
pub open spec fn epoch_outputs(plan: EpochPlan, completed: bool, outputs: Seq<Seq<u8>>) -> Result<
    Seq<Seq<u8>>,
    BackendError,
> {
    if (plan.staged != 0 && !completed) || !outputs_fit(plan, outputs) {
        Err(BackendError::ExecutionFailed)
    } else {
        Ok(
            Seq::new(
                plan.dispatches@.len(),
                |i: int|
                    if plan.dispatches@[i].required == 0 {
                        Seq::empty()
                    } else {
                        outputs[i]
                    },
            ),
        )
    }
}

pub fn finish_epoch(plan: &EpochPlan, completed: bool, outputs: Vec<Vec<u8>>) -> (result: Result<
    Vec<Vec<u8>>,
    BackendError,
>)
    ensures
        batch::lists_reply(result) == epoch_outputs(
            *plan,
            completed,
            crate::kernel::byte_lists(outputs@),
        ),
{
    let ghost given = crate::kernel::byte_lists(outputs@);
    if (plan.staged != 0 && !completed) || outputs.len() != plan.dispatches.len() {
        return Err(BackendError::ExecutionFailed);
    }
    let mut left: Vec<Vec<u8>> = outputs;
    let mut lists: Vec<Vec<u8>> = Vec::new();
    let mut i: usize = 0;
    while i < plan.dispatches.len()
        invariant
            i <= plan.dispatches.len() == left@.len(),
            given.len() == left@.len(),
            given == crate::kernel::byte_lists(outputs@),
            forall|j: int| i <= j < left@.len() ==> (#[trigger] left@[j])@ == given[j],
            forall|j: int|
                0 <= j < i && plan.dispatches@[j].required != 0 ==> (#[trigger] given[j]).len()
                    == plan.dispatches@[j].required,
            lists@.len() == i,
            forall|j: int|
                0 <= j < i ==> (#[trigger] lists@[j])@ == if plan.dispatches@[j].required == 0 {
                    Seq::empty()
                } else {
                    given[j]
                },
        decreases plan.dispatches.len() - i,
    {
        let mut output: Vec<u8> = Vec::new();
        assert(left@[i as int]@ == given[i as int]);
        if plan.dispatches[i].required != 0 {
            if left[i].len() != plan.dispatches[i].required {
                assert(!outputs_fit(*plan, given));
                return Err(BackendError::ExecutionFailed);
            }
            std::mem::swap(&mut output, &mut left[i]);
        } else {
            assert(output@ =~= Seq::<u8>::empty());
        }
        lists.push(output);
        i = i + 1;
    }
    assert(crate::kernel::byte_lists(lists@) =~= epoch_outputs(*plan, completed, given)->Ok_0);
    Ok(lists)
}

} // verus!
