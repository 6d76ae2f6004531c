//! Physical batch-evaluation backend boundary.
//!
//! Backends operate on frozen bytes and never mutate kernel state directly.
//! The common publication path creates and freezes the output object, then
//! completes the semantic batch collective.

use crate::compiler::body;
use crate::compiler::body::{Arrays, ArraysView, EvaluatorProgram, ProgramView};
use crate::kernel;
use crate::kernel::RuntimeError;
pub use crate::executives::placement::{execute_epoch_with_spill, execute_with_spill};
use crate::text;
use crate::text::{push_decimal, push_text};
use std::collections::BTreeMap;
use vstd::prelude::*;

verus! {

#[derive(Clone, Copy, Debug, PartialEq, Eq, Structural)]
pub enum BackendKind {
    Cpu,
    Accelerator,
    Remote,
}

#[derive(Clone, Copy, Debug, PartialEq, Eq, Structural)]
pub enum BackendError {
    Unavailable,
    UnsupportedEvaluator,
    InvalidInput,
    ExecutionFailed,
    AuthorityDenied,
    NodeUnavailable,
    NodeLost,
    ProtocolError,
    Runtime(RuntimeError),
}

impl From<RuntimeError> for BackendError {
    fn from(value: RuntimeError) -> (error: Self) {
        BackendError::Runtime(value)
    }
}

impl vstd::std_specs::convert::FromSpecImpl<RuntimeError> for BackendError {
    open spec fn obeys_from_spec() -> bool {
        true
    }

    open spec fn from_spec(value: RuntimeError) -> Self {
        BackendError::Runtime(value)
    }
}

/// A second, read-only array bound alongside a batch's input array. A zero
/// stride means that nothing is bound.
#[derive(Clone, Copy, Debug)]
pub struct AuxArray<'a> {
    pub bytes: &'a [u8],
    pub element_count: u32,
    pub element_stride: u32,
}

#[verifier::ext_equal]
pub ghost struct AuxView {
    pub bytes: Seq<u8>,
    pub element_count: u32,
    pub element_stride: u32,
}

impl<'a> View for AuxArray<'a> {
    type V = AuxView;

    open spec fn view(&self) -> AuxView {
        AuxView {
            bytes: self.bytes@,
            element_count: self.element_count,
            element_stride: self.element_stride,
        }
    }
}

impl<'a> AuxArray<'a> {
    pub fn new(bytes: &'a [u8], element_count: u32, element_stride: u32) -> (aux: Self)
        ensures
            aux@ == (AuxView { bytes: bytes@, element_count, element_stride }),
    {
        Self { bytes, element_count, element_stride }
    }

    pub fn is_bound(&self) -> (bound: bool)
        ensures
            bound == (self@.element_stride != 0),
    {
        self.element_stride != 0
    }
}

/// What a backend without a second binding says to a bound array: it declines
/// rather than evaluate the body against the input alone.
pub fn decline_bound(aux: &AuxArray<'_>) -> (answer: Result<(), BackendError>)
    ensures
        answer == if aux@.element_stride != 0 {
            Err::<(), _>(BackendError::UnsupportedEvaluator)
        } else {
            Ok(())
        },
{
    if aux.is_bound() {
        Err(BackendError::UnsupportedEvaluator)
    } else {
        Ok(())
    }
}

/// One batch a backend has been asked to evaluate.
#[derive(Clone, Copy, Debug)]
pub struct BatchRequest<'a> {
    pub evaluator_id: u32,
    pub inputs: &'a [u8],
    pub aux: AuxArray<'a>,
    pub element_count: u32,
    pub element_stride: u32,
}

#[verifier::ext_equal]
pub ghost struct RequestView {
    pub evaluator_id: u32,
    pub inputs: Seq<u8>,
    pub aux: AuxView,
    pub element_count: u32,
    pub element_stride: u32,
}

impl<'a> View for BatchRequest<'a> {
    type V = RequestView;

    open spec fn view(&self) -> RequestView {
        RequestView {
            evaluator_id: self.evaluator_id,
            inputs: self.inputs@,
            aux: self.aux@,
            element_count: self.element_count,
            element_stride: self.element_stride,
        }
    }
}

pub open spec fn request_views(requests: Seq<BatchRequest<'_>>) -> Seq<RequestView> {
    Seq::new(requests.len(), |i: int| requests[i]@)
}

/// A request without a second array.
pub open spec fn unbound_request(
    evaluator_id: u32,
    inputs: Seq<u8>,
    element_count: u32,
    element_stride: u32,
) -> RequestView {
    RequestView {
        evaluator_id,
        inputs,
        aux: AuxView { bytes: Seq::empty(), element_count: 0, element_stride: 0 },
        element_count,
        element_stride,
    }
}

/// A request as a backend hears it: a second array without a stride is none.
pub open spec fn heard(request: RequestView) -> RequestView {
    if request.aux.element_stride == 0 {
        unbound_request(
            request.evaluator_id,
            request.inputs,
            request.element_count,
            request.element_stride,
        )
    } else {
        request
    }
}

/// What a backend was asked, and what it answered.
pub ghost enum Served {
    One { request: RequestView, reply: Result<Seq<u8>, BackendError> },
    Epoch { requests: Seq<RequestView>, reply: Result<Seq<Seq<u8>>, BackendError> },
}

pub open spec fn bytes_reply(reply: Result<Vec<u8>, BackendError>) -> Result<
    Seq<u8>,
    BackendError,
> {
    match reply {
        Ok(bytes) => Ok(bytes@),
        Err(error) => Err(error),
    }
}

pub open spec fn lists_reply(reply: Result<Vec<Vec<u8>>, BackendError>) -> Result<
    Seq<Seq<u8>>,
    BackendError,
> {
    match reply {
        Ok(lists) => Ok(kernel::byte_lists(lists@)),
        Err(error) => Err(error),
    }
}

/// What a backend was asked so far.
pub type ServedLog = Seq<Served>;

/// An entry of what a backend was asked. It takes up no room.
pub type Note = Ghost<Served>;

/// A backend answers only for bodies it has been given.
pub trait BatchBackend {
    /// What this backend was asked so far, with its answers.
    spec fn served(&self) -> ServedLog;

    spec fn backend_kind(&self) -> BackendKind;

    /// What the backend keeps of itself between calls.
    spec fn well_formed(&self) -> bool;

    fn kind(&self) -> (kind: BackendKind)
        ensures
            kind == self.backend_kind(),
    ;

    /// Makes `program` available under its evaluator id.
    fn install(&mut self, program: &EvaluatorProgram) -> (result: Result<(), BackendError>)
        requires
            old(self).well_formed(),
            program.well_formed(),
        ensures
            final(self).well_formed(),
            final(self).served() == old(self).served(),
            final(self).backend_kind() == old(self).backend_kind(),
    ;

    /// Enters in the record what the backend was asked and answered. This changes
    /// nothing else.
    fn note(&mut self, served: Note)
        requires
            old(self).well_formed(),
        ensures
            final(self).well_formed(),
            final(self).backend_kind() == old(self).backend_kind(),
            final(self).served() == old(self).served().push(served@),
    ;

    fn evaluate(
        &mut self,
        evaluator_id: u32,
        inputs: &[u8],
        element_count: u32,
        element_stride: u32,
    ) -> (reply: Result<Vec<u8>, BackendError>)
        requires
            old(self).well_formed(),
        ensures
            final(self).well_formed(),
            final(self).backend_kind() == old(self).backend_kind(),
            final(self).served() == old(self).served().push(
                Served::One {
                    request: unbound_request(evaluator_id, inputs@, element_count, element_stride),
                    reply: bytes_reply(reply),
                },
            ),
    ;

    /// Evaluates with a second read-only array, where one is bound. A backend that
    /// has not been taught the second array declines it rather than evaluate the
    /// body against the input alone.
    fn evaluate_with_aux(&mut self, request: BatchRequest<'_>) -> (reply: Result<
        Vec<u8>,
        BackendError,
    >)
        requires
            old(self).well_formed(),
        ensures
            final(self).well_formed(),
            final(self).backend_kind() == old(self).backend_kind(),
            final(self).served() == old(self).served().push(
                Served::One { request: heard(request@), reply: bytes_reply(reply) },
            ),
        default_ensures
            request@.aux.element_stride != 0 ==> reply == Err::<Vec<u8>, _>(
                BackendError::UnsupportedEvaluator,
            ),
    {
        match decline_bound(&request.aux) {
            Err(error) => {
                self.note(Ghost(Served::One { request: request@, reply: Err(error) }));
                Err(error)
            },
            Ok(_) => self.evaluate(
                request.evaluator_id,
                request.inputs,
                request.element_count,
                request.element_stride,
            ),
        }
    }

    /// Evaluates for publication: the answer is handed over to be published, and a
    /// backend that holds it in memory of its own need not copy it. What it
    /// holds is what [`BatchBackend::evaluate_with_aux`] answers.
    fn evaluate_payload(&mut self, request: BatchRequest<'_>) -> (reply: Result<
        Vec<u8>,
        BackendError,
    >)
        requires
            old(self).well_formed(),
        ensures
            final(self).well_formed(),
            final(self).backend_kind() == old(self).backend_kind(),
            final(self).served() == old(self).served().push(
                Served::One { request: heard(request@), reply: bytes_reply(reply) },
            ),
    {
        self.evaluate_with_aux(request)
    }

    /// Evaluates every request of an epoch: all of them succeed or the call
    /// fails.
    fn evaluate_epoch(&mut self, requests: &Vec<BatchRequest<'_>>) -> (reply: Result<
        Vec<Vec<u8>>,
        BackendError,
    >)
        requires
            old(self).well_formed(),
        ensures
            final(self).well_formed(),
            final(self).backend_kind() == old(self).backend_kind(),
            final(self).served() == old(self).served().push(
                Served::Epoch {
                    requests: request_views(requests@),
                    reply: lists_reply(reply),
                },
            ),
            reply is Ok ==> reply->Ok_0@.len() == requests@.len(),
    ;
}

// ---- element by element ----------------------------------------------------

/// Element `i` of an array.
pub open spec fn element_of(array: Seq<u8>, i: int, stride: int) -> Seq<u8> {
    array.subrange(i * stride, i * stride + stride)
}

/// `element` may turn the bytes `from` of element `index` into `to`.
pub open spec fn maps<F: Fn(u32, Vec<u8>) -> Vec<u8>>(
    element: F,
    index: u32,
    from: Seq<u8>,
    to: Seq<u8>,
) -> bool {
    exists|a: Vec<u8>, b: Vec<u8>|
        a@ == from && b@ == to && #[trigger] call_ensures(element, (index, a), b)
}

/// `outputs` holds the results of `element` on the elements of `inputs` from `lo`
/// up to `hi`.
pub open spec fn is_elementwise<F: Fn(u32, Vec<u8>) -> Vec<u8>>(
    element: F,
    inputs: Seq<u8>,
    outputs: Seq<u8>,
    lo: int,
    hi: int,
    stride: int,
) -> bool {
    &&& outputs.len() == (hi - lo) * stride
    &&& forall|i: int|
        0 <= i < hi - lo ==> maps(
            element,
            (lo + i) as u32,
            element_of(inputs, lo + i, stride),
            #[trigger] element_of(outputs, i, stride),
        )
}

/// How many of `len` bytes the elements of a batch take. Elements without bytes and
/// a batch that is too short for its elements are refused.
pub fn checked_length(len: usize, element_count: u32, element_stride: u32) -> (required: Result<
    usize,
    BackendError,
>)
    ensures
        match required {
            Ok(required) => {
                &&& element_stride != 0
                &&& required == element_count * element_stride
                &&& required <= len
            },
            Err(error) => {
                &&& error == BackendError::InvalidInput
                &&& element_stride == 0 || len < element_count * element_stride
            },
        },
{
    let stride: usize = element_stride as usize;
    if stride == 0 {
        return Err(BackendError::InvalidInput);
    }
    match (element_count as usize).checked_mul(stride) {
        Some(required) => if len < required {
            Err(BackendError::InvalidInput)
        } else {
            Ok(required)
        },
        None => Err(BackendError::InvalidInput),
    }
}

/// Applies `element` to each element of `inputs`. Every backend checks its
/// arguments as here, so that two of them cannot disagree about what a malformed
/// request is.
pub fn evaluate_elementwise<F: Fn(u32, Vec<u8>) -> Vec<u8>>(
    inputs: &[u8],
    element_count: u32,
    element_stride: u32,
    element: F,
) -> (result: Result<Vec<u8>, BackendError>)
    requires
        forall|i: u32, v: Vec<u8>|
            i < element_count && v@.len() == element_stride ==> call_requires(element, (i, v)),
        forall|i: u32, v: Vec<u8>, w: Vec<u8>| #[trigger]
            call_ensures(element, (i, v), w) ==> w@.len() == v@.len(),
    ensures
        match result {
            Ok(outputs) => {
                &&& element_stride != 0
                &&& element_count * element_stride <= inputs@.len()
                &&& is_elementwise(
                    element,
                    inputs@,
                    outputs@,
                    0,
                    element_count as int,
                    element_stride as int,
                )
            },
            Err(error) => {
                &&& error == BackendError::InvalidInput
                &&& element_stride == 0 || inputs@.len() < element_count * element_stride
            },
        },
{
    let stride: usize = element_stride as usize;
    let len: usize = inputs.len();
    assert(inputs@.len() == len);
    let required: usize = match checked_length(len, element_count, element_stride) {
        Ok(required) => required,
        Err(error) => {
            return Err(error);
        },
    };
    let mut outputs: Vec<u8> = Vec::new();
    let mut index: u32 = 0;
    let mut at: usize = 0;
    while index < element_count
        invariant
            index <= element_count,
            stride == element_stride,
            stride > 0,
            at == index * stride,
            required == element_count * stride,
            required <= inputs@.len() == inputs.len(),
            outputs@.len() == at,
            forall|i: u32, v: Vec<u8>|
                i < element_count && v@.len() == element_stride ==> call_requires(element, (i, v)),
            forall|i: u32, v: Vec<u8>, w: Vec<u8>| #[trigger]
                call_ensures(element, (i, v), w) ==> w@.len() == v@.len(),
            forall|i: int|
                0 <= i < index ==> maps(
                    element,
                    i as u32,
                    element_of(inputs@, i, stride as int),
                    #[trigger] element_of(outputs@, i, stride as int),
                ),
        decreases element_count - index,
    {
        proof {
            body::lemma_element_fits(index as int, element_count as int, stride as int);
            assert(index * stride + stride == (index + 1) * stride) by (nonlinear_arith);
        }
        let chunk: Vec<u8> = vstd::slice::slice_to_vec(
            vstd::slice::slice_subrange(inputs, at, at + stride),
        );
        assert(chunk@ =~= element_of(inputs@, index as int, stride as int));
        let ghost given = chunk;
        let mut made: Vec<u8> = element(index, chunk);
        let ghost answer = made;
        let ghost before = outputs@;
        outputs.append(&mut made);
        proof {
            assert(outputs@ =~= before + answer@);
            assert(element_of(outputs@, index as int, stride as int) =~= answer@);
            assert(maps(
                element,
                index,
                element_of(inputs@, index as int, stride as int),
                answer@,
            )) by {
                assert(call_ensures(element, (index, given), answer));
            }
            assert forall|i: int| 0 <= i < index implies maps(
                element,
                i as u32,
                element_of(inputs@, i, stride as int),
                #[trigger] element_of(outputs@, i, stride as int),
            ) by {
                body::lemma_element_fits(i, index as int, stride as int);
                assert(element_of(outputs@, i, stride as int) =~= element_of(
                    before,
                    i,
                    stride as int,
                ));
            }
        }
        index = index + 1;
        at = at + stride;
    }
    Ok(outputs)
}

/// The outputs of elements `lo` to `hi`, one after the other.
pub open spec fn outputs_between(p: ProgramView, a: ArraysView, lo: int, hi: int) -> Seq<u8>
    decreases hi - lo,
{
    if lo >= hi {
        Seq::empty()
    } else {
        outputs_between(p, a, lo, hi - 1) + p.evaluated(
            a,
            (hi - 1) as u32,
            element_of(a.input, hi - 1, p.stride() as int),
        )
    }
}

pub proof fn lemma_outputs_len(p: ProgramView, a: ArraysView, lo: int, hi: int)
    requires
        0 <= lo <= hi <= a.count,
        a.count * p.stride() <= a.input.len(),
    ensures
        outputs_between(p, a, lo, hi).len() == (hi - lo) * p.stride(),
    decreases hi - lo,
{
    let s = p.stride() as int;
    if lo < hi {
        lemma_outputs_len(p, a, lo, hi - 1);
        body::lemma_element_fits(hi - 1, a.count as int, s);
        body::lemma_stored_len(
            p,
            p.values_for(a, (hi - 1) as u32),
            element_of(a.input, hi - 1, s),
            p.stores.len() as int,
        );
        assert((hi - 1 - lo) * s + s == (hi - lo) * s) by (nonlinear_arith);
    } else {
        assert((hi - lo) * s == 0) by (nonlinear_arith)
            requires
                hi == lo,
        ;
    }
}

/// Evaluating a batch in runs of elements and joining the results gives what
/// evaluating it whole gives, so a split across workers cannot change a byte.
pub proof fn law_splitting_a_batch_changes_nothing(
    p: ProgramView,
    a: ArraysView,
    lo: int,
    mid: int,
    hi: int,
)
    requires
        lo <= mid <= hi,
    ensures
        outputs_between(p, a, lo, mid) + outputs_between(p, a, mid, hi) == outputs_between(
            p,
            a,
            lo,
            hi,
        ),
    decreases hi - mid,
{
    if mid < hi {
        law_splitting_a_batch_changes_nothing(p, a, lo, mid, hi - 1);
        assert(outputs_between(p, a, lo, mid) + outputs_between(p, a, mid, hi)
            =~= outputs_between(p, a, lo, mid) + outputs_between(p, a, mid, hi - 1) + p.evaluated(
            a,
            (hi - 1) as u32,
            element_of(a.input, hi - 1, p.stride() as int),
        ));
    } else {
        assert(outputs_between(p, a, lo, mid) + outputs_between(p, a, mid, hi) =~= outputs_between(
            p,
            a,
            lo,
            hi,
        ));
    }
}

/// An element's result depends on the frozen arrays and its index alone: bytes
/// of the element that no store covers keep their incoming value.
pub proof fn law_unstored_bytes_are_kept(
    p: ProgramView,
    a: ArraysView,
    index: u32,
    element: Seq<u8>,
    at: int,
)
    requires
        p.is_valid(),
        element.len() == p.stride(),
        0 <= at < element.len(),
        forall|s: int|
            0 <= s < p.stores.len() ==> {
                let field = (#[trigger] p.stores[s]).field as int;
                !(body::offset_of(p.layout, field) <= at < body::offset_of(p.layout, field)
                    + p.layout[field].size())
            },
    ensures
        p.evaluated(a, index, element)[at] == element[at],
{
    lemma_unstored(p, p.values_for(a, index), element, at, p.stores.len() as int);
}

proof fn lemma_unstored(p: ProgramView, values: Seq<u64>, element: Seq<u8>, at: int, n: int)
    requires
        0 <= n <= p.stores.len(),
        0 <= at < element.len(),
        forall|s: int|
            0 <= s < p.stores.len() ==> {
                let field = (#[trigger] p.stores[s]).field as int;
                !(body::offset_of(p.layout, field) <= at < body::offset_of(p.layout, field)
                    + p.layout[field].size())
            },
    ensures
        p.stored(values, element, n)[at] == element[at],
        p.stored(values, element, n).len() == element.len(),
    decreases n,
{
    if n > 0 {
        lemma_unstored(p, values, element, at, n - 1);
        let store = p.stores[n - 1];
        crate::bytes::lemma_le_bytes_len(
            values[store.value as int] as nat,
            p.layout[store.field as int].size(),
        );
    }
}

/// The runs of elements that `threads` workers take: all of one length, but
/// for a shorter last one.
pub open spec fn share_length(count: int, threads: int) -> int {
    if threads <= 1 {
        count
    } else {
        (count + threads - 1) / threads
    }
}

/// The runs follow one another from the first element to the last.
pub open spec fn are_shares(runs: Seq<(u32, u32)>, element_count: u32) -> bool {
    &&& element_count == 0 <==> runs.len() == 0
    &&& runs.len() > 0 ==> runs[0].0 == 0
    &&& forall|i: int|
        0 <= i < runs.len() ==> {
            &&& (#[trigger] runs[i]).0 < runs[i].1
            &&& runs[i].1 == if i + 1 < runs.len() {
                runs[i + 1].0
            } else {
                element_count
            }
        }
}

pub fn shares(element_count: u32, threads: usize) -> (runs: Vec<(u32, u32)>)
    ensures
        are_shares(runs@, element_count),
        forall|i: int|
            0 <= i < runs@.len() ==> (#[trigger] runs@[i]).0 == i * share_length(
                element_count as int,
                threads as int,
            ),
        threads >= 1 ==> runs@.len() <= threads,
{
    let mut runs: Vec<(u32, u32)> = Vec::new();
    if element_count == 0 {
        return runs;
    }
    let workers: usize = if threads > 1 {
        threads
    } else {
        1
    };
    let count: u64 = element_count as u64;
    let split: u64 = workers as u64;
    let per: u64 = if count % split == 0 {
        count / split
    } else {
        count / split + 1
    };
    proof {
        assert(per >= 1 && per <= count && per * split >= count && per == share_length(
            element_count as int,
            threads as int,
        )) by (nonlinear_arith)
            requires
                split >= 1,
                count >= 1,
                threads <= 1 ==> split == 1,
                threads > 1 ==> split == threads,
                per as int == if count % split == 0 {
                    (count / split) as int
                } else {
                    count / split + 1
                },
                count == element_count,
                share_length(element_count as int, threads as int) == if threads <= 1 {
                    element_count as int
                } else {
                    (element_count + threads - 1) / (threads as int)
                },
        ;
    }
    let mut start: u64 = 0;
    while start < count
        invariant
            count == element_count,
            1 <= per <= count,
            per == share_length(element_count as int, threads as int),
            start == if runs@.len() == 0 {
                0
            } else {
                runs@[runs@.len() - 1].1 as int
            },
            start <= count,
            start < count ==> start == runs@.len() * per,
            runs@.len() > 0 ==> (runs@.len() - 1) * per < count,
            forall|i: int|
                0 <= i < runs@.len() ==> {
                    &&& (#[trigger] runs@[i]).0 == i * per
                    &&& runs@[i].0 < runs@[i].1
                    &&& i + 1 < runs@.len() ==> runs@[i].1 == runs@[i + 1].0
                },
        decreases count - start,
    {
        let end: u64 = if count - start > per {
            start + per
        } else {
            count
        };
        proof {
            assert((runs@.len() + 1) * per == runs@.len() * per + per) by (nonlinear_arith);
        }
        runs.push((start as u32, end as u32));
        start = end;
    }
    proof {
        if threads >= 1 {
            assert(runs@.len() <= threads) by (nonlinear_arith)
                requires
                    (runs@.len() - 1) * per < count,
                    per * split >= count,
                    split == threads,
                    per >= 1,
            ;
        }
    }
    runs
}

/// The first `n` parts, one behind the other.
pub open spec fn parts_joined(parts: Seq<Seq<u8>>, n: int) -> Seq<u8>
    decreases n,
{
    if n <= 0 {
        Seq::empty()
    } else {
        parts_joined(parts, n - 1) + parts[n - 1]
    }
}

/// Element `i` of two arrays put together is an element of one of them.
proof fn lemma_element_of_parts(a: Seq<u8>, b: Seq<u8>, n: int, m: int, i: int, stride: int)
    requires
        stride > 0,
        0 <= n,
        0 <= i < n + m,
        a.len() == n * stride,
        b.len() == m * stride,
    ensures
        element_of(a + b, i, stride) == if i < n {
            element_of(a, i, stride)
        } else {
            element_of(b, i - n, stride)
        },
{
    assert(0 <= i * stride) by (nonlinear_arith)
        requires
            0 <= i,
            stride > 0,
    ;
    if i < n {
        assert(i * stride + stride <= n * stride) by (nonlinear_arith)
            requires
                i + 1 <= n,
                stride > 0,
        ;
        assert(element_of(a + b, i, stride) =~= element_of(a, i, stride));
    } else {
        let k = i - n;
        assert(i * stride == n * stride + k * stride) by (nonlinear_arith)
            requires
                i == n + k,
        ;
        assert(0 <= k * stride && k * stride + stride <= m * stride) by (nonlinear_arith)
            requires
                0 <= k < m,
                stride > 0,
        ;
        assert(element_of(a + b, i, stride) =~= element_of(b, k, stride));
    }
}

proof fn lemma_appended_is_elementwise<F: Fn(u32, Vec<u8>) -> Vec<u8>>(
    element: F,
    inputs: Seq<u8>,
    before: Seq<u8>,
    part: Seq<u8>,
    lo: int,
    hi: int,
    stride: int,
)
    requires
        stride > 0,
        0 <= lo <= hi,
        is_elementwise(element, inputs, before, 0, lo, stride),
        is_elementwise(element, inputs, part, lo, hi, stride),
    ensures
        is_elementwise(element, inputs, before + part, 0, hi, stride),
{
    let joined = before + part;
    assert(lo * stride + (hi - lo) * stride == hi * stride) by (nonlinear_arith);
    assert forall|i: int| 0 <= i < hi implies maps(
        element,
        (0 + i) as u32,
        element_of(inputs, 0 + i, stride),
        #[trigger] element_of(joined, i, stride),
    ) by {
        lemma_element_of_parts(before, part, lo, hi - lo, i, stride);
        if i < lo {
            assert(maps(
                element,
                (0 + i) as u32,
                element_of(inputs, 0 + i, stride),
                element_of(before, i, stride),
            ));
        } else {
            let k = i - lo;
            assert(lo + k == i);
            assert(maps(
                element,
                (lo + k) as u32,
                element_of(inputs, lo + k, stride),
                element_of(part, k, stride),
            ));
        }
    }
}

proof fn lemma_parts_are_elementwise<F: Fn(u32, Vec<u8>) -> Vec<u8>>(
    element: F,
    inputs: Seq<u8>,
    element_count: u32,
    stride: int,
    runs: Seq<(u32, u32)>,
    parts: Seq<Seq<u8>>,
    n: int,
)
    requires
        stride > 0,
        are_shares(runs, element_count),
        parts.len() == runs.len(),
        0 <= n <= runs.len(),
        forall|r: int|
            0 <= r < runs.len() ==> is_elementwise(
                element,
                inputs,
                #[trigger] parts[r],
                runs[r].0 as int,
                runs[r].1 as int,
                stride,
            ),
    ensures
        is_elementwise(
            element,
            inputs,
            parts_joined(parts, n),
            0,
            if n == 0 {
                0
            } else {
                runs[n - 1].1 as int
            },
            stride,
        ),
    decreases n,
{
    if n > 0 {
        lemma_parts_are_elementwise(element, inputs, element_count, stride, runs, parts, n - 1);
        let lo = runs[n - 1].0 as int;
        let hi = runs[n - 1].1 as int;
        if n > 1 {
            assert(runs[n - 2].1 == lo);
        }
        lemma_appended_is_elementwise(
            element,
            inputs,
            parts_joined(parts, n - 1),
            parts[n - 1],
            lo,
            hi,
            stride,
        );
    }
}

/// Elements evaluated by shares, side by side or in turn, and joined give what
/// evaluating them one after the other gives.
pub proof fn law_shares_joined_are_the_whole<F: Fn(u32, Vec<u8>) -> Vec<u8>>(
    element: F,
    inputs: Seq<u8>,
    element_count: u32,
    element_stride: u32,
    runs: Seq<(u32, u32)>,
    parts: Seq<Seq<u8>>,
)
    requires
        element_stride > 0,
        are_shares(runs, element_count),
        parts.len() == runs.len(),
        forall|r: int|
            0 <= r < runs.len() ==> is_elementwise(
                element,
                inputs,
                #[trigger] parts[r],
                runs[r].0 as int,
                runs[r].1 as int,
                element_stride as int,
            ),
    ensures
        is_elementwise(
            element,
            inputs,
            parts_joined(parts, parts.len() as int),
            0,
            element_count as int,
            element_stride as int,
        ),
{
    lemma_parts_are_elementwise(
        element,
        inputs,
        element_count,
        element_stride as int,
        runs,
        parts,
        parts.len() as int,
    );
}

/// The result of an element depends on its index and its bytes alone.
pub open spec fn is_function<F: Fn(u32, Vec<u8>) -> Vec<u8>>(element: F) -> bool {
    forall|index: u32, from: Seq<u8>, to: Seq<u8>, also: Seq<u8>| #[trigger]
        maps(element, index, from, to) && #[trigger] maps(element, index, from, also) ==> to == also
}

/// Arrays of equal elements are equal.
proof fn lemma_equal_elements(a: Seq<u8>, b: Seq<u8>, count: int, stride: int)
    requires
        stride > 0,
        count >= 0,
        a.len() == count * stride,
        b.len() == count * stride,
        forall|i: int|
            0 <= i < count ==> #[trigger] element_of(a, i, stride) == element_of(b, i, stride),
    ensures
        a == b,
{
    assert forall|j: int| 0 <= j < a.len() implies a[j] == b[j] by {
        let i = j / stride;
        let k = j % stride;
        assert(j == i * stride + k && 0 <= k < stride && 0 <= i < count) by (nonlinear_arith)
            requires
                stride > 0,
                0 <= j < count * stride,
                i == j / stride,
                k == j % stride,
        ;
        body::lemma_element_fits(i, count, stride);
        assert(element_of(a, i, stride)[k] == a[j]);
        assert(element_of(b, i, stride)[k] == b[j]);
    }
    assert(a =~= b);
}

/// Where an element's result depends on its index and its bytes alone, the shares
/// joined are, byte for byte, what one run over all elements gives, however many
/// workers took them.
pub proof fn law_shares_joined_equal_the_single_run<F: Fn(u32, Vec<u8>) -> Vec<u8>>(
    element: F,
    inputs: Seq<u8>,
    element_count: u32,
    element_stride: u32,
    runs: Seq<(u32, u32)>,
    parts: Seq<Seq<u8>>,
    whole: Seq<u8>,
)
    requires
        is_function(element),
        element_stride > 0,
        are_shares(runs, element_count),
        parts.len() == runs.len(),
        forall|r: int|
            0 <= r < runs.len() ==> is_elementwise(
                element,
                inputs,
                #[trigger] parts[r],
                runs[r].0 as int,
                runs[r].1 as int,
                element_stride as int,
            ),
        is_elementwise(
            element,
            inputs,
            whole,
            0,
            element_count as int,
            element_stride as int,
        ),
    ensures
        parts_joined(parts, parts.len() as int) == whole,
{
    law_shares_joined_are_the_whole(element, inputs, element_count, element_stride, runs, parts);
    let joined = parts_joined(parts, parts.len() as int);
    let s = element_stride as int;
    assert forall|i: int| 0 <= i < element_count implies #[trigger] element_of(joined, i, s)
        == element_of(whole, i, s) by {
        assert(maps(element, (0 + i) as u32, element_of(inputs, 0 + i, s), element_of(joined, i, s)));
        assert(maps(element, (0 + i) as u32, element_of(inputs, 0 + i, s), element_of(whole, i, s)));
    }
    lemma_equal_elements(joined, whole, element_count as int, s);
}

// ---- the reference backend -------------------------------------------------

/// What a request is answered where `installed` are the bodies at hand.
pub open spec fn reference_answer(
    installed: Map<u32, ProgramView>,
    request: RequestView,
) -> Result<Seq<u8>, BackendError> {
    let invalid = Err(BackendError::InvalidInput);
    if !installed.dom().contains(request.evaluator_id) {
        Err(BackendError::UnsupportedEvaluator)
    } else {
        let p = installed[request.evaluator_id];
        if p.stride() != request.element_stride || (p.aux is Some) != (request.aux.element_stride
            != 0) || p.aux_stride() != request.aux.element_stride {
            invalid
        } else if request.aux.bytes.len() < request.aux.element_count
            * request.aux.element_stride {
            invalid
        } else if request.element_stride == 0 || request.inputs.len() < request.element_count
            * request.element_stride {
            invalid
        } else {
            Ok(outputs_between(p, arrays_of(request), 0, request.element_count as int))
        }
    }
}

pub open spec fn arrays_of(request: RequestView) -> ArraysView {
    ArraysView {
        input: request.inputs,
        count: request.element_count as nat,
        aux: request.aux.bytes,
        aux_count: request.aux.element_count as nat,
    }
}

/// The answers to `requests` in order, or the error of the first that has one.
pub open spec fn epoch_answer(installed: Map<u32, ProgramView>, requests: Seq<RequestView>) -> Result<
    Seq<Seq<u8>>,
    BackendError,
>
    decreases requests.len(),
{
    if requests.len() == 0 {
        Ok(Seq::empty())
    } else {
        match epoch_answer(installed, requests.drop_last()) {
            Err(error) => Err(error),
            Ok(answers) => match reference_answer(installed, requests.last()) {
                Err(error) => Err(error),
                Ok(answer) => Ok(answers.push(answer)),
            },
        }
    }
}

proof fn lemma_epoch_fails(installed: Map<u32, ProgramView>, requests: Seq<RequestView>, n: int)
    requires
        0 <= n <= requests.len(),
        epoch_answer(installed, requests.take(n)) is Err,
    ensures
        epoch_answer(installed, requests) == epoch_answer(installed, requests.take(n)),
    decreases requests.len() - n,
{
    if n < requests.len() {
        assert(requests.take(n + 1).drop_last() =~= requests.take(n));
        lemma_epoch_fails(installed, requests, n + 1);
    } else {
        assert(requests.take(n) =~= requests);
    }
}

/// Dependency-free scalar backend. It interprets whatever body it was given,
/// and is the definition that every other backend is checked against.
pub struct CpuReferenceBackend {
    pub programs: BTreeMap<u32, EvaluatorProgram>,
    pub threads: usize,
    pub log: Ghost<Seq<Served>>,
}

impl CpuReferenceBackend {
    /// The bodies at hand.
    pub open spec fn installed(&self) -> Map<u32, ProgramView> {
        self.programs@.map_values(|p: EvaluatorProgram| p@)
    }

    pub fn new() -> (backend: Self)
        ensures
            backend.well_formed(),
            backend.installed() == Map::<u32, ProgramView>::empty(),
            backend.threads == 1,
            backend.served() == Seq::<Served>::empty(),
    {
        let backend = Self { programs: BTreeMap::new(), threads: 1, log: Ghost(Seq::empty()) };
        assert(backend.installed() =~= Map::<u32, ProgramView>::empty());
        backend
    }

    /// Bodies installed in the order given: a later one takes the place of an
    /// earlier one with its id.
    pub open spec fn installed_from(programs: Seq<&EvaluatorProgram>) -> Map<u32, ProgramView>
        decreases programs.len(),
    {
        if programs.len() == 0 {
            Map::empty()
        } else {
            Self::installed_from(programs.drop_last()).insert(
                programs.last()@.id,
                programs.last()@,
            )
        }
    }

    pub fn with(programs: &[&EvaluatorProgram]) -> (backend: Self)
        requires
            forall|i: int| 0 <= i < programs@.len() ==> (#[trigger] programs@[i]).well_formed(),
        ensures
            backend.well_formed(),
            backend.installed() == Self::installed_from(programs@),
            backend.threads == 1,
            backend.served() == Seq::<Served>::empty(),
    {
        let mut backend = Self::new();
        let mut i: usize = 0;
        assert(programs@.take(0) =~= Seq::<&EvaluatorProgram>::empty());
        while i < programs.len()
            invariant
                i <= programs.len(),
                backend.well_formed(),
                backend.installed() == Self::installed_from(programs@.take(i as int)),
                backend.threads == 1,
                backend.served() == Seq::<Served>::empty(),
                forall|i: int| 0 <= i < programs@.len() ==> (#[trigger] programs@[i]).well_formed(),
            decreases programs.len() - i,
        {
            assert(programs@.take(i + 1).drop_last() =~= programs@.take(i as int));
            backend.add(programs[i]);
            i = i + 1;
        }
        assert(programs@.take(i as int) =~= programs@);
        backend
    }

    /// Evaluate each batch across `threads` workers, at least one.
    pub fn with_threads(self, threads: usize) -> (backend: Self)
        ensures
            backend.threads == if threads > 1 {
                threads
            } else {
                1
            },
            backend.programs == self.programs,
            backend.log == self.log,
    {
        let workers: usize = if threads > 1 {
            threads
        } else {
            1
        };
        Self { programs: self.programs, threads: workers, log: self.log }
    }

    pub fn threads(&self) -> (threads: usize)
        ensures
            threads == self.threads,
    {
        self.threads
    }

    fn add(&mut self, program: &EvaluatorProgram)
        requires
            old(self).well_formed(),
            program.well_formed(),
        ensures
            final(self).well_formed(),
            final(self).installed() == old(self).installed().insert(program@.id, program@),
            final(self).threads == old(self).threads,
            final(self).log == old(self).log,
    {
        let ghost before = self.installed();
        self.programs.insert(program.id(), program.duplicate());
        assert(self.installed() =~= before.insert(program@.id, program@));
    }

    /// The evaluation itself.
    pub fn evaluate_shared(&self, request: &BatchRequest<'_>) -> (reply: Result<
        Vec<u8>,
        BackendError,
    >)
        requires
            self.well_formed(),
        ensures
            bytes_reply(reply) == reference_answer(self.installed(), request@),
    {
        let program: &EvaluatorProgram = match self.programs.get(&request.evaluator_id) {
            Some(program) => program,
            None => {
                return Err(BackendError::UnsupportedEvaluator);
            },
        };
        assert(self.installed()[request.evaluator_id] == program@);
        if program.stride() != request.element_stride {
            return Err(BackendError::InvalidInput);
        }
        if program.binds_aux() != request.aux.is_bound() || program.aux_stride()
            != request.aux.element_stride {
            return Err(BackendError::InvalidInput);
        }
        if request.aux.is_bound() {
            match (request.aux.element_count as usize).checked_mul(
                request.aux.element_stride as usize,
            ) {
                Some(required) => {
                    if request.aux.bytes.len() < required {
                        return Err(BackendError::InvalidInput);
                    }
                },
                None => {
                    let len: usize = request.aux.bytes.len();
                    assert(request.aux.bytes@.len() == len);
                    return Err(BackendError::InvalidInput);
                },
            }
        }
        assert(request.aux.element_count * 0 == 0);
        let arrays = Arrays {
            input: request.inputs,
            count: request.element_count,
            aux: request.aux.bytes,
            aux_count: request.aux.element_count,
        };
        let ghost p = program@;
        let ghost a = arrays@;
        assert(a =~= arrays_of(request@));
        let count: u32 = request.element_count;
        let stride: u32 = request.element_stride;
        // A batch that does not hold its elements is refused before any body runs.
        let len: usize = request.inputs.len();
        assert(request.inputs@.len() == len);
        let held: bool = match (count as usize).checked_mul(stride as usize) {
            Some(required) => required <= len,
            None => false,
        };
        if !held {
            return Err(BackendError::InvalidInput);
        }
        let element = |index: u32, bytes: Vec<u8>| -> (out: Vec<u8>)
            requires
                index < count,
                bytes@.len() == stride,
                program.well_formed(),
                arrays.count == count,
                program@.stride() == stride,
                program@.reads_within(arrays@),
            ensures
                out@ == program@.evaluated(arrays@, index, bytes@),
                out@.len() == bytes@.len(),
            { program.evaluate_bound(&arrays, index, bytes) };
        let result = evaluate_elementwise(request.inputs, count, stride, element);
        proof {
            if result is Ok {
                let outputs = result->Ok_0@;
                lemma_outputs_are_elementwise(p, a, outputs, element, stride, count as int);
                assert(outputs.take(count * stride) =~= outputs);
            }
        }
        result
    }
}

proof fn lemma_outputs_are_elementwise<F: Fn(u32, Vec<u8>) -> Vec<u8>>(
    p: ProgramView,
    a: ArraysView,
    outputs: Seq<u8>,
    element: F,
    stride: u32,
    n: int,
)
    requires
        0 <= n <= a.count <= u32::MAX,
        stride == p.stride(),
        a.count * stride <= a.input.len(),
        outputs.len() >= n * stride,
        forall|i: u32, v: Vec<u8>, w: Vec<u8>| #[trigger]
            call_ensures(element, (i, v), w) ==> w@ == p.evaluated(a, i, v@),
        forall|i: int|
            0 <= i < n ==> maps(
                element,
                i as u32,
                element_of(a.input, i, stride as int),
                #[trigger] element_of(outputs, i, stride as int),
            ),
    ensures
        outputs.take(n * stride) == outputs_between(p, a, 0, n),
    decreases n,
{
    let s = stride as int;
    if n > 0 {
        assert((n - 1) * s + s == n * s) by (nonlinear_arith);
        assert((n - 1) * s >= 0) by (nonlinear_arith)
            requires
                n >= 1,
                s >= 0,
        ;
        lemma_outputs_are_elementwise(p, a, outputs, element, stride, n - 1);
        let to = element_of(outputs, n - 1, s);
        assert(maps(element, (n - 1) as u32, element_of(a.input, n - 1, s), to));
        assert(outputs.take(n * s) =~= outputs.take((n - 1) * s) + to);
    } else {
        assert(n * s == 0) by (nonlinear_arith)
            requires
                n == 0,
        ;
        assert(outputs.take(0) =~= Seq::<u8>::empty());
    }
    assert(outputs.take(n * s) == outputs_between(p, a, 0, n));
}

impl BatchBackend for CpuReferenceBackend {
    open spec fn served(&self) -> Seq<Served> {
        self.log@
    }

    open spec fn backend_kind(&self) -> BackendKind {
        BackendKind::Cpu
    }

    open spec fn well_formed(&self) -> bool {
        forall|id: u32|
            self.programs@.dom().contains(id) ==> (#[trigger] self.programs@[id]).well_formed()
                && self.programs@[id]@.id == id
    }

    fn kind(&self) -> (kind: BackendKind) {
        BackendKind::Cpu
    }

    fn install(&mut self, program: &EvaluatorProgram) -> (result: Result<(), BackendError>)
        ensures
            result is Ok,
            final(self).installed() == old(self).installed().insert(program@.id, program@),
            final(self).threads == old(self).threads,
    {
        self.add(program);
        Ok(())
    }

    fn note(&mut self, served: Note)
        ensures
            final(self).programs == old(self).programs,
            final(self).threads == old(self).threads,
    {
        self.log = Ghost(self.log@.push(served@));
    }

    fn evaluate(
        &mut self,
        evaluator_id: u32,
        inputs: &[u8],
        element_count: u32,
        element_stride: u32,
    ) -> (reply: Result<Vec<u8>, BackendError>)
        ensures
            bytes_reply(reply) == reference_answer(
                old(self).installed(),
                unbound_request(evaluator_id, inputs@, element_count, element_stride),
            ),
            final(self).programs == old(self).programs,
            final(self).threads == old(self).threads,
    {
        let none: [u8; 0] = [];
        let request = BatchRequest {
            evaluator_id,
            inputs,
            aux: AuxArray::new(none.as_slice(), 0, 0),
            element_count,
            element_stride,
        };
        assert(request@ =~= unbound_request(evaluator_id, inputs@, element_count, element_stride));
        let reply = self.evaluate_shared(&request);
        self.note(Ghost(Served::One { request: request@, reply: bytes_reply(reply) }));
        reply
    }

    fn evaluate_with_aux(&mut self, request: BatchRequest<'_>) -> (reply: Result<
        Vec<u8>,
        BackendError,
    >)
        ensures
            bytes_reply(reply) == reference_answer(old(self).installed(), request@),
            final(self).programs == old(self).programs,
            final(self).threads == old(self).threads,
    {
        let reply = self.evaluate_shared(&request);
        self.note(Ghost(Served::One { request: heard(request@), reply: bytes_reply(reply) }));
        reply
    }

    /// The requests of an epoch are independent of each other, so running them
    /// in groups side by side gives the same answers.
    fn evaluate_epoch(&mut self, requests: &Vec<BatchRequest<'_>>) -> (reply: Result<
        Vec<Vec<u8>>,
        BackendError,
    >)
        ensures
            lists_reply(reply) == epoch_answer(old(self).installed(), request_views(requests@)),
            final(self).programs == old(self).programs,
            final(self).threads == old(self).threads,
    {
        let ghost views = request_views(requests@);
        let ghost before = self.log@;
        let ghost installed = self.installed();
        let mut lists: Vec<Vec<u8>> = Vec::new();
        let mut i: usize = 0;
        assert(views.take(0) =~= Seq::<RequestView>::empty());
        assert(kernel::byte_lists(lists@) =~= Seq::<Seq<u8>>::empty());
        while i < requests.len()
            invariant
                i <= requests.len(),
                lists@.len() == i,
                self.well_formed(),
                self.installed() == installed,
                self.log@ == before,
                before == old(self).log@,
                installed == old(self).installed(),
                self.programs == old(self).programs,
                self.threads == old(self).threads,
                views == request_views(requests@),
                epoch_answer(installed, views.take(i as int)) == Ok::<_, BackendError>(
                    kernel::byte_lists(lists@),
                ),
            decreases requests.len() - i,
        {
            assert(views.take(i + 1).drop_last() =~= views.take(i as int));
            assert(views.take(i + 1).last() == requests@[i as int]@);
            match self.evaluate_shared(&requests[i]) {
                Ok(bytes) => {
                    let ghost held = kernel::byte_lists(lists@);
                    lists.push(bytes);
                    assert(kernel::byte_lists(lists@) =~= held.push(bytes@));
                },
                Err(error) => {
                    proof {
                        lemma_epoch_fails(installed, views, i + 1);
                    }
                    self.log = Ghost(
                        self.log@.push(Served::Epoch { requests: views, reply: Err(error) }),
                    );
                    return Err(error);
                },
            }
            i = i + 1;
        }
        assert(views.take(i as int) =~= views);
        self.log = Ghost(
            self.log@.push(
                Served::Epoch { requests: views, reply: Ok(kernel::byte_lists(lists@)) },
            ),
        );
        Ok(lists)
    }
}

// ---- placement -------------------------------------------------------------

/// Where batches ran.
pub struct PlacementStats {
    pub cpu_executions: u64,
    pub accelerator_executions: u64,
    pub remote_executions: u64,
    pub cpu_spills: u64,
    pub migrations: u64,
    pub last_backend: BTreeMap<u32, BackendKind>,
}

#[verifier::ext_equal]
pub ghost struct StatsView {
    pub cpu_executions: int,
    pub accelerator_executions: int,
    pub remote_executions: int,
    pub cpu_spills: int,
    pub migrations: int,
    pub last_backend: Map<u32, BackendKind>,
}

impl View for PlacementStats {
    type V = StatsView;

    open spec fn view(&self) -> StatsView {
        StatsView {
            cpu_executions: self.cpu_executions as int,
            accelerator_executions: self.accelerator_executions as int,
            remote_executions: self.remote_executions as int,
            cpu_spills: self.cpu_spills as int,
            migrations: self.migrations as int,
            last_backend: self.last_backend@,
        }
    }
}

impl StatsView {
    /// The statistics with one more batch counted. A batch that runs elsewhere
    /// than the last one of its evaluator is a migration.
    pub open spec fn recorded(self, evaluator: u32, kind: BackendKind, spilled: bool) -> StatsView {
        StatsView {
            cpu_executions: self.cpu_executions + if kind == BackendKind::Cpu {
                1int
            } else {
                0
            },
            accelerator_executions: self.accelerator_executions + if kind
                == BackendKind::Accelerator {
                1int
            } else {
                0
            },
            remote_executions: self.remote_executions + if kind == BackendKind::Remote {
                1int
            } else {
                0
            },
            cpu_spills: self.cpu_spills + if spilled {
                1int
            } else {
                0
            },
            migrations: self.migrations + if self.last_backend.dom().contains(evaluator)
                && self.last_backend[evaluator] != kind {
                1int
            } else {
                0
            },
            last_backend: self.last_backend.insert(evaluator, kind),
        }
    }

    /// No counter passes `u64` within `n` more batches.
    pub open spec fn has_room(self, n: int) -> bool {
        &&& self.cpu_executions + n <= u64::MAX
        &&& self.accelerator_executions + n <= u64::MAX
        &&& self.remote_executions + n <= u64::MAX
        &&& self.cpu_spills + n <= u64::MAX
        &&& self.migrations + n <= u64::MAX
    }
}

impl PlacementStats {
    pub fn new() -> (stats: Self)
        ensures
            stats@ == (StatsView {
                cpu_executions: 0,
                accelerator_executions: 0,
                remote_executions: 0,
                cpu_spills: 0,
                migrations: 0,
                last_backend: Map::empty(),
            }),
    {
        PlacementStats {
            cpu_executions: 0,
            accelerator_executions: 0,
            remote_executions: 0,
            cpu_spills: 0,
            migrations: 0,
            last_backend: BTreeMap::new(),
        }
    }

    pub fn record(&mut self, evaluator: u32, kind: BackendKind, spilled: bool)
        requires
            old(self)@.has_room(1),
        ensures
            final(self)@ == old(self)@.recorded(evaluator, kind, spilled),
    {
        match kind {
            BackendKind::Cpu => {
                self.cpu_executions = self.cpu_executions + 1;
            },
            BackendKind::Accelerator => {
                self.accelerator_executions = self.accelerator_executions + 1;
            },
            BackendKind::Remote => {
                self.remote_executions = self.remote_executions + 1;
            },
        }
        if spilled {
            self.cpu_spills = self.cpu_spills + 1;
        }
        let moved: bool = match self.last_backend.get(&evaluator) {
            Some(previous) => *previous != kind,
            None => false,
        };
        if moved {
            self.migrations = self.migrations + 1;
        }
        self.last_backend.insert(evaluator, kind);
        assert(self@ =~= old(self)@.recorded(evaluator, kind, spilled));
    }
}

/// One way two backends disagreed about a body.
#[derive(Clone, Copy, Debug, PartialEq, Eq, Structural)]
pub enum Disagreement {
    /// The defining backend could not evaluate it.
    NoDefinition(BackendError),
    /// A backend's answer differs from the definition, first at this byte.
    DiffersAt(BackendKind, usize),
    Failed(BackendKind, BackendError),
}

#[derive(Clone, Copy, Debug, PartialEq, Eq, Structural)]
pub struct AgreementViolation {
    pub evaluator: u32,
    pub detail: Disagreement,
}

pub open spec fn kind_name(kind: BackendKind) -> Seq<char> {
    match kind {
        BackendKind::Cpu => "Cpu"@,
        BackendKind::Accelerator => "Accelerator"@,
        BackendKind::Remote => "Remote"@,
    }
}

fn kind_text(kind: BackendKind) -> (text: &'static str)
    ensures
        text@ == kind_name(kind),
{
    match kind {
        BackendKind::Cpu => "Cpu",
        BackendKind::Accelerator => "Accelerator",
        BackendKind::Remote => "Remote",
    }
}

/// The error's name. One of the kernel has the kernel's name for it in brackets.
pub open spec fn error_name(error: BackendError) -> Seq<char> {
    match error {
        BackendError::Unavailable => "Unavailable"@,
        BackendError::UnsupportedEvaluator => "UnsupportedEvaluator"@,
        BackendError::InvalidInput => "InvalidInput"@,
        BackendError::ExecutionFailed => "ExecutionFailed"@,
        BackendError::AuthorityDenied => "AuthorityDenied"@,
        BackendError::NodeUnavailable => "NodeUnavailable"@,
        BackendError::NodeLost => "NodeLost"@,
        BackendError::ProtocolError => "ProtocolError"@,
        BackendError::Runtime(inner) => "Runtime("@ + kernel::error_name(inner) + ")"@,
    }
}

fn push_error(out: &mut String, error: BackendError)
    ensures
        final(out)@ == old(out)@ + error_name(error),
{
    let ghost start = out@;
    match error {
        BackendError::Unavailable => push_text(out, "Unavailable"),
        BackendError::UnsupportedEvaluator => push_text(out, "UnsupportedEvaluator"),
        BackendError::InvalidInput => push_text(out, "InvalidInput"),
        BackendError::ExecutionFailed => push_text(out, "ExecutionFailed"),
        BackendError::AuthorityDenied => push_text(out, "AuthorityDenied"),
        BackendError::NodeUnavailable => push_text(out, "NodeUnavailable"),
        BackendError::NodeLost => push_text(out, "NodeLost"),
        BackendError::ProtocolError => push_text(out, "ProtocolError"),
        BackendError::Runtime(inner) => {
            push_text(out, "Runtime(");
            push_text(out, kernel::error_text(inner));
            push_text(out, ")");
            assert(out@ =~= start + error_name(error));
        },
    }
}

impl Disagreement {
    pub open spec fn words(self) -> Seq<char> {
        match self {
            Disagreement::NoDefinition(error) => {
                "the defining backend could not evaluate it: "@ + error_name(error)
            },
            Disagreement::DiffersAt(kind, byte) => {
                kind_name(kind) + " backend differs from the definition at byte "@ + text::decimal(
                    byte as nat,
                )
            },
            Disagreement::Failed(kind, error) => {
                kind_name(kind) + " backend failed: "@ + error_name(error)
            },
        }
    }
}

impl AgreementViolation {
    pub open spec fn words(self) -> Seq<char> {
        "evaluator "@ + text::decimal(self.evaluator as nat) + ": "@ + self.detail.words()
    }

    /// The violation in words.
    pub fn to_text(&self) -> (words: String)
        ensures
            words@ == self.words(),
    {
        let mut out = String::new();
        push_text(&mut out, "evaluator ");
        push_decimal(&mut out, self.evaluator as u64);
        push_text(&mut out, ": ");
        let ghost start = out@;
        match self.detail {
            Disagreement::NoDefinition(error) => {
                push_text(&mut out, "the defining backend could not evaluate it: ");
                push_error(&mut out, error);
            },
            Disagreement::DiffersAt(kind, byte) => {
                push_text(&mut out, kind_text(kind));
                push_text(&mut out, " backend differs from the definition at byte ");
                push_decimal(&mut out, byte as u64);
            },
            Disagreement::Failed(kind, error) => {
                push_text(&mut out, kind_text(kind));
                push_text(&mut out, " backend failed: ");
                push_error(&mut out, error);
            },
        }
        assert(out@ =~= start + self.detail.words());
        assert(out@ =~= self.words());
        out
    }
}

/// The first byte at which two answers differ: the length of the shorter one
/// where it is a prefix of the other.
pub open spec fn first_difference(a: Seq<u8>, b: Seq<u8>, from: int) -> int
    decreases a.len() - from,
{
    if from >= a.len() || from >= b.len() || a[from] != b[from] {
        from
    } else {
        first_difference(a, b, from + 1)
    }
}

/// What `reply` of a backend of `kind` says against the definition. To decline
/// is allowed; to answer wrongly is not.
pub open spec fn disagreement(
    expected: Seq<u8>,
    kind: BackendKind,
    reply: Result<Seq<u8>, BackendError>,
) -> Option<Disagreement> {
    match reply {
        Ok(actual) => if actual == expected {
            None
        } else {
            Some(Disagreement::DiffersAt(kind, first_difference(actual, expected, 0) as usize))
        },
        Err(BackendError::UnsupportedEvaluator) => None,
        Err(error) => Some(Disagreement::Failed(kind, error)),
    }
}

/// The violations among the replies of the backends after the first.
pub open spec fn violations(
    evaluator: u32,
    expected: Seq<u8>,
    replies: Seq<(BackendKind, Result<Seq<u8>, BackendError>)>,
) -> Seq<AgreementViolation>
    decreases replies.len(),
{
    if replies.len() == 0 {
        Seq::empty()
    } else {
        let rest = violations(evaluator, expected, replies.drop_last());
        match disagreement(expected, replies.last().0, replies.last().1) {
            Some(detail) => rest.push(AgreementViolation { evaluator, detail }),
            None => rest,
        }
    }
}

/// Holds one reply against the definition.
pub fn compare_reply(
    expected: &Vec<u8>,
    kind: BackendKind,
    reply: &Result<Vec<u8>, BackendError>,
) -> (detail: Option<Disagreement>)
    ensures
        detail == disagreement(expected@, kind, bytes_reply(*reply)),
{
    match reply {
        Ok(actual) => {
            let mut at: usize = 0;
            while at < actual.len() && at < expected.len() && actual[at] == expected[at]
                invariant
                    at <= actual.len(),
                    at <= expected.len(),
                    first_difference(actual@, expected@, 0) == first_difference(
                        actual@,
                        expected@,
                        at as int,
                    ),
                    actual@.take(at as int) == expected@.take(at as int),
                decreases actual.len() - at,
            {
                assert(actual@.take(at + 1) =~= actual@.take(at as int).push(actual@[at as int]));
                assert(expected@.take(at + 1) =~= expected@.take(at as int).push(
                    expected@[at as int],
                ));
                at = at + 1;
            }
            if at == actual.len() && at == expected.len() {
                assert(actual@.take(at as int) =~= actual@);
                assert(expected@.take(at as int) =~= expected@);
                None
            } else {
                Some(Disagreement::DiffersAt(kind, at))
            }
        },
        Err(BackendError::UnsupportedEvaluator) => None,
        Err(error) => Some(Disagreement::Failed(kind, *error)),
    }
}

/// What each of the backends was asked last, and its answer.
pub open spec fn last_replies(backends: Seq<Box<dyn BatchBackend>>, from: int) -> Seq<
    (BackendKind, Result<Seq<u8>, BackendError>),
> {
    Seq::new(
        (backends.len() - from) as nat,
        |i: int|
            (
                backends[from + i].backend_kind(),
                (backends[from + i].served().last())->One_reply,
            ),
    )
}

/// Backend `i` was asked `request` once more, and is otherwise as it was.
pub open spec fn asked(
    before: Seq<Box<dyn BatchBackend>>,
    after: Seq<Box<dyn BatchBackend>>,
    i: int,
    request: RequestView,
) -> bool {
    &&& after[i].well_formed()
    &&& after[i].backend_kind() == before[i].backend_kind()
    &&& after[i].served().len() == before[i].served().len() + 1
    &&& after[i].served().drop_last() == before[i].served()
    &&& after[i].served().last() is One
    &&& after[i].served().last()->One_request == request
}

/// Backend agreement: for one evaluator and frozen input, every backend that
/// claims the evaluator gives identical bytes, whatever kind of backend it is.
/// The first one is the definition; the rest are checked against it. Where the definition fails,
/// the rest are not asked.
pub fn check_agreement(
    program: &EvaluatorProgram,
    inputs: &[u8],
    element_count: u32,
    backends: &mut Vec<Box<dyn BatchBackend>>,
) -> (found: Vec<AgreementViolation>)
    requires
        program.well_formed(),
        forall|i: int| 0 <= i < old(backends)@.len() ==> (#[trigger] old(backends)@[i]).well_formed(),
    ensures
        final(backends)@.len() == old(backends)@.len(),
        ({
            let before = old(backends)@;
            let after = final(backends)@;
            let request = unbound_request(
                program@.id,
                inputs@,
                element_count,
                program@.stride() as u32,
            );
            if before.len() == 0 {
                found@ == Seq::<AgreementViolation>::empty()
            } else {
                &&& asked(before, after, 0, request)
                &&& match (after[0].served().last())->One_reply {
                    Err(error) => {
                        &&& found@ == seq![
                            AgreementViolation {
                                evaluator: program@.id,
                                detail: Disagreement::NoDefinition(error),
                            },
                        ]
                        &&& forall|i: int| 1 <= i < before.len() ==> after[i] == before[i]
                    },
                    Ok(expected) => {
                        &&& forall|i: int|
                            1 <= i < before.len() ==> #[trigger] asked(
                                before,
                                after,
                                i,
                                request,
                            )
                        &&& found@ == violations(program@.id, expected, last_replies(after, 1))
                    },
                }
            }
        }),
{
    let mut found: Vec<AgreementViolation> = Vec::new();
    if backends.len() == 0 {
        return found;
    }
    let ghost before = backends@;
    let stride: u32 = program.stride();
    let id: u32 = program.id();
    let ghost request = unbound_request(id, inputs@, element_count, stride);
    let first = backends[0].evaluate(id, inputs, element_count, stride);
    proof {
        assert(backends@[0].served().drop_last() =~= before[0].served());
    }
    let expected: Vec<u8> = match first {
        Ok(expected) => expected,
        Err(error) => {
            found.push(
                AgreementViolation { evaluator: id, detail: Disagreement::NoDefinition(error) },
            );
            return found;
        },
    };
    let mut i: usize = 1;
    assert(last_replies(backends@, 1).take(0) =~= Seq::<
        (BackendKind, Result<Seq<u8>, BackendError>),
    >::empty());
    while i < backends.len()
        invariant
            1 <= i <= backends.len(),
            backends@.len() == before.len(),
            before == old(backends)@,
            id == program@.id,
            stride == program@.stride(),
            request == unbound_request(id, inputs@, element_count, stride),
            asked(before, backends@, 0, request),
            (backends@[0].served().last())->One_reply == Ok::<Seq<u8>, BackendError>(expected@),
            forall|j: int| i <= j < before.len() ==> backends@[j] == before[j],
            forall|j: int| 0 <= j < before.len() ==> (#[trigger] before[j]).well_formed(),
            forall|j: int| 1 <= j < i ==> #[trigger] asked(before, backends@, j, request),
            found@ == violations(id, expected@, last_replies(backends@, 1).take(i - 1)),
        decreases backends.len() - i,
    {
        let ghost earlier = backends@;
        assert(before[i as int].well_formed());
        let reply = backends[i].evaluate(id, inputs, element_count, stride);
        let kind: BackendKind = backends[i].kind();
        proof {
            assert(backends@[i as int].served().drop_last() =~= before[i as int].served());
            assert forall|j: int| 1 <= j < i + 1 implies #[trigger] asked(
                before,
                backends@,
                j,
                request,
            ) by {
                if j < i {
                    assert(asked(before, earlier, j, request));
                    assert(backends@[j] == earlier[j]);
                }
            }
            assert(last_replies(backends@, 1).take(i - 1) =~= last_replies(earlier, 1).take(i - 1));
            assert(last_replies(backends@, 1).take(i as int).drop_last() =~= last_replies(
                backends@,
                1,
            ).take(i - 1));
            assert(last_replies(backends@, 1).take(i as int).last() == (kind, bytes_reply(reply)));
        }
        if let Some(detail) = compare_reply(&expected, kind, &reply) {
            found.push(AgreementViolation { evaluator: id, detail });
        }
        i = i + 1;
    }
    assert(last_replies(backends@, 1).take(i - 1) =~= last_replies(backends@, 1));
    found
}

/// Two reference backends with the same body never disagree about it.
pub proof fn law_reference_agrees_with_itself(
    installed: Map<u32, ProgramView>,
    request: RequestView,
    kind: BackendKind,
)
    ensures
        reference_answer(installed, request) matches Ok(expected) ==> disagreement(
            expected,
            kind,
            reference_answer(installed, request),
        ) is None,
{
}

} // verus!
