//! The cohorts of a timed epoch: their frozen inputs and the batches over them
//! before the clock starts, and their outputs once it has stopped.

use crate::executives::batch::BackendError;
use crate::executives::placement;
use crate::kernel;
use crate::kernel::{Call, Kernel, ObjectKind, Ref64, RuntimeError};
use vstd::prelude::*;

verus! {

/// The calls that make and freeze the first `n` inputs, all of the same bytes.
pub open spec fn input_calls(owner: Ref64, content: Seq<u8>, inputs: Seq<Ref64>, n: int) -> Seq<Call>
    decreases n,
{
    if n <= 0 {
        Seq::empty()
    } else {
        input_calls(owner, content, inputs, n - 1).push(
            Call::CreateObject {
                actor: owner,
                kind: ObjectKind::FrozenArray,
                bytes: content,
                reply: inputs[n - 1],
            },
        ).push(Call::Freeze { actor: owner, object: inputs[n - 1], reply: Ok(()) })
    }
}

/// What every batch of an epoch is made with.
#[derive(Clone, Copy, Debug, PartialEq, Eq, Structural)]
pub struct CohortShape {
    pub evaluator: u32,
    pub element_count: u32,
    pub element_stride: u32,
}

/// The calls that make a batch over each of the first `n` inputs.
pub open spec fn batch_calls(
    owner: Ref64,
    shape: CohortShape,
    inputs: Seq<Ref64>,
    collectives: Seq<Ref64>,
    n: int,
) -> Seq<Call>
    decreases n,
{
    if n <= 0 {
        Seq::empty()
    } else {
        batch_calls(owner, shape, inputs, collectives, n - 1).push(
            Call::CreateBatch {
                owner,
                evaluator: shape.evaluator,
                input: inputs[n - 1],
                element_count: shape.element_count,
                element_stride: shape.element_stride,
                reply: Ok(collectives[n - 1]),
            },
        )
    }
}

/// The inputs were made, and then the batches over them.
pub open spec fn are_prepared(
    owner: Ref64,
    shape: CohortShape,
    content: Seq<u8>,
    cohorts: u32,
    inputs: Seq<Ref64>,
    collectives: Seq<Ref64>,
    before: Seq<Call>,
    after: Seq<Call>,
) -> bool {
    &&& inputs.len() == cohorts
    &&& collectives.len() == cohorts
    &&& after == before + input_calls(owner, content, inputs, cohorts as int) + batch_calls(
        owner,
        shape,
        inputs,
        collectives,
        cohorts as int,
    )
}

pub open spec fn refused(call: Call) -> Option<RuntimeError> {
    match call {
        Call::Freeze { reply: Err(error), .. } => Some(error),
        Call::CreateBatch { reply: Err(error), .. } => Some(error),
        Call::ObjectBytes { reply: Err(error), .. } => Some(error),
        _ => None,
    }
}

/// A log grew, and ends in a refusal that the error passes on.
pub open spec fn ends_refused(before: Seq<Call>, after: Seq<Call>, error: BackendError) -> bool {
    &&& placement::grew(before, after)
    &&& before.len() < after.len()
    &&& refused(after.last()) is Some
    &&& error == BackendError::Runtime(refused(after.last())->Some_0)
}

proof fn lemma_inputs_extend(
    owner: Ref64,
    content: Seq<u8>,
    a: Seq<Ref64>,
    b: Seq<Ref64>,
    n: int,
)
    requires
        forall|i: int| 0 <= i < n ==> a[i] == b[i],
    ensures
        input_calls(owner, content, a, n) == input_calls(owner, content, b, n),
    decreases n,
{
    if n > 0 {
        lemma_inputs_extend(owner, content, a, b, n - 1);
    }
}

proof fn lemma_batches_extend(
    owner: Ref64,
    shape: CohortShape,
    inputs: Seq<Ref64>,
    a: Seq<Ref64>,
    b: Seq<Ref64>,
    n: int,
)
    requires
        forall|i: int| 0 <= i < n ==> a[i] == b[i],
    ensures
        batch_calls(owner, shape, inputs, a, n) == batch_calls(owner, shape, inputs, b, n),
    decreases n,
{
    if n > 0 {
        lemma_batches_extend(owner, shape, inputs, a, b, n - 1);
    }
}

fn make_inputs<K: Kernel>(kernel: &mut K, owner: Ref64, content: &Vec<u8>, cohorts: u32) -> (result:
    Result<Vec<Ref64>, BackendError>)
    ensures
        match result {
            Ok(inputs) => {
                &&& inputs@.len() == cohorts
                &&& final(kernel).log() == old(kernel).log() + input_calls(
                    owner,
                    content@,
                    inputs@,
                    cohorts as int,
                )
            },
            Err(error) => ends_refused(old(kernel).log(), final(kernel).log(), error),
        },
{
    let ghost before = kernel.log();
    let mut inputs: Vec<Ref64> = Vec::new();
    let mut i: u32 = 0;
    assert(before =~= before + input_calls(owner, content@, inputs@, 0));
    while i < cohorts
        invariant
            i <= cohorts,
            before == old(kernel).log(),
            inputs@.len() == i,
            kernel.log() == before + input_calls(owner, content@, inputs@, i as int),
        decreases cohorts - i,
    {
        let ghost held = inputs@;
        let ghost now = kernel.log();
        let input: Ref64 = kernel.create_object(
            owner,
            ObjectKind::FrozenArray,
            vstd::slice::slice_to_vec(content.as_slice()),
        );
        match kernel.freeze(owner, input) {
            Ok(unit) => {
                assert(unit == ());
            },
            Err(error) => {
                assert(kernel.log().take(before.len() as int) =~= before);
                return Err(BackendError::Runtime(error));
            },
        }
        inputs.push(input);
        proof {
            lemma_inputs_extend(owner, content@, held, inputs@, i as int);
            assert(kernel.log() =~= before + input_calls(owner, content@, inputs@, i + 1));
        }
        i = i + 1;
    }
    Ok(inputs)
}

/// Makes the frozen inputs of an epoch and a batch over each. The error passes
/// on the refusal that the kernel's log ends with.
pub fn prepare_cohorts<K: Kernel>(
    kernel: &mut K,
    owner: Ref64,
    shape: CohortShape,
    content: &Vec<u8>,
    cohorts: u32,
) -> (result: Result<Vec<Ref64>, BackendError>)
    ensures
        match result {
            Ok(collectives) => exists|inputs: Seq<Ref64>| #[trigger]
                are_prepared(
                    owner,
                    shape,
                    content@,
                    cohorts,
                    inputs,
                    collectives@,
                    old(kernel).log(),
                    final(kernel).log(),
                ),
            Err(error) => ends_refused(old(kernel).log(), final(kernel).log(), error),
        },
{
    let ghost before = kernel.log();
    let inputs: Vec<Ref64> = match make_inputs(kernel, owner, content, cohorts) {
        Ok(inputs) => inputs,
        Err(error) => {
            return Err(error);
        },
    };
    let ghost between = kernel.log();
    let mut collectives: Vec<Ref64> = Vec::new();
    let mut i: usize = 0;
    assert(between =~= between + batch_calls(owner, shape, inputs@, collectives@, 0));
    while i < inputs.len()
        invariant
            i <= inputs.len(),
            inputs@.len() == cohorts,
            before == old(kernel).log(),
            between == before + input_calls(owner, content@, inputs@, cohorts as int),
            collectives@.len() == i,
            kernel.log() == between + batch_calls(
                owner,
                shape,
                inputs@,
                collectives@,
                i as int,
            ),
        decreases inputs.len() - i,
    {
        let ghost held = collectives@;
        match kernel.create_batch_evaluate(
            owner,
            shape.evaluator,
            inputs[i],
            shape.element_count,
            shape.element_stride,
        ) {
            Ok(collective) => {
                collectives.push(collective);
            },
            Err(error) => {
                assert(kernel.log().take(before.len() as int) =~= before);
                return Err(BackendError::Runtime(error));
            },
        }
        proof {
            lemma_batches_extend(owner, shape, inputs@, held, collectives@, i as int);
            assert(kernel.log() =~= between + batch_calls(
                owner,
                shape,
                inputs@,
                collectives@,
                i + 1,
            ));
        }
        i = i + 1;
    }
    let result: Result<Vec<Ref64>, BackendError> = Ok(collectives);
    proof {
        assert(are_prepared(
            owner,
            shape,
            content@,
            cohorts,
            inputs@,
            result->Ok_0@,
            old(kernel).log(),
            final(kernel).log(),
        ));
    }
    result
}

/// The calls that read the first `n` outputs.
pub open spec fn output_calls(owner: Ref64, outputs: Seq<Ref64>, lists: Seq<Seq<u8>>, n: int) -> Seq<
    Call,
>
    decreases n,
{
    if n <= 0 {
        Seq::empty()
    } else {
        output_calls(owner, outputs, lists, n - 1).push(
            Call::ObjectBytes { actor: owner, object: outputs[n - 1], reply: Ok(lists[n - 1]) },
        )
    }
}

/// The bytes of the first `n` lists, one behind the other.
pub open spec fn strung(lists: Seq<Seq<u8>>, n: int) -> Seq<u8>
    decreases n,
{
    if n <= 0 {
        Seq::empty()
    } else {
        strung(lists, n - 1) + lists[n - 1]
    }
}

/// The outputs were read in order, and `content` is what they hold.
pub open spec fn are_gathered(
    owner: Ref64,
    outputs: Seq<Ref64>,
    lists: Seq<Seq<u8>>,
    before: Seq<Call>,
    after: Seq<Call>,
    content: Seq<u8>,
) -> bool {
    &&& lists.len() == outputs.len()
    &&& after == before + output_calls(owner, outputs, lists, outputs.len() as int)
    &&& content == strung(lists, outputs.len() as int)
}

proof fn lemma_outputs_extend(
    owner: Ref64,
    outputs: Seq<Ref64>,
    a: Seq<Seq<u8>>,
    b: Seq<Seq<u8>>,
    n: int,
)
    requires
        forall|i: int| 0 <= i < n ==> a[i] == b[i],
    ensures
        output_calls(owner, outputs, a, n) == output_calls(owner, outputs, b, n),
        strung(a, n) == strung(b, n),
    decreases n,
{
    if n > 0 {
        lemma_outputs_extend(owner, outputs, a, b, n - 1);
    }
}

/// The bytes of an epoch's outputs, in order. The error passes on the refusal
/// that the kernel's log ends with.
pub fn gather_outputs<K: Kernel>(kernel: &mut K, owner: Ref64, outputs: &Vec<Ref64>) -> (result:
    Result<Vec<u8>, BackendError>)
    ensures
        match result {
            Ok(content) => exists|lists: Seq<Seq<u8>>| #[trigger]
                are_gathered(
                    owner,
                    outputs@,
                    lists,
                    old(kernel).log(),
                    final(kernel).log(),
                    content@,
                ),
            Err(error) => ends_refused(old(kernel).log(), final(kernel).log(), error),
        },
{
    let ghost before = kernel.log();
    let ghost mut lists: Seq<Seq<u8>> = Seq::empty();
    let mut content: Vec<u8> = Vec::new();
    let mut i: usize = 0;
    assert(before =~= before + output_calls(owner, outputs@, lists, 0));
    while i < outputs.len()
        invariant
            i <= outputs.len(),
            before == old(kernel).log(),
            lists.len() == i,
            content@ == strung(lists, i as int),
            kernel.log() == before + output_calls(owner, outputs@, lists, i as int),
        decreases outputs.len() - i,
    {
        match kernel.object_bytes(owner, outputs[i]) {
            Ok(bytes) => {
                let mut bytes: Vec<u8> = bytes;
                proof {
                    let more = lists.push(bytes@);
                    lemma_outputs_extend(owner, outputs@, lists, more, i as int);
                    lists = more;
                }
                content.append(&mut bytes);
                assert(kernel.log() =~= before + output_calls(owner, outputs@, lists, i + 1));
            },
            Err(error) => {
                assert(kernel.log().take(before.len() as int) =~= before);
                return Err(BackendError::Runtime(error));
            },
        }
        i = i + 1;
    }
    let result: Result<Vec<u8>, BackendError> = Ok(content);
    assert(are_gathered(
        owner,
        outputs@,
        lists,
        old(kernel).log(),
        final(kernel).log(),
        result->Ok_0@,
    ));
    result
}

} // verus!
