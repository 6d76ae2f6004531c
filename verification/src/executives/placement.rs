//! Where ready batches run, and how their outputs are published.
//!
//! What the kernel and the backends answer is not known here. The contracts
//! say which calls are made, each from the replies before it, and what comes
//! of every possible reply.

use crate::executives::batch;
use crate::executives::batch::{
    AuxArray, AuxView, BackendError, BackendKind, BatchBackend, BatchRequest, PlacementStats,
    RequestView, Served, StatsView,
};
use crate::kernel;
use crate::kernel::{AuxBinding, BatchOrder, Call, Kernel, ObjectKind, Ref64, RuntimeError};
use vstd::prelude::*;

verus! {

// ---- fetching --------------------------------------------------------------

/// Why a call was refused, if it was.
pub open spec fn refusal(call: Call) -> Option<RuntimeError> {
    match call {
        Call::BatchOrder { reply: Err(error), .. } => Some(error),
        Call::BatchAux { reply: Err(error), .. } => Some(error),
        Call::ObjectBytesMany { reply: Err(error), .. } => Some(error),
        Call::Freeze { reply: Err(error), .. } => Some(error),
        Call::CompleteBatch { reply: Err(error), .. } => Some(error),
        _ => None,
    }
}

/// Call `m` asks for the order of a collective and then for its second array,
/// collective by collective.
pub open spec fn asks_in_turn(collectives: Seq<Ref64>, k: Seq<Call>, m: int) -> bool {
    if m % 2 == 0 {
        k[m] is BatchOrder && k[m]->BatchOrder_collective == collectives[m / 2]
    } else {
        k[m] is BatchAux && k[m]->BatchAux_collective == collectives[m / 2]
    }
}

pub open spec fn order_of(k: Seq<Call>, i: int) -> BatchOrder {
    k[2 * i]->BatchOrder_reply->Ok_0
}

pub open spec fn aux_of(k: Seq<Call>, i: int) -> AuxBinding {
    k[2 * i + 1]->BatchAux_reply->Ok_0
}

pub open spec fn is_bound(aux: AuxBinding) -> bool {
    aux.element_stride != 0
}

/// The second arrays that the first `n` collectives bind. An unbound one is
/// not fetched: every reference asked for is authorized.
pub open spec fn bound_refs(k: Seq<Call>, n: int) -> Seq<Ref64>
    decreases n,
{
    if n <= 0 {
        Seq::empty()
    } else if is_bound(aux_of(k, n - 1)) {
        bound_refs(k, n - 1).push(aux_of(k, n - 1).inputs)
    } else {
        bound_refs(k, n - 1)
    }
}

/// Every array of `n` collectives: their inputs, then what they bind.
pub open spec fn wanted(k: Seq<Call>, n: int) -> Seq<Ref64> {
    Seq::new(n as nat, |i: int| order_of(k, i).inputs) + bound_refs(k, n)
}

/// The calls that fetch the arrays of `collectives`: they stop at the first
/// refusal.
pub open spec fn fetch_calls(actor: Ref64, collectives: Seq<Ref64>, k: Seq<Call>) -> bool {
    let n = collectives.len() as int;
    &&& 0 < k.len() <= 2 * n + 1
    &&& forall|m: int| 0 <= m < k.len() && m < 2 * n ==> #[trigger] asks_in_turn(collectives, k, m)
    &&& forall|m: int| 0 <= m < k.len() - 1 ==> refusal(#[trigger] k[m]) is None
    &&& k.len() < 2 * n + 1 ==> refusal(k.last()) is Some
    &&& k.len() == 2 * n + 1 ==> {
        &&& k.last() is ObjectBytesMany
        &&& k.last()->ObjectBytesMany_actor == actor
        &&& k.last()->ObjectBytesMany_objects == wanted(k, n)
    }
}

/// The request of collective `i` of `n`, from the replies of the kernel.
pub open spec fn request_of(k: Seq<Call>, n: int, i: int) -> RequestView {
    let lists = k[2 * n]->ObjectBytesMany_reply->Ok_0;
    let aux = aux_of(k, i);
    RequestView {
        evaluator_id: order_of(k, i).evaluator,
        inputs: lists[i],
        aux: AuxView {
            bytes: if is_bound(aux) {
                lists[n + bound_refs(k, i).len()]
            } else {
                Seq::empty()
            },
            element_count: aux.element_count,
            element_stride: aux.element_stride,
        },
        element_count: order_of(k, i).element_count,
        element_stride: order_of(k, i).element_stride,
    }
}

pub open spec fn requests_of(k: Seq<Call>, n: int) -> Seq<RequestView> {
    Seq::new(n as nat, |i: int| request_of(k, n, i))
}

/// What fetching comes to.
pub open spec fn fetch_result(k: Seq<Call>, n: int) -> Result<Seq<RequestView>, BackendError> {
    match refusal(k.last()) {
        Some(error) => Err(BackendError::Runtime(error)),
        None => Ok(requests_of(k, n)),
    }
}

/// The entries that a log gained.
pub open spec fn gained<T>(before: Seq<T>, after: Seq<T>) -> Seq<T> {
    after.skip(before.len() as int)
}

pub open spec fn grew<T>(before: Seq<T>, after: Seq<T>) -> bool {
    before.len() <= after.len() && after.take(before.len() as int) == before
}

/// One batch with its arrays at hand.
pub struct Fetched {
    pub evaluator: u32,
    pub element_count: u32,
    pub element_stride: u32,
    pub inputs: Vec<u8>,
    pub aux: Vec<u8>,
    pub aux_count: u32,
    pub aux_stride: u32,
}

impl View for Fetched {
    type V = RequestView;

    open spec fn view(&self) -> RequestView {
        RequestView {
            evaluator_id: self.evaluator,
            inputs: self.inputs@,
            aux: AuxView {
                bytes: self.aux@,
                element_count: self.aux_count,
                element_stride: self.aux_stride,
            },
            element_count: self.element_count,
            element_stride: self.element_stride,
        }
    }
}

pub open spec fn fetched_views(work: Seq<Fetched>) -> Seq<RequestView> {
    Seq::new(work.len(), |i: int| work[i]@)
}

impl Fetched {
    pub fn request(&self) -> (request: BatchRequest<'_>)
        ensures
            request@ == self@,
    {
        let request = BatchRequest {
            evaluator_id: self.evaluator,
            inputs: self.inputs.as_slice(),
            aux: AuxArray::new(self.aux.as_slice(), self.aux_count, self.aux_stride),
            element_count: self.element_count,
            element_stride: self.element_stride,
        };
        assert(request@ =~= self@);
        request
    }
}

proof fn lemma_bound_refs_local(k: Seq<Call>, l: Seq<Call>, n: int)
    requires
        forall|m: int| 0 <= m < 2 * n ==> k[m] == l[m],
    ensures
        bound_refs(k, n) == bound_refs(l, n),
    decreases n,
{
    if n > 0 {
        lemma_bound_refs_local(k, l, n - 1);
    }
}

proof fn lemma_bound_refs_len(k: Seq<Call>, i: int, n: int)
    requires
        0 <= i <= n,
    ensures
        bound_refs(k, i).len() <= bound_refs(k, n).len(),
        i < n && is_bound(aux_of(k, i)) ==> bound_refs(k, i).len() < bound_refs(k, n).len(),
    decreases n - i,
{
    if i < n {
        lemma_bound_refs_len(k, i, n - 1);
    }
}

/// Reads the orders of `collectives` and fetches all their arrays in one call.
pub fn fetch<K: Kernel>(kernel: &mut K, actor: Ref64, collectives: &Vec<Ref64>) -> (result: Result<
    Vec<Fetched>,
    BackendError,
>)
    ensures
        grew(old(kernel).log(), final(kernel).log()),
        fetch_calls(actor, collectives@, gained(old(kernel).log(), final(kernel).log())),
        match result {
            Ok(work) => fetch_result(
                gained(old(kernel).log(), final(kernel).log()),
                collectives@.len() as int,
            ) == Ok::<_, BackendError>(fetched_views(work@)) && work@.len() == collectives@.len(),
            Err(error) => fetch_result(
                gained(old(kernel).log(), final(kernel).log()),
                collectives@.len() as int,
            ) == Err::<Seq<RequestView>, _>(error),
        },
{
    let ghost before = kernel.log();
    let ghost n = collectives@.len() as int;
    let mut orders: Vec<BatchOrder> = Vec::new();
    let mut auxes: Vec<AuxBinding> = Vec::new();
    let mut refs: Vec<Ref64> = Vec::new();
    let mut bound: Vec<Ref64> = Vec::new();
    let mut i: usize = 0;
    assert(gained(before, kernel.log()) =~= Seq::<Call>::empty());
    assert(kernel.log().take(before.len() as int) =~= before);
    while i < collectives.len()
        invariant
            i <= collectives.len(),
            n == collectives@.len(),
            before == old(kernel).log(),
            grew(before, kernel.log()),
            gained(before, kernel.log()).len() == 2 * i,
            forall|m: int|
                0 <= m < 2 * i ==> #[trigger] asks_in_turn(
                    collectives@,
                    gained(before, kernel.log()),
                    m,
                ),
            forall|m: int|
                0 <= m < 2 * i ==> refusal(#[trigger] gained(before, kernel.log())[m]) is None,
            orders@.len() == i,
            auxes@.len() == i,
            forall|j: int|
                0 <= j < i ==> #[trigger] orders@[j] == order_of(gained(before, kernel.log()), j),
            forall|j: int|
                0 <= j < i ==> #[trigger] auxes@[j] == aux_of(gained(before, kernel.log()), j),
            refs@ =~= Seq::new(i as nat, |j: int| orders@[j].inputs),
            bound@ == bound_refs(gained(before, kernel.log()), i as int),
        decreases collectives.len() - i,
    {
        let ghost k0 = gained(before, kernel.log());
        let ghost l0 = kernel.log();
        let asked = kernel.batch_evaluate_request(collectives[i]);
        let ghost k1 = gained(before, kernel.log());
        let ghost l1 = kernel.log();
        proof {
            assert(k1 =~= k0.push(Call::BatchOrder { collective: collectives@[i as int], reply: asked }));
            assert(l1.take(before.len() as int) =~= before);
            assert forall|m: int| 0 <= m < k1.len() && m < 2 * n implies #[trigger] asks_in_turn(
                collectives@,
                k1,
                m,
            ) by {
                if m < 2 * i {
                    assert(asks_in_turn(collectives@, k0, m));
                }
            }
            assert forall|m: int| 0 <= m < k1.len() - 1 implies refusal(#[trigger] k1[m]) is None by {
                assert(refusal(k0[m]) is None);
            }
        }
        let order: BatchOrder = match asked {
            Ok(order) => order,
            Err(error) => {
                return Err(BackendError::Runtime(error));
            },
        };
        let binding = kernel.batch_evaluate_aux(collectives[i]);
        let ghost k2 = gained(before, kernel.log());
        proof {
            assert(k2 =~= k1.push(Call::BatchAux { collective: collectives@[i as int], reply: binding }));
            assert(kernel.log().take(before.len() as int) =~= before);
            assert forall|m: int| 0 <= m < k2.len() && m < 2 * n implies #[trigger] asks_in_turn(
                collectives@,
                k2,
                m,
            ) by {
                if m < 2 * i + 1 {
                    assert(asks_in_turn(collectives@, k1, m));
                }
            }
            assert forall|m: int| 0 <= m < k2.len() - 1 implies refusal(#[trigger] k2[m]) is None by {
                if m < 2 * i {
                    assert(refusal(k0[m]) is None);
                }
            }
        }
        let aux: AuxBinding = match binding {
            Ok(aux) => aux,
            Err(error) => {
                return Err(BackendError::Runtime(error));
            },
        };
        let ghost o0 = orders@;
        let ghost x0 = auxes@;
        orders.push(order);
        auxes.push(aux);
        refs.push(order.inputs);
        if aux.element_stride != 0 {
            bound.push(aux.inputs);
        }
        proof {
            lemma_bound_refs_local(k0, k2, i as int);
            assert(order_of(k2, i as int) == order);
            assert(aux_of(k2, i as int) == aux);
            assert forall|j: int| 0 <= j < i + 1 implies #[trigger] orders@[j] == order_of(k2, j) by {
                if j < i {
                    assert(o0[j] == order_of(k0, j));
                    assert(k2[2 * j] == k0[2 * j]);
                }
            }
            assert forall|j: int| 0 <= j < i + 1 implies #[trigger] auxes@[j] == aux_of(k2, j) by {
                if j < i {
                    assert(x0[j] == aux_of(k0, j));
                    assert(k2[2 * j + 1] == k0[2 * j + 1]);
                }
            }
        }
        i = i + 1;
    }
    let ghost k = gained(before, kernel.log());
    let first_bound: usize = refs.len();
    refs.append(&mut bound);
    assert(refs@ =~= wanted(k, n));
    let answer = kernel.object_bytes_many(actor, &refs);
    let ghost whole = gained(before, kernel.log());
    proof {
        let call = Call::ObjectBytesMany {
            actor,
            objects: refs@,
            reply: kernel::replied_lists(answer),
        };
        assert(whole =~= k.push(call));
        assert(kernel.log().take(before.len() as int) =~= before);
        lemma_bound_refs_local(k, whole, n);
        assert(wanted(whole, n) =~= wanted(k, n));
        assert forall|m: int| 0 <= m < 2 * n implies #[trigger] asks_in_turn(
            collectives@,
            whole,
            m,
        ) by {
            assert(asks_in_turn(collectives@, k, m));
        }
        assert forall|m: int| 0 <= m < 2 * n implies refusal(#[trigger] whole[m]) is None by {
            assert(refusal(k[m]) is None);
        }
        assert forall|m: int| 0 <= m < n implies {
            &&& #[trigger] orders@[m] == order_of(whole, m)
            &&& auxes@[m] == aux_of(whole, m)
        } by {
            assert(whole[2 * m] == k[2 * m]);
            assert(whole[2 * m + 1] == k[2 * m + 1]);
        }
    }
    let mut lists: Vec<Vec<u8>> = match answer {
        Ok(lists) => lists,
        Err(error) => {
            return Err(BackendError::Runtime(error));
        },
    };
    let ghost all = kernel::byte_lists(lists@);
    let mut work: Vec<Fetched> = Vec::new();
    let mut at: usize = first_bound;
    let mut j: usize = 0;
    while j < orders.len()
        invariant
            j <= orders.len(),
            n == orders@.len() == auxes@.len() == first_bound,
            lists@.len() == wanted(whole, n).len(),
            all.len() == lists@.len(),
            whole[2 * n]->ObjectBytesMany_reply == Ok::<Seq<Seq<u8>>, RuntimeError>(all),
            forall|m: int| j <= m < n ==> (#[trigger] lists@[m])@ == all[m],
            forall|m: int| at <= m < lists@.len() ==> (#[trigger] lists@[m])@ == all[m],
            at == n + bound_refs(whole, j as int).len(),
            forall|m: int|
                0 <= m < n ==> {
                    &&& #[trigger] orders@[m] == order_of(whole, m)
                    &&& auxes@[m] == aux_of(whole, m)
                },
            work@.len() == j,
            forall|m: int| 0 <= m < j ==> (#[trigger] work@[m])@ == request_of(whole, n, m),
        decreases orders.len() - j,
    {
        proof {
            lemma_bound_refs_len(whole, j as int, n);
        }
        assert(orders@[j as int] == order_of(whole, j as int));
        let order: BatchOrder = orders[j];
        let aux: AuxBinding = auxes[j];
        let mut inputs: Vec<u8> = Vec::new();
        assert(lists@[j as int]@ == all[j as int]);
        std::mem::swap(&mut inputs, &mut lists[j]);
        let mut second: Vec<u8> = Vec::new();
        if aux.element_stride != 0 {
            assert(at < lists.len());
            assert(lists@[at as int]@ == all[at as int]);
            std::mem::swap(&mut second, &mut lists[at]);
            at = at + 1;
        }
        let made = Fetched {
            evaluator: order.evaluator,
            element_count: order.element_count,
            element_stride: order.element_stride,
            inputs,
            aux: second,
            aux_count: aux.element_count,
            aux_stride: aux.element_stride,
        };
        assert(made@ =~= request_of(whole, n, j as int));
        work.push(made);
        j = j + 1;
    }
    assert(fetched_views(work@) =~= requests_of(whole, n));
    Ok(work)
}

// ---- publishing ------------------------------------------------------------

/// The calls that publish `bytes` as the output of `collective`, and what they
/// come to. They stop at the first refusal.
pub open spec fn published(
    actor: Ref64,
    collective: Ref64,
    bytes: Seq<u8>,
    k: Seq<Call>,
    result: Result<Ref64, BackendError>,
) -> bool {
    let output = k[0]->CreateObject_reply;
    &&& k.len() >= 2
    &&& k[0] == (Call::CreateObject { actor, kind: ObjectKind::FrozenArray, bytes, reply: output })
    &&& k[1] is Freeze && k[1]->Freeze_actor == actor && k[1]->Freeze_object == output
    &&& match k[1]->Freeze_reply {
        Err(error) => k.len() == 2 && result == Err::<Ref64, _>(BackendError::Runtime(error)),
        Ok(_) => {
            &&& k.len() == 3
            &&& k[2] is CompleteBatch
            &&& k[2]->CompleteBatch_actor == actor
            &&& k[2]->CompleteBatch_collective == collective
            &&& k[2]->CompleteBatch_output == output
            &&& result == match k[2]->CompleteBatch_reply {
                Err(error) => Err(BackendError::Runtime(error)),
                Ok(_) => Ok(output),
            }
        },
    }
}

pub fn publish<K: Kernel>(kernel: &mut K, actor: Ref64, collective: Ref64, outputs: Vec<u8>) -> (result:
    Result<Ref64, BackendError>)
    ensures
        grew(old(kernel).log(), final(kernel).log()),
        published(
            actor,
            collective,
            outputs@,
            gained(old(kernel).log(), final(kernel).log()),
            result,
        ),
{
    let ghost before = kernel.log();
    let output: Ref64 = kernel.create_object(actor, ObjectKind::FrozenArray, outputs);
    let frozen = kernel.freeze(actor, output);
    proof {
        assert(kernel.log().take(before.len() as int) =~= before);
        assert(gained(before, kernel.log()) =~= seq![
            Call::CreateObject {
                actor,
                kind: ObjectKind::FrozenArray,
                bytes: outputs@,
                reply: output,
            },
            Call::Freeze { actor, object: output, reply: frozen },
        ]);
    }
    if let Err(error) = frozen {
        return Err(BackendError::Runtime(error));
    }
    let completed = kernel.complete_batch_evaluate(actor, collective, output);
    proof {
        assert(kernel.log().take(before.len() as int) =~= before);
        assert(gained(before, kernel.log()) =~= seq![
            Call::CreateObject {
                actor,
                kind: ObjectKind::FrozenArray,
                bytes: outputs@,
                reply: output,
            },
            Call::Freeze { actor, object: output, reply: frozen },
            Call::CompleteBatch { actor, collective, output, reply: completed },
        ]);
    }
    match completed {
        Ok(_) => Ok(output),
        Err(error) => Err(BackendError::Runtime(error)),
    }
}

// ---- one batch -------------------------------------------------------------

/// An output, where it was made, and whether the accelerator was passed over.
#[verifier::ext_equal]
pub ghost struct Placed {
    pub bytes: Seq<u8>,
    pub kind: BackendKind,
    pub spilled: bool,
}

pub open spec fn asked_once(a: Seq<Served>, request: RequestView) -> bool {
    a.len() == 1 && a[0] is One && a[0]->One_request == batch::heard(request)
}

/// Which backends are asked for one batch and what comes of their answers: a
/// batch below the minimum goes to the CPU, and so does one for which the
/// accelerator is unavailable.
pub open spec fn placed(
    request: RequestView,
    minimum: u32,
    accelerator: BackendKind,
    a: Seq<Served>,
    cpu: BackendKind,
    c: Seq<Served>,
    result: Result<Placed, BackendError>,
) -> bool {
    if request.element_count >= minimum {
        &&& asked_once(a, request)
        &&& match a[0]->One_reply {
            Ok(bytes) => c.len() == 0 && result == Ok::<_, BackendError>(
                Placed { bytes, kind: accelerator, spilled: false },
            ),
            Err(BackendError::Unavailable) => on_cpu(request, cpu, c, result),
            Err(error) => c.len() == 0 && result == Err::<Placed, _>(error),
        }
    } else {
        a.len() == 0 && on_cpu(request, cpu, c, result)
    }
}

pub open spec fn on_cpu(
    request: RequestView,
    cpu: BackendKind,
    c: Seq<Served>,
    result: Result<Placed, BackendError>,
) -> bool {
    &&& asked_once(c, request)
    &&& result == match c[0]->One_reply {
        Ok(bytes) => Ok(Placed { bytes, kind: cpu, spilled: true }),
        Err(error) => Err(error),
    }
}

pub open spec fn placed_view(
    result: Result<(Vec<u8>, BackendKind, bool), BackendError>,
) -> Result<Placed, BackendError> {
    match result {
        Ok((bytes, kind, spilled)) => Ok(Placed { bytes: bytes@, kind, spilled }),
        Err(error) => Err(error),
    }
}

pub fn place<A: BatchBackend, C: BatchBackend>(
    request: BatchRequest<'_>,
    minimum: u32,
    accelerator: &mut A,
    cpu: &mut C,
) -> (result: Result<(Vec<u8>, BackendKind, bool), BackendError>)
    requires
        old(accelerator).well_formed(),
        old(cpu).well_formed(),
    ensures
        final(accelerator).well_formed(),
        final(cpu).well_formed(),
        final(accelerator).backend_kind() == old(accelerator).backend_kind(),
        final(cpu).backend_kind() == old(cpu).backend_kind(),
        grew(old(accelerator).served(), final(accelerator).served()),
        grew(old(cpu).served(), final(cpu).served()),
        placed(
            request@,
            minimum,
            old(accelerator).backend_kind(),
            gained(old(accelerator).served(), final(accelerator).served()),
            old(cpu).backend_kind(),
            gained(old(cpu).served(), final(cpu).served()),
            placed_view(result),
        ),
{
    let ghost a0 = accelerator.served();
    let ghost c0 = cpu.served();
    assert(gained(a0, a0) =~= Seq::<Served>::empty());
    assert(gained(c0, c0) =~= Seq::<Served>::empty());
    assert(a0.take(a0.len() as int) =~= a0);
    assert(c0.take(c0.len() as int) =~= c0);
    if request.element_count >= minimum {
        let reply = accelerator.evaluate_payload(request);
        proof {
            let entry = Served::One {
                request: batch::heard(request@),
                reply: batch::bytes_reply(reply),
            };
            assert(gained(a0, a0.push(entry)) =~= seq![entry]);
            assert(a0.push(entry).take(a0.len() as int) =~= a0);
        }
        match reply {
            Ok(bytes) => {
                let kind: BackendKind = accelerator.kind();
                return Ok((bytes, kind, false));
            },
            Err(BackendError::Unavailable) => {},
            Err(error) => {
                return Err(error);
            },
        }
    }
    let reply = cpu.evaluate_payload(request);
    proof {
        let entry = Served::One {
                request: batch::heard(request@),
                reply: batch::bytes_reply(reply),
            };
        assert(gained(c0, c0.push(entry)) =~= seq![entry]);
        assert(c0.push(entry).take(c0.len() as int) =~= c0);
    }
    let kind: BackendKind = cpu.kind();
    match reply {
        Ok(bytes) => Ok((bytes, kind, true)),
        Err(error) => Err(error),
    }
}

/// What follows the fetching of `request`, where placing it came to `p`.
pub open spec fn finished(
    actor: Ref64,
    collective: Ref64,
    minimum: u32,
    request: RequestView,
    k: Seq<Call>,
    accelerator: BackendKind,
    a: Seq<Served>,
    cpu: BackendKind,
    c: Seq<Served>,
    before: StatsView,
    after: StatsView,
    result: Result<Ref64, BackendError>,
    p: Result<Placed, BackendError>,
) -> bool {
    &&& placed(request, minimum, accelerator, a, cpu, c, p)
    &&& match p {
        Err(error) => k.len() == 3 && after == before && result == Err::<Ref64, _>(error),
        Ok(p) => if p.bytes.len() < request.element_count * request.element_stride {
            k.len() == 3 && after == before && result == Err::<Ref64, _>(BackendError::InvalidInput)
        } else {
            &&& published(actor, collective, p.bytes, k.skip(3), result)
            &&& after == if result is Ok {
                before.recorded(request.evaluator_id, p.kind, p.spilled)
            } else {
                before
            }
        },
    }
}

/// The calls that fetch one collective, where `k` starts with them.
pub open spec fn opening(k: Seq<Call>) -> Seq<Call> {
    if k.len() >= 3 {
        k.take(3)
    } else {
        k
    }
}

/// Fetches one ready collective, runs it where its size says, and publishes
/// the output. An output shorter than the batch is refused unpublished.
pub open spec fn executed(
    actor: Ref64,
    collective: Ref64,
    minimum: u32,
    k: Seq<Call>,
    accelerator: BackendKind,
    a: Seq<Served>,
    cpu: BackendKind,
    c: Seq<Served>,
    before: StatsView,
    after: StatsView,
    result: Result<Ref64, BackendError>,
) -> bool {
    let fetching = opening(k);
    &&& fetch_calls(actor, seq![collective], fetching)
    &&& match fetch_result(fetching, 1) {
        Err(error) => {
            &&& k == fetching
            &&& a.len() == 0
            &&& c.len() == 0
            &&& after == before
            &&& result == Err::<Ref64, _>(error)
        },
        Ok(requests) => {
            exists|p: Result<Placed, BackendError>| #[trigger]
                finished(
                    actor,
                    collective,
                    minimum,
                    requests[0],
                    k,
                    accelerator,
                    a,
                    cpu,
                    c,
                    before,
                    after,
                    result,
                    p,
                )
        },
    }
}

proof fn lemma_executed(
    actor: Ref64,
    collective: Ref64,
    minimum: u32,
    k: Seq<Call>,
    accelerator: BackendKind,
    a: Seq<Served>,
    cpu: BackendKind,
    c: Seq<Served>,
    before: StatsView,
    after: StatsView,
    result: Result<Ref64, BackendError>,
    p: Result<Placed, BackendError>,
)
    requires
        k.len() >= 3,
        fetch_calls(actor, seq![collective], k.take(3)),
        fetch_result(k.take(3), 1) is Ok,
        finished(
            actor,
            collective,
            minimum,
            requests_of(k.take(3), 1)[0],
            k,
            accelerator,
            a,
            cpu,
            c,
            before,
            after,
            result,
            p,
        ),
    ensures
        executed(actor, collective, minimum, k, accelerator, a, cpu, c, before, after, result),
{
    assert(opening(k) == k.take(3));
    let requests = fetch_result(opening(k), 1)->Ok_0;
    assert(finished(
        actor,
        collective,
        minimum,
        requests[0],
        k,
        accelerator,
        a,
        cpu,
        c,
        before,
        after,
        result,
        p,
    ));
}

pub fn execute_with_spill<K: Kernel, A: BatchBackend, C: BatchBackend>(
    kernel: &mut K,
    actor: Ref64,
    collective: Ref64,
    minimum_accelerator_batch: u32,
    accelerator: &mut A,
    cpu: &mut C,
    stats: &mut PlacementStats,
) -> (result: Result<Ref64, BackendError>)
    requires
        old(accelerator).well_formed(),
        old(cpu).well_formed(),
        old(stats)@.has_room(1),
    ensures
        final(accelerator).well_formed(),
        final(cpu).well_formed(),
        grew(old(kernel).log(), final(kernel).log()),
        grew(old(accelerator).served(), final(accelerator).served()),
        grew(old(cpu).served(), final(cpu).served()),
        executed(
            actor,
            collective,
            minimum_accelerator_batch,
            gained(old(kernel).log(), final(kernel).log()),
            old(accelerator).backend_kind(),
            gained(old(accelerator).served(), final(accelerator).served()),
            old(cpu).backend_kind(),
            gained(old(cpu).served(), final(cpu).served()),
            old(stats)@,
            final(stats)@,
            result,
        ),
{
    let ghost k0 = kernel.log();
    let ghost a0 = accelerator.served();
    let ghost c0 = cpu.served();
    assert(gained(a0, a0) =~= Seq::<Served>::empty());
    assert(gained(c0, c0) =~= Seq::<Served>::empty());
    assert(a0.take(a0.len() as int) =~= a0);
    assert(c0.take(c0.len() as int) =~= c0);
    let mut one: Vec<Ref64> = Vec::new();
    one.push(collective);
    assert(one@ =~= seq![collective]);
    let fetching = fetch(kernel, actor, &one);
    let ghost kf = gained(k0, kernel.log());
    assert(kf.take(kf.len() as int) =~= kf);
    let work: Vec<Fetched> = match fetching {
        Ok(work) => work,
        Err(error) => {
            return Err(error);
        },
    };
    let ghost request = work@[0]@;
    assert(fetched_views(work@)[0] == request);
    let placing = place(work[0].request(), minimum_accelerator_batch, accelerator, cpu);
    let ghost p = placed_view(placing);
    proof {
        assert(kf.len() == 3);
        assert(kf.take(3) =~= kf);
        assert(fetch_calls(actor, seq![collective], kf));
        assert(fetch_result(kf, 1) == Ok::<_, BackendError>(requests_of(kf, 1)));
        assert(requests_of(kf, 1)[0] == request);
        assert(placed(
            request,
            minimum_accelerator_batch,
            old(accelerator).backend_kind(),
            gained(a0, accelerator.served()),
            old(cpu).backend_kind(),
            gained(c0, cpu.served()),
            p,
        ));
    }
    let (outputs, kind, spilled) = match placing {
        Ok(placed) => placed,
        Err(error) => {
        proof {
            lemma_executed(
                actor,
                collective,
                minimum_accelerator_batch,
                gained(k0, kernel.log()),
                old(accelerator).backend_kind(),
                gained(a0, accelerator.served()),
                old(cpu).backend_kind(),
                gained(c0, cpu.served()),
                old(stats)@,
                stats@,
                Err(error),
                p,
            );
        }
            return Err(error);
        },
    };
    let produced: usize = outputs.len();
    assert(outputs@.len() == produced);
    let enough: bool = match (work[0].element_count as usize).checked_mul(
        work[0].element_stride as usize,
    ) {
        Some(required) => produced >= required,
        None => false,
    };
    if !enough {
        proof {
            lemma_executed(
                actor,
                collective,
                minimum_accelerator_batch,
                gained(k0, kernel.log()),
                old(accelerator).backend_kind(),
                gained(a0, accelerator.served()),
                old(cpu).backend_kind(),
                gained(c0, cpu.served()),
                old(stats)@,
                stats@,
                Err(BackendError::InvalidInput),
                p,
            );
        }
        return Err(BackendError::InvalidInput);
    }
    let ghost k1 = kernel.log();
    let result = publish(kernel, actor, collective, outputs);
    proof {
        let k2 = kernel.log();
        assert(k2.take(k0.len() as int) =~= k1.take(k0.len() as int));
        assert(gained(k0, k2).take(3) =~= kf);
        assert(gained(k0, k2).skip(3) =~= gained(k1, k2));
    }
    if result.is_ok() {
        stats.record(work[0].evaluator, kind, spilled);
    }
        proof {
            lemma_executed(
                actor,
                collective,
                minimum_accelerator_batch,
                gained(k0, kernel.log()),
                old(accelerator).backend_kind(),
                gained(a0, accelerator.served()),
                old(cpu).backend_kind(),
                gained(c0, cpu.served()),
                old(stats)@,
                stats@,
                result,
                p,
            );
        }
    result
}

// ---- an epoch of batches ---------------------------------------------------

/// The requests among the first `n` that reach the minimum, or those that do
/// not.
pub open spec fn group(requests: Seq<RequestView>, minimum: u32, large: bool, n: int) -> Seq<
    RequestView,
>
    decreases n,
{
    if n <= 0 {
        Seq::empty()
    } else if (requests[n - 1].element_count >= minimum) == large {
        group(requests, minimum, large, n - 1).push(requests[n - 1])
    } else {
        group(requests, minimum, large, n - 1)
    }
}

/// What the two groups of an epoch were answered.
#[verifier::ext_equal]
pub ghost struct EpochPlaced {
    pub large: Seq<Seq<u8>>,
    pub large_kind: BackendKind,
    pub spilled: bool,
    pub small: Seq<Seq<u8>>,
    pub small_kind: BackendKind,
}

pub open spec fn asked_epoch(entry: Served, requests: Seq<RequestView>) -> bool {
    entry is Epoch && entry->Epoch_requests == requests
}

/// The accelerator is given all large batches at once. Where it is unavailable
/// all of them go to the CPU, which then gets the small ones.
pub open spec fn epoch_placed(
    requests: Seq<RequestView>,
    minimum: u32,
    accelerator: BackendKind,
    a: Seq<Served>,
    cpu: BackendKind,
    c: Seq<Served>,
    result: Result<EpochPlaced, BackendError>,
) -> bool {
    let n = requests.len() as int;
    let large = group(requests, minimum, true, n);
    let small = group(requests, minimum, false, n);
    &&& a.len() == 1
    &&& asked_epoch(a[0], large)
    &&& match a[0]->Epoch_reply {
        Ok(outputs) => {
            &&& c.len() == 1
            &&& asked_epoch(c[0], small)
            &&& result == match c[0]->Epoch_reply {
                Ok(rest) => Ok(
                    EpochPlaced {
                        large: outputs,
                        large_kind: accelerator,
                        spilled: false,
                        small: rest,
                        small_kind: cpu,
                    },
                ),
                Err(error) => Err(error),
            }
        },
        Err(BackendError::Unavailable) => {
            &&& c.len() >= 1
            &&& asked_epoch(c[0], large)
            &&& match c[0]->Epoch_reply {
                Err(error) => c.len() == 1 && result == Err::<EpochPlaced, _>(error),
                Ok(outputs) => {
                    &&& c.len() == 2
                    &&& asked_epoch(c[1], small)
                    &&& result == match c[1]->Epoch_reply {
                        Ok(rest) => Ok(
                            EpochPlaced {
                                large: outputs,
                                large_kind: cpu,
                                spilled: true,
                                small: rest,
                                small_kind: cpu,
                            },
                        ),
                        Err(error) => Err(error),
                    }
                },
            }
        },
        Err(error) => c.len() == 0 && result == Err::<EpochPlaced, _>(error),
    }
}

/// The output of batch `i`, where its group was answered that far.
pub open spec fn slot(
    requests: Seq<RequestView>,
    minimum: u32,
    placed: EpochPlaced,
    i: int,
) -> Option<Placed> {
    let large = requests[i].element_count >= minimum;
    let rank = group(requests, minimum, large, i).len() as int;
    if large {
        if rank < placed.large.len() {
            Some(
                Placed {
                    bytes: placed.large[rank],
                    kind: placed.large_kind,
                    spilled: placed.spilled,
                },
            )
        } else {
            None
        }
    } else {
        if rank < placed.small.len() {
            Some(Placed { bytes: placed.small[rank], kind: placed.small_kind, spilled: true })
        } else {
            None
        }
    }
}

pub open spec fn slots(requests: Seq<RequestView>, minimum: u32, placed: EpochPlaced) -> Seq<
    Option<Placed>,
> {
    Seq::new(requests.len(), |i: int| slot(requests, minimum, placed, i))
}

pub open spec fn slot_view(slot: Option<(Vec<u8>, BackendKind, bool)>) -> Option<Placed> {
    match slot {
        Some((bytes, kind, spilled)) => Some(Placed { bytes: bytes@, kind, spilled }),
        None => None,
    }
}

pub open spec fn slot_views(slots: Seq<Option<(Vec<u8>, BackendKind, bool)>>) -> Seq<
    Option<Placed>,
> {
    Seq::new(slots.len(), |i: int| slot_view(slots[i]))
}

fn requests_in_group<'a>(work: &'a Vec<Fetched>, minimum: u32, large: bool) -> (requests: Vec<
    BatchRequest<'a>,
>)
    ensures
        batch::request_views(requests@) == group(
            fetched_views(work@),
            minimum,
            large,
            work@.len() as int,
        ),
{
    let mut requests: Vec<BatchRequest<'a>> = Vec::new();
    let mut i: usize = 0;
    assert(batch::request_views(requests@) =~= Seq::<RequestView>::empty());
    while i < work.len()
        invariant
            i <= work.len(),
            batch::request_views(requests@) == group(
                fetched_views(work@),
                minimum,
                large,
                i as int,
            ),
        decreases work.len() - i,
    {
        if (work[i].element_count >= minimum) == large {
            let ghost held = batch::request_views(requests@);
            let request: BatchRequest<'a> = work[i].request();
            requests.push(request);
            assert(batch::request_views(requests@) =~= held.push(request@));
        }
        i = i + 1;
    }
    requests
}

/// Answers as one plain value, before they are dealt out.
pub struct EpochAnswers {
    pub large: Vec<Vec<u8>>,
    pub large_kind: BackendKind,
    pub spilled: bool,
    pub small: Vec<Vec<u8>>,
    pub small_kind: BackendKind,
}

impl View for EpochAnswers {
    type V = EpochPlaced;

    open spec fn view(&self) -> EpochPlaced {
        EpochPlaced {
            large: kernel::byte_lists(self.large@),
            large_kind: self.large_kind,
            spilled: self.spilled,
            small: kernel::byte_lists(self.small@),
            small_kind: self.small_kind,
        }
    }
}

pub open spec fn answers_view(result: Result<EpochAnswers, BackendError>) -> Result<
    EpochPlaced,
    BackendError,
> {
    match result {
        Ok(answers) => Ok(answers@),
        Err(error) => Err(error),
    }
}

pub fn place_epoch<A: BatchBackend, C: BatchBackend>(
    work: &Vec<Fetched>,
    minimum: u32,
    accelerator: &mut A,
    cpu: &mut C,
) -> (result: Result<EpochAnswers, BackendError>)
    requires
        old(accelerator).well_formed(),
        old(cpu).well_formed(),
    ensures
        final(accelerator).well_formed(),
        final(cpu).well_formed(),
        grew(old(accelerator).served(), final(accelerator).served()),
        grew(old(cpu).served(), final(cpu).served()),
        epoch_placed(
            fetched_views(work@),
            minimum,
            old(accelerator).backend_kind(),
            gained(old(accelerator).served(), final(accelerator).served()),
            old(cpu).backend_kind(),
            gained(old(cpu).served(), final(cpu).served()),
            answers_view(result),
        ),
{
    let ghost a0 = accelerator.served();
    let ghost c0 = cpu.served();
    assert(gained(c0, c0) =~= Seq::<Served>::empty());
    assert(c0.take(c0.len() as int) =~= c0);
    let large: Vec<BatchRequest<'_>> = requests_in_group(work, minimum, true);
    let small: Vec<BatchRequest<'_>> = requests_in_group(work, minimum, false);
    let reply = accelerator.evaluate_epoch(&large);
    proof {
        let entry = Served::Epoch {
            requests: batch::request_views(large@),
            reply: batch::lists_reply(reply),
        };
        assert(gained(a0, a0.push(entry)) =~= seq![entry]);
        assert(a0.push(entry).take(a0.len() as int) =~= a0);
    }
    let mut spilled: bool = false;
    let mut large_kind: BackendKind = accelerator.kind();
    let outputs: Vec<Vec<u8>> = match reply {
        Ok(outputs) => outputs,
        Err(BackendError::Unavailable) => {
            let second = cpu.evaluate_epoch(&large);
            proof {
                let entry = Served::Epoch {
                    requests: batch::request_views(large@),
                    reply: batch::lists_reply(second),
                };
                assert(gained(c0, c0.push(entry)) =~= seq![entry]);
                assert(c0.push(entry).take(c0.len() as int) =~= c0);
            }
            spilled = true;
            large_kind = cpu.kind();
            match second {
                Ok(outputs) => outputs,
                Err(error) => {
                    return Err(error);
                },
            }
        },
        Err(error) => {
            return Err(error);
        },
    };
    let ghost c1 = cpu.served();
    let rest = cpu.evaluate_epoch(&small);
    proof {
        let entry = Served::Epoch {
            requests: batch::request_views(small@),
            reply: batch::lists_reply(rest),
        };
        assert(gained(c0, c1.push(entry)) =~= gained(c0, c1).push(entry));
        assert(c1.push(entry).take(c0.len() as int) =~= c0);
    }
    let small_kind: BackendKind = cpu.kind();
    match rest {
        Ok(rest) => {
            let answers = EpochAnswers {
                large: outputs,
                large_kind,
                spilled,
                small: rest,
                small_kind,
            };
            Ok(answers)
        },
        Err(error) => Err(error),
    }
}

proof fn lemma_group_len(requests: Seq<RequestView>, minimum: u32, large: bool, i: int)
    ensures
        0 <= group(requests, minimum, large, i).len() <= if i <= 0 {
            0
        } else {
            i
        },
    decreases i,
{
    if i > 0 {
        lemma_group_len(requests, minimum, large, i - 1);
    }
}

/// Deals the answers of the two groups out to the batches in their order.
pub fn deal(work: &Vec<Fetched>, minimum: u32, answers: EpochAnswers) -> (dealt: Vec<
    Option<(Vec<u8>, BackendKind, bool)>,
>)
    ensures
        slot_views(dealt@) == slots(fetched_views(work@), minimum, answers@),
{
    let ghost requests = fetched_views(work@);
    let ghost placed = answers@;
    let mut large: Vec<Vec<u8>> = answers.large;
    let mut small: Vec<Vec<u8>> = answers.small;
    let mut dealt: Vec<Option<(Vec<u8>, BackendKind, bool)>> = Vec::new();
    let mut next_large: usize = 0;
    let mut next_small: usize = 0;
    let mut i: usize = 0;
    while i < work.len()
        invariant
            i <= work.len(),
            requests == fetched_views(work@),
            placed.large_kind == answers.large_kind,
            placed.small_kind == answers.small_kind,
            placed.spilled == answers.spilled,
            large@.len() == placed.large.len(),
            small@.len() == placed.small.len(),
            next_large <= i,
            next_small <= i,
            next_large == group(requests, minimum, true, i as int).len(),
            next_small == group(requests, minimum, false, i as int).len(),
            forall|m: int|
                next_large <= m < large@.len() ==> (#[trigger] large@[m])@ == placed.large[m],
            forall|m: int|
                next_small <= m < small@.len() ==> (#[trigger] small@[m])@ == placed.small[m],
            dealt@.len() == i,
            forall|m: int|
                0 <= m < i ==> slot_view(#[trigger] dealt@[m]) == slot(
                    requests,
                    minimum,
                    placed,
                    m,
                ),
        decreases work.len() - i,
    {
        assert(requests[i as int] == work@[i as int]@);
        let mut bytes: Vec<u8> = Vec::new();
        if work[i].element_count >= minimum {
            if next_large < large.len() {
                assert(large@[next_large as int]@ == placed.large[next_large as int]);
                std::mem::swap(&mut bytes, &mut large[next_large]);
                dealt.push(Some((bytes, answers.large_kind, answers.spilled)));
            } else {
                dealt.push(None);
            }
            next_large = next_large + 1;
        } else {
            if next_small < small.len() {
                assert(small@[next_small as int]@ == placed.small[next_small as int]);
                std::mem::swap(&mut bytes, &mut small[next_small]);
                dealt.push(Some((bytes, answers.small_kind, true)));
            } else {
                dealt.push(None);
            }
            next_small = next_small + 1;
        }
        assert(slot_view(dealt@[i as int]) == slot(requests, minimum, placed, i as int));
        i = i + 1;
    }
    assert(slot_views(dealt@) =~= slots(requests, minimum, placed));
    dealt
}

/// The statistics after the first `n` outputs.
pub open spec fn recorded_upto(
    before: StatsView,
    requests: Seq<RequestView>,
    outputs: Seq<Option<Placed>>,
    n: int,
) -> StatsView
    decreases n,
{
    if n <= 0 {
        before
    } else {
        let p = outputs[n - 1]->Some_0;
        recorded_upto(before, requests, outputs, n - 1).recorded(
            requests[n - 1].evaluator_id,
            p.kind,
            p.spilled,
        )
    }
}

/// Batch `i` has an output, and one that is long enough.
pub open spec fn is_ready(requests: Seq<RequestView>, outputs: Seq<Option<Placed>>, i: int) -> bool {
    &&& outputs[i] is Some
    &&& outputs[i]->Some_0.bytes.len() >= requests[i].element_count * requests[i].element_stride
}

/// Output `i` was published as `output`, in the `i`th run of three calls.
pub open spec fn published_at(
    actor: Ref64,
    collectives: Seq<Ref64>,
    requests: Seq<RequestView>,
    outputs: Seq<Option<Placed>>,
    k: Seq<Call>,
    i: int,
    output: Ref64,
) -> bool {
    &&& is_ready(requests, outputs, i)
    &&& published(
        actor,
        collectives[i],
        outputs[i]->Some_0.bytes,
        k.subrange(3 * i, 3 * i + 3),
        Ok(output),
    )
}

/// The first `refs.len()` outputs were published as `refs`, in the order of
/// the collectives.
pub open spec fn published_through(
    actor: Ref64,
    collectives: Seq<Ref64>,
    requests: Seq<RequestView>,
    outputs: Seq<Option<Placed>>,
    k: Seq<Call>,
    refs: Seq<Ref64>,
) -> bool {
    &&& refs.len() <= collectives.len()
    &&& 3 * refs.len() <= k.len()
    &&& forall|i: int|
        0 <= i < refs.len() ==> published_at(
            actor,
            collectives,
            requests,
            outputs,
            k,
            i,
            #[trigger] refs[i],
        )
}

proof fn lemma_published_through_longer(
    actor: Ref64,
    collectives: Seq<Ref64>,
    requests: Seq<RequestView>,
    outputs: Seq<Option<Placed>>,
    k: Seq<Call>,
    longer: Seq<Call>,
    refs: Seq<Ref64>,
)
    requires
        published_through(actor, collectives, requests, outputs, k, refs),
        k.len() <= longer.len(),
        longer.take(k.len() as int) == k,
    ensures
        published_through(actor, collectives, requests, outputs, longer, refs),
{
    assert forall|i: int| 0 <= i < refs.len() implies published_at(
        actor,
        collectives,
        requests,
        outputs,
        longer,
        i,
        #[trigger] refs[i],
    ) by {
        assert(published_at(actor, collectives, requests, outputs, k, i, refs[i]));
        assert(longer.subrange(3 * i, 3 * i + 3) =~= longer.take(k.len() as int).subrange(
            3 * i,
            3 * i + 3,
        ));
    }
}

/// Publication stopped with `error` after `refs`.
pub open spec fn stopped(
    actor: Ref64,
    collectives: Seq<Ref64>,
    requests: Seq<RequestView>,
    outputs: Seq<Option<Placed>>,
    k: Seq<Call>,
    before: StatsView,
    after: StatsView,
    refs: Seq<Ref64>,
    error: BackendError,
) -> bool {
    let j = refs.len() as int;
    &&& j < collectives.len()
    &&& published_through(actor, collectives, requests, outputs, k, refs)
    &&& after == recorded_upto(before, requests, outputs, j)
    &&& if outputs[j] is None {
        k.len() == 3 * j && error == BackendError::ExecutionFailed
    } else if !is_ready(requests, outputs, j) {
        k.len() == 3 * j && error == BackendError::InvalidInput
    } else {
        published(actor, collectives[j], outputs[j]->Some_0.bytes, k.skip(3 * j), Err(error))
    }
}

/// What publishing the outputs of an epoch comes to.
pub open spec fn epoch_published(
    actor: Ref64,
    collectives: Seq<Ref64>,
    requests: Seq<RequestView>,
    outputs: Seq<Option<Placed>>,
    k: Seq<Call>,
    before: StatsView,
    after: StatsView,
    result: Result<Seq<Ref64>, BackendError>,
) -> bool {
    match result {
        Ok(refs) => {
            &&& refs.len() == collectives.len()
            &&& k.len() == 3 * refs.len()
            &&& published_through(actor, collectives, requests, outputs, k, refs)
            &&& after == recorded_upto(before, requests, outputs, refs.len() as int)
        },
        Err(error) => exists|refs: Seq<Ref64>| #[trigger]
            stopped(actor, collectives, requests, outputs, k, before, after, refs, error),
    }
}

pub open spec fn refs_view(result: Result<Vec<Ref64>, BackendError>) -> Result<
    Seq<Ref64>,
    BackendError,
> {
    match result {
        Ok(refs) => Ok(refs@),
        Err(error) => Err(error),
    }
}

pub fn publish_epoch<K: Kernel>(
    kernel: &mut K,
    actor: Ref64,
    collectives: &Vec<Ref64>,
    work: &Vec<Fetched>,
    dealt: Vec<Option<(Vec<u8>, BackendKind, bool)>>,
    stats: &mut PlacementStats,
) -> (result: Result<Vec<Ref64>, BackendError>)
    requires
        work@.len() == collectives@.len() == dealt@.len(),
        old(stats)@.has_room(collectives@.len() as int),
    ensures
        grew(old(kernel).log(), final(kernel).log()),
        epoch_published(
            actor,
            collectives@,
            fetched_views(work@),
            slot_views(dealt@),
            gained(old(kernel).log(), final(kernel).log()),
            old(stats)@,
            final(stats)@,
            refs_view(result),
        ),
{
    let ghost k0 = kernel.log();
    let ghost requests = fetched_views(work@);
    let ghost outputs = slot_views(dealt@);
    let mut slots_left: Vec<Option<(Vec<u8>, BackendKind, bool)>> = dealt;
    let mut refs: Vec<Ref64> = Vec::new();
    let mut i: usize = 0;
    assert(k0.take(k0.len() as int) =~= k0);
    while i < collectives.len()
        invariant
            i <= collectives.len(),
            k0 == old(kernel).log(),
            work@.len() == collectives@.len() == slots_left@.len() == outputs.len(),
            requests == fetched_views(work@),
            outputs == slot_views(dealt@),
            grew(k0, kernel.log()),
            gained(k0, kernel.log()).len() == 3 * i,
            refs@.len() == i,
            published_through(
                actor,
                collectives@,
                requests,
                outputs,
                gained(k0, kernel.log()),
                refs@,
            ),
            stats@ == recorded_upto(old(stats)@, requests, outputs, i as int),
            stats@.has_room(collectives@.len() - i),
            forall|m: int|
                i <= m < slots_left@.len() ==> slot_view(#[trigger] slots_left@[m]) == outputs[m],
        decreases collectives.len() - i,
    {
        let ghost k = gained(k0, kernel.log());
        let ghost log = kernel.log();
        assert(requests[i as int] == work@[i as int]@);
        assert(slot_view(slots_left@[i as int]) == outputs[i as int]);
        let mut taken: Option<(Vec<u8>, BackendKind, bool)> = None;
        std::mem::swap(&mut taken, &mut slots_left[i]);
        let (bytes, kind, spilled) = match taken {
            Some(output) => output,
            None => {
                assert(stopped(
                    actor,
                    collectives@,
                    requests,
                    outputs,
                    k,
                    old(stats)@,
                    stats@,
                    refs@,
                    BackendError::ExecutionFailed,
                ));
                return Err(BackendError::ExecutionFailed);
            },
        };
        let produced: usize = bytes.len();
        assert(bytes@.len() == produced);
        let enough: bool = match (work[i].element_count as usize).checked_mul(
            work[i].element_stride as usize,
        ) {
            Some(required) => produced >= required,
            None => false,
        };
        if !enough {
            assert(stopped(
                actor,
                collectives@,
                requests,
                outputs,
                k,
                old(stats)@,
                stats@,
                refs@,
                BackendError::InvalidInput,
            ));
            return Err(BackendError::InvalidInput);
        }
        let ghost refs0 = refs@;
        let published_as = publish(kernel, actor, collectives[i], bytes);
        let ghost after = gained(k0, kernel.log());
        proof {
            assert(kernel.log().take(k0.len() as int) =~= log.take(k0.len() as int));
            assert(after.take(3 * i) =~= k);
            assert(after.skip(3 * i) =~= gained(log, kernel.log()));
            lemma_published_through_longer(
                actor,
                collectives@,
                requests,
                outputs,
                k,
                after,
                refs@,
            );
        }
        match published_as {
            Ok(output) => {
                refs.push(output);
                stats.record(work[i].evaluator, kind, spilled);
                assert(after.subrange(3 * i as int, 3 * i + 3) =~= after.skip(3 * i as int));
                assert forall|m: int| 0 <= m < i + 1 implies published_at(
                    actor,
                    collectives@,
                    requests,
                    outputs,
                    after,
                    m,
                    #[trigger] refs@[m],
                ) by {
                    if m < i {
                        assert(refs@[m] == refs0[m]);
                    }
                }
            },
            Err(error) => {
                assert(stopped(
                    actor,
                    collectives@,
                    requests,
                    outputs,
                    after,
                    old(stats)@,
                    stats@,
                    refs@,
                    error,
                ));
                return Err(error);
            },
        }
        i = i + 1;
    }
    Ok(refs)
}

/// The calls that fetch `n` collectives, where `k` starts with them.
pub open spec fn epoch_opening(k: Seq<Call>, n: int) -> Seq<Call> {
    if k.len() >= 2 * n + 1 {
        k.take(2 * n + 1)
    } else {
        k
    }
}

/// What follows the fetching of an epoch, where placing it came to `p`.
pub open spec fn epoch_finished(
    actor: Ref64,
    collectives: Seq<Ref64>,
    minimum: u32,
    requests: Seq<RequestView>,
    k: Seq<Call>,
    accelerator: BackendKind,
    a: Seq<Served>,
    cpu: BackendKind,
    c: Seq<Served>,
    before: StatsView,
    after: StatsView,
    result: Result<Seq<Ref64>, BackendError>,
    p: Result<EpochPlaced, BackendError>,
) -> bool {
    let n = collectives.len() as int;
    &&& epoch_placed(requests, minimum, accelerator, a, cpu, c, p)
    &&& match p {
        Err(error) => k.len() == 2 * n + 1 && after == before && result == Err::<Seq<Ref64>, _>(
            error,
        ),
        Ok(p) => epoch_published(
            actor,
            collectives,
            requests,
            slots(requests, minimum, p),
            k.skip(2 * n + 1),
            before,
            after,
            result,
        ),
    }
}

/// Executes every ready collective of an epoch, all large ones together.
/// Publication follows the order of `collectives`.
pub open spec fn epoch_executed(
    actor: Ref64,
    collectives: Seq<Ref64>,
    minimum: u32,
    k: Seq<Call>,
    accelerator: BackendKind,
    a: Seq<Served>,
    cpu: BackendKind,
    c: Seq<Served>,
    before: StatsView,
    after: StatsView,
    result: Result<Seq<Ref64>, BackendError>,
) -> bool {
    let n = collectives.len() as int;
    if n == 0 {
        &&& k.len() == 0
        &&& a.len() == 0
        &&& c.len() == 0
        &&& after == before
        &&& result == Ok::<Seq<Ref64>, BackendError>(Seq::empty())
    } else {
        &&& fetch_calls(actor, collectives, epoch_opening(k, n))
        &&& match fetch_result(epoch_opening(k, n), n) {
            Err(error) => {
                &&& k == epoch_opening(k, n)
                &&& a.len() == 0
                &&& c.len() == 0
                &&& after == before
                &&& result == Err::<Seq<Ref64>, _>(error)
            },
            Ok(requests) => exists|p: Result<EpochPlaced, BackendError>| #[trigger]
                epoch_finished(
                    actor,
                    collectives,
                    minimum,
                    requests,
                    k,
                    accelerator,
                    a,
                    cpu,
                    c,
                    before,
                    after,
                    result,
                    p,
                ),
        }
    }
}

proof fn lemma_epoch_executed(
    actor: Ref64,
    collectives: Seq<Ref64>,
    minimum: u32,
    k: Seq<Call>,
    accelerator: BackendKind,
    a: Seq<Served>,
    cpu: BackendKind,
    c: Seq<Served>,
    before: StatsView,
    after: StatsView,
    result: Result<Seq<Ref64>, BackendError>,
    p: Result<EpochPlaced, BackendError>,
)
    requires
        collectives.len() > 0,
        k.len() >= 2 * collectives.len() + 1,
        fetch_calls(actor, collectives, k.take((2 * collectives.len() + 1) as int)),
        fetch_result(k.take((2 * collectives.len() + 1) as int), collectives.len() as int) is Ok,
        epoch_finished(
            actor,
            collectives,
            minimum,
            requests_of(k.take((2 * collectives.len() + 1) as int), collectives.len() as int),
            k,
            accelerator,
            a,
            cpu,
            c,
            before,
            after,
            result,
            p,
        ),
    ensures
        epoch_executed(
            actor,
            collectives,
            minimum,
            k,
            accelerator,
            a,
            cpu,
            c,
            before,
            after,
            result,
        ),
{
    let n = collectives.len() as int;
    assert(epoch_opening(k, n) == k.take(2 * n + 1));
    let requests = fetch_result(epoch_opening(k, n), n)->Ok_0;
    assert(epoch_finished(
        actor,
        collectives,
        minimum,
        requests,
        k,
        accelerator,
        a,
        cpu,
        c,
        before,
        after,
        result,
        p,
    ));
}

pub fn execute_epoch_with_spill<K: Kernel, A: BatchBackend, C: BatchBackend>(
    kernel: &mut K,
    actor: Ref64,
    collectives: &Vec<Ref64>,
    minimum_accelerator_batch: u32,
    accelerator: &mut A,
    cpu: &mut C,
    stats: &mut PlacementStats,
) -> (result: Result<Vec<Ref64>, BackendError>)
    requires
        old(accelerator).well_formed(),
        old(cpu).well_formed(),
        old(stats)@.has_room(collectives@.len() as int),
    ensures
        final(accelerator).well_formed(),
        final(cpu).well_formed(),
        grew(old(kernel).log(), final(kernel).log()),
        grew(old(accelerator).served(), final(accelerator).served()),
        grew(old(cpu).served(), final(cpu).served()),
        epoch_executed(
            actor,
            collectives@,
            minimum_accelerator_batch,
            gained(old(kernel).log(), final(kernel).log()),
            old(accelerator).backend_kind(),
            gained(old(accelerator).served(), final(accelerator).served()),
            old(cpu).backend_kind(),
            gained(old(cpu).served(), final(cpu).served()),
            old(stats)@,
            final(stats)@,
            refs_view(result),
        ),
{
    let ghost k0 = kernel.log();
    let ghost a0 = accelerator.served();
    let ghost c0 = cpu.served();
    let ghost n = collectives@.len() as int;
    assert(gained(k0, k0) =~= Seq::<Call>::empty());
    assert(k0.take(k0.len() as int) =~= k0);
    assert(gained(a0, a0) =~= Seq::<Served>::empty());
    assert(gained(c0, c0) =~= Seq::<Served>::empty());
    assert(a0.take(a0.len() as int) =~= a0);
    assert(c0.take(c0.len() as int) =~= c0);
    if collectives.len() == 0 {
        let none: Vec<Ref64> = Vec::new();
        assert(none@ =~= Seq::<Ref64>::empty());
        return Ok(none);
    }
    let fetching = fetch(kernel, actor, collectives);
    let ghost kf = gained(k0, kernel.log());
    assert(epoch_opening(kf, n) =~= kf);
    let work: Vec<Fetched> = match fetching {
        Ok(work) => work,
        Err(error) => {
            return Err(error);
        },
    };
    let ghost requests = fetched_views(work@);
    let placing = place_epoch(&work, minimum_accelerator_batch, accelerator, cpu);
    let ghost p = answers_view(placing);
    proof {
        assert(kf.len() == 2 * n + 1);
        assert(kf.take(2 * n + 1) =~= kf);
        assert(requests == requests_of(kf, n));
    }
    let answers: EpochAnswers = match placing {
        Ok(answers) => answers,
        Err(error) => {
            proof {
                lemma_epoch_executed(
                    actor,
                    collectives@,
                    minimum_accelerator_batch,
                    kf,
                    old(accelerator).backend_kind(),
                    gained(a0, accelerator.served()),
                    old(cpu).backend_kind(),
                    gained(c0, cpu.served()),
                    old(stats)@,
                    stats@,
                    Err(error),
                    p,
                );
            }
            return Err(error);
        },
    };
    let dealt = deal(&work, minimum_accelerator_batch, answers);
    let ghost k1 = kernel.log();
    proof {
        assert(slot_views(dealt@).len() == requests.len());
    }
    let result = publish_epoch(kernel, actor, collectives, &work, dealt, stats);
    proof {
        let k2 = kernel.log();
        assert(k2.take(k0.len() as int) =~= k1.take(k0.len() as int));
        assert(gained(k0, k2).take(2 * n + 1) =~= kf);
        assert(gained(k0, k2).skip(2 * n + 1) =~= gained(k1, k2));
        lemma_epoch_executed(
            actor,
            collectives@,
            minimum_accelerator_batch,
            gained(k0, k2),
            old(accelerator).backend_kind(),
            gained(a0, accelerator.served()),
            old(cpu).backend_kind(),
            gained(c0, cpu.served()),
            old(stats)@,
            stats@,
            refs_view(result),
            p,
        );
    }
    result
}

} // verus!
