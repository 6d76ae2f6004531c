//! Where batches run, what is published of them, and what is counted.

use crate::compiler::body::ProgramView;
use crate::executives::batch;
use crate::executives::batch::{BackendError, BackendKind, RequestView, Served, StatsView};
use crate::executives::placement;
use crate::executives::placement::{EpochPlaced, Placed};
use crate::kernel::{Call, ObjectKind, Ref64};
use vstd::prelude::*;

verus! {

/// A batch below the minimum is not offered to the accelerator. Any other is offered to
/// it once, and reaches the CPU only where the accelerator is unavailable. The CPU is
/// asked at most once.
pub proof fn law_small_batches_stay_on_the_cpu(
    request: RequestView,
    minimum: u32,
    accelerator: BackendKind,
    a: Seq<Served>,
    cpu: BackendKind,
    c: Seq<Served>,
    result: Result<Placed, BackendError>,
)
    requires
        placement::placed(request, minimum, accelerator, a, cpu, c, result),
    ensures
        request.element_count < minimum ==> a.len() == 0 && c.len() == 1,
        request.element_count >= minimum ==> a.len() == 1,
        a.len() == 1 ==> (c.len() == 1 <==> a[0]->One_reply == Err::<Seq<u8>, _>(
            BackendError::Unavailable,
        )),
        c.len() <= 1,
        a.len() == 1 ==> a[0] is One && a[0]->One_request.evaluator_id == request.evaluator_id
            && a[0]->One_request.inputs == request.inputs && a[0]->One_request.element_count
            == request.element_count,
        c.len() == 1 ==> c[0] is One && c[0]->One_request.evaluator_id == request.evaluator_id
            && c[0]->One_request.inputs == request.inputs && c[0]->One_request.element_count
            == request.element_count,
{
}

/// The output of a batch is the answer of the backend that was asked last, under that
/// backend's kind. It counts as spilled exactly where the CPU answered. An error of the
/// accelerator other than being unavailable is the batch's error.
pub proof fn law_the_answering_backend_is_named(
    request: RequestView,
    minimum: u32,
    accelerator: BackendKind,
    a: Seq<Served>,
    cpu: BackendKind,
    c: Seq<Served>,
    result: Result<Placed, BackendError>,
)
    requires
        placement::placed(request, minimum, accelerator, a, cpu, c, result),
    ensures
        result matches Ok(p) ==> {
            &&& c.len() == 0 ==> a.len() == 1 && a[0]->One_reply == Ok::<_, BackendError>(p.bytes)
                && p.kind == accelerator && !p.spilled
            &&& c.len() == 1 ==> c[0]->One_reply == Ok::<_, BackendError>(p.bytes) && p.kind == cpu
                && p.spilled
        },
        result matches Err(error) ==> {
            &&& c.len() == 0 ==> a.len() == 1 && a[0]->One_reply == Err::<Seq<u8>, _>(error)
            &&& c.len() == 1 ==> c[0]->One_reply == Err::<Seq<u8>, _>(error)
        },
{
}

/// What is published is the output, whole and frozen, as the answer to the collective that
/// was asked. Nothing is published of a batch whose output is shorter than its elements.
pub proof fn law_the_output_is_published_whole(
    actor: Ref64,
    collective: Ref64,
    content: Seq<u8>,
    k: Seq<Call>,
    output: Ref64,
)
    requires
        placement::published(actor, collective, content, k, Ok(output)),
    ensures
        k.len() == 3,
        k[0] == (Call::CreateObject {
            actor,
            kind: ObjectKind::FrozenArray,
            bytes: content,
            reply: output,
        }),
        k[1] is Freeze && k[1]->Freeze_object == output && k[1]->Freeze_reply is Ok,
        k[2] is CompleteBatch && k[2]->CompleteBatch_collective == collective
            && k[2]->CompleteBatch_output == output && k[2]->CompleteBatch_reply is Ok,
{
}

/// A batch that succeeds was answered in full by one backend, and its execution is counted
/// once for that backend. One that fails is not counted.
pub proof fn law_one_success_is_counted_once(
    actor: Ref64,
    collective: Ref64,
    minimum: u32,
    k: Seq<Call>,
    accelerator: BackendKind,
    a: Seq<Served>,
    cpu: BackendKind,
    c: Seq<Served>,
    before: StatsView,
    after: StatsView,
    result: Result<Ref64, BackendError>,
)
    requires
        placement::executed(
            actor,
            collective,
            minimum,
            k,
            accelerator,
            a,
            cpu,
            c,
            before,
            after,
            result,
        ),
    ensures
        result is Err ==> after == before,
        result is Ok ==> {
            let ran = after.cpu_executions + after.accelerator_executions + after.remote_executions;
            let had = before.cpu_executions + before.accelerator_executions
                + before.remote_executions;
            let answer = if c.len() == 1 {
                c[0]
            } else {
                a[0]
            };
            &&& ran == had + 1
            &&& after.cpu_spills == before.cpu_spills + c.len()
            &&& answer->One_reply matches Ok(content)
            &&& k.len() == 6
            &&& k[3] == (Call::CreateObject {
                actor,
                kind: ObjectKind::FrozenArray,
                bytes: content,
                reply: result->Ok_0,
            })
            &&& content.len() >= answer->One_request.element_count
                * answer->One_request.element_stride
        },
{
    let fetching = placement::opening(k);
    if let Ok(requests) = placement::fetch_result(fetching, 1) {
        let p = choose|p: Result<Placed, BackendError>| #[trigger]
            placement::finished(
                actor,
                collective,
                minimum,
                requests[0],
                k,
                accelerator,
                a,
                cpu,
                c,
                before,
                after,
                result,
                p,
            );
        if let Ok(placed) = p {
            if result is Ok {
                assert(placement::published(actor, collective, placed.bytes, k.skip(3), result));
                law_the_output_is_published_whole(
                    actor,
                    collective,
                    placed.bytes,
                    k.skip(3),
                    result->Ok_0,
                );
                assert(k.skip(3)[0] == k[3]);
            }
        }
    }
}

/// Counting a batch adds one to the backend that ran it and to no other, one to the spills
/// where it spilled, and one to the migrations where its evaluator last ran elsewhere. An
/// evaluator's first batch is no migration.
pub proof fn law_a_batch_counts_where_it_ran(
    s: StatsView,
    evaluator: u32,
    kind: BackendKind,
    spilled: bool,
)
    ensures
        ({
            let t = s.recorded(evaluator, kind, spilled);
            &&& kind == BackendKind::Cpu ==> t.cpu_executions == s.cpu_executions + 1
                && t.accelerator_executions == s.accelerator_executions && t.remote_executions
                == s.remote_executions
            &&& kind == BackendKind::Accelerator ==> t.cpu_executions == s.cpu_executions
                && t.accelerator_executions == s.accelerator_executions + 1 && t.remote_executions
                == s.remote_executions
            &&& kind == BackendKind::Remote ==> t.cpu_executions == s.cpu_executions
                && t.accelerator_executions == s.accelerator_executions && t.remote_executions
                == s.remote_executions + 1
            &&& spilled ==> t.cpu_spills == s.cpu_spills + 1
            &&& !spilled ==> t.cpu_spills == s.cpu_spills
            &&& !s.last_backend.contains_key(evaluator) ==> t.migrations == s.migrations
            &&& s.last_backend.contains_key(evaluator) && s.last_backend[evaluator] == kind
                ==> t.migrations == s.migrations
            &&& s.last_backend.contains_key(evaluator) && s.last_backend[evaluator] != kind
                ==> t.migrations == s.migrations + 1
            &&& t.last_backend.contains_key(evaluator) && t.last_backend[evaluator] == kind
            &&& forall|other: u32|
                other != evaluator && s.last_backend.contains_key(other)
                    ==> #[trigger] t.last_backend[other] == s.last_backend[other]
        }),
{
}

/// A request is made of its own collective's order and of its own arrays: those at which
/// the kernel was asked for them.
pub proof fn law_a_request_gets_its_own_arrays(
    actor: Ref64,
    collectives: Seq<Ref64>,
    k: Seq<Call>,
    i: int,
)
    requires
        placement::fetch_calls(actor, collectives, k),
        k.len() == 2 * collectives.len() + 1,
        placement::refusal(k.last()) is None,
        0 <= i < collectives.len(),
    ensures
        ({
            let n = collectives.len() as int;
            let r = placement::request_of(k, n, i);
            let asked = k[2 * n]->ObjectBytesMany_objects;
            let lists = k[2 * n]->ObjectBytesMany_reply->Ok_0;
            let order = k[2 * i]->BatchOrder_reply->Ok_0;
            let aux = k[2 * i + 1]->BatchAux_reply->Ok_0;
            &&& k[2 * i] is BatchOrder && k[2 * i]->BatchOrder_collective == collectives[i]
            &&& k[2 * i + 1] is BatchAux && k[2 * i + 1]->BatchAux_collective == collectives[i]
            &&& r.evaluator_id == order.evaluator
            &&& r.element_count == order.element_count
            &&& r.element_stride == order.element_stride
            &&& asked[i] == order.inputs
            &&& r.inputs == lists[i]
            &&& r.aux.element_count == aux.element_count
            &&& r.aux.element_stride == aux.element_stride
            &&& aux.element_stride == 0 ==> r.aux.bytes.len() == 0
            &&& aux.element_stride != 0 ==> exists|j: int|
                n <= j < asked.len() && #[trigger] asked[j] == aux.inputs && r.aux.bytes == lists[j]
        }),
{
    let n = collectives.len() as int;
    assert(placement::asks_in_turn(collectives, k, 2 * i));
    assert(placement::asks_in_turn(collectives, k, 2 * i + 1));
    let asked = k[2 * n]->ObjectBytesMany_objects;
    assert(asked == placement::wanted(k, n));
    let aux = placement::aux_of(k, i);
    if aux.element_stride != 0 {
        lemma_bound_place(k, i, n);
        let j = n + placement::bound_refs(k, i).len();
        assert(asked[j] == aux.inputs);
    }
}

proof fn lemma_bound_place(k: Seq<Call>, i: int, n: int)
    requires
        0 <= i < n,
        placement::is_bound(placement::aux_of(k, i)),
    ensures
        placement::bound_refs(k, i).len() < placement::bound_refs(k, n).len(),
        placement::bound_refs(k, n)[placement::bound_refs(k, i).len() as int] == placement::aux_of(
            k,
            i,
        ).inputs,
    decreases n,
{
    if i < n - 1 {
        lemma_bound_place(k, i, n - 1);
    }
}

proof fn lemma_rank(requests: Seq<RequestView>, minimum: u32, large: bool, i: int, n: int)
    requires
        0 <= i < n <= requests.len(),
        (requests[i].element_count >= minimum) == large,
    ensures
        placement::group(requests, minimum, large, i).len() < placement::group(
            requests,
            minimum,
            large,
            n,
        ).len(),
        placement::group(requests, minimum, large, n)[placement::group(
            requests,
            minimum,
            large,
            i,
        ).len() as int] == requests[i],
    decreases n,
{
    if i < n - 1 {
        lemma_rank(requests, minimum, large, i, n - 1);
    }
}

/// In an epoch the large batches are handed over together, and so are the small ones. Each
/// batch gets the answer at its own place in its group, under the kind that answered.
pub proof fn law_each_batch_gets_its_own_answer(
    requests: Seq<RequestView>,
    minimum: u32,
    placed: EpochPlaced,
    i: int,
)
    requires
        0 <= i < requests.len(),
        placed.large.len() == placement::group(
            requests,
            minimum,
            true,
            requests.len() as int,
        ).len(),
        placed.small.len() == placement::group(
            requests,
            minimum,
            false,
            requests.len() as int,
        ).len(),
    ensures
        ({
            let n = requests.len() as int;
            let large = requests[i].element_count >= minimum;
            let group = placement::group(requests, minimum, large, n);
            let answers = if large {
                placed.large
            } else {
                placed.small
            };
            &&& placement::slot(requests, minimum, placed, i) matches Some(p)
            &&& exists|r: int|
                0 <= r < group.len() && #[trigger] group[r] == requests[i] && p.bytes == answers[r]
            &&& p.kind == if large {
                placed.large_kind
            } else {
                placed.small_kind
            }
            &&& p.spilled == if large {
                placed.spilled
            } else {
                true
            }
        }),
{
    let n = requests.len() as int;
    let large = requests[i].element_count >= minimum;
    lemma_rank(requests, minimum, large, i, n);
    let group = placement::group(requests, minimum, large, n);
    let r = placement::group(requests, minimum, large, i).len() as int;
    assert(group[r] == requests[i]);
}

/// The groups of an epoch keep the order of its batches, and every batch is in exactly one:
/// in the large group where it reaches the minimum.
pub proof fn law_groups_keep_the_order(requests: Seq<RequestView>, minimum: u32, n: int)
    requires
        0 <= n < requests.len(),
    ensures
        ({
            let large = requests[n].element_count >= minimum;
            let l = placement::group(requests, minimum, true, n);
            let s = placement::group(requests, minimum, false, n);
            &&& placement::group(requests, minimum, true, n + 1) == if large {
                l.push(requests[n])
            } else {
                l
            }
            &&& placement::group(requests, minimum, false, n + 1) == if large {
                s
            } else {
                s.push(requests[n])
            }
        }),
        placement::group(requests, minimum, true, 0).len() == 0,
        placement::group(requests, minimum, false, 0).len() == 0,
{
}

/// Where the accelerator is unavailable the CPU gets the large batches and then the small
/// ones; where it answers, the CPU gets the small ones alone; and where it fails otherwise
/// the CPU gets nothing.
pub proof fn law_an_epoch_falls_back_as_a_whole(
    requests: Seq<RequestView>,
    minimum: u32,
    accelerator: BackendKind,
    a: Seq<Served>,
    cpu: BackendKind,
    c: Seq<Served>,
    result: Result<EpochPlaced, BackendError>,
)
    requires
        placement::epoch_placed(requests, minimum, accelerator, a, cpu, c, result),
    ensures
        ({
            let n = requests.len() as int;
            let large = placement::group(requests, minimum, true, n);
            let small = placement::group(requests, minimum, false, n);
            &&& a.len() == 1 && a[0] is Epoch && a[0]->Epoch_requests == large
            &&& match a[0]->Epoch_reply {
                Ok(_) => c.len() == 1 && c[0]->Epoch_requests == small,
                Err(error) => if error == BackendError::Unavailable {
                    c.len() >= 1 && c[0]->Epoch_requests == large && (c.len() == 2
                        ==> c[1]->Epoch_requests == small)
                } else {
                    c.len() == 0 && result == Err::<EpochPlaced, _>(error)
                },
            }
            &&& result matches Ok(p) ==> {
                &&& p.small_kind == cpu
                &&& p.small == c.last()->Epoch_reply->Ok_0
                &&& p.spilled == (c.len() == 2)
                &&& c.len() == 1 ==> p.large_kind == accelerator && p.large
                    == a[0]->Epoch_reply->Ok_0
                &&& c.len() == 2 ==> p.large_kind == cpu && p.large == c[0]->Epoch_reply->Ok_0
            }
        }),
{
}

// ---- the reference backend -------------------------------------------------

proof fn lemma_outputs(p: ProgramView, request: RequestView, n: int, i: int)
    requires
        p.stride() == request.element_stride,
        request.element_stride > 0,
        request.inputs.len() >= request.element_count * request.element_stride,
        0 <= i < n <= request.element_count,
    ensures
        ({
            let a = batch::arrays_of(request);
            let s = request.element_stride as int;
            let out = batch::outputs_between(p, a, 0, n);
            &&& out.len() == n * s
            &&& batch::element_of(out, i, s) == p.evaluated(
                a,
                i as u32,
                batch::element_of(request.inputs, i, s),
            )
        }),
    decreases n,
{
    let a = batch::arrays_of(request);
    let s = request.element_stride as int;
    let before = batch::outputs_between(p, a, 0, n - 1);
    let last = p.evaluated(a, (n - 1) as u32, batch::element_of(request.inputs, n - 1, s));
    let all = batch::outputs_between(p, a, 0, n);
    assert(all == before + last);
    assert((n - 1) * s + s == n * s && 0 <= i * s && 0 <= (n - 1) * s) by (nonlinear_arith)
        requires
            i >= 0,
            n >= 1,
            s >= 0,
    ;
    assert(n * s <= request.element_count * s) by (nonlinear_arith)
        requires
            n <= request.element_count,
            s >= 0,
    ;
    crate::compiler::body::lemma_stored_len(
        p,
        p.values_for(a, (n - 1) as u32),
        batch::element_of(request.inputs, n - 1, s),
        p.stores.len() as int,
    );
    assert(last.len() == s);
    if n > 1 {
        lemma_outputs(
            p,
            request,
            n - 1,
            if i < n - 1 {
                i
            } else {
                0
            },
        );
    } else {
        assert(0 * s == 0) by (nonlinear_arith);
    }
    if i < n - 1 {
        assert(i * s + s <= (n - 1) * s) by (nonlinear_arith)
            requires
                i + 1 <= n - 1,
                s >= 0,
        ;
        assert(batch::element_of(all, i, s) =~= batch::element_of(before, i, s));
    } else {
        assert(batch::element_of(all, i, s) =~= last);
    }
}

/// A request that is answered is answered element by element: as many elements as were
/// asked for, each what the installed body makes of the element at its place.
pub proof fn law_each_element_is_what_its_body_makes_of_it(
    installed: Map<u32, ProgramView>,
    request: RequestView,
    i: int,
)
    requires
        batch::reference_answer(installed, request) is Ok,
        0 <= i < request.element_count,
    ensures
        ({
            let out = batch::reference_answer(installed, request)->Ok_0;
            let p = installed[request.evaluator_id];
            let s = request.element_stride as int;
            &&& installed.contains_key(request.evaluator_id)
            &&& out.len() == request.element_count * s
            &&& out.subrange(i * s, i * s + s) == p.evaluated(
                batch::arrays_of(request),
                i as u32,
                request.inputs.subrange(i * s, i * s + s),
            )
        }),
{
    let p = installed[request.evaluator_id];
    lemma_outputs(p, request, request.element_count as int, i);
}

/// A request is refused exactly where its evaluator is not installed, or where its elements
/// or its second array are not those of the body or are not all there.
pub proof fn law_only_a_fitting_request_is_answered(
    installed: Map<u32, ProgramView>,
    request: RequestView,
)
    ensures
        ({
            let answer = batch::reference_answer(installed, request);
            let p = installed[request.evaluator_id];
            let fits = p.stride() == request.element_stride && request.element_stride != 0
                && request.inputs.len() >= request.element_count * request.element_stride
                && p.aux_stride() == request.aux.element_stride && (p.aux is Some
                <==> request.aux.element_stride != 0) && request.aux.bytes.len()
                >= request.aux.element_count * request.aux.element_stride;
            &&& !installed.contains_key(request.evaluator_id) ==> answer == Err::<Seq<u8>, _>(
                BackendError::UnsupportedEvaluator,
            )
            &&& installed.contains_key(request.evaluator_id) && !fits ==> answer == Err::<
                Seq<u8>,
                _,
            >(BackendError::InvalidInput)
            &&& installed.contains_key(request.evaluator_id) && fits ==> answer is Ok
        }),
{
}

/// An epoch is answered where each of its requests is, in order. Otherwise its error is
/// that of the first request that has one.
pub proof fn law_an_epoch_is_answered_request_by_request(
    installed: Map<u32, ProgramView>,
    requests: Seq<RequestView>,
    i: int,
)
    requires
        0 <= i < requests.len(),
    ensures
        match batch::epoch_answer(installed, requests) {
            Ok(answers) => answers.len() == requests.len() && batch::reference_answer(
                installed,
                requests[i],
            ) == Ok::<_, BackendError>(answers[i]),
            Err(error) => exists|j: int|
                {
                    &&& 0 <= j < requests.len()
                    &&& batch::reference_answer(installed, #[trigger] requests[j]) == Err::<
                        Seq<u8>,
                        _,
                    >(error)
                    &&& forall|l: int|
                        0 <= l < j ==> batch::reference_answer(
                            installed,
                            #[trigger] requests[l],
                        ) is Ok
                },
        },
    decreases requests.len(),
{
    lemma_epoch(installed, requests);
}

proof fn lemma_epoch(installed: Map<u32, ProgramView>, requests: Seq<RequestView>)
    ensures
        match batch::epoch_answer(installed, requests) {
            Ok(answers) => answers.len() == requests.len() && forall|i: int|
                0 <= i < requests.len() ==> batch::reference_answer(
                    installed,
                    #[trigger] requests[i],
                ) == Ok::<_, BackendError>(answers[i]),
            Err(error) => exists|j: int|
                {
                    &&& 0 <= j < requests.len()
                    &&& batch::reference_answer(installed, #[trigger] requests[j]) == Err::<
                        Seq<u8>,
                        _,
                    >(error)
                    &&& forall|l: int|
                        0 <= l < j ==> batch::reference_answer(
                            installed,
                            #[trigger] requests[l],
                        ) is Ok
                },
        },
    decreases requests.len(),
{
    if requests.len() > 0 {
        let shorter = requests.drop_last();
        lemma_epoch(installed, shorter);
        match batch::epoch_answer(installed, shorter) {
            Ok(answers) => {
                assert forall|l: int| 0 <= l < shorter.len() implies batch::reference_answer(
                    installed,
                    #[trigger] requests[l],
                ) == Ok::<_, BackendError>(answers[l]) by {
                    assert(shorter[l] == requests[l]);
                }
                assert(requests.last() == requests[requests.len() - 1]);
            },
            Err(error) => {
                let j = choose|j: int|
                    {
                        &&& 0 <= j < shorter.len()
                        &&& batch::reference_answer(installed, #[trigger] shorter[j]) == Err::<
                            Seq<u8>,
                            _,
                        >(error)
                        &&& forall|l: int|
                            0 <= l < j ==> batch::reference_answer(
                                installed,
                                #[trigger] shorter[l],
                            ) is Ok
                    };
                assert(requests[j] == shorter[j]);
                assert forall|l: int| 0 <= l < j implies batch::reference_answer(
                    installed,
                    #[trigger] requests[l],
                ) is Ok by {
                    assert(shorter[l] == requests[l]);
                }
            },
        }
    }
}

/// Backends are told to disagree exactly where one answers otherwise than the definition,
/// or fails in another way than by declining. The byte that is named is the first that
/// differs.
pub proof fn law_a_disagreement_is_a_difference(
    expected: Seq<u8>,
    kind: BackendKind,
    reply: Result<Seq<u8>, BackendError>,
)
    requires
        expected.len() <= usize::MAX,
    ensures
        match reply {
            Ok(actual) => {
                &&& batch::disagreement(expected, kind, reply) is None <==> actual == expected
                &&& batch::disagreement(expected, kind, reply) matches Some(found) ==> {
                    let at = batch::first_difference(actual, expected, 0);
                    &&& found == batch::Disagreement::DiffersAt(kind, at as usize)
                    &&& 0 <= at <= expected.len() && at <= actual.len()
                    &&& forall|i: int| 0 <= i < at ==> actual[i] == expected[i]
                    &&& at < expected.len() && at < actual.len() ==> actual[at] != expected[at]
                }
            },
            Err(error) => if error == BackendError::UnsupportedEvaluator {
                batch::disagreement(expected, kind, reply) is None
            } else {
                batch::disagreement(expected, kind, reply) == Some(
                    batch::Disagreement::Failed(kind, error),
                )
            },
        },
{
    if let Ok(actual) = reply {
        lemma_first_difference(actual, expected, 0);
    }
}

proof fn lemma_first_difference(a: Seq<u8>, b: Seq<u8>, from: int)
    requires
        0 <= from <= a.len(),
        from <= b.len(),
    ensures
        ({
            let at = batch::first_difference(a, b, from);
            &&& from <= at <= a.len() && at <= b.len()
            &&& forall|i: int| from <= i < at ==> a[i] == b[i]
            &&& at < a.len() && at < b.len() ==> a[at] != b[at]
        }),
    decreases a.len() - from,
{
    if from < a.len() && from < b.len() && a[from] == b[from] {
        lemma_first_difference(a, b, from + 1);
    }
}

} // verus!
