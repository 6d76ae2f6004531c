//! What compiled code computes, instruction by instruction, and that the machine
//! instructions that are emitted for it compute the same.

use crate::bytes;
use crate::compiler::body::{FieldWidth, ProgramView, Registers};
use crate::executives::batch::{BackendError, RequestView};
use crate::executives::native;
use crate::executives::native::{Environment, Inst, NativeStore};
use crate::executives::native_emit;
use crate::executives::native_emit::{CallValues, Comparison, Emission, Parts, State, Step};
use cranelift_codegen::ir::Value;
use vstd::prelude::*;

verus! {

/// 2^64.
pub open spec fn around() -> int {
    0x1_0000_0000_0000_0000
}

/// What a machine instruction gives where the values before it are `m`: arithmetic goes
/// around at 64 bits, shifts go by the lowest six bits, comparisons are of unsigned numbers
/// and give one or zero.
pub open spec fn machine(step: Step, m: Map<Value, u64>) -> int {
    match step {
        Step::Const { value, .. } => value as int,
        Step::Widen { x, .. } => m[x] as int,
        Step::Add { x, y, .. } => (m[x] + m[y]) % around(),
        Step::Sub { x, y, .. } => (m[x] - m[y]) % around(),
        Step::Mul { x, y, .. } => (m[x] * m[y]) % around(),
        Step::And { x, y, .. } => (m[x] & m[y]) as int,
        Step::Or { x, y, .. } => (m[x] | m[y]) as int,
        Step::Xor { x, y, .. } => (m[x] ^ m[y]) as int,
        Step::Shl { x, y, .. } => (m[x] << (m[y] & 63)) as int,
        Step::Shr { x, y, .. } => (m[x] >> (m[y] & 63)) as int,
        Step::Compare { how, x, y, .. } => match how {
            Comparison::Equal => if m[x] == m[y] {
                1
            } else {
                0
            },
            Comparison::Less => if m[x] < m[y] {
                1
            } else {
                0
            },
            Comparison::AtLeast => if m[x] >= m[y] {
                1
            } else {
                0
            },
        },
        Step::NotZero { x, .. } => if m[x] != 0 {
            1
        } else {
            0
        },
        Step::Select { c, x, y, .. } => if m[c] != 0 {
            m[x] as int
        } else {
            m[y] as int
        },
        _ => 0,
    }
}

/// The instruction neither reads an array nor names a local.
pub open spec fn is_plain(inst: Inst) -> bool {
    !(inst is Load || inst is LoadAux || inst is Use || inst is Define)
}

/// For a plain instruction one machine instruction is emitted, at the end of the block, and
/// it computes what the instruction means where its operands hold what theirs do.
pub proof fn law_emitted_code_computes_the_instruction(
    call: CallValues,
    at: Value,
    inst: Inst,
    v: Seq<Value>,
    p: Parts,
    s: State,
    result: Value,
    m: Map<Value, u64>,
    e: Environment,
    r: Registers,
)
    requires
        is_plain(inst),
        s.at is Some,
        s.blocks.contains_key(s.at->0),
        native::operands_are_there(inst, r.values.len() as int, r.locals.len() as int),
        v.len() == r.values.len(),
        forall|i: int| 0 <= i < v.len() ==> m[#[trigger] v[i]] == r.values[i],
        m[at] == e.index,
        m[call.count] == e.arrays.count,
        m[call.stride] == e.stride,
        m[call.aux_count] == e.arrays.aux_count,
        m[call.aux_stride] == e.aux_stride,
        e.arrays.count <= u64::MAX,
        e.arrays.aux_count <= u64::MAX,
    ensures
        ({
            let after = native_emit::inst_put(call, at, inst, v, p, s, result);
            let b = s.at->0;
            let step = after.blocks[b].last();
            &&& after.blocks[b] == s.blocks[b].push(step)
            &&& after.at == s.at
            &&& native_emit::given_by(step) == Some(result)
            &&& machine(step, m) == native::inst_value(e, r, inst)
            &&& after.values.contains(result)
        }),
{
    let after = native_emit::inst_put(call, at, inst, v, p, s, result);
    let b = s.at->0;
    assert(after.blocks[b].drop_last() =~= s.blocks[b]);
    match inst {
        Inst::Sub(x, y) => {
            assert(m[v[x as int]] == r.values[x as int]);
            assert(m[v[y as int]] == r.values[y as int]);
        },
        _ => {},
    }
}

/// An instruction means this, of the values that its operands have.
pub proof fn law_instructions_mean_what_they_say(
    e: Environment,
    r: Registers,
    x: u64,
    y: u64,
    c: u64,
    value: u64,
)
    ensures
        native::inst_value(e, r, Inst::Index) == e.index,
        native::inst_value(e, r, Inst::Const(value)) == value,
        native::inst_value(e, r, Inst::Add(x, y)) as int == (r.values[x as int]
            + r.values[y as int]) % around(),
        native::inst_value(e, r, Inst::Sub(x, y)) as int == (r.values[x as int]
            - r.values[y as int]) % around(),
        native::inst_value(e, r, Inst::Mul(x, y)) as int == (r.values[x as int]
            * r.values[y as int]) % around(),
        native::inst_value(e, r, Inst::Equal(x, y)) == 1 <==> r.values[x as int]
            == r.values[y as int],
        native::inst_value(e, r, Inst::Less(x, y)) == 1 <==> r.values[x as int]
            < r.values[y as int],
        native::inst_value(e, r, Inst::AtLeast(x, y)) == 1 <==> r.values[x as int]
            >= r.values[y as int],
        native::inst_value(e, r, Inst::NotZero(x)) == 1 <==> r.values[x as int] != 0,
        r.values[c as int] != 0 ==> native::inst_value(e, r, Inst::Select(c, x, y))
            == r.values[x as int],
        r.values[c as int] == 0 ==> native::inst_value(e, r, Inst::Select(c, x, y))
            == r.values[y as int],
{
}

/// A load reads so many bytes behind its address, lowest first. One from the other array
/// gives zero where that array is empty.
pub proof fn law_loads_read_behind_their_address(
    e: Environment,
    r: Registers,
    address: u64,
    empty: u64,
    offset: u32,
    width: FieldWidth,
)
    ensures
        native::inst_value(e, r, Inst::Load { address, offset, width }) == bytes::word_at(
            e.arrays.input,
            r.values[address as int] + offset,
            width.size() as int,
        ) as u64,
        r.values[empty as int] != 0 ==> native::inst_value(
            e,
            r,
            Inst::LoadAux { empty, address, offset, width },
        ) == 0,
        r.values[empty as int] == 0 ==> native::inst_value(
            e,
            r,
            Inst::LoadAux { empty, address, offset, width },
        ) == bytes::word_at(
            e.arrays.aux,
            r.values[address as int] + offset,
            width.size() as int,
        ) as u64,
{
}

/// A load is emitted as the address in its array, the read behind it and, where the field is
/// narrower than 64 bits, its extension with zeros.
pub proof fn law_a_load_is_emitted_from_its_array(
    call: CallValues,
    at: Value,
    address: u64,
    offset: u32,
    width: FieldWidth,
    v: Seq<Value>,
    p: Parts,
    s: State,
    result: Value,
)
    requires
        s.at is Some,
        s.blocks.contains_key(s.at->0),
    ensures
        ({
            let inst = Inst::Load { address, offset, width };
            let after = native_emit::inst_put(call, at, inst, v, p, s, result);
            let steps = after.blocks[s.at->0];
            let n = s.blocks[s.at->0].len() as int;
            &&& steps[n] == (Step::Add { x: call.input, y: v[address as int], result: p.base })
            &&& steps[n + 1] == (Step::Load {
                width,
                base: p.base,
                offset: offset as i32,
                result: p.raw,
            })
            &&& width == FieldWidth::U64 ==> steps.len() == n + 2 && native_emit::field_read(
                width,
                p,
            ) == p.raw
            &&& width != FieldWidth::U64 ==> steps.len() == n + 3 && steps[n + 2] == (Step::Widen {
                x: p.raw,
                result: p.wide,
            }) && native_emit::field_read(width, p) == p.wide
        }),
{
}

/// A store is emitted at its field's offset from the element's address, cut to the field's
/// width where that is narrower than 64 bits.
pub proof fn law_a_store_is_emitted_at_its_offset(
    store: NativeStore,
    v: Seq<Value>,
    base: Value,
    narrow: Value,
    s: State,
)
    requires
        s.at is Some,
        s.blocks.contains_key(s.at->0),
    ensures
        ({
            let steps = native_emit::store_put(store, v, base, narrow, s).blocks[s.at->0];
            let n = s.blocks[s.at->0].len() as int;
            &&& store.width == FieldWidth::U64 ==> steps.len() == n + 1 && steps[n] == (Step::Store {
                value: v[store.value as int],
                base,
                offset: store.offset as i32,
            })
            &&& store.width != FieldWidth::U64 ==> steps.len() == n + 2 && steps[n]
                == (Step::Narrow {
                x: v[store.value as int],
                width: store.width,
                result: narrow,
            }) && steps[n + 1] == (Step::Store {
                value: narrow,
                base,
                offset: store.offset as i32,
            })
        }),
{
}

/// The emitted loop counts from the share's start, runs its body as long as the count is
/// below the share's end, goes on with the next element, and then returns.
pub proof fn law_the_loop_goes_through_its_share(call: CallValues, e: Emission, s: State, t: State)
    requires
        s.at is Some,
        s.blocks.contains_key(s.at->0),
        native_emit::is_new(e, s),
        t.at is Some,
        t.at->0 != e.done,
        t.blocks.contains_key(t.at->0),
        t.blocks.contains_key(e.done),
    ensures
        ({
            let o = native_emit::opened(call, e, s);
            let c = native_emit::closed(e, t);
            let n = t.blocks[t.at->0].len() as int;
            &&& o.blocks[s.at->0].last() == (Step::Jump { to: e.header, with: call.start })
            &&& o.blocks[e.header] == seq![
                Step::Param { value: e.at, bits: 32 },
                Step::Compare { how: Comparison::Less, x: e.at, y: call.end, result: e.more },
                Step::Branch { on: e.more, yes: e.body, no: e.done },
            ]
            &&& o.at == Some(e.body)
            &&& o.blocks[e.body] == seq![Step::Const { value: 0, result: e.zero }]
            &&& c.blocks[t.at->0][n] == (Step::AddOne { x: e.at, result: e.next })
            &&& c.blocks[t.at->0][n + 1] == (Step::Jump { to: e.header, with: e.next })
            &&& c.blocks[e.done].last() == Step::Return
        }),
{
    let o = native_emit::opened(call, e, s);
    assert(o.blocks[e.header] =~= seq![
        Step::Param { value: e.at, bits: 32 },
        Step::Compare { how: Comparison::Less, x: e.at, y: call.end, result: e.more },
        Step::Branch { on: e.more, yes: e.body, no: e.done },
    ]);
    assert(o.blocks[e.body] =~= seq![Step::Const { value: 0, result: e.zero }]);
}

/// A request is answered where its body is known with the request's strides and both arrays
/// are long enough, and refused otherwise.
pub proof fn law_compiled_code_answers_what_fits(installed: Map<u32, ProgramView>, r: RequestView)
    ensures
        native::native_answer(installed, r) is Ok <==> {
            &&& installed.contains_key(r.evaluator_id)
            &&& installed[r.evaluator_id].stride() == r.element_stride
            &&& installed[r.evaluator_id].aux_stride() == r.aux.element_stride
            &&& r.inputs.len() >= r.element_count * r.element_stride
            &&& r.aux.bytes.len() >= r.aux.element_count * r.aux.element_stride
        },
        !installed.contains_key(r.evaluator_id) ==> native::native_answer(installed, r) == Err::<
            Seq<u8>,
            _,
        >(BackendError::UnsupportedEvaluator),
        installed.contains_key(r.evaluator_id) && native::native_answer(installed, r) is Err
            ==> native::native_answer(installed, r) == Err::<Seq<u8>, _>(
            BackendError::InvalidInput,
        ),
{
}

/// An epoch is answered request by request, in order, up to the first that is refused.
pub proof fn law_compiled_code_answers_in_order(
    installed: Map<u32, ProgramView>,
    requests: Seq<RequestView>,
    r: RequestView,
)
    ensures
        native::native_epoch(installed, Seq::empty()) == Ok::<Seq<Seq<u8>>, BackendError>(
            Seq::empty(),
        ),
        ({
            let before = native::native_epoch(installed, requests);
            let after = native::native_epoch(installed, requests.push(r));
            &&& before is Err ==> after == before
            &&& before matches Ok(answers) ==> match native::native_answer(installed, r) {
                Ok(answer) => after == Ok::<Seq<Seq<u8>>, BackendError>(answers.push(answer)),
                Err(error) => after == Err::<Seq<Seq<u8>>, _>(error),
            }
        }),
{
    assert(requests.push(r).drop_last() =~= requests);
}

} // verus!
