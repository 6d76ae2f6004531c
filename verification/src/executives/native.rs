//! Straight-line code for evaluator bodies.
//!
//! A body without loops is lowered to a list of machine-level instructions over
//! 64-bit values: addresses are computed, indexes are clamped and shift amounts
//! are masked by instructions of their own. The scalar backend remains the
//! definition, and the code is proved to compute what the definition says.
//! Bodies with loops are declined rather than partly lowered.

use crate::bytes;
use crate::compiler::body;
use crate::compiler::body::{
    Arrays, ArraysView, ElementLayout, EvaluatorProgram, FieldWidth, Op, ProgramView, Registers,
    Store,
};
use crate::executives::batch;
use crate::executives::batch::{
    shares, AuxArray, BackendError, BackendKind, BatchBackend, BatchRequest, Note, RequestView,
    Served,
};
use crate::kernel;
use std::collections::BTreeMap;
use vstd::prelude::*;
use vstd::slice::slice_to_vec;

verus! {

/// One instruction. Operands are the places of earlier instructions in the
/// code; each instruction gives one value.
#[derive(Clone, Copy, Debug, PartialEq, Eq, Structural)]
pub enum Inst {
    /// The element's index, and the sizes that the code is called with.
    Index,
    Count,
    Stride,
    AuxCount,
    AuxStride,
    Const(u64),
    Add(u64, u64),
    Sub(u64, u64),
    Mul(u64, u64),
    And(u64, u64),
    Or(u64, u64),
    Xor(u64, u64),
    Shl(u64, u64),
    Shr(u64, u64),
    /// Comparisons give one or zero.
    Equal(u64, u64),
    Less(u64, u64),
    AtLeast(u64, u64),
    NotZero(u64),
    Select(u64, u64, u64),
    /// A field of the input array, `offset` bytes behind an address in it.
    Load { address: u64, offset: u32, width: FieldWidth },
    /// A field of the second array, or zero where `empty` is not zero.
    LoadAux { empty: u64, address: u64, offset: u32, width: FieldWidth },
    Use(u32),
    Define(u32, u64),
}

/// What a call of the code is given.
pub ghost struct Environment {
    pub arrays: ArraysView,
    pub index: u32,
    pub stride: u32,
    pub aux_stride: u32,
    pub locals: nat,
}

/// The bytes at `address` and `offset` in an array, as a number.
pub open spec fn loaded(array: Seq<u8>, address: u64, offset: u32, width: FieldWidth) -> u64 {
    bytes::word_at(array, address + offset, width.size() as int) as u64
}

/// The value of an instruction where `r` are the values before it.
pub open spec fn inst_value(e: Environment, r: Registers, inst: Inst) -> u64 {
    let v = r.values;
    match inst {
        Inst::Index => e.index as u64,
        Inst::Count => e.arrays.count as u64,
        Inst::Stride => e.stride as u64,
        Inst::AuxCount => e.arrays.aux_count as u64,
        Inst::AuxStride => e.aux_stride as u64,
        Inst::Const(value) => value,
        Inst::Add(x, y) => v[x as int].wrapping_add(v[y as int]),
        Inst::Sub(x, y) => v[x as int].wrapping_sub(v[y as int]),
        Inst::Mul(x, y) => v[x as int].wrapping_mul(v[y as int]),
        Inst::And(x, y) => v[x as int] & v[y as int],
        Inst::Or(x, y) => v[x as int] | v[y as int],
        Inst::Xor(x, y) => v[x as int] ^ v[y as int],
        Inst::Shl(x, y) => v[x as int] << (v[y as int] & 63),
        Inst::Shr(x, y) => v[x as int] >> (v[y as int] & 63),
        Inst::Equal(x, y) => body::truth(v[x as int] == v[y as int]),
        Inst::Less(x, y) => body::truth(v[x as int] < v[y as int]),
        Inst::AtLeast(x, y) => body::truth(v[x as int] >= v[y as int]),
        Inst::NotZero(x) => body::truth(v[x as int] != 0),
        Inst::Select(c, x, y) => if v[c as int] != 0 {
            v[x as int]
        } else {
            v[y as int]
        },
        Inst::Load { address, offset, width } => loaded(
            e.arrays.input,
            v[address as int],
            offset,
            width,
        ),
        Inst::LoadAux { empty, address, offset, width } => if v[empty as int] != 0 {
            0
        } else {
            loaded(e.arrays.aux, v[address as int], offset, width)
        },
        Inst::Use(local) => r.locals[local as int],
        Inst::Define(_, x) => v[x as int],
    }
}

pub open spec fn inst_stepped(e: Environment, r: Registers, inst: Inst) -> Registers {
    let value = inst_value(e, r, inst);
    Registers {
        values: r.values.push(value),
        locals: match inst {
            Inst::Define(local, _) => r.locals.update(local as int, value),
            _ => r.locals,
        },
    }
}

/// The values of all of the code's instructions, and the locals behind them.
pub open spec fn ran_code(e: Environment, code: Seq<Inst>) -> Registers
    decreases code.len(),
{
    if code.len() == 0 {
        Registers { values: Seq::empty(), locals: Seq::new(e.locals, |i: int| 0u64) }
    } else {
        inst_stepped(e, ran_code(e, code.drop_last()), code.last())
    }
}

// ---- what a body is lowered to ---------------------------------------------

/// The address of the element that `requested` names, or of the last one where
/// it names none: seven instructions from place `b` on.
pub open spec fn clamped_address(b: int, count: Inst, stride: Inst, requested: u64) -> Seq<Inst> {
    seq![
        count,
        Inst::Const(u64::MAX),
        Inst::Add(b as u64, (b + 1) as u64),
        Inst::AtLeast(requested, b as u64),
        Inst::Select((b + 3) as u64, (b + 2) as u64, requested),
        stride,
        Inst::Mul((b + 4) as u64, (b + 5) as u64),
    ]
}

/// What `op` is lowered to, the code before it having `b` instructions and the
/// values of the operations before it being at `places`.
pub open spec fn emitted(p: ProgramView, op: Op, places: Seq<u64>, b: int) -> Seq<Inst> {
    match op {
        Op::Load(field) => seq![
            Inst::Load {
                address: 2,
                offset: body::offset_of(p.layout, field as int) as u32,
                width: p.layout[field as int],
            },
        ],
        Op::Index => seq![Inst::Index],
        Op::Gather(x, field) => clamped_address(
            b,
            Inst::Count,
            Inst::Stride,
            places[x as int],
        ).push(
            Inst::Load {
                address: (b + 6) as u64,
                offset: body::offset_of(p.layout, field as int) as u32,
                width: p.layout[field as int],
            },
        ),
        Op::GatherAux(x, field) => clamped_address(
            b,
            Inst::AuxCount,
            Inst::AuxStride,
            places[x as int],
        ).push(Inst::Const(0)).push(Inst::Equal(b as u64, (b + 7) as u64)).push(
            Inst::LoadAux {
                empty: (b + 8) as u64,
                address: (b + 6) as u64,
                offset: body::offset_of(p.aux->Some_0, field as int) as u32,
                width: p.aux->Some_0[field as int],
            },
        ),
        Op::Const(value) => seq![Inst::Const(value)],
        Op::Add(x, y) => seq![Inst::Add(places[x as int], places[y as int])],
        Op::Sub(x, y) => seq![Inst::Sub(places[x as int], places[y as int])],
        Op::Mul(x, y) => seq![Inst::Mul(places[x as int], places[y as int])],
        Op::And(x, y) => seq![Inst::And(places[x as int], places[y as int])],
        Op::Or(x, y) => seq![Inst::Or(places[x as int], places[y as int])],
        Op::Xor(x, y) => seq![Inst::Xor(places[x as int], places[y as int])],
        Op::Shl(x, y) => seq![
            Inst::Const(63),
            Inst::And(places[y as int], b as u64),
            Inst::Shl(places[x as int], (b + 1) as u64),
        ],
        Op::Shr(x, y) => seq![
            Inst::Const(63),
            Inst::And(places[y as int], b as u64),
            Inst::Shr(places[x as int], (b + 1) as u64),
        ],
        Op::CmpEq(x, y) => seq![
            Inst::Equal(places[x as int], places[y as int]),
            Inst::Const(1),
            Inst::Const(0),
            Inst::Select(b as u64, (b + 1) as u64, (b + 2) as u64),
        ],
        Op::CmpLt(x, y) => seq![
            Inst::Less(places[x as int], places[y as int]),
            Inst::Const(1),
            Inst::Const(0),
            Inst::Select(b as u64, (b + 1) as u64, (b + 2) as u64),
        ],
        Op::Select(c, x, y) => seq![
            Inst::NotZero(places[c as int]),
            Inst::Select(b as u64, places[x as int], places[y as int]),
        ],
        Op::Get(local) => seq![Inst::Use(local)],
        Op::Put(local, x) => seq![Inst::Define(local, places[x as int])],
        Op::Repeat(_) | Op::EndRepeat | Op::BreakIf(_) => Seq::empty(),
    }
}

/// Code, and the place of each operation's value in it.
#[verifier::ext_equal]
pub ghost struct Lowering {
    pub code: Seq<Inst>,
    pub places: Seq<u64>,
}

/// The code of the first `n` operations. It starts with the address of the
/// element itself.
pub open spec fn lowered_upto(p: ProgramView, n: int) -> Lowering
    decreases n,
{
    if n <= 0 {
        Lowering {
            code: seq![Inst::Index, Inst::Stride, Inst::Mul(0, 1)],
            places: Seq::empty(),
        }
    } else {
        let before = lowered_upto(p, n - 1);
        let code = before.code + emitted(
            p,
            p.ops[n - 1],
            before.places,
            before.code.len() as int,
        );
        Lowering { code, places: before.places.push((code.len() - 1) as u64) }
    }
}

pub open spec fn is_loop_op(op: Op) -> bool {
    match op {
        Op::Repeat(_) | Op::EndRepeat | Op::BreakIf(_) => true,
        _ => false,
    }
}

pub open spec fn is_straight(p: ProgramView) -> bool {
    forall|i: int| 0 <= i < p.ops.len() ==> !is_loop_op(#[trigger] p.ops[i])
}

/// A field of the output element, and the place of the value it takes.
#[derive(Clone, Copy, Debug, PartialEq, Eq, Structural)]
pub struct NativeStore {
    pub offset: u32,
    pub width: FieldWidth,
    pub value: u64,
}

pub open spec fn lowered_stores(p: ProgramView) -> Seq<NativeStore> {
    Seq::new(
        p.stores.len(),
        |i: int|
            NativeStore {
                offset: body::offset_of(p.layout, p.stores[i].field as int) as u32,
                width: p.layout[p.stores[i].field as int],
                value: lowered_upto(p, p.ops.len() as int).places[p.stores[i].value as int],
            },
    )
}

/// An element with the first `n` stores made to it.
pub open spec fn native_stored(
    stores: Seq<NativeStore>,
    values: Seq<u64>,
    element: Seq<u8>,
    n: int,
) -> Seq<u8>
    decreases n,
{
    if n <= 0 {
        element
    } else {
        let store = stores[n - 1];
        bytes::spliced(
            native_stored(stores, values, element, n - 1),
            store.offset as int,
            bytes::le_bytes(values[store.value as int] as nat, store.width.size()),
        )
    }
}

/// What the code makes of element `index`, which holds `element`.
pub open spec fn native_evaluated(
    p: ProgramView,
    a: ArraysView,
    index: u32,
    element: Seq<u8>,
) -> Seq<u8> {
    let values = ran_code(
        environment(p, a, index),
        lowered_upto(p, p.ops.len() as int).code,
    ).values;
    native_stored(lowered_stores(p), values, element, p.stores.len() as int)
}

pub open spec fn environment(p: ProgramView, a: ArraysView, index: u32) -> Environment {
    Environment {
        arrays: a,
        index,
        stride: p.stride() as u32,
        aux_stride: p.aux_stride() as u32,
        locals: p.locals(),
    }
}

// ---- the code computes what the body says ----------------------------------

/// The registers of the body after its first `n` operations, none of which is
/// a loop marker.
pub open spec fn straight(p: ProgramView, a: ArraysView, index: u32, n: int) -> Registers
    decreases n,
{
    if n <= 0 {
        p.blank()
    } else {
        p.stepped(a, index, straight(p, a, index, n - 1), n - 1)
    }
}

pub proof fn lemma_straight_is_ran(p: ProgramView, a: ArraysView, index: u32, n: int)
    requires
        is_straight(p),
        0 <= n <= p.ops.len(),
    ensures
        p.ran(a, index, straight(p, a, index, n), n, p.ops.len() as int).0 == straight(
            p,
            a,
            index,
            p.ops.len() as int,
        ),
    decreases p.ops.len() - n,
{
    if n < p.ops.len() {
        assert(!is_loop_op(p.ops[n]));
        lemma_straight_is_ran(p, a, index, n + 1);
    }
}

/// The instruction at place `i` reads earlier values, locals that are there
/// and bytes inside the arrays.
spec fn inst_is_sound(e: Environment, v: Seq<u64>, i: int, inst: Inst) -> bool {
    match inst {
        Inst::Index | Inst::Count | Inst::Stride | Inst::AuxCount | Inst::AuxStride | Inst::Const(
            _,
        ) => true,
        Inst::Add(x, y) | Inst::Sub(x, y) | Inst::Mul(x, y) | Inst::And(x, y) | Inst::Or(x, y)
        | Inst::Xor(x, y) | Inst::Shl(x, y) | Inst::Shr(x, y) | Inst::Equal(x, y) | Inst::Less(
            x,
            y,
        ) | Inst::AtLeast(x, y) => x < i && y < i,
        Inst::NotZero(x) => x < i,
        Inst::Select(c, x, y) => c < i && x < i && y < i,
        Inst::Load { address, offset, width } => {
            &&& address < i
            &&& v[address as int] + offset + width.size() <= e.arrays.input.len()
        },
        Inst::LoadAux { empty, address, offset, width } => {
            &&& empty < i
            &&& address < i
            &&& v[empty as int] == 0 ==> v[address as int] + offset + width.size()
                <= e.arrays.aux.len()
        },
        Inst::Use(local) => local < e.locals,
        Inst::Define(local, x) => local < e.locals && x < i,
    }
}

spec fn code_is_sound(e: Environment, code: Seq<Inst>) -> bool {
    let v = ran_code(e, code).values;
    forall|i: int| 0 <= i < code.len() ==> inst_is_sound(e, v, i, #[trigger] code[i])
}

proof fn lemma_ran_len(e: Environment, code: Seq<Inst>)
    ensures
        ran_code(e, code).values.len() == code.len(),
    decreases code.len(),
{
    if code.len() > 0 {
        lemma_ran_len(e, code.drop_last());
    }
}

/// One more instruction: values before it stay, and the code stays sound where
/// the instruction is.
proof fn lemma_push(e: Environment, code: Seq<Inst>, inst: Inst)
    ensures
        ran_code(e, code.push(inst)) == inst_stepped(e, ran_code(e, code), inst),
        ran_code(e, code.push(inst)).values.len() == code.len() + 1,
        ran_code(e, code.push(inst)).values[code.len() as int] == inst_value(
            e,
            ran_code(e, code),
            inst,
        ),
        forall|i: int|
            0 <= i < code.len() ==> #[trigger] ran_code(e, code.push(inst)).values[i] == ran_code(
                e,
                code,
            ).values[i],
        code_is_sound(e, code) && inst_is_sound(
            e,
            ran_code(e, code).values,
            code.len() as int,
            inst,
        ) ==> code_is_sound(e, code.push(inst)),
{
    let more = code.push(inst);
    assert(more.drop_last() =~= code);
    lemma_ran_len(e, code);
    let v = ran_code(e, code).values;
    let w = ran_code(e, more).values;
    if code_is_sound(e, code) && inst_is_sound(e, v, code.len() as int, inst) {
        assert forall|i: int| 0 <= i < more.len() implies inst_is_sound(
            e,
            w,
            i,
            #[trigger] more[i],
        ) by {
            if i < code.len() {
                assert(inst_is_sound(e, v, i, code[i]));
            }
        }
    }
}

/// The arrays hold what they say, and the element is one of them.
pub open spec fn is_callable(p: ProgramView, a: ArraysView, index: u32) -> bool {
    &&& p.is_valid()
    &&& p.reads_within(a)
    &&& index < a.count <= u32::MAX
    &&& a.aux_count <= u32::MAX
}

/// The code so far stands for the body's registers.
spec fn stands_for(e: Environment, l: Lowering, r: Registers, n: int) -> bool {
    let m = ran_code(e, l.code);
    &&& 3 <= l.code.len() <= 3 + 10 * n
    &&& l.places.len() == n
    &&& code_is_sound(e, l.code)
    &&& m.values[2] == e.index * e.stride
    &&& m.locals == r.locals
    &&& forall|j: int|
        0 <= j < n ==> (#[trigger] l.places[j]) < l.code.len() && m.values[l.places[j] as int]
            == r.values[j]
}

proof fn lemma_address(at: int, count: int, stride: u32, len: int)
    requires
        0 <= at < count <= u32::MAX,
        count * stride <= len,
    ensures
        0 <= at * stride <= u64::MAX,
        at * stride + stride <= len,
{
    body::lemma_element_fits(at, count, stride as int);
    assert(at * stride <= 0xffff_ffff * 0xffff_ffff) by (nonlinear_arith)
        requires
            0 <= at <= 0xffff_ffff,
            0 <= stride <= 0xffff_ffff,
    ;
}

proof fn lemma_masked_twice(x: u64)
    by (bit_vector)
    ensures
        (x & 63) & 63 == x & 63,
{
}

/// The seven instructions of an address, run.
proof fn lemma_clamped_address(
    e: Environment,
    code: Seq<Inst>,
    count: Inst,
    stride: Inst,
    requested: u64,
    limit: int,
    width: u32,
)
    requires
        code_is_sound(e, code),
        requested < code.len(),
        code.len() + 7 <= u64::MAX,
        count is Count && limit == e.arrays.count || count is AuxCount && limit
            == e.arrays.aux_count,
        stride is Stride && width == e.stride || stride is AuxStride && width == e.aux_stride,
        0 <= limit <= u32::MAX,
    ensures
        ({
            let b = code.len() as int;
            let more = code + clamped_address(b, count, stride, requested);
            let v = ran_code(e, code).values;
            let w = ran_code(e, more).values;
            &&& code_is_sound(e, more)
            &&& more.len() == b + 7
            &&& ran_code(e, more).locals == ran_code(e, code).locals
            &&& forall|i: int| 0 <= i < b ==> #[trigger] w[i] == v[i]
            &&& w[b] == limit
            &&& limit > 0 ==> w[b + 6] == body::clamped(v[requested as int], limit as nat) * width
        }),
{
    let b = code.len() as int;
    let i1 = Inst::Const(u64::MAX);
    let i2 = Inst::Add(b as u64, (b + 1) as u64);
    let i3 = Inst::AtLeast(requested, b as u64);
    let i4 = Inst::Select((b + 3) as u64, (b + 2) as u64, requested);
    let i6 = Inst::Mul((b + 4) as u64, (b + 5) as u64);
    let c1 = code.push(count);
    let c2 = c1.push(i1);
    let c3 = c2.push(i2);
    let c4 = c3.push(i3);
    let c5 = c4.push(i4);
    let c6 = c5.push(stride);
    let c7 = c6.push(i6);
    lemma_ran_len(e, code);
    lemma_push(e, code, count);
    lemma_push(e, c1, i1);
    lemma_push(e, c2, i2);
    lemma_push(e, c3, i3);
    lemma_push(e, c4, i4);
    lemma_push(e, c5, stride);
    lemma_push(e, c6, i6);
    assert(code + clamped_address(b, count, stride, requested) =~= c7);
    let v = ran_code(e, code).values;
    let w = ran_code(e, c7).values;
    assert(w[b] == limit);
    if limit > 0 {
        assert(w[b + 2] == limit - 1);
        let at = body::clamped(v[requested as int], limit as nat);
        assert(w[b + 4] == at);
        lemma_address(at, limit, width, limit * width);
        assert(w[b + 5] == width);
        assert(w[b + 6] == (w[b + 4]).wrapping_mul(w[b + 5]));
        assert(w[b + 6] == at * width);
    }
}

proof fn lemma_offset_fits(widths: Seq<FieldWidth>, field: int)
    requires
        0 <= field < widths.len(),
        body::stride_of(widths) <= u32::MAX,
    ensures
        (body::offset_of(widths, field) as u32) == body::offset_of(widths, field),
        body::offset_of(widths, field) + widths[field].size() <= body::stride_of(widths),
{
    body::lemma_field_fits(widths, field, widths.len() as int);
}

/// One operation more.
#[verifier::rlimit(60)]
#[verifier::spinoff_prover]
proof fn lemma_emitted(p: ProgramView, a: ArraysView, index: u32, n: int)
    requires
        is_callable(p, a, index),
        0 <= n < p.ops.len(),
        !is_loop_op(p.ops[n]),
        stands_for(environment(p, a, index), lowered_upto(p, n), straight(p, a, index, n), n),
        straight(p, a, index, n).values.len() == p.ops.len(),
        p.op_fault(n) is None,
        p.locals_of(n + 1) <= p.locals(),
    ensures
        stands_for(
            environment(p, a, index),
            lowered_upto(p, n + 1),
            straight(p, a, index, n + 1),
            n + 1,
        ),
{
    let e = environment(p, a, index);
    let l = lowered_upto(p, n);
    let r = straight(p, a, index, n);
    let op = p.ops[n];
    let b = l.code.len() as int;
    let places = l.places;
    let next = lowered_upto(p, n + 1);
    let code = next.code;
    let v = ran_code(e, l.code).values;
    let s = straight(p, a, index, n + 1);
    lemma_ran_len(e, l.code);
    lemma_address(index as int, a.count as int, e.stride, a.input.len() as int);
    let value = p.value_of(a, index, r, op);
    assert(code_is_sound(e, code) && ran_code(e, code).values[code.len() - 1] == value && ran_code(
        e,
        code,
    ).locals == s.locals && b < code.len() <= b + 10 && forall|i: int|
        0 <= i < b ==> #[trigger] ran_code(e, code).values[i] == v[i]) by {
        match op {
            Op::Load(field) => {
                lemma_offset_fits(p.layout, field as int);
                let i0 = emitted(p, op, places, b)[0];
                lemma_push(e, l.code, i0);
                assert(code =~= l.code.push(i0));
            },
            Op::Gather(x, field) => {
                let part = l.code + clamped_address(
                    b,
                    Inst::Count,
                    Inst::Stride,
                    places[x as int],
                );
                lemma_clamped_address(
                    e,
                    l.code,
                    Inst::Count,
                    Inst::Stride,
                    places[x as int],
                    a.count as int,
                    e.stride,
                );
                lemma_offset_fits(p.layout, field as int);
                let at = body::clamped(r.values[x as int], a.count);
                lemma_address(at, a.count as int, e.stride, a.input.len() as int);
                let i0 = emitted(p, op, places, b)[7];
                lemma_push(e, part, i0);
                assert(code =~= part.push(i0));
            },
            Op::GatherAux(x, field) => {
                let part = l.code + clamped_address(
                    b,
                    Inst::AuxCount,
                    Inst::AuxStride,
                    places[x as int],
                );
                lemma_clamped_address(
                    e,
                    l.code,
                    Inst::AuxCount,
                    Inst::AuxStride,
                    places[x as int],
                    a.aux_count as int,
                    e.aux_stride,
                );
                lemma_offset_fits(p.aux->Some_0, field as int);
                if a.aux_count > 0 {
                    let at = body::clamped(r.values[x as int], a.aux_count);
                    lemma_address(at, a.aux_count as int, e.aux_stride, a.aux.len() as int);
                }
                let i7 = Inst::Const(0);
                let i8 = Inst::Equal(b as u64, (b + 7) as u64);
                let i9 = emitted(p, op, places, b)[9];
                lemma_push(e, part, i7);
                lemma_push(e, part.push(i7), i8);
                lemma_push(e, part.push(i7).push(i8), i9);
                assert(code =~= part.push(i7).push(i8).push(i9));
            },
            Op::Shl(x, y) | Op::Shr(x, y) => {
                let all = emitted(p, op, places, b);
                lemma_push(e, l.code, all[0]);
                lemma_push(e, l.code.push(all[0]), all[1]);
                lemma_push(e, l.code.push(all[0]).push(all[1]), all[2]);
                lemma_masked_twice(r.values[y as int]);
                assert(code =~= l.code.push(all[0]).push(all[1]).push(all[2]));
            },
            Op::CmpEq(x, y) | Op::CmpLt(x, y) => {
                let all = emitted(p, op, places, b);
                let c1 = l.code.push(all[0]);
                let c2 = c1.push(all[1]);
                let c3 = c2.push(all[2]);
                lemma_push(e, l.code, all[0]);
                lemma_push(e, c1, all[1]);
                lemma_push(e, c2, all[2]);
                lemma_push(e, c3, all[3]);
                assert(code =~= c3.push(all[3]));
            },
            Op::Select(c, x, y) => {
                let all = emitted(p, op, places, b);
                lemma_push(e, l.code, all[0]);
                lemma_push(e, l.code.push(all[0]), all[1]);
                assert(code =~= l.code.push(all[0]).push(all[1]));
            },
            _ => {
                let i0 = emitted(p, op, places, b)[0];
                lemma_push(e, l.code, i0);
                assert(code =~= l.code.push(i0));
            },
        }
    }
    assert(next.places == places.push((code.len() - 1) as u64));
    assert(s.values == r.values.update(n, value));
}

/// The code of a straight body stands for the body's registers.
proof fn lemma_lowered(p: ProgramView, a: ArraysView, index: u32, n: int)
    requires
        is_callable(p, a, index),
        is_straight(p),
        0 <= n <= p.ops.len(),
    ensures
        stands_for(environment(p, a, index), lowered_upto(p, n), straight(p, a, index, n), n),
        straight(p, a, index, n).values.len() == p.ops.len(),
    decreases n,
{
    let e = environment(p, a, index);
    if n > 0 {
        lemma_lowered(p, a, index, n - 1);
        body::lemma_valid_ops(p, 0);
        assert(p.op_fault(n - 1) is None);
        assert(!is_loop_op(p.ops[n - 1]));
        body::lemma_locals_grow(p, n, p.ops.len() as int);
        lemma_emitted(p, a, index, n - 1);
    } else {
        let i2 = Inst::Mul(0, 1);
        let none = Seq::<Inst>::empty();
        let c1 = none.push(Inst::Index);
        let c2 = c1.push(Inst::Stride);
        lemma_push(e, none, Inst::Index);
        lemma_push(e, c1, Inst::Stride);
        lemma_push(e, c2, i2);
        assert(lowered_upto(p, 0).code =~= c2.push(i2));
        lemma_address(index as int, a.count as int, e.stride, a.input.len() as int);
    }
}

proof fn lemma_stores_agree(
    p: ProgramView,
    values: Seq<u64>,
    native: Seq<u64>,
    element: Seq<u8>,
    n: int,
)
    requires
        p.is_valid(),
        0 <= n <= p.stores.len(),
        forall|j: int|
            0 <= j < p.ops.len() ==> native[(#[trigger] lowered_upto(
                p,
                p.ops.len() as int,
            ).places[j]) as int] == values[j],
    ensures
        native_stored(lowered_stores(p), native, element, n) == p.stored(values, element, n),
    decreases n,
{
    if n > 0 {
        lemma_stores_agree(p, values, native, element, n - 1);
        body::lemma_valid_stores(p, 0);
        assert(p.store_fault(n - 1) is None);
        lemma_offset_fits(p.layout, p.stores[n - 1].field as int);
        assert(native[lowered_upto(
            p,
            p.ops.len() as int,
        ).places[p.stores[n - 1].value as int] as int] == values[p.stores[n - 1].value as int]);
    }
}

/// The code of a body computes, for every element of every array, what the
/// body says, byte for byte.
pub proof fn law_code_computes_the_body(p: ProgramView, a: ArraysView, index: u32, element: Seq<u8>)
    requires
        is_callable(p, a, index),
        is_straight(p),
    ensures
        native_evaluated(p, a, index, element) == p.evaluated(a, index, element),
{
    let n = p.ops.len() as int;
    lemma_lowered(p, a, index, n);
    lemma_straight_is_ran(p, a, index, 0);
    let native = ran_code(environment(p, a, index), lowered_upto(p, n).code).values;
    lemma_stores_agree(p, p.values_for(a, index), native, element, p.stores.len() as int);
}

/// The instruction's operands and locals are there.
pub open spec fn operands_are_there(inst: Inst, n: int, locals: int) -> bool {
    match inst {
        Inst::Index | Inst::Count | Inst::Stride | Inst::AuxCount | Inst::AuxStride | Inst::Const(
            _,
        ) => true,
        Inst::Add(x, y) | Inst::Sub(x, y) | Inst::Mul(x, y) | Inst::And(x, y) | Inst::Or(x, y)
        | Inst::Xor(x, y) | Inst::Shl(x, y) | Inst::Shr(x, y) | Inst::Equal(x, y) | Inst::Less(
            x,
            y,
        ) | Inst::AtLeast(x, y) => x < n && y < n,
        Inst::NotZero(x) => x < n,
        Inst::Select(c, x, y) => c < n && x < n && y < n,
        Inst::Load { address, .. } => address < n,
        Inst::LoadAux { empty, address, .. } => empty < n && address < n,
        Inst::Use(local) => local < locals,
        Inst::Define(local, x) => local < locals && x < n,
    }
}
/// The code of a body names earlier instructions and locals that are there.
pub proof fn lemma_operands_are_there(p: ProgramView, i: int)
    requires
        p.is_valid(),
        is_straight(p),
        0 <= i < lowered_upto(p, p.ops.len() as int).code.len(),
    ensures
        operands_are_there(
            lowered_upto(p, p.ops.len() as int).code[i],
            i,
            p.locals() as int,
        ),
        lowered_upto(p, p.ops.len() as int).code.len() >= 3,
{
    // Any array that a body can be called on shows it.
    let a = ArraysView {
        input: Seq::new(p.stride(), |j: int| 0u8),
        count: 1,
        aux: Seq::empty(),
        aux_count: 0,
    };
    assert(0 * p.aux_stride() == 0);
    lemma_lowered(p, a, 0, p.ops.len() as int);
    let e = environment(p, a, 0);
    let code = lowered_upto(p, p.ops.len() as int).code;
    assert(inst_is_sound(e, ran_code(e, code).values, i, code[i]));
}

/// The stores of a body name instructions that are there.
pub proof fn lemma_stores_are_there(p: ProgramView, i: int)
    requires
        p.is_valid(),
        is_straight(p),
        0 <= i < p.stores.len(),
    ensures
        lowered_stores(p)[i].value < lowered_upto(p, p.ops.len() as int).code.len(),
{
    let a = ArraysView {
        input: Seq::new(p.stride(), |j: int| 0u8),
        count: 1,
        aux: Seq::empty(),
        aux_count: 0,
    };
    assert(0 * p.aux_stride() == 0);
    lemma_lowered(p, a, 0, p.ops.len() as int);
    body::lemma_valid_stores(p, 0);
    assert(p.store_fault(i) is None);
    assert(lowered_upto(p, p.ops.len() as int).places[p.stores[i].value as int]
        < lowered_upto(p, p.ops.len() as int).code.len());
}

// ---- lowering --------------------------------------------------------------

proof fn lemma_code_len(p: ProgramView, n: int)
    requires
        0 <= n,
    ensures
        3 <= lowered_upto(p, n).code.len() <= 3 + 10 * n,
    decreases n,
{
    if n > 0 {
        lemma_code_len(p, n - 1);
    }
}

fn push_clamped_address(code: &mut Vec<Inst>, count: Inst, stride: Inst, requested: u64)
    requires
        old(code)@.len() <= 0xffff_ffff_ffff,
    ensures
        final(code)@ == old(code)@ + clamped_address(
            old(code)@.len() as int,
            count,
            stride,
            requested,
        ),
{
    let ghost before = code@;
    let b: u64 = code.len() as u64;
    code.push(count);
    code.push(Inst::Const(u64::MAX));
    code.push(Inst::Add(b, b + 1));
    code.push(Inst::AtLeast(requested, b));
    code.push(Inst::Select(b + 3, b + 2, requested));
    code.push(stride);
    code.push(Inst::Mul(b + 4, b + 5));
    assert(code@ =~= before + clamped_address(before.len() as int, count, stride, requested));
}

fn place_of(layout: &ElementLayout, field: u32) -> (place: (u32, FieldWidth))
    requires
        layout.fits(),
        field < layout@.len(),
    ensures
        place.0 == body::offset_of(layout@, field as int),
        place.1 == layout@[field as int],
{
    proof {
        lemma_offset_fits(layout@, field as int);
    }
    let offset: u32 = match layout.offset(field) {
        Some(at) => at,
        None => 0,
    };
    (offset, layout.widths[field as usize])
}

/// Appends the code of operation `at`, the values of the operations before it
/// being at `places`.
fn lower_op(program: &EvaluatorProgram, at: usize, places: &Vec<u64>, code: &mut Vec<Inst>)
    requires
        program.well_formed(),
        at < program.ops@.len(),
        places@.len() == at,
        program@.op_fault(at as int) is None,
        old(code)@.len() <= 0xffff_ffff_ffff,
    ensures
        final(code)@ == old(code)@ + emitted(
            program@,
            program.ops@[at as int],
            places@,
            old(code)@.len() as int,
        ),
{
    let ghost before = code@;
    let b: u64 = code.len() as u64;
    match program.ops[at] {
        Op::Load(field) => {
            let (offset, width) = place_of(&program.layout, field);
            code.push(Inst::Load { address: 2, offset, width });
        },
        Op::Index => {
            code.push(Inst::Index);
        },
        Op::Gather(x, field) => {
            push_clamped_address(code, Inst::Count, Inst::Stride, places[x as usize]);
            let (offset, width) = place_of(&program.layout, field);
            code.push(Inst::Load { address: b + 6, offset, width });
        },
        Op::GatherAux(x, field) => {
            push_clamped_address(code, Inst::AuxCount, Inst::AuxStride, places[x as usize]);
            code.push(Inst::Const(0));
            code.push(Inst::Equal(b, b + 7));
            match &program.aux_layout {
                Some(layout) => {
                    let (offset, width) = place_of(layout, field);
                    code.push(Inst::LoadAux { empty: b + 8, address: b + 6, offset, width });
                },
                None => {},
            }
        },
        Op::Const(value) => {
            code.push(Inst::Const(value));
        },
        Op::Add(x, y) => {
            code.push(Inst::Add(places[x as usize], places[y as usize]));
        },
        Op::Sub(x, y) => {
            code.push(Inst::Sub(places[x as usize], places[y as usize]));
        },
        Op::Mul(x, y) => {
            code.push(Inst::Mul(places[x as usize], places[y as usize]));
        },
        Op::And(x, y) => {
            code.push(Inst::And(places[x as usize], places[y as usize]));
        },
        Op::Or(x, y) => {
            code.push(Inst::Or(places[x as usize], places[y as usize]));
        },
        Op::Xor(x, y) => {
            code.push(Inst::Xor(places[x as usize], places[y as usize]));
        },
        Op::Shl(x, y) => {
            code.push(Inst::Const(63));
            code.push(Inst::And(places[y as usize], b));
            code.push(Inst::Shl(places[x as usize], b + 1));
        },
        Op::Shr(x, y) => {
            code.push(Inst::Const(63));
            code.push(Inst::And(places[y as usize], b));
            code.push(Inst::Shr(places[x as usize], b + 1));
        },
        Op::CmpEq(x, y) => {
            code.push(Inst::Equal(places[x as usize], places[y as usize]));
            code.push(Inst::Const(1));
            code.push(Inst::Const(0));
            code.push(Inst::Select(b, b + 1, b + 2));
        },
        Op::CmpLt(x, y) => {
            code.push(Inst::Less(places[x as usize], places[y as usize]));
            code.push(Inst::Const(1));
            code.push(Inst::Const(0));
            code.push(Inst::Select(b, b + 1, b + 2));
        },
        Op::Select(c, x, y) => {
            code.push(Inst::NotZero(places[c as usize]));
            code.push(Inst::Select(b, places[x as usize], places[y as usize]));
        },
        Op::Get(local) => {
            code.push(Inst::Use(local));
        },
        Op::Put(local, x) => {
            code.push(Inst::Define(local, places[x as usize]));
        },
        Op::Repeat(_) | Op::EndRepeat | Op::BreakIf(_) => {},
    }
    assert(code@ =~= before + emitted(
        program@,
        program.ops@[at as int],
        places@,
        before.len() as int,
    ));
}

fn has_loops(program: &EvaluatorProgram) -> (found: bool)
    ensures
        found == !is_straight(program@),
{
    let mut i: usize = 0;
    while i < program.ops.len()
        invariant
            i <= program.ops.len(),
            forall|j: int| 0 <= j < i ==> !is_loop_op(#[trigger] program@.ops[j]),
        decreases program.ops.len() - i,
    {
        match program.ops[i] {
            Op::Repeat(_) | Op::EndRepeat | Op::BreakIf(_) => {
                assert(is_loop_op(program@.ops[i as int]));
                return true;
            },
            _ => {},
        }
        i = i + 1;
    }
    false
}

/// A body's code, ready to be turned into machine code or to be run as it is.
pub struct CompiledEvaluator {
    pub stride: u32,
    pub aux_stride: u32,
    pub locals: u32,
    pub code: Vec<Inst>,
    pub stores: Vec<NativeStore>,
    pub body: Ghost<ProgramView>,
}

impl CompiledEvaluator {
    /// The code is that of its body.
    pub open spec fn well_formed(&self) -> bool {
        let p = self.body@;
        &&& p.is_valid()
        &&& is_straight(p)
        &&& self.stride == p.stride()
        &&& self.aux_stride == p.aux_stride()
        &&& self.locals == p.locals()
        &&& self.code@ == lowered_upto(p, p.ops.len() as int).code
        &&& self.stores@ == lowered_stores(p)
    }

    /// The value of the instruction at place `at`.
    fn value_of(
        &self,
        arrays: &Arrays<'_>,
        index: u32,
        values: &Vec<u64>,
        locals: &Vec<u64>,
        at: usize,
    ) -> (value: u64)
        requires
            at < self.code@.len(),
            values@.len() == at,
            locals@.len() == self.locals,
            inst_is_sound(
                environment(self.body@, arrays@, index),
                values@,
                at as int,
                self.code@[at as int],
            ),
            self.well_formed(),
        ensures
            value == inst_value(
                environment(self.body@, arrays@, index),
                Registers { values: values@, locals: locals@ },
                self.code@[at as int],
            ),
    {
        match self.code[at] {
            Inst::Index => index as u64,
            Inst::Count => arrays.count as u64,
            Inst::Stride => self.stride as u64,
            Inst::AuxCount => arrays.aux_count as u64,
            Inst::AuxStride => self.aux_stride as u64,
            Inst::Const(value) => value,
            Inst::Add(x, y) => values[x as usize].wrapping_add(values[y as usize]),
            Inst::Sub(x, y) => values[x as usize].wrapping_sub(values[y as usize]),
            Inst::Mul(x, y) => values[x as usize].wrapping_mul(values[y as usize]),
            Inst::And(x, y) => values[x as usize] & values[y as usize],
            Inst::Or(x, y) => values[x as usize] | values[y as usize],
            Inst::Xor(x, y) => values[x as usize] ^ values[y as usize],
            Inst::Shl(x, y) => {
                let amount: u64 = values[y as usize] & 63;
                proof {
                    body::lemma_shift_amount(values[y as int]);
                }
                values[x as usize] << amount
            },
            Inst::Shr(x, y) => {
                let amount: u64 = values[y as usize] & 63;
                proof {
                    body::lemma_shift_amount(values[y as int]);
                }
                values[x as usize] >> amount
            },
            Inst::Equal(x, y) => truth_of(values[x as usize] == values[y as usize]),
            Inst::Less(x, y) => truth_of(values[x as usize] < values[y as usize]),
            Inst::AtLeast(x, y) => truth_of(values[x as usize] >= values[y as usize]),
            Inst::NotZero(x) => truth_of(values[x as usize] != 0),
            Inst::Select(c, x, y) => if values[c as usize] != 0 {
                values[x as usize]
            } else {
                values[y as usize]
            },
            Inst::Load { address, offset, width } => load(
                arrays.input,
                values[address as usize],
                offset,
                width,
            ),
            Inst::LoadAux { empty, address, offset, width } => if values[empty as usize] != 0 {
                0
            } else {
                load(arrays.aux, values[address as usize], offset, width)
            },
            Inst::Use(local) => locals[local as usize],
            Inst::Define(_, x) => values[x as usize],
        }
    }

    /// What the code makes of element `index`, which holds `element`.
    pub fn evaluate(&self, arrays: &Arrays<'_>, index: u32, element: Vec<u8>) -> (out: Vec<u8>)
        requires
            self.well_formed(),
            self.body@.reads_within(arrays@),
            index < arrays.count,
            element@.len() == self.stride,
        ensures
            out@ == self.body@.evaluated(arrays@, index, element@),
            out@.len() == element@.len(),
    {
        let ghost p = self.body@;
        let ghost e = environment(p, arrays@, index);
        let ghost all = ran_code(e, self.code@).values;
        proof {
            law_code_computes_the_body(p, arrays@, index, element@);
            lemma_lowered(p, arrays@, index, p.ops.len() as int);
            lemma_ran_len(e, self.code@);
        }
        let mut locals: Vec<u64> = Vec::new();
        let mut n: u32 = 0;
        while n < self.locals
            invariant
                n <= self.locals,
                locals@ =~= Seq::new(n as nat, |j: int| 0u64),
            decreases self.locals - n,
        {
            locals.push(0);
            n = n + 1;
        }
        let mut values: Vec<u64> = Vec::new();
        let mut i: usize = 0;
        assert(self.code@.take(0) =~= Seq::<Inst>::empty());
        assert((Registers { values: values@, locals: locals@ }) =~= ran_code(
            e,
            self.code@.take(0),
        ));
        while i < self.code.len()
            invariant
                i <= self.code.len(),
                self.well_formed(),
                p == self.body@,
                e == environment(p, arrays@, index),
                all == ran_code(e, self.code@).values,
                code_is_sound(e, self.code@),
                values@.len() == i,
                locals@.len() == self.locals,
                (Registers { values: values@, locals: locals@ }) == ran_code(
                    e,
                    self.code@.take(i as int),
                ),
            decreases self.code.len() - i,
        {
            let ghost before = Registers { values: values@, locals: locals@ };
            let ghost inst = self.code@[i as int];
            proof {
                lemma_take(e, self.code@, i as int);
                assert(inst_is_sound(e, all, i as int, inst));
                assert(inst_is_sound(e, values@, i as int, inst));
            }
            let value: u64 = self.value_of(arrays, index, &values, &locals, i);
            values.push(value);
            if let Inst::Define(local, _) = self.code[i] {
                locals.set(local as usize, value);
            }
            proof {
                assert((Registers { values: values@, locals: locals@ }) =~= inst_stepped(
                    e,
                    before,
                    inst,
                ));
                lemma_push(e, self.code@.take(i as int), inst);
                assert(self.code@.take(i + 1) =~= self.code@.take(i as int).push(inst));
            }
            i = i + 1;
        }
        assert(self.code@.take(i as int) =~= self.code@);
        let ghost start = element@;
        let mut out: Vec<u8> = element;
        let mut s: usize = 0;
        while s < self.stores.len()
            invariant
                s <= self.stores.len(),
                self.well_formed(),
                p == self.body@,
                values@.len() == self.code@.len(),
                lowered_upto(p, p.ops.len() as int).places.len() == p.ops.len(),
                forall|j: int|
                    0 <= j < p.ops.len() ==> (#[trigger] lowered_upto(
                        p,
                        p.ops.len() as int,
                    ).places[j]) < values@.len(),
                out@.len() == start.len() == self.stride,
                out@ == native_stored(self.stores@, values@, start, s as int),
            decreases self.stores.len() - s,
        {
            let store: NativeStore = self.stores[s];
            proof {
                body::lemma_valid_stores(p, 0);
                assert(p.store_fault(s as int) is None);
                lemma_offset_fits(p.layout, p.stores[s as int].field as int);
                assert(store == lowered_stores(p)[s as int]);
            }
            bytes::set_le(
                out.as_mut_slice(),
                store.offset as usize,
                values[store.value as usize],
                store.width.bytes() as usize,
            );
            s = s + 1;
        }
        out
    }
}

fn truth_of(b: bool) -> (value: u64)
    ensures
        value == body::truth(b),
{
    if b {
        1
    } else {
        0
    }
}

fn load(array: &[u8], address: u64, offset: u32, width: FieldWidth) -> (value: u64)
    requires
        address + offset + width.size() <= array@.len(),
    ensures
        value == loaded(array@, address, offset, width),
{
    let len: usize = array.len();
    assert(address + offset + width.size() <= len);
    bytes::get_le(array, address as usize + offset as usize, width.bytes() as usize)
}

proof fn lemma_take(e: Environment, code: Seq<Inst>, n: int)
    requires
        0 <= n <= code.len(),
    ensures
        ran_code(e, code.take(n)).values.len() == n,
        forall|i: int|
            0 <= i < n ==> #[trigger] ran_code(e, code.take(n)).values[i] == ran_code(
                e,
                code,
            ).values[i],
    decreases code.len() - n,
{
    lemma_ran_len(e, code.take(n));
    if n < code.len() {
        lemma_take(e, code, n + 1);
        lemma_push(e, code.take(n), code[n]);
        assert(code.take(n + 1) =~= code.take(n).push(code[n]));
        assert forall|i: int| 0 <= i < n implies #[trigger] ran_code(e, code.take(n)).values[i]
            == ran_code(e, code).values[i] by {
            assert(ran_code(e, code.take(n + 1)).values[i] == ran_code(e, code).values[i]);
        }
    } else {
        assert(code.take(n) =~= code);
    }
}

/// Lowers a body, or declines one with loops.
pub fn compile(program: &EvaluatorProgram) -> (result: Result<CompiledEvaluator, BackendError>)
    requires
        program.well_formed(),
    ensures
        match result {
            Ok(compiled) => {
                &&& is_straight(program@)
                &&& compiled.well_formed()
                &&& compiled.body@ == program@
            },
            Err(error) => !is_straight(program@) && error == BackendError::UnsupportedEvaluator,
        },
{
    if has_loops(program) {
        return Err(BackendError::UnsupportedEvaluator);
    }
    let ghost p = program@;
    let mut code: Vec<Inst> = vec![Inst::Index, Inst::Stride, Inst::Mul(0, 1)];
    let mut places: Vec<u64> = Vec::new();
    let mut at: usize = 0;
    assert((Lowering { code: code@, places: places@ }) =~= lowered_upto(p, 0));
    proof {
        body::lemma_valid_ops(p, 0);
    }
    while at < program.ops.len()
        invariant
            at <= program.ops.len(),
            program.well_formed(),
            p == program@,
            is_straight(p),
            p.ops.len() <= u32::MAX,
            (Lowering { code: code@, places: places@ }) == lowered_upto(p, at as int),
            places@.len() == at,
            forall|i: int| 0 <= i < p.ops.len() ==> (#[trigger] p.op_fault(i)) is None,
        decreases program.ops.len() - at,
    {
        proof {
            lemma_code_len(p, at as int);
            lemma_code_len(p, at + 1);
            assert(p.op_fault(at as int) is None);
        }
        lower_op(program, at, &places, &mut code);
        places.push(code.len() as u64 - 1);
        assert((Lowering { code: code@, places: places@ }) =~= lowered_upto(p, at + 1));
        at = at + 1;
    }
    let mut stores: Vec<NativeStore> = Vec::new();
    let mut s: usize = 0;
    proof {
        body::lemma_valid_stores(p, 0);
    }
    while s < program.stores.len()
        invariant
            s <= program.stores.len(),
            program.well_formed(),
            p == program@,
            places@ == lowered_upto(p, p.ops.len() as int).places,
            places@.len() == p.ops.len(),
            stores@ =~= lowered_stores(p).take(s as int),
            forall|i: int| 0 <= i < p.stores.len() ==> (#[trigger] p.store_fault(i)) is None,
        decreases program.stores.len() - s,
    {
        let store: Store = program.stores[s];
        assert(p.store_fault(s as int) is None);
        let (offset, width) = place_of(&program.layout, store.field);
        stores.push(NativeStore { offset, width, value: places[store.value as usize] });
        s = s + 1;
    }
    assert(lowered_stores(p).take(s as int) =~= lowered_stores(p));
    Ok(
        CompiledEvaluator {
            stride: program.stride(),
            aux_stride: program.aux_stride(),
            locals: program.locals(),
            code,
            stores,
            body: Ghost(p),
        },
    )
}

// ---- the backend -----------------------------------------------------------

/// What a request is answered where `installed` are the bodies at hand. An
/// array is cut to the elements that it is said to hold.
pub open spec fn native_answer(
    installed: Map<u32, ProgramView>,
    request: RequestView,
) -> Result<Seq<u8>, BackendError> {
    if !installed.dom().contains(request.evaluator_id) {
        Err(BackendError::UnsupportedEvaluator)
    } else {
        let p = installed[request.evaluator_id];
        if p.stride() != request.element_stride || p.aux_stride() != request.aux.element_stride
            || request.inputs.len() < request.element_count * request.element_stride
            || request.aux.bytes.len() < request.aux.element_count * request.aux.element_stride {
            Err(BackendError::InvalidInput)
        } else {
            Ok(
                batch::outputs_between(
                    p,
                    batch::arrays_of(request),
                    0,
                    request.element_count as int,
                ),
            )
        }
    }
}

/// The answers to `requests` in order, or the error of the first that has one.
pub open spec fn native_epoch(installed: Map<u32, ProgramView>, requests: Seq<RequestView>) -> Result<
    Seq<Seq<u8>>,
    BackendError,
>
    decreases requests.len(),
{
    if requests.len() == 0 {
        Ok(Seq::empty())
    } else {
        match native_epoch(installed, requests.drop_last()) {
            Err(error) => Err(error),
            Ok(answers) => match native_answer(installed, requests.last()) {
                Err(error) => Err(error),
                Ok(answer) => Ok(answers.push(answer)),
            },
        }
    }
}

proof fn lemma_epoch_fails(installed: Map<u32, ProgramView>, requests: Seq<RequestView>, n: int)
    requires
        0 <= n <= requests.len(),
        native_epoch(installed, requests.take(n)) is Err,
    ensures
        native_epoch(installed, requests) == native_epoch(installed, requests.take(n)),
    decreases requests.len() - n,
{
    if n < requests.len() {
        assert(requests.take(n + 1).drop_last() =~= requests.take(n));
        lemma_epoch_fails(installed, requests, n + 1);
    } else {
        assert(requests.take(n) =~= requests);
    }
}

/// What the reference backend answers, this one answers too, byte for byte.
pub proof fn law_native_answers_as_the_reference_does(
    installed: Map<u32, ProgramView>,
    request: RequestView,
)
    requires
        batch::reference_answer(installed, request) is Ok,
    ensures
        native_answer(installed, request) == batch::reference_answer(installed, request),
{
}

/// Bodies in straight-line code, and the workers that share a batch. The code is
/// carried out instruction by instruction here; the same instructions are emitted
/// as machine code through Cranelift, which is run outside this library.
pub struct NativeCpuBackend {
    pub evaluators: BTreeMap<u32, CompiledEvaluator>,
    pub threads: usize,
    pub log: Ghost<Seq<Served>>,
}

impl NativeCpuBackend {
    /// The bodies at hand.
    pub open spec fn installed(&self) -> Map<u32, ProgramView> {
        self.evaluators@.map_values(|compiled: CompiledEvaluator| compiled.body@)
    }

    pub fn new() -> (backend: Self)
        ensures
            backend.well_formed(),
            backend.installed() == Map::<u32, ProgramView>::empty(),
            backend.threads == 1,
            backend.served() == Seq::<Served>::empty(),
    {
        let backend = Self { evaluators: BTreeMap::new(), threads: 1, log: Ghost(Seq::empty()) };
        assert(backend.installed() =~= Map::<u32, ProgramView>::empty());
        backend
    }

    /// Bodies installed in the order given, up to the first that is declined.
    pub fn with(programs: &[&EvaluatorProgram]) -> (result: Result<Self, BackendError>)
        requires
            forall|i: int| 0 <= i < programs@.len() ==> (#[trigger] programs@[i]).well_formed(),
        ensures
            match result {
                Ok(backend) => {
                    &&& forall|i: int|
                        0 <= i < programs@.len() ==> is_straight((#[trigger] programs@[i])@)
                    &&& backend.well_formed()
                    &&& backend.installed() == batch::CpuReferenceBackend::installed_from(programs@)
                    &&& backend.threads == 1
                    &&& backend.served() == Seq::<Served>::empty()
                },
                Err(error) => {
                    &&& error == BackendError::UnsupportedEvaluator
                    &&& exists|i: int|
                        0 <= i < programs@.len() && !is_straight((#[trigger] programs@[i])@)
                },
            },
    {
        let mut backend = Self::new();
        let mut i: usize = 0;
        assert(programs@.take(0) =~= Seq::<&EvaluatorProgram>::empty());
        while i < programs.len()
            invariant
                i <= programs.len(),
                backend.well_formed(),
                backend.installed() == batch::CpuReferenceBackend::installed_from(
                    programs@.take(i as int),
                ),
                backend.threads == 1,
                backend.served() == Seq::<Served>::empty(),
                forall|j: int| 0 <= j < i ==> is_straight((#[trigger] programs@[j])@),
                forall|i: int| 0 <= i < programs@.len() ==> (#[trigger] programs@[i]).well_formed(),
            decreases programs.len() - i,
        {
            assert(programs@.take(i + 1).drop_last() =~= programs@.take(i as int));
            match backend.add(programs[i]) {
                Ok(_) => {},
                Err(error) => {
                    assert(!is_straight(programs@[i as int]@));
                    return Err(error);
                },
            }
            i = i + 1;
        }
        assert(programs@.take(i as int) =~= programs@);
        Ok(backend)
    }

    pub fn with_threads(self, threads: usize) -> (backend: Self)
        ensures
            backend.threads == if threads > 1 {
                threads
            } else {
                1
            },
            backend.evaluators == self.evaluators,
            backend.log == self.log,
    {
        let workers: usize = if threads > 1 {
            threads
        } else {
            1
        };
        Self { evaluators: self.evaluators, threads: workers, log: self.log }
    }

    pub fn threads(&self) -> (threads: usize)
        ensures
            threads == self.threads,
    {
        self.threads
    }

    /// Changes how many workers share a batch without lowering bodies anew.
    pub fn set_threads(&mut self, threads: usize)
        ensures
            final(self).threads == if threads > 1 {
                threads
            } else {
                1
            },
            final(self).evaluators == old(self).evaluators,
            final(self).log == old(self).log,
    {
        self.threads = if threads > 1 {
            threads
        } else {
            1
        };
    }

    fn add(&mut self, program: &EvaluatorProgram) -> (result: Result<(), BackendError>)
        requires
            old(self).well_formed(),
            program.well_formed(),
        ensures
            final(self).well_formed(),
            result == if is_straight(program@) {
                Ok::<(), BackendError>(())
            } else {
                Err(BackendError::UnsupportedEvaluator)
            },
            final(self).installed() == if is_straight(program@) {
                old(self).installed().insert(program@.id, program@)
            } else {
                old(self).installed()
            },
            final(self).threads == old(self).threads,
            final(self).log == old(self).log,
    {
        match compile(program) {
            Ok(compiled) => {
                let ghost before = self.installed();
                self.evaluators.insert(program.id(), compiled);
                assert(self.installed() =~= before.insert(program@.id, program@));
                let unit: () = ();
                assert(unit == ());
                Ok(unit)
            },
            Err(error) => Err(error),
        }
    }

    /// Runs the code for every element, worker by worker. Workers write only
    /// their own elements, so the order in which they run does not matter.
    fn run(&self, compiled: &CompiledEvaluator, arrays: &Arrays<'_>) -> (outputs: Vec<u8>)
        requires
            compiled.well_formed(),
            compiled.body@.reads_within(arrays@),
        ensures
            outputs@ == batch::outputs_between(compiled.body@, arrays@, 0, arrays.count as int),
    {
        let ghost p = compiled.body@;
        let ghost a = arrays@;
        let runs: Vec<(u32, u32)> = shares(arrays.count, self.threads);
        let stride: usize = compiled.stride as usize;
        let len: usize = arrays.input.len();
        let mut outputs: Vec<u8> = Vec::new();
        let mut worker: usize = 0;
        let mut index: u32 = 0;
        while worker < runs.len()
            invariant
                worker <= runs.len(),
                compiled.well_formed(),
                p == compiled.body@,
                a == arrays@,
                p.reads_within(a),
                stride == compiled.stride,
                len == arrays.input@.len(),
                arrays.count == 0 <==> runs@.len() == 0,
                forall|i: int|
                    0 <= i < runs@.len() ==> {
                        &&& (#[trigger] runs@[i]).0 < runs@[i].1
                        &&& runs@[i].1 == if i + 1 < runs@.len() {
                            runs@[i + 1].0
                        } else {
                            arrays.count
                        }
                    },
                index == if worker < runs@.len() {
                    runs@[worker as int].0
                } else {
                    arrays.count
                },
                outputs@ == batch::outputs_between(p, a, 0, index as int),
            decreases runs.len() - worker,
        {
            let end: u32 = runs[worker].1;
            assert(worker + 1 < runs@.len() ==> runs@[worker + 1].0 < runs@[worker + 1].1);
            proof {
                lemma_run_ends(runs@, arrays.count, worker as int);
            }
            while index < end
                invariant
                    index <= end <= arrays.count,
                    compiled.well_formed(),
                    p == compiled.body@,
                    a == arrays@,
                    p.reads_within(a),
                    stride == compiled.stride,
                    len == arrays.input@.len(),
                    outputs@ == batch::outputs_between(p, a, 0, index as int),
                decreases end - index,
            {
                proof {
                    body::lemma_element_fits(
                        index as int,
                        arrays.count as int,
                        compiled.stride as int,
                    );
                }
                let start: usize = index as usize * stride;
                let element: Vec<u8> = slice_to_vec(
                    vstd::slice::slice_subrange(arrays.input, start, start + stride),
                );
                let mut out: Vec<u8> = compiled.evaluate(arrays, index, element);
                outputs.append(&mut out);
                index = index + 1;
            }
            worker = worker + 1;
        }
        outputs
    }

    /// The code that a request is answered with, or why it is refused.
    pub fn code_for(&self, request: &BatchRequest<'_>) -> (found: Result<
        &CompiledEvaluator,
        BackendError,
    >)
        requires
            self.well_formed(),
        ensures
            match found {
                Ok(compiled) => {
                    &&& native_answer(self.installed(), request@) is Ok
                    &&& compiled.well_formed()
                    &&& self.installed()[request.evaluator_id] == compiled.body@
                },
                Err(error) => native_answer(self.installed(), request@) == Err::<Seq<u8>, _>(error),
            },
    {
        let compiled: &CompiledEvaluator = match self.evaluators.get(&request.evaluator_id) {
            Some(compiled) => compiled,
            None => {
                return Err(BackendError::UnsupportedEvaluator);
            },
        };
        assert(self.installed()[request.evaluator_id] == compiled.body@);
        if compiled.stride != request.element_stride || compiled.aux_stride
            != request.aux.element_stride {
            return Err(BackendError::InvalidInput);
        }
        let len: usize = request.inputs.len();
        let aux_len: usize = request.aux.bytes.len();
        assert(request.inputs@.len() == len && request.aux.bytes@.len() == aux_len);
        match (request.element_count as usize).checked_mul(request.element_stride as usize) {
            Some(required) => {
                if len < required {
                    return Err(BackendError::InvalidInput);
                }
            },
            None => {
                return Err(BackendError::InvalidInput);
            },
        }
        match (request.aux.element_count as usize).checked_mul(
            request.aux.element_stride as usize,
        ) {
            Some(required) => {
                if aux_len < required {
                    return Err(BackendError::InvalidInput);
                }
            },
            None => {
                return Err(BackendError::InvalidInput);
            },
        }
        Ok(compiled)
    }

    /// The evaluation itself.
    pub fn evaluate_shared(&self, request: &BatchRequest<'_>) -> (reply: Result<
        Vec<u8>,
        BackendError,
    >)
        requires
            self.well_formed(),
        ensures
            batch::bytes_reply(reply) == native_answer(self.installed(), request@),
    {
        let compiled: &CompiledEvaluator = match self.code_for(request) {
            Ok(compiled) => compiled,
            Err(error) => {
                return Err(error);
            },
        };
        let arrays = Arrays {
            input: request.inputs,
            count: request.element_count,
            aux: request.aux.bytes,
            aux_count: request.aux.element_count,
        };
        assert(arrays@ =~= batch::arrays_of(request@));
        Ok(self.run(compiled, &arrays))
    }
}

proof fn lemma_run_ends(runs: Seq<(u32, u32)>, count: u32, i: int)
    requires
        0 <= i < runs.len(),
        forall|i: int|
            0 <= i < runs.len() ==> {
                &&& (#[trigger] runs[i]).0 < runs[i].1
                &&& runs[i].1 == if i + 1 < runs.len() {
                    runs[i + 1].0
                } else {
                    count
                }
            },
    ensures
        runs[i].1 <= count,
    decreases runs.len() - i,
{
    if i + 1 < runs.len() {
        lemma_run_ends(runs, count, i + 1);
        assert(runs[i + 1].0 < runs[i + 1].1);
    }
}

impl BatchBackend for NativeCpuBackend {
    open spec fn served(&self) -> Seq<Served> {
        self.log@
    }

    open spec fn backend_kind(&self) -> BackendKind {
        BackendKind::Cpu
    }

    open spec fn well_formed(&self) -> bool {
        forall|id: u32|
            self.evaluators@.dom().contains(id) ==> (#[trigger] self.evaluators@[id]).well_formed()
    }

    fn kind(&self) -> (kind: BackendKind) {
        BackendKind::Cpu
    }

    fn install(&mut self, program: &EvaluatorProgram) -> (result: Result<(), BackendError>)
        ensures
            result == if is_straight(program@) {
                Ok::<(), BackendError>(())
            } else {
                Err(BackendError::UnsupportedEvaluator)
            },
            final(self).installed() == if is_straight(program@) {
                old(self).installed().insert(program@.id, program@)
            } else {
                old(self).installed()
            },
            final(self).threads == old(self).threads,
    {
        self.add(program)
    }

    fn note(&mut self, served: Note)
        ensures
            final(self).evaluators == old(self).evaluators,
            final(self).threads == old(self).threads,
    {
        self.log = Ghost(self.log@.push(served@));
    }

    fn evaluate(
        &mut self,
        evaluator_id: u32,
        inputs: &[u8],
        element_count: u32,
        element_stride: u32,
    ) -> (reply: Result<Vec<u8>, BackendError>)
        ensures
            batch::bytes_reply(reply) == native_answer(
                old(self).installed(),
                batch::unbound_request(evaluator_id, inputs@, element_count, element_stride),
            ),
            final(self).evaluators == old(self).evaluators,
            final(self).threads == old(self).threads,
    {
        let none: [u8; 0] = [];
        let request = BatchRequest {
            evaluator_id,
            inputs,
            aux: AuxArray::new(none.as_slice(), 0, 0),
            element_count,
            element_stride,
        };
        assert(request@ =~= batch::unbound_request(
            evaluator_id,
            inputs@,
            element_count,
            element_stride,
        ));
        let reply = self.evaluate_shared(&request);
        self.note(Ghost(Served::One { request: request@, reply: batch::bytes_reply(reply) }));
        reply
    }

    fn evaluate_with_aux(&mut self, request: BatchRequest<'_>) -> (reply: Result<
        Vec<u8>,
        BackendError,
    >)
        ensures
            batch::bytes_reply(reply) == native_answer(old(self).installed(), request@),
            final(self).evaluators == old(self).evaluators,
            final(self).threads == old(self).threads,
    {
        let reply = self.evaluate_shared(&request);
        self.note(
            Ghost(Served::One { request: batch::heard(request@), reply: batch::bytes_reply(reply) }),
        );
        reply
    }

    fn evaluate_epoch(&mut self, requests: &Vec<BatchRequest<'_>>) -> (reply: Result<
        Vec<Vec<u8>>,
        BackendError,
    >)
        ensures
            batch::lists_reply(reply) == native_epoch(
                old(self).installed(),
                batch::request_views(requests@),
            ),
            final(self).evaluators == old(self).evaluators,
            final(self).threads == old(self).threads,
    {
        let ghost views = batch::request_views(requests@);
        let ghost before = self.log@;
        let ghost installed = self.installed();
        let mut lists: Vec<Vec<u8>> = Vec::new();
        let mut i: usize = 0;
        assert(views.take(0) =~= Seq::<RequestView>::empty());
        assert(kernel::byte_lists(lists@) =~= Seq::<Seq<u8>>::empty());
        while i < requests.len()
            invariant
                i <= requests.len(),
                lists@.len() == i,
                self.well_formed(),
                self.installed() == installed,
                self.log@ == before,
                before == old(self).log@,
                installed == old(self).installed(),
                self.evaluators == old(self).evaluators,
                self.threads == old(self).threads,
                views == batch::request_views(requests@),
                native_epoch(installed, views.take(i as int)) == Ok::<_, BackendError>(
                    kernel::byte_lists(lists@),
                ),
            decreases requests.len() - i,
        {
            assert(views.take(i + 1).drop_last() =~= views.take(i as int));
            assert(views.take(i + 1).last() == requests@[i as int]@);
            match self.evaluate_shared(&requests[i]) {
                Ok(bytes) => {
                    let ghost held = kernel::byte_lists(lists@);
                    lists.push(bytes);
                    assert(kernel::byte_lists(lists@) =~= held.push(bytes@));
                },
                Err(error) => {
                    proof {
                        lemma_epoch_fails(installed, views, i + 1);
                    }
                    self.log = Ghost(
                        self.log@.push(Served::Epoch { requests: views, reply: Err(error) }),
                    );
                    return Err(error);
                },
            }
            i = i + 1;
        }
        assert(views.take(i as int) =~= views);
        self.log = Ghost(
            self.log@.push(
                Served::Epoch { requests: views, reply: Ok(kernel::byte_lists(lists@)) },
            ),
        );
        Ok(lists)
    }
}

} // verus!
