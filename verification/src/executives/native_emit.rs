//! Straight-line code as Cranelift instructions.
//!
//! The code of a body is turned into one function: a loop over the elements of
//! a share, whose body is the code, an instruction for an instruction. Reads of
//! the second array are guarded where it may be empty. What is built is stated
//! instruction by instruction, in the blocks that hold them; running it takes a
//! call through a machine address, which is outside this library.

use crate::compiler::body::FieldWidth;
use crate::executives::native;
use crate::executives::native::{CompiledEvaluator, Inst, NativeStore};
use cranelift_codegen::ir::condcodes::IntCC;
use cranelift_codegen::ir::{types, Block, InstBuilder, MemFlags, Value};
use cranelift_frontend::FunctionBuilder;
use vstd::prelude::*;

verus! {

/// Cranelift's builder of one function.
#[verifier::external_type_specification]
#[verifier::external_body]
pub struct ExFunctionBuilder<'a>(FunctionBuilder<'a>);

/// A value of the function that is built.
#[verifier::external_type_specification]
#[verifier::external_body]
pub struct ExValue(Value);

/// A block of the function that is built.
#[verifier::external_type_specification]
#[verifier::external_body]
pub struct ExBlock(Block);

/// How two values are compared, without signs.
#[derive(Clone, Copy, Debug, PartialEq, Eq, Structural)]
pub enum Comparison {
    Equal,
    Less,
    AtLeast,
}

/// What a block holds: its parameters first, and then its instructions.
pub ghost enum Step {
    /// A parameter of so many bits.
    Param { value: Value, bits: int },
    Const { value: u64, result: Value },
    /// Extended to 64 bits with zeros.
    Widen { x: Value, result: Value },
    /// Cut to a field's width.
    Narrow { x: Value, width: FieldWidth, result: Value },
    Add { x: Value, y: Value, result: Value },
    AddOne { x: Value, result: Value },
    Sub { x: Value, y: Value, result: Value },
    Mul { x: Value, y: Value, result: Value },
    And { x: Value, y: Value, result: Value },
    Or { x: Value, y: Value, result: Value },
    Xor { x: Value, y: Value, result: Value },
    Shl { x: Value, y: Value, result: Value },
    Shr { x: Value, y: Value, result: Value },
    Compare { how: Comparison, x: Value, y: Value, result: Value },
    NotZero { x: Value, result: Value },
    Select { c: Value, x: Value, y: Value, result: Value },
    Load { width: FieldWidth, base: Value, offset: i32, result: Value },
    Store { value: Value, base: Value, offset: i32 },
    Jump { to: Block, with: Value },
    Branch { on: Value, yes: Block, no: Block },
    Return,
}

/// What the blocks of the function hold so far.
pub uninterp spec fn blocks_of(builder: FunctionBuilder<'_>) -> Map<Block, Seq<Step>>;

/// The block that instructions are inserted into.
pub uninterp spec fn position_of(builder: FunctionBuilder<'_>) -> Option<Block>;

/// The values that the function has.
pub uninterp spec fn values_of(builder: FunctionBuilder<'_>) -> Set<Value>;

/// The blocks that no more jumps may lead to.
pub uninterp spec fn sealed_of(builder: FunctionBuilder<'_>) -> Set<Block>;

/// A function as far as it is built.
#[verifier::ext_equal]
pub ghost struct State {
    pub blocks: Map<Block, Seq<Step>>,
    pub at: Option<Block>,
    pub values: Set<Value>,
    pub sealed: Set<Block>,
}

pub open spec fn state_of(builder: FunctionBuilder<'_>) -> State {
    State {
        blocks: blocks_of(builder),
        at: position_of(builder),
        values: values_of(builder),
        sealed: sealed_of(builder),
    }
}

/// Nothing follows these instructions in their block.
pub open spec fn ends(step: Step) -> bool {
    match step {
        Step::Jump { .. } | Step::Branch { .. } | Step::Return => true,
        _ => false,
    }
}

pub open spec fn given_by(step: Step) -> Option<Value> {
    match step {
        Step::Param { value, .. } => Some(value),
        Step::Const { result, .. } | Step::Widen { result, .. } | Step::Narrow { result, .. }
        | Step::Add { result, .. } | Step::AddOne { result, .. } | Step::Sub { result, .. }
        | Step::Mul { result, .. } | Step::And { result, .. } | Step::Or { result, .. }
        | Step::Xor { result, .. } | Step::Shl { result, .. } | Step::Shr { result, .. }
        | Step::Compare { result, .. } | Step::NotZero { result, .. } | Step::Select {
            result,
            ..
        } | Step::Load { result, .. } => Some(result),
        Step::Store { .. } | Step::Jump { .. } | Step::Branch { .. } | Step::Return => None,
    }
}

/// There is a block to insert into, and nothing ends it yet.
pub open spec fn is_open(s: State) -> bool {
    &&& s.at is Some
    &&& s.blocks.dom().contains(s.at->Some_0)
    &&& !is_ended(s.blocks[s.at->Some_0])
}

pub open spec fn is_ended(steps: Seq<Step>) -> bool {
    steps.len() > 0 && ends(steps.last())
}

/// The function with one more step in the block at hand.
pub open spec fn after(s: State, step: Step) -> State {
    let at = s.at->Some_0;
    State {
        blocks: s.blocks.insert(at, s.blocks[at].push(step)),
        at: s.at,
        values: match given_by(step) {
            Some(value) => s.values.insert(value),
            None => s.values,
        },
        sealed: s.sealed,
    }
}

pub open spec fn with_block(s: State, block: Block) -> State {
    State { blocks: s.blocks.insert(block, Seq::empty()), ..s }
}

pub open spec fn with_param(s: State, block: Block, value: Value, bits: int) -> State {
    State {
        blocks: s.blocks.insert(block, s.blocks[block].push(Step::Param { value, bits })),
        values: s.values.insert(value),
        ..s
    }
}

pub open spec fn entered(s: State, block: Block) -> State {
    State { at: Some(block), ..s }
}

// ---- Cranelift's builder ---------------------------------------------------

/// `FunctionBuilder::create_block`: adds a block that the function did not have,
/// that holds nothing and is not sealed.
#[verifier::external_body]
fn make_block(builder: &mut FunctionBuilder<'_>) -> (block: Block)
    ensures
        !blocks_of(*old(builder)).dom().contains(block),
        !sealed_of(*old(builder)).contains(block),
        position_of(*final(builder)) == position_of(*old(builder)),
        values_of(*final(builder)) == values_of(*old(builder)),
        sealed_of(*final(builder)) == sealed_of(*old(builder)),
        state_of(*final(builder)) == with_block(state_of(*old(builder)), block),
{
    builder.create_block()
}

/// `FunctionBuilder::append_block_param`: the block, which holds nothing yet, gets
/// a parameter of so many bytes that is a new value.
#[verifier::external_body]
fn make_param(builder: &mut FunctionBuilder<'_>, block: Block, width: FieldWidth) -> (value: Value)
    requires
        blocks_of(*old(builder)).dom().contains(block),
        blocks_of(*old(builder))[block].len() == 0,
    ensures
        !values_of(*old(builder)).contains(value),
        state_of(*final(builder)) == with_param(
            state_of(*old(builder)),
            block,
            value,
            8 * width.size() as int,
        ),
{
    let kind = match width {
        FieldWidth::U8 => types::I8,
        FieldWidth::U16 => types::I16,
        FieldWidth::U32 => types::I32,
        FieldWidth::U64 => types::I64,
    };
    builder.append_block_param(block, kind)
}

/// `FunctionBuilder::switch_to_block`: instructions go into `block` from now on.
/// The block left behind, if any, has been ended, and the new one has not.
#[verifier::external_body]
fn enter(builder: &mut FunctionBuilder<'_>, block: Block)
    requires
        !is_open(state_of(*old(builder))),
        blocks_of(*old(builder)).dom().contains(block),
        !is_ended(blocks_of(*old(builder))[block]),
    ensures
        state_of(*final(builder)) == entered(state_of(*old(builder)), block),
{
    builder.switch_to_block(block)
}

/// `InstBuilder::iconst`: inserts a constant of 64 bits into the block at hand. The
/// result is a new value, and one of the function's from now on.
#[verifier::external_body]
fn put_const(builder: &mut FunctionBuilder<'_>, value: u64) -> (result: Value)
    requires
        is_open(state_of(*old(builder))),
    ensures
        !values_of(*old(builder)).contains(result),
        state_of(*final(builder)) == after(
            state_of(*old(builder)),
            Step::Const { value, result },
        ),
{
    builder.ins().iconst(types::I64, value as i64)
}

/// `InstBuilder::uextend`: inserts a value's extension to 64 bits with zeros.
/// Its result is a new value.
#[verifier::external_body]
fn put_widen(builder: &mut FunctionBuilder<'_>, x: Value) -> (result: Value)
    requires
        is_open(state_of(*old(builder))),
        values_of(*old(builder)).contains(x),
    ensures
        !values_of(*old(builder)).contains(result),
        state_of(*final(builder)) == after(
            state_of(*old(builder)),
            Step::Widen { x, result },
        ),
{
    builder.ins().uextend(types::I64, x)
}

/// `InstBuilder::ireduce`: inserts a value's lower bits, as many as a field has that
/// is narrower than 64 bits.
/// Its result is a new value.
#[verifier::external_body]
fn put_narrow(builder: &mut FunctionBuilder<'_>, x: Value, width: FieldWidth) -> (result: Value)
    requires
        is_open(state_of(*old(builder))),
        values_of(*old(builder)).contains(x),
        width != FieldWidth::U64,
    ensures
        !values_of(*old(builder)).contains(result),
        state_of(*final(builder)) == after(
            state_of(*old(builder)),
            Step::Narrow { x, width, result },
        ),
{
    let narrow = match width {
        FieldWidth::U8 => types::I8,
        FieldWidth::U16 => types::I16,
        FieldWidth::U32 => types::I32,
        FieldWidth::U64 => types::I64,
    };
    builder.ins().ireduce(narrow, x)
}

/// `InstBuilder::iadd`: inserts the sum of two values.
/// Its result is a new value.
#[verifier::external_body]
fn put_add(builder: &mut FunctionBuilder<'_>, x: Value, y: Value) -> (result: Value)
    requires
        is_open(state_of(*old(builder))),
        values_of(*old(builder)).contains(x),
        values_of(*old(builder)).contains(y),
    ensures
        !values_of(*old(builder)).contains(result),
        state_of(*final(builder)) == after(
            state_of(*old(builder)),
            Step::Add { x, y, result },
        ),
{
    builder.ins().iadd(x, y)
}

/// `InstBuilder::isub`: inserts the difference of two values.
/// Its result is a new value.
#[verifier::external_body]
fn put_sub(builder: &mut FunctionBuilder<'_>, x: Value, y: Value) -> (result: Value)
    requires
        is_open(state_of(*old(builder))),
        values_of(*old(builder)).contains(x),
        values_of(*old(builder)).contains(y),
    ensures
        !values_of(*old(builder)).contains(result),
        state_of(*final(builder)) == after(
            state_of(*old(builder)),
            Step::Sub { x, y, result },
        ),
{
    builder.ins().isub(x, y)
}

/// `InstBuilder::imul`: inserts the product of two values.
/// Its result is a new value.
#[verifier::external_body]
fn put_mul(builder: &mut FunctionBuilder<'_>, x: Value, y: Value) -> (result: Value)
    requires
        is_open(state_of(*old(builder))),
        values_of(*old(builder)).contains(x),
        values_of(*old(builder)).contains(y),
    ensures
        !values_of(*old(builder)).contains(result),
        state_of(*final(builder)) == after(
            state_of(*old(builder)),
            Step::Mul { x, y, result },
        ),
{
    builder.ins().imul(x, y)
}

/// `InstBuilder::band`: inserts the bits that both values have.
/// Its result is a new value.
#[verifier::external_body]
fn put_and(builder: &mut FunctionBuilder<'_>, x: Value, y: Value) -> (result: Value)
    requires
        is_open(state_of(*old(builder))),
        values_of(*old(builder)).contains(x),
        values_of(*old(builder)).contains(y),
    ensures
        !values_of(*old(builder)).contains(result),
        state_of(*final(builder)) == after(
            state_of(*old(builder)),
            Step::And { x, y, result },
        ),
{
    builder.ins().band(x, y)
}

/// `InstBuilder::bor`: inserts the bits that either value has.
/// Its result is a new value.
#[verifier::external_body]
fn put_or(builder: &mut FunctionBuilder<'_>, x: Value, y: Value) -> (result: Value)
    requires
        is_open(state_of(*old(builder))),
        values_of(*old(builder)).contains(x),
        values_of(*old(builder)).contains(y),
    ensures
        !values_of(*old(builder)).contains(result),
        state_of(*final(builder)) == after(
            state_of(*old(builder)),
            Step::Or { x, y, result },
        ),
{
    builder.ins().bor(x, y)
}

/// `InstBuilder::bxor`: inserts the bits that one of two values has.
/// Its result is a new value.
#[verifier::external_body]
fn put_xor(builder: &mut FunctionBuilder<'_>, x: Value, y: Value) -> (result: Value)
    requires
        is_open(state_of(*old(builder))),
        values_of(*old(builder)).contains(x),
        values_of(*old(builder)).contains(y),
    ensures
        !values_of(*old(builder)).contains(result),
        state_of(*final(builder)) == after(
            state_of(*old(builder)),
            Step::Xor { x, y, result },
        ),
{
    builder.ins().bxor(x, y)
}

/// `InstBuilder::ishl`: inserts `x` shifted left by `y` bits.
/// Its result is a new value.
#[verifier::external_body]
fn put_shl(builder: &mut FunctionBuilder<'_>, x: Value, y: Value) -> (result: Value)
    requires
        is_open(state_of(*old(builder))),
        values_of(*old(builder)).contains(x),
        values_of(*old(builder)).contains(y),
    ensures
        !values_of(*old(builder)).contains(result),
        state_of(*final(builder)) == after(
            state_of(*old(builder)),
            Step::Shl { x, y, result },
        ),
{
    builder.ins().ishl(x, y)
}

/// `InstBuilder::ushr`: inserts `x` shifted right by `y` bits, with zeros.
/// Its result is a new value.
#[verifier::external_body]
fn put_shr(builder: &mut FunctionBuilder<'_>, x: Value, y: Value) -> (result: Value)
    requires
        is_open(state_of(*old(builder))),
        values_of(*old(builder)).contains(x),
        values_of(*old(builder)).contains(y),
    ensures
        !values_of(*old(builder)).contains(result),
        state_of(*final(builder)) == after(
            state_of(*old(builder)),
            Step::Shr { x, y, result },
        ),
{
    builder.ins().ushr(x, y)
}

/// `InstBuilder::iadd_imm`: inserts a value's sum with one.
/// Its result is a new value.
#[verifier::external_body]
fn put_add_one(builder: &mut FunctionBuilder<'_>, x: Value) -> (result: Value)
    requires
        is_open(state_of(*old(builder))),
        values_of(*old(builder)).contains(x),
    ensures
        !values_of(*old(builder)).contains(result),
        state_of(*final(builder)) == after(
            state_of(*old(builder)),
            Step::AddOne { x, result },
        ),
{
    builder.ins().iadd_imm(x, 1)
}

/// `InstBuilder::icmp`: inserts a comparison of two values without signs, which is
/// one where it holds and zero where it does not.
/// Its result is a new value.
#[verifier::external_body]
fn put_compare(
    builder: &mut FunctionBuilder<'_>,
    how: Comparison,
    x: Value,
    y: Value,
) -> (result: Value)
    requires
        is_open(state_of(*old(builder))),
        values_of(*old(builder)).contains(x),
        values_of(*old(builder)).contains(y),
    ensures
        !values_of(*old(builder)).contains(result),
        state_of(*final(builder)) == after(
            state_of(*old(builder)),
            Step::Compare { how, x, y, result },
        ),
{
    let condition = match how {
        Comparison::Equal => IntCC::Equal,
        Comparison::Less => IntCC::UnsignedLessThan,
        Comparison::AtLeast => IntCC::UnsignedGreaterThanOrEqual,
    };
    builder.ins().icmp(condition, x, y)
}

/// `InstBuilder::icmp_imm`: inserts the comparison of a value with zero, which is one
/// where they differ.
/// Its result is a new value.
#[verifier::external_body]
fn put_not_zero(builder: &mut FunctionBuilder<'_>, x: Value) -> (result: Value)
    requires
        is_open(state_of(*old(builder))),
        values_of(*old(builder)).contains(x),
    ensures
        !values_of(*old(builder)).contains(result),
        state_of(*final(builder)) == after(
            state_of(*old(builder)),
            Step::NotZero { x, result },
        ),
{
    builder.ins().icmp_imm(IntCC::NotEqual, x, 0)
}

/// `InstBuilder::select`: inserts the choice of `x` where `c` is not zero, and of `y`
/// where it is.
/// Its result is a new value.
#[verifier::external_body]
fn put_select(builder: &mut FunctionBuilder<'_>, c: Value, x: Value, y: Value) -> (result: Value)
    requires
        is_open(state_of(*old(builder))),
        values_of(*old(builder)).contains(c),
        values_of(*old(builder)).contains(x),
        values_of(*old(builder)).contains(y),
    ensures
        !values_of(*old(builder)).contains(result),
        state_of(*final(builder)) == after(
            state_of(*old(builder)),
            Step::Select { c, x, y, result },
        ),
{
    builder.ins().select(c, x, y)
}

/// `InstBuilder::load`: inserts the read of a field, `offset` bytes behind an address.
/// Its result is a new value.
#[verifier::external_body]
fn put_load(
    builder: &mut FunctionBuilder<'_>,
    width: FieldWidth,
    base: Value,
    offset: i32,
) -> (result: Value)
    requires
        is_open(state_of(*old(builder))),
        values_of(*old(builder)).contains(base),
    ensures
        !values_of(*old(builder)).contains(result),
        state_of(*final(builder)) == after(
            state_of(*old(builder)),
            Step::Load { width, base, offset, result },
        ),
{
    let read = match width {
        FieldWidth::U8 => types::I8,
        FieldWidth::U16 => types::I16,
        FieldWidth::U32 => types::I32,
        FieldWidth::U64 => types::I64,
    };
    builder.ins().load(read, MemFlags::new(), base, offset)
}

/// `InstBuilder::store`: inserts the write of a value, `offset` bytes behind an
/// address. It gives no value.
#[verifier::external_body]
fn put_store(builder: &mut FunctionBuilder<'_>, value: Value, base: Value, offset: i32)
    requires
        is_open(state_of(*old(builder))),
        values_of(*old(builder)).contains(value),
        values_of(*old(builder)).contains(base),
    ensures
        state_of(*final(builder)) == after(
            state_of(*old(builder)),
            Step::Store { value, base, offset },
        ),
{
    builder.ins().store(MemFlags::new(), value, base, offset);
}

/// `InstBuilder::jump`: ends the block at hand with a jump that hands one argument
/// over. The block that it leads to is not sealed.
#[verifier::external_body]
fn put_jump(builder: &mut FunctionBuilder<'_>, to: Block, with: Value)
    requires
        is_open(state_of(*old(builder))),
        values_of(*old(builder)).contains(with),
        blocks_of(*old(builder)).dom().contains(to),
        !sealed_of(*old(builder)).contains(to),
    ensures
        state_of(*final(builder)) == after(
            state_of(*old(builder)),
            Step::Jump { to, with },
        ),
{
    builder.ins().jump(to, &[with.into()]);
}

/// `InstBuilder::brif`: ends the block at hand with a branch to `yes` where `on` is not
/// zero, and to `no` where it is. Neither is handed an argument, and neither is
/// sealed.
#[verifier::external_body]
fn put_branch(builder: &mut FunctionBuilder<'_>, on: Value, yes: Block, no: Block)
    requires
        is_open(state_of(*old(builder))),
        values_of(*old(builder)).contains(on),
        blocks_of(*old(builder)).dom().contains(yes),
        blocks_of(*old(builder)).dom().contains(no),
        !sealed_of(*old(builder)).contains(yes),
        !sealed_of(*old(builder)).contains(no),
    ensures
        state_of(*final(builder)) == after(
            state_of(*old(builder)),
            Step::Branch { on, yes, no },
        ),
{
    builder.ins().brif(on, yes, &[], no, &[]);
}

/// `InstBuilder::return_`: ends the block at hand with a return of nothing.
#[verifier::external_body]
fn put_return(builder: &mut FunctionBuilder<'_>)
    requires
        is_open(state_of(*old(builder))),
    ensures
        state_of(*final(builder)) == after(
            state_of(*old(builder)),
            Step::Return,
        ),
{
    builder.ins().return_(&[]);
}

// ---- one instruction -------------------------------------------------------

/// What the function is called with.
#[derive(Clone, Copy)]
pub struct CallValues {
    /// Addresses of the arrays.
    pub input: Value,
    pub output: Value,
    pub aux: Value,
    /// Sizes, of 32 bits.
    pub count: Value,
    pub stride: Value,
    pub aux_count: Value,
    pub aux_stride: Value,
    /// The elements of the share.
    pub start: Value,
    pub end: Value,
}

pub open spec fn are_at_hand(call: CallValues, s: State) -> bool {
    &&& s.values.contains(call.input)
    &&& s.values.contains(call.output)
    &&& s.values.contains(call.aux)
    &&& s.values.contains(call.count)
    &&& s.values.contains(call.stride)
    &&& s.values.contains(call.aux_count)
    &&& s.values.contains(call.aux_stride)
    &&& s.values.contains(call.start)
    &&& s.values.contains(call.end)
}

/// The blocks and values that come up on the way to an instruction's own value.
pub ghost struct Parts {
    pub zero_block: Block,
    pub load_block: Block,
    pub merge: Block,
    pub zero: Value,
    pub base: Value,
    pub raw: Value,
    pub wide: Value,
}

/// A field read `offset` bytes behind an address in an array, extended to 64
/// bits.
pub open spec fn loaded(
    s: State,
    array: Value,
    address: Value,
    offset: i32,
    width: FieldWidth,
    p: Parts,
) -> State {
    let read = after(
        after(s, Step::Add { x: array, y: address, result: p.base }),
        Step::Load { width, base: p.base, offset, result: p.raw },
    );
    if width == FieldWidth::U64 {
        read
    } else {
        after(read, Step::Widen { x: p.raw, result: p.wide })
    }
}

/// The value of a field that was read.
pub open spec fn field_read(width: FieldWidth, p: Parts) -> Value {
    if width == FieldWidth::U64 {
        p.raw
    } else {
        p.wide
    }
}

/// The values on the way to a field were none of the function's before.
pub open spec fn load_is_new(values: Set<Value>, width: FieldWidth, p: Parts) -> bool {
    &&& !values.contains(p.base)
    &&& !values.insert(p.base).contains(p.raw)
    &&& width != FieldWidth::U64 ==> !values.insert(p.base).insert(p.raw).contains(p.wide)
}

/// So were those on the way to a field of the second array, and the blocks.
pub open spec fn guard_is_new(s: State, width: FieldWidth, p: Parts, result: Value) -> bool {
    &&& !s.blocks.dom().contains(p.zero_block)
    &&& !s.blocks.dom().contains(p.load_block)
    &&& !s.blocks.dom().contains(p.merge)
    &&& p.zero_block != p.load_block
    &&& p.zero_block != p.merge
    &&& p.load_block != p.merge
    &&& !s.values.contains(result)
    &&& !s.values.insert(result).contains(p.zero)
    &&& load_is_new(s.values.insert(result).insert(p.zero), width, p)
}

/// A field of the second array, or zero: one block for each, and one where they
/// meet.
pub open spec fn guarded(
    s: State,
    aux: Value,
    empty: Value,
    address: Value,
    offset: i32,
    width: FieldWidth,
    p: Parts,
    result: Value,
) -> State {
    let made = with_param(
        with_block(with_block(with_block(s, p.zero_block), p.load_block), p.merge),
        p.merge,
        result,
        64,
    );
    let split = entered(
        after(made, Step::Branch { on: empty, yes: p.zero_block, no: p.load_block }),
        p.zero_block,
    );
    let none = entered(
        after(
            after(split, Step::Const { value: 0, result: p.zero }),
            Step::Jump { to: p.merge, with: p.zero },
        ),
        p.load_block,
    );
    entered(
        after(
            loaded(none, aux, address, offset, width, p),
            Step::Jump { to: p.merge, with: field_read(width, p) },
        ),
        p.merge,
    )
}

/// The function behind one instruction of the code, `v` being the values of the
/// ones before it and `result` its own. Locals need no instruction: each use
/// takes the value that was last defined.
pub open spec fn inst_put(
    call: CallValues,
    at: Value,
    inst: Inst,
    v: Seq<Value>,
    p: Parts,
    s: State,
    result: Value,
) -> State {
    match inst {
        Inst::Index => after(s, Step::Widen { x: at, result }),
        Inst::Count => after(s, Step::Widen { x: call.count, result }),
        Inst::Stride => after(s, Step::Widen { x: call.stride, result }),
        Inst::AuxCount => after(s, Step::Widen { x: call.aux_count, result }),
        Inst::AuxStride => after(s, Step::Widen { x: call.aux_stride, result }),
        Inst::Const(value) => after(s, Step::Const { value, result }),
        Inst::Add(x, y) => after(s, Step::Add { x: v[x as int], y: v[y as int], result }),
        Inst::Sub(x, y) => after(s, Step::Sub { x: v[x as int], y: v[y as int], result }),
        Inst::Mul(x, y) => after(s, Step::Mul { x: v[x as int], y: v[y as int], result }),
        Inst::And(x, y) => after(s, Step::And { x: v[x as int], y: v[y as int], result }),
        Inst::Or(x, y) => after(s, Step::Or { x: v[x as int], y: v[y as int], result }),
        Inst::Xor(x, y) => after(s, Step::Xor { x: v[x as int], y: v[y as int], result }),
        Inst::Shl(x, y) => after(s, Step::Shl { x: v[x as int], y: v[y as int], result }),
        Inst::Shr(x, y) => after(s, Step::Shr { x: v[x as int], y: v[y as int], result }),
        Inst::Equal(x, y) => after(
            s,
            Step::Compare { how: Comparison::Equal, x: v[x as int], y: v[y as int], result },
        ),
        Inst::Less(x, y) => after(
            s,
            Step::Compare { how: Comparison::Less, x: v[x as int], y: v[y as int], result },
        ),
        Inst::AtLeast(x, y) => after(
            s,
            Step::Compare { how: Comparison::AtLeast, x: v[x as int], y: v[y as int], result },
        ),
        Inst::NotZero(x) => after(s, Step::NotZero { x: v[x as int], result }),
        Inst::Select(c, x, y) => after(
            s,
            Step::Select { c: v[c as int], x: v[x as int], y: v[y as int], result },
        ),
        Inst::Load { address, offset, width } => loaded(
            s,
            call.input,
            v[address as int],
            offset as i32,
            width,
            p,
        ),
        Inst::LoadAux { empty, address, offset, width } => guarded(
            s,
            call.aux,
            v[empty as int],
            v[address as int],
            offset as i32,
            width,
            p,
            result,
        ),
        Inst::Use(_) | Inst::Define(_, _) => s,
    }
}

/// The value of an instruction that inserts none of its own.
pub open spec fn result_is(
    inst: Inst,
    v: Seq<Value>,
    slots: Seq<Value>,
    p: Parts,
    result: Value,
) -> bool {
    match inst {
        Inst::Load { width, .. } => result == field_read(width, p),
        Inst::Use(local) => result == slots[local as int],
        Inst::Define(_, x) => result == v[x as int],
        _ => true,
    }
}

/// What an instruction inserts has values that were none of the function's before
/// it.
pub open spec fn inst_is_new(inst: Inst, s: State, p: Parts, result: Value) -> bool {
    match inst {
        Inst::Load { width, .. } => load_is_new(s.values, width, p),
        Inst::LoadAux { width, .. } => guard_is_new(s, width, p, result),
        Inst::Use(_) | Inst::Define(_, _) => true,
        _ => !s.values.contains(result),
    }
}

pub open spec fn slots_behind(inst: Inst, slots: Seq<Value>, result: Value) -> Seq<Value> {
    match inst {
        Inst::Define(local, _) => slots.update(local as int, result),
        _ => slots,
    }
}

/// Between `s` and `t` nothing went into a block but the one at hand and new
/// ones, no value was lost and no block was sealed.
pub open spec fn stays(s: State, t: State) -> bool {
    &&& is_open(t)
    &&& t.at == s.at || !s.blocks.dom().contains(t.at->Some_0)
    &&& s.blocks.dom().subset_of(t.blocks.dom())
    &&& forall|b: Block|
        s.blocks.dom().contains(b) && Some(b) != s.at ==> #[trigger] t.blocks[b] == s.blocks[b]
    &&& s.values.subset_of(t.values)
    &&& t.sealed == s.sealed
}

/// Every listed value is one of the function's.
pub open spec fn all_there(v: Seq<Value>, s: State) -> bool {
    forall|i: int| 0 <= i < v.len() ==> s.values.contains(#[trigger] v[i])
}

fn emit_load(
    builder: &mut FunctionBuilder<'_>,
    array: Value,
    address: Value,
    offset: u32,
    width: FieldWidth,
    p: Ghost<Parts>,
) -> (out: (Value, Ghost<Parts>))
    requires
        is_open(state_of(*old(builder))),
        values_of(*old(builder)).contains(array),
        values_of(*old(builder)).contains(address),
    ensures
        state_of(*final(builder)) == loaded(
            state_of(*old(builder)),
            array,
            address,
            offset as i32,
            width,
            out.1@,
        ),
        load_is_new(values_of(*old(builder)), width, out.1@),
        out.0 == field_read(width, out.1@),
        out.1@.zero_block == p@.zero_block,
        out.1@.load_block == p@.load_block,
        out.1@.merge == p@.merge,
        out.1@.zero == p@.zero,
        stays(state_of(*old(builder)), state_of(*final(builder))),
        values_of(*final(builder)).contains(out.0),
{
    let at: i32 = #[verifier::truncate] (offset as i32);
    let base: Value = put_add(builder, array, address);
    let raw: Value = put_load(builder, width, base, at);
    if width == FieldWidth::U64 {
        let ghost parts = Parts { base, raw, ..p@ };
        (raw, Ghost(parts))
    } else {
        let wide: Value = put_widen(builder, raw);
        let ghost parts = Parts { base, raw, wide, ..p@ };
        (wide, Ghost(parts))
    }
}

fn emit_guarded(
    builder: &mut FunctionBuilder<'_>,
    aux: Value,
    empty: Value,
    address: Value,
    offset: u32,
    width: FieldWidth,
) -> (out: (Value, Ghost<Parts>))
    requires
        is_open(state_of(*old(builder))),
        values_of(*old(builder)).contains(aux),
        values_of(*old(builder)).contains(empty),
        values_of(*old(builder)).contains(address),
    ensures
        state_of(*final(builder)) == guarded(
            state_of(*old(builder)),
            aux,
            empty,
            address,
            offset as i32,
            width,
            out.1@,
            out.0,
        ),
        guard_is_new(state_of(*old(builder)), width, out.1@, out.0),
        stays(state_of(*old(builder)), state_of(*final(builder))),
        values_of(*final(builder)).contains(out.0),
{
    let zero_block: Block = make_block(builder);
    let load_block: Block = make_block(builder);
    let merge: Block = make_block(builder);
    let merged: Value = make_param(builder, merge, FieldWidth::U64);
    put_branch(builder, empty, zero_block, load_block);
    enter(builder, zero_block);
    let zero: Value = put_const(builder, 0);
    put_jump(builder, merge, zero);
    enter(builder, load_block);
    let ghost p = Parts { zero_block, load_block, merge, zero, base: zero, raw: zero, wide: zero };
    let (loaded, Ghost(parts)) = emit_load(builder, aux, address, offset, width, Ghost(p));
    put_jump(builder, merge, loaded);
    enter(builder, merge);
    (merged, Ghost(parts))
}

fn emit_inst(
    builder: &mut FunctionBuilder<'_>,
    call: &CallValues,
    at: Value,
    inst: Inst,
    v: &Vec<Value>,
    slots: &mut Vec<Value>,
) -> (out: (Value, Ghost<Parts>))
    requires
        is_open(state_of(*old(builder))),
        are_at_hand(*call, state_of(*old(builder))),
        values_of(*old(builder)).contains(at),
        all_there(v@, state_of(*old(builder))),
        all_there(old(slots)@, state_of(*old(builder))),
        native::operands_are_there(inst, v@.len() as int, old(slots)@.len() as int),
    ensures
        state_of(*final(builder)) == inst_put(
            *call,
            at,
            inst,
            v@,
            out.1@,
            state_of(*old(builder)),
            out.0,
        ),
        result_is(inst, v@, old(slots)@, out.1@, out.0),
        inst_is_new(inst, state_of(*old(builder)), out.1@, out.0),
        final(slots)@ == slots_behind(inst, old(slots)@, out.0),
        stays(state_of(*old(builder)), state_of(*final(builder))),
        values_of(*final(builder)).contains(out.0),
{
    let ghost none = arbitrary::<Parts>();
    let count: usize = v.len();
    assert(v@.len() == count);
    match inst {
        Inst::Index => (put_widen(builder, at), Ghost(none)),
        Inst::Count => (put_widen(builder, call.count), Ghost(none)),
        Inst::Stride => (put_widen(builder, call.stride), Ghost(none)),
        Inst::AuxCount => (put_widen(builder, call.aux_count), Ghost(none)),
        Inst::AuxStride => (put_widen(builder, call.aux_stride), Ghost(none)),
        Inst::Const(value) => (put_const(builder, value), Ghost(none)),
        Inst::Add(x, y) => (put_add(builder, v[x as usize], v[y as usize]), Ghost(none)),
        Inst::Sub(x, y) => (put_sub(builder, v[x as usize], v[y as usize]), Ghost(none)),
        Inst::Mul(x, y) => (put_mul(builder, v[x as usize], v[y as usize]), Ghost(none)),
        Inst::And(x, y) => (put_and(builder, v[x as usize], v[y as usize]), Ghost(none)),
        Inst::Or(x, y) => (put_or(builder, v[x as usize], v[y as usize]), Ghost(none)),
        Inst::Xor(x, y) => (put_xor(builder, v[x as usize], v[y as usize]), Ghost(none)),
        Inst::Shl(x, y) => (put_shl(builder, v[x as usize], v[y as usize]), Ghost(none)),
        Inst::Shr(x, y) => (put_shr(builder, v[x as usize], v[y as usize]), Ghost(none)),
        Inst::Equal(x, y) => (
            put_compare(builder, Comparison::Equal, v[x as usize], v[y as usize]),
            Ghost(none),
        ),
        Inst::Less(x, y) => (
            put_compare(builder, Comparison::Less, v[x as usize], v[y as usize]),
            Ghost(none),
        ),
        Inst::AtLeast(x, y) => (
            put_compare(builder, Comparison::AtLeast, v[x as usize], v[y as usize]),
            Ghost(none),
        ),
        Inst::NotZero(x) => (put_not_zero(builder, v[x as usize]), Ghost(none)),
        Inst::Select(c, x, y) => (
            put_select(builder, v[c as usize], v[x as usize], v[y as usize]),
            Ghost(none),
        ),
        Inst::Load { address, offset, width } => emit_load(
            builder,
            call.input,
            v[address as usize],
            offset,
            width,
            Ghost(none),
        ),
        Inst::LoadAux { empty, address, offset, width } => emit_guarded(
            builder,
            call.aux,
            v[empty as usize],
            v[address as usize],
            offset,
            width,
        ),
        Inst::Use(local) => (slots[local as usize], Ghost(none)),
        Inst::Define(local, x) => {
            let value: Value = v[x as usize];
            slots.set(local as usize, value);
            (value, Ghost(none))
        },
    }
}

// ---- a body ----------------------------------------------------------------

/// The values of the code's instructions, with the locals and the function
/// behind each.
pub ghost struct Trail {
    pub values: Seq<Value>,
    pub slots: Seq<Seq<Value>>,
    pub parts: Seq<Parts>,
    pub states: Seq<State>,
}

/// What comes up while a body is emitted: the trail of its code, the function
/// behind each store, and the blocks and values on the way.
pub ghost struct Emission {
    pub header: Block,
    pub body: Block,
    pub done: Block,
    pub at: Value,
    pub more: Value,
    pub zero: Value,
    pub trail: Trail,
    pub base: Value,
    pub narrowed: Seq<Value>,
    pub stored: Seq<State>,
    pub next: Value,
}

/// The loop's head: a count of elements from `start` on, and a test against
/// `end`. The body starts with a zero for its locals.
pub open spec fn opened(call: CallValues, e: Emission, s: State) -> State {
    let made = with_param(
        with_block(with_block(with_block(s, e.header), e.body), e.done),
        e.header,
        e.at,
        32,
    );
    let head = entered(after(made, Step::Jump { to: e.header, with: call.start }), e.header);
    let tested = after(
        head,
        Step::Compare { how: Comparison::Less, x: e.at, y: call.end, result: e.more },
    );
    let begun = entered(
        after(tested, Step::Branch { on: e.more, yes: e.body, no: e.done }),
        e.body,
    );
    after(begun, Step::Const { value: 0, result: e.zero })
}

/// The function behind one store: a value cut to its field's width.
pub open spec fn store_put(
    store: NativeStore,
    v: Seq<Value>,
    base: Value,
    narrow: Value,
    s: State,
) -> State {
    let value = v[store.value as int];
    if store.width == FieldWidth::U64 {
        after(s, Step::Store { value, base, offset: store.offset as i32 })
    } else {
        after(
            after(s, Step::Narrow { x: value, width: store.width, result: narrow }),
            Step::Store { value: narrow, base, offset: store.offset as i32 },
        )
    }
}

/// The loop's end: the next element, and the return behind the last.
pub open spec fn closed(e: Emission, s: State) -> State {
    let turned = after(
        after(s, Step::AddOne { x: e.at, result: e.next }),
        Step::Jump { to: e.header, with: e.next },
    );
    after(entered(turned, e.done), Step::Return)
}

/// The first `n` instructions of the code are in place.
pub open spec fn code_is_put(
    call: CallValues,
    at: Value,
    zero: Value,
    code: Seq<Inst>,
    locals: nat,
    e: Trail,
    n: int,
) -> bool {
    &&& e.values.len() == n
    &&& e.parts.len() == n
    &&& e.slots.len() == n + 1
    &&& e.states.len() == n + 1
    &&& e.slots[0] == Seq::new(locals, |i: int| zero)
    &&& forall|i: int|
        0 <= i < n ==> #[trigger] e.states[i + 1] == inst_put(
            call,
            at,
            code[i],
            e.values.take(i),
            e.parts[i],
            e.states[i],
            e.values[i],
        )
    &&& forall|i: int|
        0 <= i < n ==> result_is(
            code[i],
            e.values.take(i),
            e.slots[i],
            e.parts[i],
            #[trigger] e.values[i],
        )
    &&& forall|i: int|
        0 <= i < n ==> inst_is_new(code[i], e.states[i], #[trigger] e.parts[i], e.values[i])
    &&& forall|i: int|
        0 <= i < n ==> #[trigger] e.slots[i + 1] == slots_behind(code[i], e.slots[i], e.values[i])
}

/// The first `n` stores are in place.
pub open spec fn stores_are_put(
    stores: Seq<NativeStore>,
    v: Seq<Value>,
    base: Value,
    narrowed: Seq<Value>,
    stored: Seq<State>,
    n: int,
) -> bool {
    &&& narrowed.len() == n
    &&& stored.len() == n + 1
    &&& forall|i: int|
        0 <= i < n ==> #[trigger] stored[i + 1] == store_put(
            stores[i],
            v,
            base,
            narrowed[i],
            stored[i],
        )
    &&& forall|i: int|
        0 <= i < n && stores[i].width != FieldWidth::U64 ==> !stored[i].values.contains(
            #[trigger] narrowed[i],
        )
}

/// The loop's blocks and the values of its head are none that the function had.
pub open spec fn is_new(e: Emission, before: State) -> bool {
    &&& !before.blocks.dom().contains(e.header)
    &&& !before.blocks.dom().contains(e.body)
    &&& !before.blocks.dom().contains(e.done)
    &&& e.header != e.body
    &&& e.header != e.done
    &&& e.body != e.done
    &&& !before.values.contains(e.at)
    &&& !before.values.insert(e.at).contains(e.more)
    &&& !before.values.insert(e.at).insert(e.more).contains(e.zero)
}

/// A function that was at `before` is, behind the emission, at `end`.
pub open spec fn is_emitted(
    call: CallValues,
    code: Seq<Inst>,
    stores: Seq<NativeStore>,
    locals: nat,
    e: Emission,
    before: State,
    end: State,
) -> bool {
    &&& is_new(e, before)
    &&& code_is_put(call, e.at, e.zero, code, locals, e.trail, code.len() as int)
    &&& e.trail.states[0] == opened(call, e, before)
    &&& stores_are_put(stores, e.trail.values, e.base, e.narrowed, e.stored, stores.len() as int)
    &&& e.stored[0] == after(
        e.trail.states[code.len() as int],
        Step::Add { x: call.output, y: e.trail.values[2], result: e.base },
    )
    &&& !e.trail.states[code.len() as int].values.contains(e.base)
    &&& !e.stored[stores.len() as int].values.contains(e.next)
    &&& end == closed(e, e.stored[stores.len() as int])
}

fn emit_store(
    builder: &mut FunctionBuilder<'_>,
    store: NativeStore,
    v: &Vec<Value>,
    base: Value,
) -> (narrow: Ghost<Value>)
    requires
        is_open(state_of(*old(builder))),
        values_of(*old(builder)).contains(base),
        all_there(v@, state_of(*old(builder))),
        store.value < v@.len(),
    ensures
        state_of(*final(builder)) == store_put(
            store,
            v@,
            base,
            narrow@,
            state_of(*old(builder)),
        ),
        store.width != FieldWidth::U64 ==> !values_of(*old(builder)).contains(narrow@),
        stays(state_of(*old(builder)), state_of(*final(builder))),
{
    let count: usize = v.len();
    assert(v@.len() == count);
    let offset: i32 = #[verifier::truncate] (store.offset as i32);
    let value: Value = v[store.value as usize];
    if store.width == FieldWidth::U64 {
        put_store(builder, value, base, offset);
        Ghost(value)
    } else {
        let narrow: Value = put_narrow(builder, value, store.width);
        put_store(builder, narrow, base, offset);
        Ghost(narrow)
    }
}

/// The blocks of the loop, and the element at hand.
struct Loop {
    header: Block,
    body: Block,
    done: Block,
    at: Value,
}

/// The loop's blocks are there, and nothing is behind it yet.
spec fn loop_stands(l: Loop, s: State) -> bool {
    &&& is_open(s)
    &&& s.blocks.dom().contains(l.header)
    &&& !s.sealed.contains(l.header)
    &&& s.blocks.dom().contains(l.done)
    &&& s.blocks[l.done].len() == 0
    &&& s.at != Some(l.done)
    &&& s.values.contains(l.at)
}

proof fn lemma_loop_stands(l: Loop, s: State, t: State)
    requires
        loop_stands(l, s),
        stays(s, t),
    ensures
        loop_stands(l, t),
{
    assert(t.blocks[l.done] == s.blocks[l.done]);
}

/// Emits the code, an instruction for an instruction.
fn emit_code(
    builder: &mut FunctionBuilder<'_>,
    call: &CallValues,
    compiled: &CompiledEvaluator,
    at: Value,
    zero: Value,
    l: Ghost<Loop>,
) -> (out: (Vec<Value>, Ghost<Trail>))
    requires
        compiled.well_formed(),
        loop_stands(l@, state_of(*old(builder))),
        l@.at == at,
        are_at_hand(*call, state_of(*old(builder))),
        values_of(*old(builder)).contains(zero),
    ensures
        code_is_put(
            *call,
            at,
            zero,
            compiled.code@,
            compiled.locals as nat,
            out.1@,
            compiled.code@.len() as int,
        ),
        out.0@ == out.1@.values,
        out.1@.states[0] == state_of(*old(builder)),
        out.1@.states[compiled.code@.len() as int] == state_of(*final(builder)),
        loop_stands(l@, state_of(*final(builder))),
        are_at_hand(*call, state_of(*final(builder))),
        all_there(out.0@, state_of(*final(builder))),
{
    let ghost p = compiled.body@;
    let ghost start = state_of(*builder);
    let mut slots: Vec<Value> = Vec::new();
    let mut n: u32 = 0;
    while n < compiled.locals
        invariant
            n <= compiled.locals,
            slots@ =~= Seq::new(n as nat, |i: int| zero),
        decreases compiled.locals - n,
    {
        slots.push(zero);
        n = n + 1;
    }
    let mut values: Vec<Value> = Vec::new();
    let ghost mut e = Trail {
        values: Seq::empty(),
        slots: seq![slots@],
        parts: Seq::empty(),
        states: seq![state_of(*builder)],
    };
    assert(values@ =~= e.values);
    let mut i: usize = 0;
    while i < compiled.code.len()
        invariant
            i <= compiled.code.len(),
            compiled.well_formed(),
            p == compiled.body@,
            loop_stands(l@, state_of(*builder)),
            l@.at == at,
            are_at_hand(*call, state_of(*builder)),
            code_is_put(*call, at, zero, compiled.code@, compiled.locals as nat, e, i as int),
            e.states[0] == start,
            start == state_of(*old(builder)),
            e.states[i as int] == state_of(*builder),
            e.values == values@,
            e.slots[i as int] == slots@,
            slots@.len() == compiled.locals,
            all_there(values@, state_of(*builder)),
            all_there(slots@, state_of(*builder)),
        decreases compiled.code.len() - i,
    {
        proof {
            native::lemma_operands_are_there(p, i as int);
        }
        let ghost earlier = state_of(*builder);
        let ghost held = slots@;
        let inst: Inst = compiled.code[i];
        let (value, Ghost(parts)) = emit_inst(builder, call, at, inst, &values, &mut slots);
        proof {
            lemma_loop_stands(l@, earlier, state_of(*builder));
            let grown = Trail {
                values: e.values.push(value),
                slots: e.slots.push(slots@),
                parts: e.parts.push(parts),
                states: e.states.push(state_of(*builder)),
            };
            assert(grown.values.drop_last() =~= e.values);
            assert(grown.slots.drop_last() =~= e.slots);
            assert(grown.parts.drop_last() =~= e.parts);
            assert(grown.states.drop_last() =~= e.states);
            lemma_code_grows(
                *call,
                at,
                zero,
                compiled.code@,
                compiled.locals as nat,
                e,
                grown,
                i as int,
            );
            e = grown;
            assert forall|j: int| 0 <= j < slots@.len() implies state_of(*builder).values.contains(
                #[trigger] slots@[j],
            ) by {
                assert(earlier.values.contains(held[j]));
            }
        }
        values.push(value);
        i = i + 1;
    }
    (values, Ghost(e))
}

/// Emits the stores.
fn emit_stores(
    builder: &mut FunctionBuilder<'_>,
    compiled: &CompiledEvaluator,
    values: &Vec<Value>,
    base: Value,
    l: Ghost<Loop>,
) -> (out: (Ghost<Seq<Value>>, Ghost<Seq<State>>))
    requires
        compiled.well_formed(),
        loop_stands(l@, state_of(*old(builder))),
        values@.len() == compiled.code@.len(),
        values_of(*old(builder)).contains(base),
        all_there(values@, state_of(*old(builder))),
    ensures
        stores_are_put(
            compiled.stores@,
            values@,
            base,
            out.0@,
            out.1@,
            compiled.stores@.len() as int,
        ),
        out.1@[0] == state_of(*old(builder)),
        out.1@[compiled.stores@.len() as int] == state_of(*final(builder)),
        loop_stands(l@, state_of(*final(builder))),
{
    let ghost p = compiled.body@;
    let ghost mut narrowed: Seq<Value> = Seq::empty();
    let ghost mut stored: Seq<State> = seq![state_of(*builder)];
    let mut s: usize = 0;
    while s < compiled.stores.len()
        invariant
            s <= compiled.stores.len(),
            compiled.well_formed(),
            p == compiled.body@,
            loop_stands(l@, state_of(*builder)),
            values@.len() == compiled.code@.len(),
            state_of(*builder).values.contains(base),
            all_there(values@, state_of(*builder)),
            stores_are_put(compiled.stores@, values@, base, narrowed, stored, s as int),
            stored[0] == state_of(*old(builder)),
            stored[s as int] == state_of(*builder),
        decreases compiled.stores.len() - s,
    {
        let store: NativeStore = compiled.stores[s];
        proof {
            native::lemma_stores_are_there(p, s as int);
        }
        let ghost earlier = state_of(*builder);
        let Ghost(narrow) = emit_store(builder, store, values, base);
        proof {
            lemma_loop_stands(l@, earlier, state_of(*builder));
            let more = narrowed.push(narrow);
            let grown = stored.push(state_of(*builder));
            assert forall|j: int| 0 <= j < s + 1 implies #[trigger] grown[j + 1] == store_put(
                compiled.stores@[j],
                values@,
                base,
                more[j],
                grown[j],
            ) by {
                if j < s {
                    assert(stored[j + 1] == store_put(
                        compiled.stores@[j],
                        values@,
                        base,
                        narrowed[j],
                        stored[j],
                    ));
                }
            }
            assert forall|j: int|
                0 <= j < s + 1 && compiled.stores@[j].width
                    != FieldWidth::U64 implies !grown[j].values.contains(#[trigger] more[j]) by {
                if j < s {
                    assert(more[j] == narrowed[j]);
                    assert(grown[j] == stored[j]);
                }
            }
            narrowed = more;
            stored = grown;
        }
        s = s + 1;
    }
    (Ghost(narrowed), Ghost(stored))
}

/// Emits a body at the place where the builder stands, which is where the
/// function was entered. The blocks are left unsealed.
pub fn emit(builder: &mut FunctionBuilder<'_>, call: &CallValues, compiled: &CompiledEvaluator)
    requires
        compiled.well_formed(),
        is_open(state_of(*old(builder))),
        are_at_hand(*call, state_of(*old(builder))),
    ensures
        exists|e: Emission| #[trigger]
            is_emitted(
                *call,
                compiled.code@,
                compiled.stores@,
                compiled.locals as nat,
                e,
                state_of(*old(builder)),
                state_of(*final(builder)),
            ),
{
    let header: Block = make_block(builder);
    let body: Block = make_block(builder);
    let done: Block = make_block(builder);
    let at: Value = make_param(builder, header, FieldWidth::U32);
    put_jump(builder, header, call.start);
    enter(builder, header);
    let more: Value = put_compare(builder, Comparison::Less, at, call.end);
    put_branch(builder, more, body, done);
    enter(builder, body);
    let zero: Value = put_const(builder, 0);
    let ghost l = Loop { header, body, done, at };
    let (values, Ghost(trail)) = emit_code(builder, call, compiled, at, zero, Ghost(l));
    proof {
        native::lemma_operands_are_there(compiled.body@, 0);
    }
    let base: Value = put_add(builder, call.output, values[2]);
    let (Ghost(narrowed), Ghost(stored)) = emit_stores(builder, compiled, &values, base, Ghost(l));
    let next: Value = put_add_one(builder, at);
    put_jump(builder, header, next);
    enter(builder, done);
    put_return(builder);
    proof {
        let e = Emission {
            header,
            body,
            done,
            at,
            more,
            zero,
            trail,
            base,
            narrowed,
            stored,
            next,
        };
        assert(is_emitted(
            *call,
            compiled.code@,
            compiled.stores@,
            compiled.locals as nat,
            e,
            state_of(*old(builder)),
            state_of(*final(builder)),
        ));
    }
}

proof fn lemma_code_grows(
    call: CallValues,
    at: Value,
    zero: Value,
    code: Seq<Inst>,
    locals: nat,
    e: Trail,
    grown: Trail,
    n: int,
)
    requires
        0 <= n < code.len(),
        code_is_put(call, at, zero, code, locals, e, n),
        grown.values.len() == n + 1,
        grown.values.drop_last() == e.values,
        grown.parts.len() == n + 1,
        grown.parts.drop_last() == e.parts,
        grown.slots.len() == n + 2,
        grown.slots.drop_last() == e.slots,
        grown.states.len() == n + 2,
        grown.states.drop_last() == e.states,
        grown.states[n + 1] == inst_put(
            call,
            at,
            code[n],
            e.values,
            grown.parts[n],
            e.states[n],
            grown.values[n],
        ),
        result_is(code[n], e.values, e.slots[n], grown.parts[n], grown.values[n]),
        inst_is_new(code[n], e.states[n], grown.parts[n], grown.values[n]),
        grown.slots[n + 1] == slots_behind(code[n], e.slots[n], grown.values[n]),
    ensures
        code_is_put(call, at, zero, code, locals, grown, n + 1),
{
    assert(e.values.take(n) =~= e.values);
    assert forall|i: int| 0 <= i < n + 1 implies #[trigger] grown.states[i + 1] == inst_put(
        call,
        at,
        code[i],
        grown.values.take(i),
        grown.parts[i],
        grown.states[i],
        grown.values[i],
    ) by {
        assert(grown.states[i] == e.states[i]);
        assert(grown.values.take(i) =~= e.values.take(i));
        if i < n {
            assert(grown.states[i + 1] == e.states[i + 1]);
            assert(grown.parts[i] == e.parts[i]);
            assert(grown.values[i] == e.values[i]);
        }
    }
    assert forall|i: int| 0 <= i < n + 1 implies result_is(
        code[i],
        grown.values.take(i),
        grown.slots[i],
        grown.parts[i],
        #[trigger] grown.values[i],
    ) by {
        assert(grown.slots[i] == e.slots[i]);
        assert(grown.values.take(i) =~= e.values.take(i));
        if i < n {
            assert(grown.parts[i] == e.parts[i]);
            assert(grown.values[i] == e.values[i]);
            assert(result_is(
                code[i],
                e.values.take(i),
                e.slots[i],
                e.parts[i],
                e.values[i],
            ));
        }
    }
    assert forall|i: int| 0 <= i < n + 1 implies inst_is_new(
        code[i],
        grown.states[i],
        #[trigger] grown.parts[i],
        grown.values[i],
    ) by {
        assert(grown.states[i] == e.states[i]);
        if i < n {
            assert(grown.parts[i] == e.parts[i]);
            assert(grown.values[i] == e.values[i]);
        }
    }
    assert forall|i: int| 0 <= i < n + 1 implies #[trigger] grown.slots[i + 1] == slots_behind(
        code[i],
        grown.slots[i],
        grown.values[i],
    ) by {
        assert(grown.slots[i] == e.slots[i]);
        if i < n {
            assert(grown.slots[i + 1] == e.slots[i + 1]);
            assert(grown.values[i] == e.values[i]);
        }
    }
    assert(grown.slots[0] == e.slots[0]);
}

} // verus!
