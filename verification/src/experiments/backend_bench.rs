//! Measurement of the physical batch backends: the body and the inputs that
//! are timed, how often, and what is read off the samples.
//!
//! Samples are nanoseconds. The clock itself is outside this library: a run of
//! samples says what to do next and is told how long it took.

use crate::bytes;
use crate::compiler::body;
use crate::compiler::body::{
    ArraysView, ElementLayout, EvaluatorProgram, FieldWidth, Op, ProgramView, Registers, Store,
};
use crate::experiments::ant_scoring;
use crate::samples;
use crate::samples::sorted;
use crate::text;
use crate::text::{push_decimal, push_text};
use vstd::prelude::*;

verus! {

// ---- a body with a chosen amount of arithmetic -----------------------------

/// At least one field.
pub open spec fn fields_of(field_count: u32) -> int {
    if field_count > 1 {
        field_count as int
    } else {
        1
    }
}

/// The place of an accumulator after `step` steps: that of the last step in its
/// lane, or a loaded field where there was none.
pub open spec fn accumulator(fields: int, step: int, lane: int) -> int {
    if step > lane {
        fields + 1 + lane + 4 * ((step - 1 - lane) / 4)
    } else if lane < fields {
        lane
    } else {
        fields
    }
}

pub open spec fn arithmetic(fields: int, step: int) -> Op {
    let source = accumulator(fields, step, step % 4) as u32;
    if step % 3 == 0 {
        Op::Mul(source, fields as u32)
    } else if step % 3 == 1 {
        Op::Xor(source, fields as u32)
    } else {
        Op::Add(source, fields as u32)
    }
}

/// Operation `i`: the fields, a constant, the arithmetic, and three additions
/// that fold the accumulators together.
pub open spec fn synthetic_op(fields: int, alu_ops: int, i: int) -> Op {
    let folds = fields + 1 + alu_ops;
    if i < fields {
        Op::Load(i as u32)
    } else if i == fields {
        Op::Const(0x9E37_79B9)
    } else if i < folds {
        arithmetic(fields, i - fields - 1)
    } else if i == folds {
        Op::Add(accumulator(fields, alu_ops, 0) as u32, accumulator(fields, alu_ops, 1) as u32)
    } else {
        Op::Add((i - 1) as u32, accumulator(fields, alu_ops, i - folds + 1) as u32)
    }
}

pub open spec fn synthetic_view(id: u32, field_count: u32, alu_ops: u32) -> ProgramView {
    let fields = fields_of(field_count);
    ProgramView {
        id,
        layout: ant_scoring::words_of_32(fields as nat),
        aux: None,
        ops: Seq::new(
            (fields + alu_ops + 4) as nat,
            |i: int| synthetic_op(fields, alu_ops as int, i),
        ),
        stores: seq![Store { field: 0, value: (fields + alu_ops + 3) as u32 }],
    }
}

proof fn lemma_accumulator(fields: int, step: int, lane: int)
    requires
        1 <= fields,
        0 <= step,
        0 <= lane < 4,
    ensures
        0 <= accumulator(fields, step, lane) < fields + 1 + step,
        step % 4 == lane ==> accumulator(fields, step + 1, lane) == fields + 1 + step,
        step % 4 != lane ==> accumulator(fields, step + 1, lane) == accumulator(
            fields,
            step,
            lane,
        ),
{
}

proof fn lemma_synthetic_is_valid(id: u32, field_count: u32, alu_ops: u32)
    requires
        fields_of(field_count) + alu_ops + 4 <= u32::MAX,
        4 * fields_of(field_count) <= u32::MAX,
    ensures
        synthetic_view(id, field_count, alu_ops).is_valid(),
        synthetic_view(id, field_count, alu_ops).stride() == 4 * fields_of(field_count),
{
    let p = synthetic_view(id, field_count, alu_ops);
    let fields = fields_of(field_count);
    let alu = alu_ops as int;
    body::lemma_even_offsets(p.layout, FieldWidth::U32, fields);
    assert forall|i: int| 0 <= i < p.ops.len() implies (#[trigger] p.op_fault(i)) is None by {
        assert(p.ops[i] == synthetic_op(fields, alu, i));
        if fields < i < fields + 1 + alu {
            let step = i - fields - 1;
            lemma_accumulator(fields, step, step % 4);
        } else if i >= fields + 1 + alu {
            lemma_accumulator(fields, alu, 0);
            lemma_accumulator(fields, alu, 1);
            lemma_accumulator(fields, alu, 2);
            lemma_accumulator(fields, alu, 3);
        }
    }
    assert forall|i: int| 0 <= i < p.ops.len() implies !(#[trigger] p.ops[i] is Repeat) by {
        assert(p.ops[i] == synthetic_op(fields, alu, i));
    }
    assert forall|i: int| 0 <= i < p.ops.len() implies !(#[trigger] p.ops[i] is EndRepeat) by {
        assert(p.ops[i] == synthetic_op(fields, alu, i));
    }
    body::lemma_plain_is_valid(p);
}

fn synthetic_name(fields: u32, alu_ops: u32) -> (name: String)
    ensures
        name@ == "synthetic_"@ + text::decimal(fields as nat) + "f_"@ + text::decimal(
            alu_ops as nat,
        ) + "alu"@,
{
    let mut name: String = String::new();
    push_text(&mut name, "synthetic_");
    push_decimal(&mut name, fields as u64);
    push_text(&mut name, "f_");
    push_decimal(&mut name, alu_ops as u64);
    push_text(&mut name, "alu");
    assert(Seq::<char>::empty() + "synthetic_"@ =~= "synthetic_"@);
    name
}

/// A body of `alu_ops` operations of arithmetic for each element. Four
/// accumulators are advanced in turn, so that the work is not one dependent
/// chain, and they are folded together, so that none of them is dead.
pub fn synthetic_program(id: u32, field_count: u32, alu_ops: u32) -> (program: EvaluatorProgram)
    requires
        fields_of(field_count) + alu_ops + 4 <= u32::MAX,
        4 * fields_of(field_count) <= u32::MAX,
    ensures
        program@ == synthetic_view(id, field_count, alu_ops),
        program.well_formed(),
        program.name@ == "synthetic_"@ + text::decimal(fields_of(field_count) as nat) + "f_"@
            + text::decimal(alu_ops as nat) + "alu"@,
{
    let fields: u32 = if field_count > 1 {
        field_count
    } else {
        1
    };
    let ghost alu = alu_ops as int;
    let mut widths: Vec<FieldWidth> = Vec::new();
    let mut ops: Vec<Op> = Vec::new();
    let mut f: u32 = 0;
    while f < fields
        invariant
            f <= fields,
            widths@ =~= ant_scoring::words_of_32(f as nat),
            ops@ =~= Seq::new(f as nat, |i: int| synthetic_op(fields as int, alu, i)),
        decreases fields - f,
    {
        widths.push(FieldWidth::U32);
        ops.push(Op::Load(f));
        f = f + 1;
    }
    ops.push(Op::Const(0x9E37_79B9));
    let mut places: [u32; 4] = [0, 1, 2, 3];
    if fields < 2 {
        places[2] = 1;
    }
    if fields < 3 {
        places[3] = fields;
    }
    let mut step: u32 = 0;
    while step < alu_ops
        invariant
            step <= alu_ops,
            alu == alu_ops,
            1 <= fields,
            fields + alu_ops + 4 <= u32::MAX,
            ops@ =~= Seq::new(
                (fields + 1 + step) as nat,
                |i: int| synthetic_op(fields as int, alu, i),
            ),
            forall|lane: int|
                0 <= lane < 4 ==> #[trigger] places@[lane] == accumulator(
                    fields as int,
                    step as int,
                    lane,
                ),
        decreases alu_ops - step,
    {
        proof {
            lemma_accumulator(fields as int, step as int, 0);
            lemma_accumulator(fields as int, step as int, 1);
            lemma_accumulator(fields as int, step as int, 2);
            lemma_accumulator(fields as int, step as int, 3);
        }
        let lane: usize = (step % 4) as usize;
        let source: u32 = places[lane];
        let op: Op = if step % 3 == 0 {
            Op::Mul(source, fields)
        } else if step % 3 == 1 {
            Op::Xor(source, fields)
        } else {
            Op::Add(source, fields)
        };
        ops.push(op);
        places[lane] = fields + 1 + step;
        step = step + 1;
    }
    let folds: u32 = fields + 1 + alu_ops;
    ops.push(Op::Add(places[0], places[1]));
    ops.push(Op::Add(folds, places[2]));
    ops.push(Op::Add(folds + 1, places[3]));
    let stores: Vec<Store> = vec![Store { field: 0, value: folds + 2 }];
    proof {
        lemma_synthetic_is_valid(id, field_count, alu_ops);
        let view = synthetic_view(id, field_count, alu_ops);
        assert(ops@ =~= view.ops);
        assert(stores@ =~= view.stores);
        assert(widths@ =~= view.layout);
    }
    let result = EvaluatorProgram::new(
        id,
        synthetic_name(fields, alu_ops),
        ElementLayout::new(widths),
        ops,
        stores,
    );
    result.unwrap()
}

/// A synthetic body has one operation for each unit of arithmetic, on top of
/// its loads, its constant and its fold.
pub proof fn law_op_count_scales_the_body(id: u32, field_count: u32, alu_ops: u32)
    ensures
        synthetic_view(id, field_count, alu_ops).ops.len() == fields_of(field_count) + alu_ops + 4,
{
}

// ---- what it computes ------------------------------------------------------

/// One step of arithmetic on an accumulator.
pub open spec fn mixed(step: int, value: u64) -> u64 {
    if step % 3 == 0 {
        value.wrapping_mul(0x9E37_79B9)
    } else if step % 3 == 1 {
        value ^ 0x9E37_79B9
    } else {
        value.wrapping_add(0x9E37_79B9)
    }
}

/// The accumulator of a lane after `n` steps, taken by the lanes in turn: it starts
/// from the field of its number, or from the constant where there is none.
pub open spec fn lane_value(loaded: Seq<u64>, n: int, lane: int) -> u64
    decreases n,
{
    if n <= 0 {
        if lane < loaded.len() {
            loaded[lane]
        } else {
            0x9E37_79B9
        }
    } else if (n - 1) % 4 == lane {
        mixed(n - 1, lane_value(loaded, n - 1, lane))
    } else {
        lane_value(loaded, n - 1, lane)
    }
}

/// All four accumulators together: none of them is computed in vain.
pub open spec fn folded(loaded: Seq<u64>, alu_ops: int) -> u64 {
    lane_value(loaded, alu_ops, 0).wrapping_add(lane_value(loaded, alu_ops, 1)).wrapping_add(
        lane_value(loaded, alu_ops, 2),
    ).wrapping_add(lane_value(loaded, alu_ops, 3))
}

/// The fields of element `index`.
pub open spec fn loaded_fields(a: ArraysView, field_count: u32, index: u32) -> Seq<u64> {
    let fields = fields_of(field_count);
    Seq::new(
        fields as nat,
        |i: int|
            body::field_value(a.input, ant_scoring::words_of_32(fields as nat), index as int, i),
    )
}

/// Operation `i` has the value that its operands give it.
spec fn settles(
    p: ProgramView,
    a: ArraysView,
    index: u32,
    r: Registers,
    fields: int,
    alu_ops: int,
    i: int,
) -> bool {
    r.values[i] == p.value_of(a, index, r, synthetic_op(fields, alu_ops, i))
}

/// Every operation's value is that of its operands, which come before it.
proof fn lemma_values_settle(
    id: u32,
    field_count: u32,
    alu_ops: u32,
    a: ArraysView,
    index: u32,
    r: Registers,
    lo: int,
)
    requires
        fields_of(field_count) + alu_ops + 4 <= u32::MAX,
        r.values.len() == fields_of(field_count) + alu_ops + 4,
        0 <= lo <= r.values.len(),
    ensures
        ({
            let p = synthetic_view(id, field_count, alu_ops);
            let v = p.ran(a, index, r, lo, p.ops.len() as int).0.values;
            &&& v.len() == r.values.len()
            &&& forall|j: int| 0 <= j < lo ==> #[trigger] v[j] == r.values[j]
            &&& forall|i: int|
                lo <= i < v.len() ==> #[trigger] settles(
                    p,
                    a,
                    index,
                    (Registers { values: v, locals: r.locals }),
                    fields_of(field_count),
                    alu_ops as int,
                    i,
                )
        }),
    decreases r.values.len() - lo,
{
    let p = synthetic_view(id, field_count, alu_ops);
    let fields = fields_of(field_count);
    let alu = alu_ops as int;
    if lo < r.values.len() {
        let next = p.stepped(a, index, r, lo);
        assert(p.ops[lo] == synthetic_op(fields, alu, lo));
        lemma_values_settle(id, field_count, alu_ops, a, index, next, lo + 1);
        let v = p.ran(a, index, r, lo, p.ops.len() as int).0.values;
        assert(v == p.ran(a, index, next, lo + 1, p.ops.len() as int).0.values);
        assert(next.locals == r.locals);
        if fields < lo < fields + 1 + alu {
            let step = lo - fields - 1;
            lemma_accumulator(fields, step, step % 4);
        } else if lo >= fields + 1 + alu {
            lemma_accumulator(fields, alu, 0);
            lemma_accumulator(fields, alu, 1);
            lemma_accumulator(fields, alu, 2);
            lemma_accumulator(fields, alu, 3);
        }
        assert(v[lo] == next.values[lo]);
        assert forall|j: int| 0 <= j < lo implies #[trigger] v[j] == r.values[j] by {
            assert(next.values[j] == r.values[j]);
        }
        assert(settles(
            p,
            a,
            index,
            Registers { values: v, locals: r.locals },
            fields,
            alu,
            lo,
        ));
    }
}

proof fn lemma_lanes(
    p: ProgramView,
    r: Registers,
    field_count: u32,
    alu_ops: u32,
    a: ArraysView,
    index: u32,
    n: int,
    lane: int,
)
    requires
        fields_of(field_count) + alu_ops + 4 <= u32::MAX,
        p.layout == ant_scoring::words_of_32(fields_of(field_count) as nat),
        r.values.len() == fields_of(field_count) + alu_ops + 4,
        0 <= n <= alu_ops,
        0 <= lane < 4,
        forall|i: int|
            0 <= i < r.values.len() ==> #[trigger] settles(
                p,
                a,
                index,
                r,
                fields_of(field_count),
                alu_ops as int,
                i,
            ),
    ensures
        r.values[accumulator(fields_of(field_count), n, lane)] == lane_value(
            loaded_fields(a, field_count, index),
            n,
            lane,
        ),
    decreases n,
{
    let fields = fields_of(field_count);
    let loaded = loaded_fields(a, field_count, index);
    let v = r.values;
    let alu = alu_ops as int;
    assert(settles(p, a, index, r, fields, alu, fields));
    assert(v[fields] == 0x9E37_79B9u64);
    if n > 0 {
        let step = n - 1;
        lemma_lanes(p, r, field_count, alu_ops, a, index, step, lane);
        lemma_accumulator(fields, step, lane);
        if step % 4 == lane {
            let at = fields + 1 + step;
            assert(settles(p, a, index, r, fields, alu, at));
            assert(synthetic_op(fields, alu, at) == arithmetic(fields, step));
            assert(v[at] == mixed(step, v[accumulator(fields, step, lane)]));
        }
    } else if lane < fields {
        assert(settles(p, a, index, r, fields, alu, lane));
        assert(v[lane] == loaded[lane]);
    }
}

/// A synthetic body replaces the first field of its element by the low word of what
/// its accumulators fold to, and leaves the rest as it is.
pub proof fn law_a_synthetic_body_writes_its_fold(
    id: u32,
    field_count: u32,
    alu_ops: u32,
    a: ArraysView,
    index: u32,
    element: Seq<u8>,
)
    requires
        fields_of(field_count) + alu_ops + 4 <= u32::MAX,
        element.len() == 4 * fields_of(field_count),
    ensures
        synthetic_view(id, field_count, alu_ops).evaluated(a, index, element) == bytes::spliced(
            element,
            0,
            bytes::le_bytes(
                folded(loaded_fields(a, field_count, index), alu_ops as int) as nat,
                4,
            ),
        ),
{
    let p = synthetic_view(id, field_count, alu_ops);
    let fields = fields_of(field_count);
    let alu = alu_ops as int;
    let r = p.blank();
    let v = p.values_for(a, index);
    lemma_values_settle(id, field_count, alu_ops, a, index, r, 0);
    assert(v == p.ran(a, index, r, 0, p.ops.len() as int).0.values);
    let done = Registers { values: v, locals: r.locals };
    lemma_lanes(p, done, field_count, alu_ops, a, index, alu, 0);
    lemma_lanes(p, done, field_count, alu_ops, a, index, alu, 1);
    lemma_lanes(p, done, field_count, alu_ops, a, index, alu, 2);
    lemma_lanes(p, done, field_count, alu_ops, a, index, alu, 3);
    lemma_accumulator(fields, alu, 0);
    lemma_accumulator(fields, alu, 1);
    lemma_accumulator(fields, alu, 2);
    lemma_accumulator(fields, alu, 3);
    let at = fields + 1 + alu;
    assert(settles(p, a, index, done, fields, alu, at));
    assert(settles(p, a, index, done, fields, alu, at + 1));
    assert(settles(p, a, index, done, fields, alu, at + 2));
    assert(v[at] == v[accumulator(fields, alu, 0)].wrapping_add(v[accumulator(fields, alu, 1)]));
    assert(v[at + 1] == v[at].wrapping_add(v[accumulator(fields, alu, 2)]));
    assert(v[at + 2] == v[at + 1].wrapping_add(v[accumulator(fields, alu, 3)]));
    assert(v[at + 2] == folded(loaded_fields(a, field_count, index), alu));
    assert(p.stores.len() == 1);
    assert(p.stored(v, element, 0) == element);
    assert(p.layout[0].size() == 4);
    assert(body::offset_of(p.layout, 0) == 0);
    assert(p.evaluated(a, index, element) == p.stored(v, element, 1));
}

/// A synthetic body changes its element, but where the first field already holds the
/// low word of the fold.
pub proof fn law_a_synthetic_body_changes_its_input(
    id: u32,
    field_count: u32,
    alu_ops: u32,
    a: ArraysView,
    index: u32,
    element: Seq<u8>,
)
    requires
        fields_of(field_count) + alu_ops + 4 <= u32::MAX,
        element.len() == 4 * fields_of(field_count),
    ensures
        synthetic_view(id, field_count, alu_ops).evaluated(a, index, element) != element
            <==> bytes::word_at(element, 0, 4) != folded(
            loaded_fields(a, field_count, index),
            alu_ops as int,
        ) as nat % 0x1_0000_0000,
{
    let value = folded(loaded_fields(a, field_count, index), alu_ops as int) as nat;
    let low = bytes::le_bytes(value, 4);
    let after = bytes::spliced(element, 0, low);
    law_a_synthetic_body_writes_its_fold(id, field_count, alu_ops, a, index, element);
    bytes::lemma_low_bytes(value, 4);
    bytes::lemma_radix_values();
    let first = element.subrange(0, 4);
    assert(after.subrange(0, 4) =~= low);
    if bytes::word_at(element, 0, 4) == value % 0x1_0000_0000 {
        bytes::lemma_le_bytes_of_value(first);
        bytes::lemma_le_bytes_of_value(low);
        assert(first =~= low);
        assert(after =~= element);
    } else {
        assert(first != low);
    }
}

// ---- its inputs ------------------------------------------------------------

/// One step of the generator.
pub open spec fn shifted(state: u64) -> u64 {
    let a = state ^ (state << 13);
    let b = a ^ (a >> 7);
    b ^ (b << 17)
}

pub open spec fn shifted_times(n: nat) -> u64
    decreases n,
{
    if n == 0 {
        0x2545_F491_4F6C_DD1D
    } else {
        shifted(shifted_times((n - 1) as nat))
    }
}

/// Byte `i` of every synthetic input.
pub open spec fn synthetic_byte(i: int) -> u8 {
    (shifted_times((i + 1) as nat) >> 33) as u8
}

/// Input bytes that are the same for every backend and in every run.
pub fn synthetic_inputs(element_count: u32, stride: u32) -> (content: Vec<u8>)
    requires
        element_count * stride <= usize::MAX,
    ensures
        content@ == Seq::new((element_count * stride) as nat, |i: int| synthetic_byte(i)),
{
    let len: usize = element_count as usize * stride as usize;
    let mut content: Vec<u8> = Vec::new();
    let mut state: u64 = 0x2545_F491_4F6C_DD1D;
    let mut i: usize = 0;
    while i < len
        invariant
            i <= len,
            state == shifted_times(i as nat),
            content@ =~= Seq::new(i as nat, |j: int| synthetic_byte(j)),
        decreases len - i,
    {
        state = state ^ (state << 13);
        state = state ^ (state >> 7);
        state = state ^ (state << 17);
        assert(state == shifted_times((i + 1) as nat));
        let byte: u8 = #[verifier::truncate] ((state >> 33) as u8);
        content.push(byte);
        i = i + 1;
    }
    assert(content@ =~= Seq::new((element_count * stride) as nat, |i: int| synthetic_byte(i)));
    content
}

// ---- samples ---------------------------------------------------------------

/// Several samples of the same work, in nanoseconds.
#[derive(Debug)]
pub struct Timing {
    pub element_count: u32,
    pub samples: Vec<u64>,
}

/// The smallest of the first `n` samples, zero where there is none.
pub open spec fn least(samples: Seq<u64>, n: int) -> u64
    decreases n,
{
    if n <= 0 {
        0
    } else if n == 1 || samples[n - 1] < least(samples, n - 1) {
        samples[n - 1]
    } else {
        least(samples, n - 1)
    }
}

impl Timing {
    /// The sample in the middle of the ordered ones, the later of the two where
    /// their number is even.
    pub fn median(&self) -> (nanos: u64)
        requires
            self.samples@.len() > 0,
        ensures
            nanos == samples::in_order(self.samples@)[(self.samples@.len() / 2) as int],
    {
        let ordered: Vec<u64> = sorted(&self.samples);
        ordered[ordered.len() / 2]
    }

    pub fn min(&self) -> (nanos: u64)
        ensures
            nanos == least(self.samples@, self.samples@.len() as int),
    {
        let mut nanos: u64 = 0;
        let mut i: usize = 0;
        while i < self.samples.len()
            invariant
                i <= self.samples.len(),
                nanos == least(self.samples@, i as int),
            decreases self.samples.len() - i,
        {
            if i == 0 || self.samples[i] < nanos {
                nanos = self.samples[i];
            }
            i = i + 1;
        }
        nanos
    }
}

proof fn lemma_least(samples: Seq<u64>, n: int)
    requires
        1 <= n <= samples.len(),
    ensures
        exists|i: int| 0 <= i < n && #[trigger] samples[i] == least(samples, n),
        forall|i: int| 0 <= i < n ==> least(samples, n) <= #[trigger] samples[i],
    decreases n,
{
    if n > 1 {
        lemma_least(samples, n - 1);
        if samples[n - 1] < least(samples, n - 1) {
            assert(samples[n - 1] == least(samples, n));
        } else {
            let i = choose|i: int| 0 <= i < n - 1 && #[trigger] samples[i] == least(samples, n - 1);
            assert(samples[i] == least(samples, n));
        }
    } else {
        assert(samples[0] == least(samples, 1));
    }
}

/// The fastest sample is one that was taken, and no later than the median.
pub proof fn law_the_fastest_sample_is_no_later_than_the_median(timing: Seq<u64>)
    requires
        timing.len() > 0,
    ensures
        timing.contains(least(timing, timing.len() as int)),
        least(timing, timing.len() as int) <= samples::in_order(timing)[(timing.len() / 2) as int],
{
    let n = timing.len() as int;
    lemma_least(timing, n);
    let i = choose|i: int| 0 <= i < n && #[trigger] timing[i] == least(timing, n);
    assert(timing[i] == least(timing, n));
    samples::lemma_in_order(timing);
    let ordered = samples::in_order(timing);
    let middle = ordered[n / 2];
    timing.to_multiset_ensures();
    ordered.to_multiset_ensures();
    assert(ordered.contains(middle));
    assert(ordered.to_multiset().count(middle) > 0);
    assert(timing.contains(middle));
    let j = choose|j: int| 0 <= j < n && timing[j] == middle;
    assert(least(timing, n) <= timing[j]);
}

/// How many samples are taken at a size: many where the cost of a call is the
/// whole measurement, few where a call takes long.
pub open spec fn repetitions(element_count: u32) -> u32 {
    if element_count <= 1_024 {
        201
    } else if element_count <= 65_536 {
        51
    } else if element_count <= 1_048_576 {
        21
    } else {
        7
    }
}

pub fn repetitions_for(element_count: u32) -> (count: u32)
    ensures
        count == repetitions(element_count),
{
    if element_count <= 1_024 {
        201
    } else if element_count <= 65_536 {
        51
    } else if element_count <= 1_048_576 {
        21
    } else {
        7
    }
}

/// What a run of samples does next.
#[derive(Clone, Copy, Debug, PartialEq, Eq, Structural)]
pub enum SampleAction {
    /// Do the work once, unmeasured.
    Warm,
    /// Do the work once, and report how long it took.
    Measure,
    Done,
}

/// A run of samples: warm-ups first, then measurements.
#[derive(Debug)]
pub struct SampleRun {
    pub element_count: u32,
    pub warmups: u32,
    pub measurements: u32,
    pub warmed: u32,
    pub samples: Vec<u64>,
}

impl SampleRun {
    pub open spec fn well_formed(&self) -> bool {
        &&& self.warmed <= self.warmups
        &&& self.samples@.len() <= self.measurements
        &&& self.samples@.len() > 0 ==> self.warmed == self.warmups
    }

    pub open spec fn next_action(&self) -> SampleAction {
        if self.warmed < self.warmups {
            SampleAction::Warm
        } else if self.samples@.len() < self.measurements {
            SampleAction::Measure
        } else {
            SampleAction::Done
        }
    }

    /// One batch evaluated again and again: three warm-ups.
    pub fn of_evaluations(element_count: u32) -> (run: Self)
        ensures
            run.well_formed(),
            run.element_count == element_count,
            run.warmups == 3,
            run.measurements == repetitions(element_count),
            run.warmed == 0,
            run.samples@.len() == 0,
    {
        SampleRun {
            element_count,
            warmups: 3,
            measurements: repetitions_for(element_count),
            warmed: 0,
            samples: Vec::new(),
        }
    }

    /// An epoch of cohorts executed again and again: two warm-ups, and no more
    /// than thirty measurements.
    pub fn of_epochs(cohorts: u32, elements_per_cohort: u32) -> (run: Self)
        requires
            cohorts * elements_per_cohort <= u32::MAX,
        ensures
            run.well_formed(),
            run.element_count == cohorts * elements_per_cohort,
            run.warmups == 2,
            run.measurements == if repetitions(run.element_count) < 30 {
                repetitions(run.element_count)
            } else {
                30
            },
            run.warmed == 0,
            run.samples@.len() == 0,
    {
        let element_count: u32 = cohorts * elements_per_cohort;
        let wanted: u32 = repetitions_for(element_count);
        SampleRun {
            element_count,
            warmups: 2,
            measurements: if wanted < 30 {
                wanted
            } else {
                30
            },
            warmed: 0,
            samples: Vec::new(),
        }
    }

    pub fn next(&self) -> (action: SampleAction)
        ensures
            action == self.next_action(),
    {
        if self.warmed < self.warmups {
            SampleAction::Warm
        } else if self.samples.len() < self.measurements as usize {
            SampleAction::Measure
        } else {
            SampleAction::Done
        }
    }

    /// The work that was asked for took `nanos`. A warm-up keeps no sample.
    pub fn record(&mut self, nanos: u64)
        requires
            old(self).well_formed(),
            old(self).next_action() != SampleAction::Done,
        ensures
            final(self).well_formed(),
            final(self).element_count == old(self).element_count,
            final(self).warmups == old(self).warmups,
            final(self).measurements == old(self).measurements,
            old(self).next_action() == SampleAction::Warm ==> final(self).warmed == old(
                self,
            ).warmed + 1 && final(self).samples@ == old(self).samples@,
            old(self).next_action() == SampleAction::Measure ==> final(self).warmed == old(
                self,
            ).warmed && final(self).samples@ == old(self).samples@.push(nanos),
    {
        if self.warmed < self.warmups {
            self.warmed = self.warmed + 1;
        } else {
            self.samples.push(nanos);
        }
    }

    pub fn into_timing(self) -> (timing: Timing)
        ensures
            timing.element_count == self.element_count,
            timing.samples@ == self.samples@,
    {
        Timing { element_count: self.element_count, samples: self.samples }
    }
}

/// One backend's samples over a set of sizes.
#[derive(Debug)]
pub struct Sweep {
    pub backend: String,
    pub timings: Vec<Timing>,
}

} // verus!
