//! What each operation of a body computes, in numbers rather than in machine words.

use crate::bytes;
use crate::compiler::body;
use crate::compiler::body::{ArraysView, Op, ProgramView, Registers};
use vstd::prelude::*;

verus! {

/// One more than the largest word.
pub open spec fn words() -> int {
    0x1_0000_0000_0000_0000
}

/// Sums, differences and products are those of the operands, around 2^64.
pub proof fn law_arithmetic_goes_around(
    p: ProgramView,
    a: ArraysView,
    index: u32,
    r: Registers,
    x: u32,
    y: u32,
)
    ensures
        ({
            let v = r.values[x as int] as int;
            let w = r.values[y as int] as int;
            &&& p.value_of(a, index, r, Op::Add(x, y)) as int == (v + w) % words()
            &&& p.value_of(a, index, r, Op::Sub(x, y)) as int == (v - w) % words()
            &&& p.value_of(a, index, r, Op::Mul(x, y)) as int == (v * w) % words()
        }),
{
    let v = r.values[x as int] as int;
    let w = r.values[y as int] as int;
    assert(p.value_of(a, index, r, Op::Mul(x, y)) as int == (v * w) % words());
    if v >= w {
        assert((v - w) % words() == v - w);
    } else {
        assert((v - w) % words() == v - w + words());
    }
}

/// Bit by bit: and, or, and exclusive or.
pub proof fn law_bits_combine_bit_by_bit(
    p: ProgramView,
    a: ArraysView,
    index: u32,
    r: Registers,
    x: u32,
    y: u32,
    bit: u64,
)
    requires
        bit < 64,
    ensures
        ({
            let v = (r.values[x as int] >> bit) & 1 == 1;
            let w = (r.values[y as int] >> bit) & 1 == 1;
            &&& ((p.value_of(a, index, r, Op::And(x, y)) >> bit) & 1 == 1) == (v && w)
            &&& ((p.value_of(a, index, r, Op::Or(x, y)) >> bit) & 1 == 1) == (v || w)
            &&& ((p.value_of(a, index, r, Op::Xor(x, y)) >> bit) & 1 == 1) == (v != w)
        }),
{
    let v = r.values[x as int];
    let w = r.values[y as int];
    lemma_bits(v, w, bit);
}

proof fn lemma_bits(v: u64, w: u64, bit: u64)
    by (bit_vector)
    requires
        bit < 64,
    ensures
        (((v & w) >> bit) & 1 == 1) == ((v >> bit) & 1 == 1 && (w >> bit) & 1 == 1),
        (((v | w) >> bit) & 1 == 1) == ((v >> bit) & 1 == 1 || (w >> bit) & 1 == 1),
        (((v ^ w) >> bit) & 1 == 1) == (((v >> bit) & 1 == 1) != ((w >> bit) & 1 == 1)),
{
}

/// A shift goes by the second operand, of which the lowest six bits count: to the left
/// each place doubles, and to the right each halves.
pub proof fn law_shifts_double_and_halve(
    p: ProgramView,
    a: ArraysView,
    index: u32,
    r: Registers,
    x: u32,
    y: u32,
)
    ensures
        ({
            let v = r.values[x as int];
            let by = r.values[y as int] % 64;
            &&& p.value_of(a, index, r, Op::Shl(x, y)) == v << by
            &&& p.value_of(a, index, r, Op::Shr(x, y)) == v >> by
            &&& by == 0 ==> p.value_of(a, index, r, Op::Shl(x, y)) == v && p.value_of(
                a,
                index,
                r,
                Op::Shr(x, y),
            ) == v
            &&& by == 1 ==> p.value_of(a, index, r, Op::Shl(x, y)) as int == (2 * v) % words()
            &&& by == 1 ==> p.value_of(a, index, r, Op::Shr(x, y)) as int == v as int / 2
        }),
{
    let v = r.values[x as int];
    let w = r.values[y as int];
    lemma_low_bits(w);
    lemma_one_place(v);
}

proof fn lemma_low_bits(w: u64)
    by (bit_vector)
    ensures
        w & 63 == w % 64,
{
}

proof fn lemma_one_place(v: u64)
    ensures
        v << 0u64 == v,
        v >> 0u64 == v,
        (v << 1u64) as int == (2 * v) % words(),
        (v >> 1u64) as int == v as int / 2,
{
    assert(v << 0u64 == v && v >> 0u64 == v && v >> 1u64 == v / 2) by (bit_vector);
    assert(v << 1u64 == if v < 0x8000_0000_0000_0000 {
        (v * 2) as u64
    } else {
        ((v - 0x8000_0000_0000_0000) * 2) as u64
    }) by (bit_vector);
}

/// A comparison is one where it holds and zero where not, and a choice takes its second
/// operand where the first is not zero, and else the third.
pub proof fn law_comparisons_are_one_or_zero(
    p: ProgramView,
    a: ArraysView,
    index: u32,
    r: Registers,
    c: u32,
    x: u32,
    y: u32,
)
    ensures
        ({
            let v = r.values[x as int];
            let w = r.values[y as int];
            let equal = p.value_of(a, index, r, Op::CmpEq(x, y));
            let less = p.value_of(a, index, r, Op::CmpLt(x, y));
            let chosen = p.value_of(a, index, r, Op::Select(c, x, y));
            &&& equal == 1 <==> v == w
            &&& equal == 0 <==> v != w
            &&& less == 1 <==> v < w
            &&& less == 0 <==> v >= w
            &&& r.values[c as int] != 0 ==> chosen == v
            &&& r.values[c as int] == 0 ==> chosen == w
        }),
{
}

/// A load brings a field of the element itself, little end first; the index is the
/// element's own; a constant is what it says; and a local is what was put there last.
pub proof fn law_loads_bring_what_is_there(
    p: ProgramView,
    a: ArraysView,
    index: u32,
    r: Registers,
    field: u32,
    value: u64,
    local: u32,
    at: int,
)
    requires
        0 <= at < p.ops.len(),
        r.values.len() == p.ops.len(),
        local < r.locals.len(),
        p.ops[at] == Op::Put(local, field),
        field < at,
    ensures
        p.value_of(a, index, r, Op::Load(field)) == bytes::word_at(
            a.input,
            index * p.stride() + body::offset_of(p.layout, field as int),
            p.layout[field as int].size() as int,
        ) as u64,
        p.value_of(a, index, r, Op::Index) == index as u64,
        p.value_of(a, index, r, Op::Const(value)) == value,
        ({
            let after = p.stepped(a, index, r, at);
            &&& p.value_of(a, index, after, Op::Get(local)) == r.values[field as int]
            &&& after.values[at] == r.values[field as int]
            &&& forall|l: int| 0 <= l < r.locals.len() && l != local ==> #[trigger] after.locals[l]
                == r.locals[l]
        }),
{
}

/// A gather brings a field of the element that its operand names, and of the last one
/// where there is no such element. Of an empty second array it brings zero.
pub proof fn law_gathers_stay_in_the_array(
    p: ProgramView,
    a: ArraysView,
    index: u32,
    r: Registers,
    at: u32,
    field: u32,
)
    requires
        a.count > 0,
        p.aux is Some,
    ensures
        ({
            let named = r.values[at as int] as int;
            let element = if named < a.count {
                named
            } else {
                a.count - 1
            };
            let other = if named < a.aux_count {
                named
            } else {
                a.aux_count - 1
            };
            &&& p.value_of(a, index, r, Op::Gather(at, field)) == body::field_value(
                a.input,
                p.layout,
                element,
                field as int,
            )
            &&& a.aux_count == 0 ==> p.value_of(a, index, r, Op::GatherAux(at, field)) == 0
            &&& a.aux_count > 0 ==> p.value_of(a, index, r, Op::GatherAux(at, field))
                == body::field_value(a.aux, p.aux->0, other, field as int)
        }),
{
}

/// Fields lie one behind the other, and an element is as long as its fields together.
pub proof fn law_fields_are_packed(widths: Seq<body::FieldWidth>, field: int)
    requires
        0 <= field < widths.len(),
    ensures
        body::offset_of(widths, 0) == 0,
        body::offset_of(widths, field + 1) == body::offset_of(widths, field) + match widths[field] {
            body::FieldWidth::U8 => 1nat,
            body::FieldWidth::U16 => 2,
            body::FieldWidth::U32 => 4,
            body::FieldWidth::U64 => 8,
        },
        body::stride_of(widths) == body::offset_of(widths, widths.len() as int),
{
}

/// Operations run in order, each on what the ones before it left.
pub proof fn law_operations_run_in_order(
    p: ProgramView,
    a: ArraysView,
    index: u32,
    r: Registers,
    lo: int,
    hi: int,
)
    requires
        0 <= lo < hi <= p.ops.len(),
    ensures
        p.ran(a, index, r, hi, hi) == (r, false),
        !(p.ops[lo] is Repeat || p.ops[lo] is EndRepeat || p.ops[lo] is BreakIf) ==> p.ran(
            a,
            index,
            r,
            lo,
            hi,
        ) == p.ran(
            a,
            index,
            (Registers {
                values: r.values.update(lo, p.value_of(a, index, r, p.ops[lo])),
                locals: p.stepped(a, index, r, lo).locals,
            }),
            lo + 1,
            hi,
        ),
        p.ops[lo] matches Op::BreakIf(x) ==> p.ran(a, index, r, lo, hi) == if r.values[x as int]
            != 0 {
            (r, true)
        } else {
            p.ran(a, index, r, lo + 1, hi)
        },
{
}

/// A loop runs its body as often as it says, each time on what the last time left, and
/// stops early where the body breaks.
pub proof fn law_a_loop_repeats_its_body(
    p: ProgramView,
    a: ArraysView,
    index: u32,
    r: Registers,
    lo: int,
    hi: int,
    times: nat,
)
    ensures
        p.rounds(a, index, r, lo, hi, 0) == r,
        p.rounds(a, index, r, lo, hi, times + 1) == if p.ran(a, index, r, lo, hi).1 {
            p.ran(a, index, r, lo, hi).0
        } else {
            p.rounds(a, index, p.ran(a, index, r, lo, hi).0, lo, hi, times)
        },
{
}

/// A store writes the low bytes of its value over its field, and nothing else of the
/// element.
pub proof fn law_a_store_writes_its_field(
    p: ProgramView,
    values: Seq<u64>,
    element: Seq<u8>,
    n: int,
)
    requires
        0 <= n < p.stores.len(),
        p.stores[n].field < p.layout.len(),
        body::offset_of(p.layout, p.stores[n].field as int) + p.layout[p.stores[n].field as int].size()
            <= element.len(),
    ensures
        p.stored(values, element, 0) == element,
        ({
            let field = p.stores[n].field as int;
            let at = body::offset_of(p.layout, field) as int;
            let size = p.layout[field].size();
            let value = values[p.stores[n].value as int] as nat;
            let before = p.stored(values, element, n);
            let after = p.stored(values, element, n + 1);
            &&& after.len() == element.len()
            &&& bytes::word_at(after, at, size as int) == value % bytes::radix(size)
            &&& forall|i: int|
                0 <= i < element.len() && !(at <= i < at + size) ==> #[trigger] after[i]
                    == before[i]
        }),
{
    let field = p.stores[n].field as int;
    let at = body::offset_of(p.layout, field) as int;
    let size = p.layout[field].size();
    let value = values[p.stores[n].value as int] as nat;
    body::lemma_stored_len(p, values, element, n);
    body::lemma_stored_len(p, values, element, n + 1);
    bytes::lemma_low_bytes(value, size);
    let after = p.stored(values, element, n + 1);
    assert(after.subrange(at, at + size) =~= bytes::le_bytes(value, size));
}

} // verus!
