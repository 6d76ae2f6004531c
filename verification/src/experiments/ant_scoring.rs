//! Movement scoring as batch evaluators.
//!
//! One body takes eight readings that somebody gathered and folds them into a
//! direction. The other takes an ant's position and the trail grid, makes the
//! eight reads itself and folds the same fold: sense and choose in one dispatch.

use crate::bytes;
use crate::compiler::body;
use crate::compiler::body::{
    ArraysView, ElementLayout, EvaluatorProgram, FieldWidth, Op, ProgramView, Registers, Store,
};
use crate::compiler::frame;
use crate::executives::native;
use crate::experiments::ant_colony as colony;
use crate::experiments::ant_colony::{direction_offset, read_trail, split_mix};
use crate::text;
use crate::text::{push_decimal, push_text};
use vstd::prelude::*;
use vstd::string::StringExecFns;

verus! {

pub const ANT_MOVEMENT_SCORE: u32 = 11;

/// Readings in an element, one for each neighbour.
pub const READINGS: usize = 8;

/// Eight readings and the chosen direction.
pub const FIELDS: usize = 9;

/// Bytes of an element.
pub const STRIDE: u32 = 36;

/// The field that the body writes.
pub const RESULT_FIELD: usize = 8;

// ---- the choice ------------------------------------------------------------

/// The first of the largest among the first `n` readings.
pub open spec fn first_max(readings: Seq<u32>, n: int) -> int
    decreases n,
{
    if n <= 1 {
        0
    } else {
        let best = first_max(readings, n - 1);
        if readings[best] < readings[n - 1] {
            n - 1
        } else {
            best
        }
    }
}

/// The chosen reading is as large as any, and larger than every one before it.
pub proof fn law_the_first_strict_maximum_wins(readings: Seq<u32>, n: int)
    requires
        1 <= n <= readings.len(),
    ensures
        0 <= first_max(readings, n) < n,
        forall|i: int| 0 <= i < n ==> #[trigger] readings[i] <= readings[first_max(readings, n)],
        forall|i: int|
            0 <= i < first_max(readings, n) ==> #[trigger] readings[i] < readings[first_max(
                readings,
                n,
            )],
    decreases n,
{
    if n > 1 {
        law_the_first_strict_maximum_wins(readings, n - 1);
    }
}

/// One ant's gathered neighbourhood. A neighbour that cannot be entered reads
/// zero, so it never wins.
#[derive(Clone, Copy, Debug, PartialEq, Eq)]
pub struct Neighbourhood {
    pub readings: [u32; 8],
}

impl Neighbourhood {
    /// The direction that the body decides on.
    pub fn expected(&self) -> (direction: u32)
        ensures
            direction == first_max(self.readings@, 8),
            direction < 8,
    {
        let mut best: u32 = self.readings[0];
        let mut index: u32 = 0;
        let mut candidate: usize = 1;
        while candidate < 8
            invariant
                1 <= candidate <= 8,
                index == first_max(self.readings@, candidate as int),
                index < candidate,
                best == self.readings@[index as int],
            decreases 8 - candidate,
        {
            if best < self.readings[candidate] {
                best = self.readings[candidate];
                index = candidate as u32;
            }
            candidate = candidate + 1;
        }
        index
    }

    /// The offset of the chosen direction.
    pub fn direction(&self) -> (offset: (i32, i32))
        ensures
            (offset.0 as int, offset.1 as int) == colony::offset_of_direction(
                first_max(self.readings@, 8),
            ),
    {
        direction_offset(self.expected() as usize)
    }
}

// ---- the scoring body ------------------------------------------------------

/// The place of the best reading of the first `k` and one more.
pub open spec fn best_at(k: int) -> u32 {
    if k <= 0 {
        0
    } else {
        (5 * k - 1) as u32
    }
}

/// The place of its index.
pub open spec fn index_at(k: int) -> u32 {
    if k <= 0 {
        1
    } else {
        (5 * k + 1) as u32
    }
}

/// Operation `i` of the scoring body: a first reading, then five operations for
/// each further one.
pub open spec fn scoring_op(i: int) -> Op {
    if i == 0 {
        Op::Load(0)
    } else if i == 1 {
        Op::Const(0)
    } else {
        let k = (i - 2) / 5;
        let base = 2 + 5 * k;
        let part = (i - 2) % 5;
        if part == 0 {
            Op::Load((k + 1) as u32)
        } else if part == 1 {
            Op::CmpLt(best_at(k), base as u32)
        } else if part == 2 {
            Op::Select((base + 1) as u32, base as u32, best_at(k))
        } else if part == 3 {
            Op::Const((k + 1) as u64)
        } else {
            Op::Select((base + 1) as u32, (base + 3) as u32, index_at(k))
        }
    }
}

pub open spec fn words_of_32(n: nat) -> Seq<FieldWidth> {
    Seq::new(n, |i: int| FieldWidth::U32)
}

pub open spec fn scoring_view() -> ProgramView {
    ProgramView {
        id: ANT_MOVEMENT_SCORE,
        layout: words_of_32(9),
        aux: None,
        ops: Seq::new(37, |i: int| scoring_op(i)),
        stores: seq![Store { field: 8, value: 36 }],
    }
}

proof fn lemma_scoring_is_valid()
    ensures
        scoring_view().is_valid(),
        scoring_view().stride() == 36,
        native::is_straight(scoring_view()),
{
    let p = scoring_view();
    body::lemma_even_offsets(p.layout, FieldWidth::U32, 9);
    assert forall|i: int| 0 <= i < p.ops.len() implies (#[trigger] p.op_fault(i)) is None by {
        assert(p.ops[i] == scoring_op(i));
        let k = (i - 2) / 5;
        let part = (i - 2) % 5;
        if i >= 2 {
            assert(i == 2 + 5 * k + part && 0 <= part < 5 && 0 <= k <= 6);
        }
    }
    assert forall|i: int| 0 <= i < p.ops.len() implies !native::is_loop_op(
        #[trigger] p.ops[i],
    ) by {
        assert(p.ops[i] == scoring_op(i));
    }
    assert forall|i: int| 0 <= i < p.ops.len() implies !(#[trigger] p.ops[i] is Repeat) by {
        assert(!native::is_loop_op(p.ops[i]));
    }
    assert forall|i: int| 0 <= i < p.ops.len() implies !(#[trigger] p.ops[i] is EndRepeat) by {
        assert(!native::is_loop_op(p.ops[i]));
    }
    body::lemma_plain_is_valid(p);
}

fn words_layout(n: usize) -> (layout: ElementLayout)
    ensures
        layout@ == words_of_32(n as nat),
{
    let mut widths: Vec<FieldWidth> = Vec::new();
    let mut i: usize = 0;
    while i < n
        invariant
            i <= n,
            widths@ =~= words_of_32(i as nat),
        decreases n - i,
    {
        widths.push(FieldWidth::U32);
        i = i + 1;
    }
    ElementLayout::new(widths)
}

fn scoring_ops() -> (ops: Vec<Op>)
    ensures
        ops@ == scoring_view().ops,
{
    let mut ops: Vec<Op> = vec![Op::Load(0), Op::Const(0)];
    let mut k: u32 = 0;
    assert(ops@ =~= Seq::new(2, |i: int| scoring_op(i)));
    while k < 7
        invariant
            k <= 7,
            ops@ =~= Seq::new((2 + 5 * k) as nat, |i: int| scoring_op(i)),
        decreases 7 - k,
    {
        let base: u32 = 2 + 5 * k;
        let best: u32 = if k == 0 {
            0
        } else {
            5 * k - 1
        };
        let index: u32 = if k == 0 {
            1
        } else {
            5 * k + 1
        };
        ops.push(Op::Load(k + 1));
        ops.push(Op::CmpLt(best, base));
        ops.push(Op::Select(base + 1, base, best));
        ops.push(Op::Const(k as u64 + 1));
        ops.push(Op::Select(base + 1, base + 3, index));
        k = k + 1;
    }
    assert(ops@ =~= scoring_view().ops);
    ops
}

/// The body that folds eight readings into a direction.
pub fn program() -> (program: EvaluatorProgram)
    ensures
        program@ == scoring_view(),
        program.well_formed(),
{
    let ops: Vec<Op> = scoring_ops();
    let stores: Vec<Store> = vec![Store { field: 8, value: 36 }];
    proof {
        lemma_scoring_is_valid();
        assert(stores@ =~= scoring_view().stores);
    }
    let result = EvaluatorProgram::new(
        ANT_MOVEMENT_SCORE,
        String::from_str("ant_movement_score"),
        words_layout(FIELDS),
        ops,
        stores,
    );
    result.unwrap()
}

/// The readings that a body finds at element `index`.
pub open spec fn readings_at(input: Seq<u8>, index: int) -> Seq<u32> {
    Seq::new(8, |r: int| body::field_value(input, words_of_32(9), index, r) as u32)
}

proof fn lemma_field_is_32_bits(input: Seq<u8>, widths: Seq<FieldWidth>, index: int, field: int)
    requires
        0 <= field < widths.len(),
        0 <= index * body::stride_of(widths) + body::offset_of(widths, field),
        index * body::stride_of(widths) + body::offset_of(widths, field) + widths[field].size()
            <= input.len(),
        widths[field] == FieldWidth::U32,
    ensures
        body::field_value(input, widths, index, field) <= u32::MAX,
{
    let at = index * body::stride_of(widths) + body::offset_of(widths, field);
    bytes::lemma_radix_values();
    bytes::lemma_le_bytes_of_value(input.subrange(at, at + 4));
}

/// One round of the fold.
proof fn lemma_scoring_round(a: ArraysView, index: u32, k: int)
    requires
        0 <= k < 7,
        index < a.count,
        a.count * 36 <= a.input.len(),
        ({
            let p = scoring_view();
            let r = native::straight(p, a, index, 2 + 5 * k);
            let seen = readings_at(a.input, index as int);
            &&& r.values.len() == 37
            &&& r.values[best_at(k) as int] == seen[first_max(seen, k + 1)]
            &&& r.values[index_at(k) as int] == first_max(seen, k + 1)
        }),
    ensures
        ({
            let p = scoring_view();
            let r = native::straight(p, a, index, 2 + 5 * (k + 1));
            let seen = readings_at(a.input, index as int);
            &&& r.values.len() == 37
            &&& r.values[best_at(k + 1) as int] == seen[first_max(seen, k + 2)]
            &&& r.values[index_at(k + 1) as int] == first_max(seen, k + 2)
        }),
{
    let p = scoring_view();
    let seen = readings_at(a.input, index as int);
    let n = 2 + 5 * k;
    let r0 = native::straight(p, a, index, n);
    let r1 = native::straight(p, a, index, n + 1);
    let r2 = native::straight(p, a, index, n + 2);
    let r3 = native::straight(p, a, index, n + 3);
    let r4 = native::straight(p, a, index, n + 4);
    let r5 = native::straight(p, a, index, n + 5);
    law_the_first_strict_maximum_wins(seen, k + 1);
    body::lemma_even_offsets(p.layout, FieldWidth::U32, 9);
    body::lemma_even_offsets(p.layout, FieldWidth::U32, k + 1);
    body::lemma_element_fits(index as int, a.count as int, 36);
    lemma_field_is_32_bits(a.input, p.layout, index as int, k + 1);
    assert(p.ops[n] == scoring_op(n) && scoring_op(n) == Op::Load((k + 1) as u32));
    assert(p.ops[n + 1] == scoring_op(n + 1) && scoring_op(n + 1) == Op::CmpLt(
        best_at(k),
        n as u32,
    ));
    assert(p.ops[n + 2] == scoring_op(n + 2) && scoring_op(n + 2) == Op::Select(
        (n + 1) as u32,
        n as u32,
        best_at(k),
    ));
    assert(p.ops[n + 3] == scoring_op(n + 3) && scoring_op(n + 3) == Op::Const((k + 1) as u64));
    assert(p.ops[n + 4] == scoring_op(n + 4) && scoring_op(n + 4) == Op::Select(
        (n + 1) as u32,
        (n + 3) as u32,
        index_at(k),
    ));
    assert(r1 == p.stepped(a, index, r0, n));
    assert(r2 == p.stepped(a, index, r1, n + 1));
    assert(r3 == p.stepped(a, index, r2, n + 2));
    assert(r4 == p.stepped(a, index, r3, n + 3));
    assert(r5 == p.stepped(a, index, r4, n + 4));
    assert(r1.values[n] == seen[k + 1]);
}

proof fn lemma_scoring_rounds(a: ArraysView, index: u32, k: int)
    requires
        0 <= k <= 7,
        index < a.count,
        a.count * 36 <= a.input.len(),
    ensures
        ({
            let p = scoring_view();
            let r = native::straight(p, a, index, 2 + 5 * k);
            let seen = readings_at(a.input, index as int);
            &&& r.values.len() == 37
            &&& r.values[best_at(k) as int] == seen[first_max(seen, k + 1)]
            &&& r.values[index_at(k) as int] == first_max(seen, k + 1)
        }),
    decreases k,
{
    if k > 0 {
        lemma_scoring_rounds(a, index, k - 1);
        lemma_scoring_round(a, index, k - 1);
    } else {
        let p = scoring_view();
        body::lemma_even_offsets(p.layout, FieldWidth::U32, 9);
        body::lemma_element_fits(index as int, a.count as int, 36);
        lemma_field_is_32_bits(a.input, p.layout, index as int, 0);
        assert(p.ops[0] == scoring_op(0) && p.ops[1] == scoring_op(1));
        reveal_with_fuel(native::straight, 3);
    }
}

/// The scoring body decides, for every element of every array, what
/// `expected` does: the first strict maximum of its readings.
pub proof fn law_the_scoring_body_decides_as_expected(a: ArraysView, index: u32, element: Seq<u8>)
    requires
        index < a.count,
        a.count * 36 <= a.input.len(),
        element.len() == 36,
    ensures
        bytes::word_at(scoring_view().evaluated(a, index, element), 32, 4) == first_max(
            readings_at(a.input, index as int),
            8,
        ),
{
    let p = scoring_view();
    let seen = readings_at(a.input, index as int);
    lemma_scoring_is_valid();
    lemma_scoring_rounds(a, index, 7);
    native::lemma_straight_is_ran(p, a, index, 0);
    law_the_first_strict_maximum_wins(seen, 8);
    let values = p.values_for(a, index);
    assert(values[36] == first_max(seen, 8));
    body::lemma_even_offsets(p.layout, FieldWidth::U32, 8);
    reveal_with_fuel(ProgramView::stored, 2);
    let patch = bytes::le_bytes(values[36] as nat, 4);
    bytes::lemma_le_bytes_len(values[36] as nat, 4);
    bytes::lemma_radix_values();
    bytes::lemma_le_round_trip(values[36] as nat, 4);
    let out = p.evaluated(a, index, element);
    assert(out == bytes::spliced(element, 32, patch));
    assert(out.subrange(32, 36) =~= patch);
}

// ---- packing ---------------------------------------------------------------

/// The words of one neighbourhood: its readings, and a zero for the answer.
pub open spec fn neighbourhood_words(readings: Seq<u32>) -> Seq<(nat, nat)> {
    Seq::new(
        9,
        |i: int|
            if i < 8 {
                (readings[i] as nat, 4nat)
            } else {
                (0nat, 4nat)
            },
    )
}

/// The input array of a batch.
pub open spec fn packed_batch(batch: Seq<Neighbourhood>) -> Seq<u8>
    decreases batch.len(),
{
    if batch.len() == 0 {
        Seq::empty()
    } else {
        packed_batch(batch.drop_last()) + frame::packed(
            neighbourhood_words(batch.last().readings@),
        )
    }
}

/// Packs gathered neighbourhoods into the array that the body reads.
pub fn pack(batch: &[Neighbourhood]) -> (content: Vec<u8>)
    ensures
        content@ == packed_batch(batch@),
{
    let mut content: Vec<u8> = Vec::new();
    let mut i: usize = 0;
    assert(batch@.take(0) =~= Seq::<Neighbourhood>::empty());
    while i < batch.len()
        invariant
            i <= batch.len(),
            content@ == packed_batch(batch@.take(i as int)),
        decreases batch.len() - i,
    {
        let readings: [u32; 8] = batch[i].readings;
        let words: Vec<(u64, usize)> =
            vec![
            (readings[0] as u64, 4),
            (readings[1] as u64, 4),
            (readings[2] as u64, 4),
            (readings[3] as u64, 4),
            (readings[4] as u64, 4),
            (readings[5] as u64, 4),
            (readings[6] as u64, 4),
            (readings[7] as u64, 4),
            (0, 4),
        ];
        assert(frame::words_of(words@) =~= neighbourhood_words(readings@));
        frame::put_words(&mut content, &words);
        assert(batch@.take(i + 1).drop_last() =~= batch@.take(i as int));
        i = i + 1;
    }
    assert(batch@.take(i as int) =~= batch@);
    content
}

proof fn lemma_packed_len(batch: Seq<Neighbourhood>)
    ensures
        packed_batch(batch).len() == 36 * batch.len(),
    decreases batch.len(),
{
    if batch.len() > 0 {
        lemma_packed_len(batch.drop_last());
        lemma_even_words(neighbourhood_words(batch.last().readings@), 9);
        frame::lemma_packed_len(neighbourhood_words(batch.last().readings@));
    }
}

proof fn lemma_even_words(words: Seq<(nat, nat)>, i: int)
    requires
        0 <= i <= words.len(),
        forall|j: int| 0 <= j < words.len() ==> (#[trigger] words[j]).1 == 4,
    ensures
        frame::word_offset(words, i) == 4 * i,
    decreases i,
{
    if i > 0 {
        lemma_even_words(words, i - 1);
        assert(words[i - 1].1 == 4);
    }
}

/// The scoring body finds in a packed batch the readings that were packed.
pub proof fn law_packed_readings_are_found(batch: Seq<Neighbourhood>, index: int)
    requires
        0 <= index < batch.len(),
    ensures
        packed_batch(batch).len() == 36 * batch.len(),
        readings_at(packed_batch(batch), index) == batch[index].readings@,
    decreases batch.len(),
{
    lemma_packed_len(batch);
    let whole = packed_batch(batch);
    let widths = words_of_32(9);
    body::lemma_even_offsets(widths, FieldWidth::U32, 9);
    if index < batch.len() - 1 {
        law_packed_readings_are_found(batch.drop_last(), index);
        let part = packed_batch(batch.drop_last());
        assert forall|r: int| 0 <= r < 8 implies #[trigger] readings_at(whole, index)[r]
            == readings_at(part, index)[r] by {
            body::lemma_even_offsets(widths, FieldWidth::U32, r);
            let at = index * 36 + 4 * r;
            assert(whole.subrange(at, at + 4) =~= part.subrange(at, at + 4));
        }
        assert(readings_at(whole, index) =~= batch[index].readings@) by {
            assert(batch.drop_last()[index] == batch[index]);
        }
    } else {
        let words = neighbourhood_words(batch.last().readings@);
        lemma_even_words(words, 9);
        frame::lemma_packed_len(words);
        lemma_packed_len(batch.drop_last());
        bytes::lemma_radix_values();
        assert forall|r: int| 0 <= r < 8 implies #[trigger] readings_at(whole, index)[r]
            == batch[index].readings@[r] by {
            body::lemma_even_offsets(widths, FieldWidth::U32, r);
            lemma_even_words(words, r);
            assert(words[r] == (batch[index].readings@[r] as nat, 4nat));
            frame::lemma_packed_word(words, r);
            let at = index * 36 + 4 * r;
            assert(index * body::stride_of(widths) + body::offset_of(widths, r) == at);
            assert(whole.subrange(at, at + 4) =~= frame::packed(words).subrange(
                4 * r,
                4 * r + 4,
            ));
        }
        assert(readings_at(whole, index) =~= batch[index].readings@);
    }
}

/// The word at `at`, or zero where the array does not reach.
pub open spec fn word_or_zero(content: Seq<u8>, at: int) -> u32 {
    if at + 4 <= content.len() {
        bytes::word_at(content, at, 4) as u32
    } else {
        0
    }
}

fn answers(content: &[u8], count: usize, stride: usize, offset: usize) -> (found: Vec<u32>)
    requires
        count * stride + offset + 4 <= usize::MAX,
    ensures
        found@ == Seq::new(
            count as nat,
            |i: int| word_or_zero(content@, i * stride + offset),
        ),
{
    let mut found: Vec<u32> = Vec::new();
    let len: usize = content.len();
    let mut i: usize = 0;
    while i < count
        invariant
            i <= count,
            len == content@.len(),
            count * stride + offset + 4 <= usize::MAX,
            found@ =~= Seq::new(
                i as nat,
                |j: int| word_or_zero(content@, j * stride + offset),
            ),
        decreases count - i,
    {
        proof {
            assert(0 <= i * stride <= count * stride) by (nonlinear_arith)
                requires
                    0 <= i <= count,
                    0 <= stride,
            ;
            bytes::lemma_radix_values();
        }
        let at: usize = i * stride + offset;
        let word: u32 = if at + 4 <= len {
            bytes::get_le(content, at, 4) as u32
        } else {
            0
        };
        found.push(word);
        i = i + 1;
    }
    found
}

/// The chosen directions in a published output array.
pub fn unpack(content: &[u8], count: usize) -> (found: Vec<u32>)
    requires
        count * 36 + 36 <= usize::MAX,
    ensures
        found@ == Seq::new(count as nat, |i: int| word_or_zero(content@, i * 36 + 32)),
{
    let found: Vec<u32> = answers(content, count, 36, 32);
    assert(found@ =~= Seq::new(count as nat, |i: int| word_or_zero(content@, i * 36 + 32)));
    found
}

// ---- sample neighbourhoods -------------------------------------------------

/// The generator's state after `n` draws of the spread.
pub open spec fn spread_state(n: nat) -> u64
    decreases n,
{
    if n == 0 {
        0x5EED_A417_C0FF_EE11
    } else {
        let before = spread_state((n - 1) as nat);
        colony::rng_draw(before) ^ before.wrapping_mul(0x9E37_79B9_7F4A_7C15)
    }
}

/// Neighbourhood `i` of the samples: no trail at all, a tie, a saturated first
/// and last reading, a single winner in each position, and a spread.
pub open spec fn sample_readings(i: int) -> Seq<u32> {
    Seq::new(
        8,
        |r: int|
            if i == 0 {
                0
            } else if i == 1 {
                9
            } else if i == 2 {
                if r == 0 {
                    u32::MAX
                } else {
                    r as u32
                }
            } else if i == 3 {
                if r == 7 {
                    u32::MAX
                } else {
                    (r + 1) as u32
                }
            } else if i < 12 {
                if r == i - 4 {
                    1000
                } else {
                    3
                }
            } else {
                (spread_state((8 * (i - 12) + r + 1) as nat) >> 33) as u32
            },
    )
}

/// A fixed batch of neighbourhoods with the edges worth hitting.
pub fn sample_batch() -> (batch: Vec<Neighbourhood>)
    ensures
        batch@.len() == 36,
        forall|i: int| 0 <= i < 36 ==> (#[trigger] batch@[i]).readings@ == sample_readings(i),
{
    let mut batch: Vec<Neighbourhood> = vec![
        Neighbourhood { readings: [0, 0, 0, 0, 0, 0, 0, 0] },
        Neighbourhood { readings: [9, 9, 9, 9, 9, 9, 9, 9] },
        Neighbourhood { readings: [u32::MAX, 1, 2, 3, 4, 5, 6, 7] },
        Neighbourhood { readings: [1, 2, 3, 4, 5, 6, 7, u32::MAX] },
    ];
    proof {
        assert(batch@[0].readings@ =~= sample_readings(0));
        assert(batch@[1].readings@ =~= sample_readings(1));
        assert(batch@[2].readings@ =~= sample_readings(2));
        assert(batch@[3].readings@ =~= sample_readings(3));
    }
    let mut winner: usize = 0;
    while winner < 8
        invariant
            winner <= 8,
            batch@.len() == 4 + winner,
            forall|i: int|
                0 <= i < 4 + winner ==> (#[trigger] batch@[i]).readings@ == sample_readings(i),
        decreases 8 - winner,
    {
        let mut readings: [u32; 8] = [3, 3, 3, 3, 3, 3, 3, 3];
        readings[winner] = 1000;
        assert(readings@ =~= sample_readings(4 + winner));
        batch.push(Neighbourhood { readings });
        winner = winner + 1;
    }
    let mut state: u64 = 0x5EED_A417_C0FF_EE11;
    let mut n: usize = 0;
    while n < 24
        invariant
            n <= 24,
            batch@.len() == 12 + n,
            state == spread_state((8 * n) as nat),
            forall|i: int|
                0 <= i < 12 + n ==> (#[trigger] batch@[i]).readings@ == sample_readings(i),
        decreases 24 - n,
    {
        let mut readings: [u32; 8] = [0, 0, 0, 0, 0, 0, 0, 0];
        let mut r: usize = 0;
        while r < 8
            invariant
                r <= 8,
                n < 24,
                state == spread_state((8 * n + r) as nat),
                forall|j: int|
                    0 <= j < r ==> #[trigger] readings@[j] == (spread_state(
                        (8 * n + j + 1) as nat,
                    ) >> 33) as u32,
            decreases 8 - r,
        {
            let mut copy: u64 = state;
            let drawn: u64 = split_mix(&mut copy);
            state = drawn ^ state.wrapping_mul(0x9E37_79B9_7F4A_7C15);
            assert(state == spread_state((8 * n + r + 1) as nat));
            readings[r] = #[verifier::truncate] ((state >> 33) as u32);
            r = r + 1;
        }
        assert(readings@ =~= sample_readings(12 + n));
        batch.push(Neighbourhood { readings });
        n = n + 1;
    }
    batch
}

// ---- sensing ---------------------------------------------------------------

pub const ANT_SENSE_AND_SCORE: u32 = 16;

pub const SENSE_X: usize = 0;

pub const SENSE_Y: usize = 1;

pub const SENSE_WIDTH: usize = 2;

pub const SENSE_HEIGHT: usize = 3;

/// Which trail is read.
pub const SENSE_CHANNEL: usize = 4;

pub const SENSE_RESULT: usize = 5;

pub const SENSE_FIELDS: usize = 6;

pub const SENSE_STRIDE: u32 = 24;

/// One ant's position and the grid it is on, as the sensing body reads it.
#[derive(Clone, Copy, Debug, PartialEq, Eq, Structural)]
pub struct Sensor {
    pub x: u32,
    pub y: u32,
    pub width: u32,
    pub height: u32,
    pub channel: u32,
}

impl Sensor {
    pub open spec fn cells(self) -> int {
        self.width * self.height
    }

    /// The cell that direction `d` leads to, where it lies in the grid.
    pub open spec fn cell_towards(self, d: int) -> Option<int> {
        let (dx, dy) = colony::offset_of_direction(d);
        let nx = self.x + dx;
        let ny = self.y + dy;
        if 0 <= nx < self.width && 0 <= ny < self.height {
            Some(ny * self.width + nx)
        } else {
            None
        }
    }

    /// The trail towards direction `d`: none outside the grid.
    pub open spec fn sensed(self, grid: Seq<u8>, d: int) -> u32 {
        match self.cell_towards(d) {
            Some(cell) => colony::trail_at(grid, self.cells(), self.channel as int, cell) as u32,
            None => 0,
        }
    }

    pub open spec fn readings(self, grid: Seq<u8>) -> Seq<u32> {
        Seq::new(8, |d: int| self.sensed(grid, d))
    }
}

proof fn lemma_cell(sensor: Sensor, d: int)
    requires
        sensor.cell_towards(d) is Some,
    ensures
        0 <= sensor.cell_towards(d)->Some_0 < sensor.cells(),
{
    let (dx, dy) = colony::offset_of_direction(d);
    let nx = sensor.x + dx;
    let ny = sensor.y + dy;
    let w = sensor.width as int;
    let h = sensor.height as int;
    assert(0 <= ny * w + nx < w * h) by (nonlinear_arith)
        requires
            0 <= nx < w,
            0 <= ny < h,
    ;
}

/// What the sensing body decides, gathered from the grid on the host and
/// chosen as `Neighbourhood::expected` does.
pub fn expected_direction(sensor: &Sensor, grid: &[u8]) -> (direction: u32)
    requires
        colony::trail_offset(sensor.cells(), sensor.channel as int, sensor.cells()) < usize::MAX,
    ensures
        direction == first_max(sensor.readings(grid@), 8),
        direction < 8,
{
    proof {
        let c = sensor.cells();
        let t = sensor.channel as int;
        assert(0 <= c) by (nonlinear_arith)
            requires
                c == sensor.width * sensor.height,
        ;
        assert(0 <= t * c) by (nonlinear_arith)
            requires
                0 <= c,
                0 <= t,
        ;
    }
    let cells: usize = sensor.width as usize * sensor.height as usize;
    let mut readings: [u32; 8] = [0, 0, 0, 0, 0, 0, 0, 0];
    let mut d: usize = 0;
    while d < 8
        invariant
            d <= 8,
            cells == sensor.cells(),
            colony::trail_offset(sensor.cells(), sensor.channel as int, sensor.cells())
                < usize::MAX,
            0 <= sensor.channel * sensor.cells(),
            forall|j: int| 0 <= j < d ==> #[trigger] readings@[j] == sensor.sensed(grid@, j),
            forall|j: int| d <= j < 8 ==> #[trigger] readings@[j] == 0,
        decreases 8 - d,
    {
        let (dx, dy) = direction_offset(d);
        let nx: i64 = sensor.x as i64 + dx as i64;
        let ny: i64 = sensor.y as i64 + dy as i64;
        if 0 <= nx && 0 <= ny && nx < sensor.width as i64 && ny < sensor.height as i64 {
            proof {
                lemma_cell(*sensor, d as int);
                assert(0 <= ny * sensor.width) by (nonlinear_arith)
                    requires
                        0 <= ny,
                ;
            }
            let cell: usize = ny as usize * sensor.width as usize + nx as usize;
            let trail: u16 = read_trail(grid, cells, sensor.channel as usize, cell);
            readings[d] = trail as u32;
        }
        d = d + 1;
    }
    assert(readings@ =~= sensor.readings(grid@));
    Neighbourhood { readings }.expected()
}

/// A neighbour's offset as the body adds it: a negative one wraps.
pub open spec fn wrapped(offset: int) -> u64 {
    if offset < 0 {
        u64::MAX
    } else {
        offset as u64
    }
}

/// The place of the reading towards `d`.
pub open spec fn sensed_at(d: int) -> u32 {
    (19 + 12 * d) as u32
}

pub open spec fn sense_best_at(k: int) -> u32 {
    if k <= 0 {
        19
    } else {
        (101 + 4 * k) as u32
    }
}

pub open spec fn sense_index_at(k: int) -> u32 {
    if k <= 0 {
        7
    } else {
        (103 + 4 * k) as u32
    }
}

/// Operation `part` of the twelve that read the neighbour towards `d`. The
/// bounds are tested without signs: a neighbour before the first column wraps
/// to a value far past the width.
pub open spec fn reading_op(d: int, part: int) -> Op {
    let b = 8 + 12 * d;
    let (dx, dy) = colony::offset_of_direction(d);
    if part == 0 {
        Op::Const(wrapped(dx))
    } else if part == 1 {
        Op::Const(wrapped(dy))
    } else if part == 2 {
        Op::Add(0, b as u32)
    } else if part == 3 {
        Op::Add(1, (b + 1) as u32)
    } else if part == 4 {
        Op::CmpLt((b + 2) as u32, 2)
    } else if part == 5 {
        Op::CmpLt((b + 3) as u32, 3)
    } else if part == 6 {
        Op::And((b + 4) as u32, (b + 5) as u32)
    } else if part == 7 {
        Op::Mul((b + 3) as u32, 2)
    } else if part == 8 {
        Op::Add((b + 7) as u32, (b + 2) as u32)
    } else if part == 9 {
        Op::Add(6, (b + 8) as u32)
    } else if part == 10 {
        Op::GatherAux((b + 9) as u32, 0)
    } else {
        Op::Select((b + 6) as u32, (b + 10) as u32, 7)
    }
}

/// Operation `part` of the four that fold reading `k + 1`.
pub open spec fn folding_op(k: int, part: int) -> Op {
    let b = 104 + 4 * k;
    if part == 0 {
        Op::CmpLt(sense_best_at(k), sensed_at(k + 1))
    } else if part == 1 {
        Op::Select(b as u32, sensed_at(k + 1), sense_best_at(k))
    } else if part == 2 {
        Op::Const((k + 1) as u64)
    } else {
        Op::Select(b as u32, (b + 2) as u32, sense_index_at(k))
    }
}

pub open spec fn sensing_op(i: int) -> Op {
    if i < 5 {
        Op::Load(i as u32)
    } else if i == 5 {
        Op::Mul(2, 3)
    } else if i == 6 {
        Op::Mul(4, 5)
    } else if i == 7 {
        Op::Const(0)
    } else if i < 104 {
        reading_op((i - 8) / 12, (i - 8) % 12)
    } else {
        folding_op((i - 104) / 4, (i - 104) % 4)
    }
}

pub open spec fn sensing_view() -> ProgramView {
    ProgramView {
        id: ANT_SENSE_AND_SCORE,
        layout: words_of_32(6),
        aux: Some(seq![FieldWidth::U16]),
        ops: Seq::new(132, |i: int| sensing_op(i)),
        stores: seq![Store { field: 5, value: 131 }],
    }
}

proof fn lemma_sensing_is_valid()
    ensures
        sensing_view().is_valid(),
        sensing_view().stride() == 24,
        sensing_view().aux_stride() == 2,
        native::is_straight(sensing_view()),
{
    let p = sensing_view();
    body::lemma_even_offsets(p.layout, FieldWidth::U32, 6);
    body::lemma_even_offsets(p.aux->Some_0, FieldWidth::U16, 1);
    assert forall|i: int| 0 <= i < p.ops.len() implies (#[trigger] p.op_fault(i)) is None by {
        assert(p.ops[i] == sensing_op(i));
        let d = (i - 8) / 12;
        let part = (i - 8) % 12;
        let k = (i - 104) / 4;
        let rest = (i - 104) % 4;
        if 8 <= i < 104 {
            assert(i == 8 + 12 * d + part && 0 <= part < 12 && 0 <= d <= 7);
        } else if i >= 104 {
            assert(i == 104 + 4 * k + rest && 0 <= rest < 4 && 0 <= k <= 6);
        }
    }
    assert forall|i: int| 0 <= i < p.ops.len() implies !native::is_loop_op(
        #[trigger] p.ops[i],
    ) by {
        assert(p.ops[i] == sensing_op(i));
    }
    assert forall|i: int| 0 <= i < p.ops.len() implies !(#[trigger] p.ops[i] is Repeat) by {
        assert(!native::is_loop_op(p.ops[i]));
    }
    assert forall|i: int| 0 <= i < p.ops.len() implies !(#[trigger] p.ops[i] is EndRepeat) by {
        assert(!native::is_loop_op(p.ops[i]));
    }
    body::lemma_plain_is_valid(p);
}

fn wrapped_offset(offset: i32) -> (value: u64)
    requires
        -1 <= offset <= 1,
    ensures
        value == wrapped(offset as int),
{
    if offset < 0 {
        u64::MAX
    } else {
        offset as u64
    }
}

fn sensing_ops() -> (ops: Vec<Op>)
    ensures
        ops@ == sensing_view().ops,
{
    let mut ops: Vec<Op> = vec![
        Op::Load(0),
        Op::Load(1),
        Op::Load(2),
        Op::Load(3),
        Op::Load(4),
        Op::Mul(2, 3),
        Op::Mul(4, 5),
        Op::Const(0),
    ];
    let mut d: u32 = 0;
    assert(ops@ =~= Seq::new(8, |i: int| sensing_op(i)));
    while d < 8
        invariant
            d <= 8,
            ops@ =~= Seq::new((8 + 12 * d) as nat, |i: int| sensing_op(i)),
        decreases 8 - d,
    {
        let b: u32 = 8 + 12 * d;
        let (dx, dy) = direction_offset(d as usize);
        ops.push(Op::Const(wrapped_offset(dx)));
        ops.push(Op::Const(wrapped_offset(dy)));
        ops.push(Op::Add(0, b));
        ops.push(Op::Add(1, b + 1));
        ops.push(Op::CmpLt(b + 2, 2));
        ops.push(Op::CmpLt(b + 3, 3));
        ops.push(Op::And(b + 4, b + 5));
        ops.push(Op::Mul(b + 3, 2));
        ops.push(Op::Add(b + 7, b + 2));
        ops.push(Op::Add(6, b + 8));
        ops.push(Op::GatherAux(b + 9, 0));
        ops.push(Op::Select(b + 6, b + 10, 7));
        d = d + 1;
    }
    let mut k: u32 = 0;
    while k < 7
        invariant
            k <= 7,
            ops@ =~= Seq::new((104 + 4 * k) as nat, |i: int| sensing_op(i)),
        decreases 7 - k,
    {
        let b: u32 = 104 + 4 * k;
        let best: u32 = if k == 0 {
            19
        } else {
            101 + 4 * k
        };
        let index: u32 = if k == 0 {
            7
        } else {
            103 + 4 * k
        };
        let reading: u32 = 19 + 12 * (k + 1);
        ops.push(Op::CmpLt(best, reading));
        ops.push(Op::Select(b, reading, best));
        ops.push(Op::Const(k as u64 + 1));
        ops.push(Op::Select(b, b + 2, index));
        k = k + 1;
    }
    assert(ops@ =~= sensing_view().ops);
    ops
}

/// The body that senses and chooses.
pub fn sensing_program() -> (program: EvaluatorProgram)
    ensures
        program@ == sensing_view(),
        program.well_formed(),
{
    let ops: Vec<Op> = sensing_ops();
    let stores: Vec<Store> = vec![Store { field: 5, value: 131 }];
    let grid: Vec<FieldWidth> = vec![FieldWidth::U16];
    proof {
        lemma_sensing_is_valid();
        assert(stores@ =~= sensing_view().stores);
        assert(grid@ =~= seq![FieldWidth::U16]);
    }
    let result = EvaluatorProgram::with_aux(
        ANT_SENSE_AND_SCORE,
        String::from_str("ant_sense_and_score"),
        words_layout(SENSE_FIELDS),
        ElementLayout::new(grid),
        ops,
        stores,
    );
    result.unwrap()
}

/// The sensor that a body finds at element `index`.
pub open spec fn sensor_at(input: Seq<u8>, index: int) -> Sensor {
    let widths = words_of_32(6);
    Sensor {
        x: body::field_value(input, widths, index, 0) as u32,
        y: body::field_value(input, widths, index, 1) as u32,
        width: body::field_value(input, widths, index, 2) as u32,
        height: body::field_value(input, widths, index, 3) as u32,
        channel: body::field_value(input, widths, index, 4) as u32,
    }
}

/// The grid holds the trail that a sensor reads.
pub open spec fn grid_reaches(a: ArraysView, sensor: Sensor) -> bool {
    &&& 2 * a.aux_count <= a.aux.len()
    &&& a.aux_count <= u32::MAX
    &&& (sensor.channel + 1) * sensor.cells() <= a.aux_count
}

/// What the body knows after its first operations.
spec fn is_primed(r: Registers, sensor: Sensor) -> bool {
    &&& r.values.len() == 132
    &&& r.values[0] == sensor.x
    &&& r.values[1] == sensor.y
    &&& r.values[2] == sensor.width
    &&& r.values[3] == sensor.height
    &&& sensor.cells() <= u32::MAX ==> r.values[6] == sensor.channel * sensor.cells()
    &&& r.values[7] == 0
}

proof fn lemma_primed(a: ArraysView, index: u32)
    requires
        index < a.count,
        a.count * 24 <= a.input.len(),
    ensures
        is_primed(
            native::straight(sensing_view(), a, index, 8),
            sensor_at(a.input, index as int),
        ),
{
    let p = sensing_view();
    let s = sensor_at(a.input, index as int);
    body::lemma_even_offsets(p.layout, FieldWidth::U32, 6);
    body::lemma_element_fits(index as int, a.count as int, 24);
    assert forall|f: int| 0 <= f < 5 implies #[trigger] body::field_value(
        a.input,
        p.layout,
        index as int,
        f,
    ) <= u32::MAX by {
        body::lemma_even_offsets(p.layout, FieldWidth::U32, f);
        lemma_field_is_32_bits(a.input, p.layout, index as int, f);
    }
    assert(body::field_value(a.input, p.layout, index as int, 0) == s.x);
    assert(body::field_value(a.input, p.layout, index as int, 1) == s.y);
    assert(body::field_value(a.input, p.layout, index as int, 2) == s.width);
    assert(body::field_value(a.input, p.layout, index as int, 3) == s.height);
    assert(body::field_value(a.input, p.layout, index as int, 4) == s.channel);
    let cells = s.cells();
    assert(0 <= cells <= 0xffff_ffff * 0xffff_ffff) by (nonlinear_arith)
        requires
            cells == s.width * s.height,
            0 <= s.width <= 0xffff_ffff,
            0 <= s.height <= 0xffff_ffff,
    ;
    if cells <= u32::MAX {
        assert(0 <= s.channel * cells <= 0xffff_ffff * 0xffff_ffff) by (nonlinear_arith)
            requires
                0 <= cells <= 0xffff_ffff,
                0 <= s.channel <= 0xffff_ffff,
        ;
    }
    reveal_with_fuel(native::straight, 9);
    assert(p.ops[0] == Op::Load(0) && p.ops[1] == Op::Load(1) && p.ops[2] == Op::Load(2)
        && p.ops[3] == Op::Load(3) && p.ops[4] == Op::Load(4) && p.ops[5] == Op::Mul(2, 3)
        && p.ops[6] == Op::Mul(4, 5) && p.ops[7] == Op::Const(0));
}

proof fn lemma_both(x: u64, y: u64)
    by (bit_vector)
    requires
        x == 0 || x == 1,
        y == 0 || y == 1,
    ensures
        x & y == if x == 1 && y == 1 {
            1u64
        } else {
            0u64
        },
{
}

/// The twelve operations that read one neighbour, run.
#[verifier::rlimit(60)]
#[verifier::spinoff_prover]
proof fn lemma_reading(a: ArraysView, index: u32, d: int)
    requires
        0 <= d < 8,
        grid_reaches(a, sensor_at(a.input, index as int)),
        is_primed(
            native::straight(sensing_view(), a, index, 8 + 12 * d),
            sensor_at(a.input, index as int),
        ),
    ensures
        ({
            let s = sensor_at(a.input, index as int);
            let before = native::straight(sensing_view(), a, index, 8 + 12 * d);
            let after = native::straight(sensing_view(), a, index, 8 + 12 * (d + 1));
            &&& after.values.len() == 132
            &&& forall|j: int| 0 <= j < 8 + 12 * d ==> #[trigger] after.values[j]
                == before.values[j]
            &&& after.values[sensed_at(d) as int] == s.sensed(a.aux, d)
        }),
{
    let p = sensing_view();
    let s = sensor_at(a.input, index as int);
    let b = 8 + 12 * d;
    let (dx, dy) = colony::offset_of_direction(d);
    let r0 = native::straight(p, a, index, b);
    let r1 = native::straight(p, a, index, b + 1);
    let r2 = native::straight(p, a, index, b + 2);
    let r3 = native::straight(p, a, index, b + 3);
    let r4 = native::straight(p, a, index, b + 4);
    let r5 = native::straight(p, a, index, b + 5);
    let r6 = native::straight(p, a, index, b + 6);
    let r7 = native::straight(p, a, index, b + 7);
    let r8 = native::straight(p, a, index, b + 8);
    let r9 = native::straight(p, a, index, b + 9);
    let r10 = native::straight(p, a, index, b + 10);
    let r11 = native::straight(p, a, index, b + 11);
    let r12 = native::straight(p, a, index, b + 12);
    assert forall|part: int| 0 <= part < 12 implies #[trigger] p.ops[b + part] == reading_op(
        d,
        part,
    ) by {
        assert((b + part - 8) / 12 == d && (b + part - 8) % 12 == part);
    }
    assert(p.ops[b + 0] == reading_op(d, 0));
    assert(r1 == p.stepped(a, index, r0, b));
    assert(r2 == p.stepped(a, index, r1, b + 1));
    assert(r3 == p.stepped(a, index, r2, b + 2));
    assert(r4 == p.stepped(a, index, r3, b + 3));
    assert(r5 == p.stepped(a, index, r4, b + 4));
    assert(r6 == p.stepped(a, index, r5, b + 5));
    assert(r7 == p.stepped(a, index, r6, b + 6));
    assert(r8 == p.stepped(a, index, r7, b + 7));
    assert(r9 == p.stepped(a, index, r8, b + 8));
    assert(r10 == p.stepped(a, index, r9, b + 9));
    assert(r11 == p.stepped(a, index, r10, b + 10));
    assert(r12 == p.stepped(a, index, r11, b + 11));
    let in_x = 0 <= s.x + dx < s.width;
    let in_y = 0 <= s.y + dy < s.height;
    assert(r12.values[b + 2] == (s.x as u64).wrapping_add(wrapped(dx)));
    assert(r12.values[b + 3] == (s.y as u64).wrapping_add(wrapped(dy)));
    assert(in_x ==> r12.values[b + 2] == s.x + dx);
    assert(in_y ==> r12.values[b + 3] == s.y + dy);
    assert(r12.values[b + 4] == body::truth(in_x));
    assert(r12.values[b + 5] == body::truth(in_y));
    lemma_both(r12.values[b + 4], r12.values[b + 5]);
    assert(r12.values[b + 6] == body::truth(in_x && in_y));
    assert(r12.values[b + 11] == if r12.values[b + 6] != 0 {
        r12.values[b + 10]
    } else {
        0
    });
    if in_x && in_y {
        lemma_cell(s, d);
        let cells = s.cells();
        let cell = s.cell_towards(d)->Some_0;
        let c = s.channel as int;
        let row = (s.y + dy) * s.width;
        assert(0 <= row) by (nonlinear_arith)
            requires
                row == (s.y + dy) * s.width,
                0 <= s.y + dy,
                0 <= s.width,
        ;
        assert(c * cells + cells == (c + 1) * cells) by (nonlinear_arith);
        assert(0 <= c * cells) by (nonlinear_arith)
            requires
                0 <= c,
                0 <= cells,
        ;
        assert(r12.values[b + 7] == row);
        assert(r12.values[b + 8] == cell);
        assert(r12.values[b + 9] == c * cells + cell);
        body::lemma_even_offsets(p.aux->Some_0, FieldWidth::U16, 1);
        body::lemma_even_offsets(p.aux->Some_0, FieldWidth::U16, 0);
        let at = c * cells + cell;
        assert(body::clamped(at as u64, a.aux_count) == at);
        let place = colony::trail_offset(cells, c, cell);
        assert(place == 2 * at) by (nonlinear_arith)
            requires
                place == (c * cells + cell) * 2,
                at == c * cells + cell,
        ;
        bytes::lemma_radix_values();
        bytes::lemma_le_bytes_of_value(a.aux.subrange(place, place + 2));
        assert(r12.values[b + 10] == bytes::word_at(a.aux, place, 2) as u64);
    }
}

proof fn lemma_readings(a: ArraysView, index: u32, n: int)
    requires
        0 <= n <= 8,
        index < a.count,
        a.count * 24 <= a.input.len(),
        grid_reaches(a, sensor_at(a.input, index as int)),
    ensures
        ({
            let s = sensor_at(a.input, index as int);
            let r = native::straight(sensing_view(), a, index, 8 + 12 * n);
            &&& is_primed(r, s)
            &&& forall|d: int|
                0 <= d < n ==> r.values[(#[trigger] sensed_at(d)) as int] == s.sensed(a.aux, d)
        }),
    decreases n,
{
    if n > 0 {
        lemma_readings(a, index, n - 1);
        lemma_reading(a, index, n - 1);
    } else {
        lemma_primed(a, index);
    }
}

/// One round of the fold over what was sensed.
proof fn lemma_sensing_round(a: ArraysView, index: u32, k: int)
    requires
        0 <= k < 7,
        ({
            let s = sensor_at(a.input, index as int);
            let seen = s.readings(a.aux);
            let r = native::straight(sensing_view(), a, index, 104 + 4 * k);
            &&& r.values.len() == 132
            &&& forall|d: int|
                0 <= d < 8 ==> r.values[(#[trigger] sensed_at(d)) as int] == s.sensed(a.aux, d)
            &&& r.values[sense_best_at(k) as int] == seen[first_max(seen, k + 1)]
            &&& r.values[sense_index_at(k) as int] == first_max(seen, k + 1)
        }),
    ensures
        ({
            let s = sensor_at(a.input, index as int);
            let seen = s.readings(a.aux);
            let r = native::straight(sensing_view(), a, index, 104 + 4 * (k + 1));
            &&& r.values.len() == 132
            &&& forall|d: int|
                0 <= d < 8 ==> r.values[(#[trigger] sensed_at(d)) as int] == s.sensed(a.aux, d)
            &&& r.values[sense_best_at(k + 1) as int] == seen[first_max(seen, k + 2)]
            &&& r.values[sense_index_at(k + 1) as int] == first_max(seen, k + 2)
        }),
{
    let p = sensing_view();
    let s = sensor_at(a.input, index as int);
    let seen = s.readings(a.aux);
    let b = 104 + 4 * k;
    let r0 = native::straight(p, a, index, b);
    let r1 = native::straight(p, a, index, b + 1);
    let r2 = native::straight(p, a, index, b + 2);
    let r3 = native::straight(p, a, index, b + 3);
    let r4 = native::straight(p, a, index, b + 4);
    law_the_first_strict_maximum_wins(seen, k + 1);
    assert forall|part: int| 0 <= part < 4 implies #[trigger] p.ops[b + part] == folding_op(
        k,
        part,
    ) by {
        assert((b + part - 104) / 4 == k && (b + part - 104) % 4 == part);
    }
    assert(p.ops[b + 0] == folding_op(k, 0));
    assert(r1 == p.stepped(a, index, r0, b));
    assert(r2 == p.stepped(a, index, r1, b + 1));
    assert(r3 == p.stepped(a, index, r2, b + 2));
    assert(r4 == p.stepped(a, index, r3, b + 3));
    assert(r0.values[sensed_at(k + 1) as int] == seen[k + 1]);
}

proof fn lemma_sensing_rounds(a: ArraysView, index: u32, k: int)
    requires
        0 <= k <= 7,
        index < a.count,
        a.count * 24 <= a.input.len(),
        grid_reaches(a, sensor_at(a.input, index as int)),
    ensures
        ({
            let s = sensor_at(a.input, index as int);
            let seen = s.readings(a.aux);
            let r = native::straight(sensing_view(), a, index, 104 + 4 * k);
            &&& r.values.len() == 132
            &&& forall|d: int|
                0 <= d < 8 ==> r.values[(#[trigger] sensed_at(d)) as int] == s.sensed(a.aux, d)
            &&& r.values[sense_best_at(k) as int] == seen[first_max(seen, k + 1)]
            &&& r.values[sense_index_at(k) as int] == first_max(seen, k + 1)
        }),
    decreases k,
{
    if k > 0 {
        lemma_sensing_rounds(a, index, k - 1);
        lemma_sensing_round(a, index, k - 1);
    } else {
        lemma_readings(a, index, 8);
        let s = sensor_at(a.input, index as int);
        let r = native::straight(sensing_view(), a, index, 104);
        assert(r.values[sensed_at(0) as int] == s.sensed(a.aux, 0));
    }
}

/// The sensing body decides, for every sensor over every grid that holds its
/// trail, what sensing on the host does.
pub proof fn law_the_sensing_body_decides_as_expected(a: ArraysView, index: u32, element: Seq<u8>)
    requires
        index < a.count,
        a.count * 24 <= a.input.len(),
        grid_reaches(a, sensor_at(a.input, index as int)),
        element.len() == 24,
    ensures
        bytes::word_at(sensing_view().evaluated(a, index, element), 20, 4) == first_max(
            sensor_at(a.input, index as int).readings(a.aux),
            8,
        ),
{
    let p = sensing_view();
    let seen = sensor_at(a.input, index as int).readings(a.aux);
    lemma_sensing_is_valid();
    lemma_sensing_rounds(a, index, 7);
    native::lemma_straight_is_ran(p, a, index, 0);
    law_the_first_strict_maximum_wins(seen, 8);
    let values = p.values_for(a, index);
    assert(values[131] == first_max(seen, 8));
    body::lemma_even_offsets(p.layout, FieldWidth::U32, 5);
    reveal_with_fuel(ProgramView::stored, 2);
    let patch = bytes::le_bytes(values[131] as nat, 4);
    bytes::lemma_le_bytes_len(values[131] as nat, 4);
    bytes::lemma_radix_values();
    bytes::lemma_le_round_trip(values[131] as nat, 4);
    let out = p.evaluated(a, index, element);
    assert(out == bytes::spliced(element, 20, patch));
    assert(out.subrange(20, 24) =~= patch);
}

/// The words of one sensor, and a zero for the answer.
pub open spec fn sensor_words(s: Sensor) -> Seq<(nat, nat)> {
    seq![
        (s.x as nat, 4nat),
        (s.y as nat, 4nat),
        (s.width as nat, 4nat),
        (s.height as nat, 4nat),
        (s.channel as nat, 4nat),
        (0nat, 4nat),
    ]
}

pub open spec fn packed_sensors(batch: Seq<Sensor>) -> Seq<u8>
    decreases batch.len(),
{
    if batch.len() == 0 {
        Seq::empty()
    } else {
        packed_sensors(batch.drop_last()) + frame::packed(sensor_words(batch.last()))
    }
}

/// Packs sensors into the array that the sensing body reads.
pub fn pack_sensors(batch: &[Sensor]) -> (content: Vec<u8>)
    ensures
        content@ == packed_sensors(batch@),
{
    let mut content: Vec<u8> = Vec::new();
    let mut i: usize = 0;
    assert(batch@.take(0) =~= Seq::<Sensor>::empty());
    while i < batch.len()
        invariant
            i <= batch.len(),
            content@ == packed_sensors(batch@.take(i as int)),
        decreases batch.len() - i,
    {
        let s: Sensor = batch[i];
        let words: Vec<(u64, usize)> =
            vec![
            (s.x as u64, 4),
            (s.y as u64, 4),
            (s.width as u64, 4),
            (s.height as u64, 4),
            (s.channel as u64, 4),
            (0, 4),
        ];
        assert(frame::words_of(words@) =~= sensor_words(s));
        frame::put_words(&mut content, &words);
        assert(batch@.take(i + 1).drop_last() =~= batch@.take(i as int));
        i = i + 1;
    }
    assert(batch@.take(i as int) =~= batch@);
    content
}

proof fn lemma_packed_sensors_len(batch: Seq<Sensor>)
    ensures
        packed_sensors(batch).len() == 24 * batch.len(),
    decreases batch.len(),
{
    if batch.len() > 0 {
        lemma_packed_sensors_len(batch.drop_last());
        lemma_even_words(sensor_words(batch.last()), 6);
        frame::lemma_packed_len(sensor_words(batch.last()));
    }
}

/// The sensing body finds in a packed batch the sensors that were packed.
pub proof fn law_packed_sensors_are_found(batch: Seq<Sensor>, index: int)
    requires
        0 <= index < batch.len(),
    ensures
        packed_sensors(batch).len() == 24 * batch.len(),
        sensor_at(packed_sensors(batch), index) == batch[index],
    decreases batch.len(),
{
    lemma_packed_sensors_len(batch);
    let whole = packed_sensors(batch);
    let part = packed_sensors(batch.drop_last());
    let widths = words_of_32(6);
    body::lemma_even_offsets(widths, FieldWidth::U32, 6);
    lemma_packed_sensors_len(batch.drop_last());
    let words = sensor_words(batch.last());
    lemma_even_words(words, 6);
    frame::lemma_packed_len(words);
    bytes::lemma_radix_values();
    if index < batch.len() - 1 {
        law_packed_sensors_are_found(batch.drop_last(), index);
    }
    assert forall|r: int| 0 <= r < 5 implies #[trigger] body::field_value(
        whole,
        widths,
        index,
        r,
    ) == if index < batch.len() - 1 {
        body::field_value(part, widths, index, r)
    } else {
        words[r].0 as u64
    } by {
        body::lemma_even_offsets(widths, FieldWidth::U32, r);
        lemma_even_words(words, r);
        frame::lemma_packed_word(words, r);
        let at = index * 24 + 4 * r;
        assert(index * body::stride_of(widths) + body::offset_of(widths, r) == at);
        if index < batch.len() - 1 {
            assert(whole.subrange(at, at + 4) =~= part.subrange(at, at + 4));
        } else {
            assert(whole.subrange(at, at + 4) =~= frame::packed(words).subrange(
                4 * r,
                4 * r + 4,
            ));
        }
    }
    assert(body::field_value(whole, widths, index, 0) <= u64::MAX);
    assert(body::field_value(whole, widths, index, 1) <= u64::MAX);
    assert(body::field_value(whole, widths, index, 2) <= u64::MAX);
    assert(body::field_value(whole, widths, index, 3) <= u64::MAX);
    assert(body::field_value(whole, widths, index, 4) <= u64::MAX);
    if index < batch.len() - 1 {
        assert(batch.drop_last()[index] == batch[index]);
    }
}

/// The chosen directions in a published sensing output array.
pub fn unpack_sensors(content: &[u8], count: usize) -> (found: Vec<u32>)
    requires
        count * 24 + 24 <= usize::MAX,
    ensures
        found@ == Seq::new(count as nat, |i: int| word_or_zero(content@, i * 24 + 20)),
{
    let found: Vec<u32> = answers(content, count, 24, 20);
    assert(found@ =~= Seq::new(count as nat, |i: int| word_or_zero(content@, i * 24 + 20)));
    found
}

// ---- the bodies as text ----------------------------------------------------

/// An operation as the module language writes it: a name and its operands.
pub open spec fn op_text(op: Op) -> Option<(Seq<char>, Seq<nat>)> {
    match op {
        Op::Load(field) => Some(("load"@, seq![field as nat])),
        Op::Const(value) => Some(("const"@, seq![value as nat])),
        Op::Add(a, b) => Some(("add"@, seq![a as nat, b as nat])),
        Op::Mul(a, b) => Some(("mul"@, seq![a as nat, b as nat])),
        Op::And(a, b) => Some(("and"@, seq![a as nat, b as nat])),
        Op::CmpLt(a, b) => Some(("cmplt"@, seq![a as nat, b as nat])),
        Op::GatherAux(at, field) => Some(("gatheraux"@, seq![at as nat, field as nat])),
        Op::Select(c, a, b) => Some(("select"@, seq![c as nat, a as nat, b as nat])),
        _ => None,
    }
}

/// Operands, a blank before each.
pub open spec fn operands(values: Seq<nat>) -> Seq<char>
    decreases values.len(),
{
    if values.len() == 0 {
        Seq::empty()
    } else {
        operands(values.drop_last()) + " "@ + text::decimal(values.last())
    }
}

pub open spec fn op_line(i: int, op: Op) -> Seq<char> {
    "  op "@ + text::decimal(i as nat) + " "@ + op_text(op)->Some_0.0 + operands(
        op_text(op)->Some_0.1,
    ) + "\n"@
}

/// The lines of the first `n` operations.
pub open spec fn op_lines(ops: Seq<Op>, n: int) -> Seq<char>
    decreases n,
{
    if n <= 0 {
        Seq::empty()
    } else {
        op_lines(ops, n - 1) + op_line(n - 1, ops[n - 1])
    }
}

pub open spec fn field_lines(n: nat) -> Seq<char>
    decreases n,
{
    if n == 0 {
        Seq::empty()
    } else {
        field_lines((n - 1) as nat) + "  field u32\n"@
    }
}

pub open spec fn store_line(store: Store) -> Seq<char> {
    "  store "@ + text::decimal(store.field as nat) + " "@ + text::decimal(store.value as nat)
        + "\n"@
}

pub open spec fn naturals(values: Seq<u64>) -> Seq<nat> {
    Seq::new(values.len(), |i: int| values[i] as nat)
}

fn push_operands(out: &mut String, values: &Vec<u64>)
    ensures
        final(out)@ == old(out)@ + operands(naturals(values@)),
{
    let ghost start = out@;
    let ghost all = naturals(values@);
    let mut i: usize = 0;
    assert(all.take(0) =~= Seq::<nat>::empty());
    assert(start =~= start + operands(all.take(0)));
    while i < values.len()
        invariant
            i <= values.len(),
            all == naturals(values@),
            out@ == start + operands(all.take(i as int)),
        decreases values.len() - i,
    {
        push_text(out, " ");
        push_decimal(out, values[i]);
        proof {
            let more = all.take(i + 1);
            assert(more.drop_last() =~= all.take(i as int));
            assert(more.last() == values@[i as int] as nat);
            assert(out@ =~= start + operands(more));
        }
        i = i + 1;
    }
    assert(all.take(i as int) =~= all);
}

/// An operation's name and operands.
fn parts_of(op: Op) -> (parts: (&'static str, Vec<u64>))
    requires
        op_text(op) is Some,
    ensures
        op_text(op) == Some((parts.0@, naturals(parts.1@))),
{
    let parts: (&'static str, Vec<u64>) = match op {
        Op::Load(field) => ("load", vec![field as u64]),
        Op::Const(value) => ("const", vec![value]),
        Op::Add(a, b) => ("add", vec![a as u64, b as u64]),
        Op::Mul(a, b) => ("mul", vec![a as u64, b as u64]),
        Op::And(a, b) => ("and", vec![a as u64, b as u64]),
        Op::CmpLt(a, b) => ("cmplt", vec![a as u64, b as u64]),
        Op::GatherAux(at, field) => ("gatheraux", vec![at as u64, field as u64]),
        Op::Select(c, a, b) => ("select", vec![c as u64, a as u64, b as u64]),
        _ => ("", Vec::new()),
    };
    assert(naturals(parts.1@) =~= op_text(op)->Some_0.1);
    parts
}

fn push_op(out: &mut String, i: usize, op: Op)
    requires
        op_text(op) is Some,
    ensures
        final(out)@ == old(out)@ + op_line(i as int, op),
{
    let ghost start = out@;
    let (name, values) = parts_of(op);
    push_text(out, "  op ");
    push_decimal(out, i as u64);
    push_text(out, " ");
    push_text(out, name);
    push_operands(out, &values);
    push_text(out, "\n");
    assert(out@ =~= start + op_line(i as int, op));
}

fn push_ops(out: &mut String, ops: &Vec<Op>)
    requires
        forall|i: int| 0 <= i < ops@.len() ==> op_text(#[trigger] ops@[i]) is Some,
    ensures
        final(out)@ == old(out)@ + op_lines(ops@, ops@.len() as int),
{
    let ghost start = out@;
    let mut i: usize = 0;
    assert(start =~= start + op_lines(ops@, 0));
    while i < ops.len()
        invariant
            i <= ops.len(),
            forall|i: int| 0 <= i < ops@.len() ==> op_text(#[trigger] ops@[i]) is Some,
            out@ == start + op_lines(ops@, i as int),
        decreases ops.len() - i,
    {
        push_op(out, i, ops[i]);
        assert(out@ =~= start + op_lines(ops@, i + 1));
        i = i + 1;
    }
}

fn push_fields(out: &mut String, n: usize)
    ensures
        final(out)@ == old(out)@ + field_lines(n as nat),
{
    let ghost start = out@;
    let mut i: usize = 0;
    assert(start =~= start + field_lines(0));
    while i < n
        invariant
            i <= n,
            out@ == start + field_lines(i as nat),
        decreases n - i,
    {
        push_text(out, "  field u32\n");
        assert(out@ =~= start + field_lines((i + 1) as nat));
        i = i + 1;
    }
}

fn push_store(out: &mut String, store: Store)
    ensures
        final(out)@ == old(out)@ + store_line(store),
{
    let ghost start = out@;
    push_text(out, "  store ");
    push_decimal(out, store.field as u64);
    push_text(out, " ");
    push_decimal(out, store.value as u64);
    push_text(out, "\n");
    assert(out@ =~= start + store_line(store));
}

/// The scoring body as a module of the module language.
pub fn source() -> (out: String)
    ensures
        out@ == "module soma.ants\n"@
            + "evaluator 11 ant_movement_score 36 110 111 ro 112 113 ro\n"@ + field_lines(9)
            + op_lines(scoring_view().ops, 37) + store_line(scoring_view().stores[0]),
{
    let mut out: String = String::new();
    push_text(&mut out, "module soma.ants\n");
    push_text(&mut out, "evaluator 11 ant_movement_score 36 110 111 ro 112 113 ro\n");
    push_fields(&mut out, FIELDS);
    let ops: Vec<Op> = scoring_ops();
    assert forall|i: int| 0 <= i < ops@.len() implies op_text(#[trigger] ops@[i]) is Some by {
        assert(ops@[i] == scoring_op(i));
    }
    push_ops(&mut out, &ops);
    push_store(&mut out, Store { field: 8, value: 36 });
    assert(Seq::<char>::empty() + "module soma.ants\n"@ =~= "module soma.ants\n"@);
    out
}

/// The sensing body as a module of the module language.
pub fn sensing_source() -> (out: String)
    ensures
        out@ == "module soma.ants.sensing\n"@
            + "evaluator 16 ant_sense_and_score 24 160 161 ro 162 163 ro\n"@ + field_lines(6)
            + "  aux u16\n"@ + op_lines(sensing_view().ops, 132) + store_line(
            sensing_view().stores[0],
        ),
{
    let mut out: String = String::new();
    push_text(&mut out, "module soma.ants.sensing\n");
    push_text(&mut out, "evaluator 16 ant_sense_and_score 24 160 161 ro 162 163 ro\n");
    push_fields(&mut out, SENSE_FIELDS);
    push_text(&mut out, "  aux u16\n");
    let ops: Vec<Op> = sensing_ops();
    assert forall|i: int| 0 <= i < ops@.len() implies op_text(#[trigger] ops@[i]) is Some by {
        assert(ops@[i] == sensing_op(i));
    }
    push_ops(&mut out, &ops);
    push_store(&mut out, Store { field: 5, value: 131 });
    assert(Seq::<char>::empty() + "module soma.ants.sensing\n"@
        =~= "module soma.ants.sensing\n"@);
    out
}

} // verus!
