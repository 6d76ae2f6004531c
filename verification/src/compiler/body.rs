//! Evaluator bodies: what one element of a batch becomes.
//!
//! A body is a list of operations over one element of a frozen array. It reads
//! the frozen input, never the output, and writes only its own element, so an
//! element's result is a function of the input and of its index.

use crate::bytes;
use vstd::prelude::*;

verus! {

/// How many bytes a field of an element takes.
#[derive(Clone, Copy, Debug, PartialEq, Eq, Structural)]
pub enum FieldWidth {
    U8,
    U16,
    U32,
    U64,
}

impl FieldWidth {
    pub open spec fn size(self) -> nat {
        match self {
            FieldWidth::U8 => 1,
            FieldWidth::U16 => 2,
            FieldWidth::U32 => 4,
            FieldWidth::U64 => 8,
        }
    }

    pub fn bytes(self) -> (n: u32)
        ensures
            n == self.size(),
    {
        match self {
            FieldWidth::U8 => 1,
            FieldWidth::U16 => 2,
            FieldWidth::U32 => 4,
            FieldWidth::U64 => 8,
        }
    }
}

/// The byte at which field `field` of an element starts: fields are packed.
pub open spec fn offset_of(widths: Seq<FieldWidth>, field: int) -> nat
    decreases field,
{
    if field <= 0 {
        0
    } else {
        offset_of(widths, field - 1) + widths[field - 1].size()
    }
}

/// The bytes of one element.
pub open spec fn stride_of(widths: Seq<FieldWidth>) -> nat {
    offset_of(widths, widths.len() as int)
}

pub proof fn lemma_field_fits(widths: Seq<FieldWidth>, field: int, upto: int)
    requires
        0 <= field < upto <= widths.len(),
    ensures
        offset_of(widths, field) + widths[field].size() <= offset_of(widths, upto),
    decreases upto - field,
{
    if field + 1 < upto {
        lemma_field_fits(widths, field, upto - 1);
    }
}

pub proof fn lemma_offset_prefix(a: Seq<FieldWidth>, b: Seq<FieldWidth>, field: int)
    requires
        0 <= field <= a.len() <= b.len(),
        forall|i: int| 0 <= i < a.len() ==> a[i] == b[i],
    ensures
        offset_of(a, field) == offset_of(b, field),
    decreases field,
{
    if field > 0 {
        lemma_offset_prefix(a, b, field - 1);
    }
}

/// The fields of an element, in the order they lie in it.
#[derive(Clone, Debug)]
pub struct ElementLayout {
    pub widths: Vec<FieldWidth>,
}

impl View for ElementLayout {
    type V = Seq<FieldWidth>;

    open spec fn view(&self) -> Seq<FieldWidth> {
        self.widths@
    }
}

impl ElementLayout {
    /// An element's length fits in 32 bits.
    pub open spec fn fits(&self) -> bool {
        stride_of(self@) <= u32::MAX
    }

    pub fn new(widths: Vec<FieldWidth>) -> (layout: Self)
        ensures
            layout@ == widths@,
    {
        Self { widths }
    }

    /// Where `field` starts, where there is such a field.
    pub fn offset(&self, field: u32) -> (at: Option<u32>)
        requires
            self.fits(),
        ensures
            at == if field < self@.len() {
                Some(offset_of(self@, field as int) as u32)
            } else {
                None
            },
    {
        if field as usize >= self.widths.len() {
            return None;
        }
        let mut at: u32 = 0;
        let mut i: usize = 0;
        while i < field as usize
            invariant
                i <= field < self.widths.len(),
                at == offset_of(self@, i as int),
                self.fits(),
            decreases field - i,
        {
            proof {
                lemma_field_fits(self@, i as int, self@.len() as int);
            }
            at = at + self.widths[i].bytes();
            i = i + 1;
        }
        Some(at)
    }

    pub fn width(&self, field: u32) -> (width: Option<FieldWidth>)
        ensures
            width == if field < self@.len() {
                Some(self@[field as int])
            } else {
                None
            },
    {
        if (field as usize) < self.widths.len() {
            Some(self.widths[field as usize])
        } else {
            None
        }
    }

    pub fn stride(&self) -> (stride: u32)
        requires
            self.fits(),
        ensures
            stride == stride_of(self@),
    {
        let mut at: u32 = 0;
        let mut i: usize = 0;
        while i < self.widths.len()
            invariant
                i <= self.widths.len(),
                at == offset_of(self@, i as int),
                self.fits(),
            decreases self.widths.len() - i,
        {
            proof {
                lemma_field_fits(self@, i as int, self@.len() as int);
            }
            at = at + self.widths[i].bytes();
            i = i + 1;
        }
        at
    }

    pub fn duplicate(&self) -> (copy: Self)
        ensures
            copy@ == self@,
    {
        let mut widths: Vec<FieldWidth> = Vec::new();
        let mut i: usize = 0;
        while i < self.widths.len()
            invariant
                i <= self.widths.len(),
                widths@ =~= self.widths@.take(i as int),
            decreases self.widths.len() - i,
        {
            widths.push(self.widths[i]);
            i = i + 1;
        }
        Self { widths }
    }
}

/// One operation. Operands are indices of earlier operations; each operation
/// yields one 64-bit value.
#[derive(Clone, Copy, Debug, PartialEq, Eq, Structural)]
pub enum Op {
    /// A field of this element.
    Load(u32),
    /// This element's index.
    Index,
    /// A field of the element that an operand names, or of the last one where
    /// it names none.
    Gather(u32, u32),
    /// The same of the second array, zero where that is empty.
    GatherAux(u32, u32),
    Const(u64),
    Add(u32, u32),
    Sub(u32, u32),
    Mul(u32, u32),
    And(u32, u32),
    Or(u32, u32),
    Xor(u32, u32),
    Shl(u32, u32),
    Shr(u32, u32),
    CmpEq(u32, u32),
    CmpLt(u32, u32),
    Select(u32, u32, u32),
    Get(u32),
    Put(u32, u32),
    /// Run what follows, up to the matching end, this many times.
    Repeat(u32),
    EndRepeat,
    /// Leave the innermost loop where an operand is not zero.
    BreakIf(u32),
}

/// A field of the element that the body writes, and the operation it takes.
#[derive(Clone, Copy, Debug, PartialEq, Eq, Structural)]
pub struct Store {
    pub field: u32,
    pub value: u32,
}

/// Why a body was refused.
#[derive(Clone, Copy, Debug, PartialEq, Eq, Structural)]
pub enum BodyError {
    LayoutTooWide,
    TooManyOperations,
    UnknownValue,
    UnknownField,
    UnknownLocal,
    UnbalancedLoop,
}

#[derive(Debug)]
pub struct EvaluatorProgram {
    pub id: u32,
    pub name: String,
    pub layout: ElementLayout,
    pub aux_layout: Option<ElementLayout>,
    pub ops: Vec<Op>,
    pub stores: Vec<Store>,
    pub locals: u32,
}

/// What a body is, apart from its name.
#[verifier::ext_equal]
pub ghost struct ProgramView {
    pub id: u32,
    pub layout: Seq<FieldWidth>,
    pub aux: Option<Seq<FieldWidth>>,
    pub ops: Seq<Op>,
    pub stores: Seq<Store>,
}

impl View for EvaluatorProgram {
    type V = ProgramView;

    open spec fn view(&self) -> ProgramView {
        ProgramView {
            id: self.id,
            layout: self.layout@,
            aux: match self.aux_layout {
                Some(layout) => Some(layout@),
                None => None,
            },
            ops: self.ops@,
            stores: self.stores@,
        }
    }
}

impl ProgramView {
    pub open spec fn stride(self) -> nat {
        stride_of(self.layout)
    }

    pub open spec fn aux_stride(self) -> nat {
        match self.aux {
            Some(widths) => stride_of(widths),
            None => 0,
        }
    }

    pub open spec fn aux_fields(self) -> nat {
        match self.aux {
            Some(widths) => widths.len(),
            None => 0,
        }
    }

    /// How many local variables the first `n` operations name.
    pub open spec fn locals_of(self, n: int) -> nat
        decreases n,
    {
        if n <= 0 {
            0
        } else {
            let before = self.locals_of(n - 1);
            match self.ops[n - 1] {
                Op::Get(local) => if local >= before {
                    (local + 1) as nat
                } else {
                    before
                },
                Op::Put(local, _) => if local >= before {
                    (local + 1) as nat
                } else {
                    before
                },
                _ => before,
            }
        }
    }

    pub open spec fn locals(self) -> nat {
        self.locals_of(self.ops.len() as int)
    }

    /// How many loops are open after the first `n` operations.
    pub open spec fn depth(self, n: int) -> int
        decreases n,
    {
        if n <= 0 {
            0
        } else {
            self.depth(n - 1) + match self.ops[n - 1] {
                Op::Repeat(_) => 1int,
                Op::EndRepeat => -1int,
                _ => 0int,
            }
        }
    }

    /// What is wrong with operation `at`, where the ones before it are sound.
    pub open spec fn op_fault(self, at: int) -> Option<BodyError> {
        let unknown = Some(BodyError::UnknownValue);
        match self.ops[at] {
            Op::Load(field) => if field >= self.layout.len() {
                Some(BodyError::UnknownField)
            } else {
                None
            },
            Op::Gather(a, field) => if a >= at {
                unknown
            } else if field >= self.layout.len() {
                Some(BodyError::UnknownField)
            } else {
                None
            },
            Op::GatherAux(a, field) => if a >= at {
                unknown
            } else if field >= self.aux_fields() {
                Some(BodyError::UnknownField)
            } else {
                None
            },
            Op::Add(a, b) | Op::Sub(a, b) | Op::Mul(a, b) | Op::And(a, b) | Op::Or(a, b) | Op::Xor(
                a,
                b,
            ) | Op::Shl(a, b) | Op::Shr(a, b) | Op::CmpEq(a, b) | Op::CmpLt(a, b) => if a >= at || b
                >= at {
                unknown
            } else {
                None
            },
            Op::Select(a, b, c) => if a >= at || b >= at || c >= at {
                unknown
            } else {
                None
            },
            Op::Get(local) => if local == u32::MAX {
                Some(BodyError::UnknownLocal)
            } else {
                None
            },
            Op::Put(local, a) => if a >= at {
                unknown
            } else if local == u32::MAX {
                Some(BodyError::UnknownLocal)
            } else {
                None
            },
            Op::EndRepeat => if self.depth(at) <= 0 {
                Some(BodyError::UnbalancedLoop)
            } else {
                None
            },
            Op::BreakIf(a) => if a >= at {
                unknown
            } else if self.depth(at) <= 0 {
                Some(BodyError::UnbalancedLoop)
            } else {
                None
            },
            Op::Index | Op::Const(_) | Op::Repeat(_) => None,
        }
    }

    /// The first fault among the operations from `at` on.
    pub open spec fn ops_fault(self, at: int) -> Option<BodyError>
        decreases self.ops.len() - at,
    {
        if at >= self.ops.len() {
            None
        } else if self.op_fault(at) is Some {
            self.op_fault(at)
        } else {
            self.ops_fault(at + 1)
        }
    }

    pub open spec fn store_fault(self, at: int) -> Option<BodyError> {
        if self.stores[at].field >= self.layout.len() {
            Some(BodyError::UnknownField)
        } else if self.stores[at].value >= self.ops.len() {
            Some(BodyError::UnknownValue)
        } else {
            None
        }
    }

    pub open spec fn stores_fault(self, at: int) -> Option<BodyError>
        decreases self.stores.len() - at,
    {
        if at >= self.stores.len() {
            None
        } else if self.store_fault(at) is Some {
            self.store_fault(at)
        } else {
            self.stores_fault(at + 1)
        }
    }

    /// Why the body is refused, if it is.
    pub open spec fn fault(self) -> Option<BodyError> {
        if self.stride() > u32::MAX || self.aux_stride() > u32::MAX {
            Some(BodyError::LayoutTooWide)
        } else if self.ops.len() > u32::MAX {
            Some(BodyError::TooManyOperations)
        } else if self.ops_fault(0) is Some {
            self.ops_fault(0)
        } else if self.depth(self.ops.len() as int) != 0 {
            Some(BodyError::UnbalancedLoop)
        } else {
            self.stores_fault(0)
        }
    }

    pub open spec fn is_valid(self) -> bool {
        self.fault() is None
    }
}

pub proof fn lemma_valid_ops(p: ProgramView, from: int)
    requires
        0 <= from,
        p.ops_fault(from) is None,
    ensures
        forall|i: int| from <= i < p.ops.len() ==> (#[trigger] p.op_fault(i)) is None,
    decreases p.ops.len() - from,
{
    if from < p.ops.len() {
        lemma_valid_ops(p, from + 1);
    }
}

pub proof fn lemma_valid_stores(p: ProgramView, from: int)
    requires
        0 <= from,
        p.stores_fault(from) is None,
    ensures
        forall|i: int| from <= i < p.stores.len() ==> (#[trigger] p.store_fault(i)) is None,
    decreases p.stores.len() - from,
{
    if from < p.stores.len() {
        lemma_valid_stores(p, from + 1);
    }
}

pub proof fn lemma_locals_grow(p: ProgramView, a: int, b: int)
    requires
        0 <= a <= b,
    ensures
        p.locals_of(a) <= p.locals_of(b),
    decreases b - a,
{
    if a < b {
        lemma_locals_grow(p, a, b - 1);
    }
}

/// A body without loops is sound where each of its parts is.
pub proof fn lemma_plain_is_valid(p: ProgramView)
    requires
        p.stride() <= u32::MAX,
        p.aux_stride() <= u32::MAX,
        p.ops.len() <= u32::MAX,
        forall|i: int| 0 <= i < p.ops.len() ==> !(#[trigger] p.ops[i] is Repeat),
        forall|i: int| 0 <= i < p.ops.len() ==> !(#[trigger] p.ops[i] is EndRepeat),
        forall|i: int| 0 <= i < p.ops.len() ==> (#[trigger] p.op_fault(i)) is None,
        forall|i: int| 0 <= i < p.stores.len() ==> (#[trigger] p.store_fault(i)) is None,
    ensures
        p.is_valid(),
{
    lemma_ops_have_no_fault(p, 0);
    lemma_stores_have_no_fault(p, 0);
    lemma_no_depth(p, p.ops.len() as int);
}

proof fn lemma_ops_have_no_fault(p: ProgramView, at: int)
    requires
        0 <= at,
        forall|i: int| 0 <= i < p.ops.len() ==> (#[trigger] p.op_fault(i)) is None,
    ensures
        p.ops_fault(at) is None,
    decreases p.ops.len() - at,
{
    if at < p.ops.len() {
        lemma_ops_have_no_fault(p, at + 1);
    }
}

proof fn lemma_stores_have_no_fault(p: ProgramView, at: int)
    requires
        0 <= at,
        forall|i: int| 0 <= i < p.stores.len() ==> (#[trigger] p.store_fault(i)) is None,
    ensures
        p.stores_fault(at) is None,
    decreases p.stores.len() - at,
{
    if at < p.stores.len() {
        lemma_stores_have_no_fault(p, at + 1);
    }
}

proof fn lemma_no_depth(p: ProgramView, n: int)
    requires
        0 <= n <= p.ops.len(),
        forall|i: int| 0 <= i < p.ops.len() ==> !(#[trigger] p.ops[i] is Repeat),
        forall|i: int| 0 <= i < p.ops.len() ==> !(#[trigger] p.ops[i] is EndRepeat),
    ensures
        p.depth(n) == 0,
    decreases n,
{
    if n > 0 {
        lemma_no_depth(p, n - 1);
    }
}

/// Fields of one width lie that width apart.
pub proof fn lemma_even_offsets(widths: Seq<FieldWidth>, width: FieldWidth, field: int)
    requires
        0 <= field <= widths.len(),
        forall|i: int| 0 <= i < widths.len() ==> widths[i] == width,
    ensures
        offset_of(widths, field) == field * width.size(),
    decreases field,
{
    let n = width.size() as int;
    if field > 0 {
        lemma_even_offsets(widths, width, field - 1);
        assert((field - 1) * n + n == field * n) by (nonlinear_arith);
    } else {
        assert(0 * n == 0);
    }
}

// ---- what a body computes --------------------------------------------------

/// The arrays that a body reads.
#[verifier::ext_equal]
pub ghost struct ArraysView {
    pub input: Seq<u8>,
    pub count: nat,
    pub aux: Seq<u8>,
    pub aux_count: nat,
}

/// The values of the operations run so far, and the locals.
#[verifier::ext_equal]
pub ghost struct Registers {
    pub values: Seq<u64>,
    pub locals: Seq<u64>,
}

/// Field `field` of element `element` of an array.
pub open spec fn field_value(array: Seq<u8>, widths: Seq<FieldWidth>, element: int, field: int) -> u64 {
    bytes::word_at(
        array,
        element * stride_of(widths) + offset_of(widths, field),
        widths[field].size() as int,
    ) as u64
}

/// `at`, or the last of `count` elements where it lies past them.
pub open spec fn clamped(at: u64, count: nat) -> int {
    if at < count {
        at as int
    } else {
        count - 1
    }
}

pub open spec fn truth(b: bool) -> u64 {
    if b {
        1
    } else {
        0
    }
}

impl ProgramView {
    /// The value of operation `op` for element `index`.
    pub open spec fn value_of(self, a: ArraysView, index: u32, r: Registers, op: Op) -> u64 {
        let v = r.values;
        match op {
            Op::Load(field) => field_value(a.input, self.layout, index as int, field as int),
            Op::Index => index as u64,
            Op::Gather(at, field) => field_value(
                a.input,
                self.layout,
                clamped(v[at as int], a.count),
                field as int,
            ),
            Op::GatherAux(at, field) => if a.aux_count == 0 {
                0
            } else {
                field_value(
                    a.aux,
                    self.aux->Some_0,
                    clamped(v[at as int], a.aux_count),
                    field as int,
                )
            },
            Op::Const(value) => value,
            Op::Add(x, y) => v[x as int].wrapping_add(v[y as int]),
            Op::Sub(x, y) => v[x as int].wrapping_sub(v[y as int]),
            Op::Mul(x, y) => v[x as int].wrapping_mul(v[y as int]),
            Op::And(x, y) => v[x as int] & v[y as int],
            Op::Or(x, y) => v[x as int] | v[y as int],
            Op::Xor(x, y) => v[x as int] ^ v[y as int],
            Op::Shl(x, y) => v[x as int] << (v[y as int] & 63),
            Op::Shr(x, y) => v[x as int] >> (v[y as int] & 63),
            Op::CmpEq(x, y) => truth(v[x as int] == v[y as int]),
            Op::CmpLt(x, y) => truth(v[x as int] < v[y as int]),
            Op::Select(c, x, y) => if v[c as int] != 0 {
                v[x as int]
            } else {
                v[y as int]
            },
            Op::Get(local) => r.locals[local as int],
            Op::Put(_, x) => v[x as int],
            Op::Repeat(_) | Op::EndRepeat | Op::BreakIf(_) => 0,
        }
    }

    /// The registers after operation `at` that is no loop marker.
    pub open spec fn stepped(self, a: ArraysView, index: u32, r: Registers, at: int) -> Registers {
        let value = self.value_of(a, index, r, self.ops[at]);
        Registers {
            values: r.values.update(at, value),
            locals: match self.ops[at] {
                Op::Put(local, _) => r.locals.update(local as int, value),
                _ => r.locals,
            },
        }
    }

    /// Where the loop whose body starts at `at` ends, `open` loops inside it
    /// being open.
    pub open spec fn closing(self, at: int, open: nat) -> int
        decreases self.ops.len() - at,
    {
        if at >= self.ops.len() {
            self.ops.len() as int
        } else {
            match self.ops[at] {
                Op::Repeat(_) => self.closing(at + 1, open + 1),
                Op::EndRepeat => if open == 0 {
                    at
                } else {
                    self.closing(at + 1, (open - 1) as nat)
                },
                _ => self.closing(at + 1, open),
            }
        }
    }

    /// Where the loop opened just before `at` ends, as far as `hi`.
    pub open spec fn loop_end(self, at: int, hi: int) -> int {
        let end = self.closing(at, 0);
        if at <= end < hi {
            end
        } else {
            hi
        }
    }

    /// The registers after the operations from `lo` to `hi`, and whether a
    /// break left them.
    pub open spec fn ran(self, a: ArraysView, index: u32, r: Registers, lo: int, hi: int) -> (
        Registers,
        bool,
    )
        decreases hi - lo, 0nat,
    {
        if lo >= hi {
            (r, false)
        } else {
            match self.ops[lo] {
                Op::Repeat(times) => {
                    let end = self.loop_end(lo + 1, hi);
                    let after = self.rounds(a, index, r, lo + 1, end, times as nat);
                    if end >= hi {
                        (after, false)
                    } else {
                        self.ran(a, index, after, end + 1, hi)
                    }
                },
                Op::EndRepeat => self.ran(a, index, r, lo + 1, hi),
                Op::BreakIf(x) => if r.values[x as int] != 0 {
                    (r, true)
                } else {
                    self.ran(a, index, r, lo + 1, hi)
                },
                _ => self.ran(a, index, self.stepped(a, index, r, lo), lo + 1, hi),
            }
        }
    }

    /// The registers after `times` rounds of a loop, or up to its break.
    pub open spec fn rounds(
        self,
        a: ArraysView,
        index: u32,
        r: Registers,
        lo: int,
        hi: int,
        times: nat,
    ) -> Registers
        decreases hi - lo, times + 1,
    {
        if times == 0 {
            r
        } else {
            let (after, broke) = self.ran(a, index, r, lo, hi);
            if broke {
                after
            } else {
                self.rounds(a, index, after, lo, hi, (times - 1) as nat)
            }
        }
    }

    pub open spec fn blank(self) -> Registers {
        Registers {
            values: Seq::new(self.ops.len(), |i: int| 0u64),
            locals: Seq::new(self.locals(), |i: int| 0u64),
        }
    }

    /// The values of all operations for element `index`.
    pub open spec fn values_for(self, a: ArraysView, index: u32) -> Seq<u64> {
        self.ran(a, index, self.blank(), 0, self.ops.len() as int).0.values
    }

    /// An element with the first `n` stores made to it.
    pub open spec fn stored(self, values: Seq<u64>, element: Seq<u8>, n: int) -> Seq<u8>
        decreases n,
    {
        if n <= 0 {
            element
        } else {
            let store = self.stores[n - 1];
            bytes::spliced(
                self.stored(values, element, n - 1),
                offset_of(self.layout, store.field as int) as int,
                bytes::le_bytes(
                    values[store.value as int] as nat,
                    self.layout[store.field as int].size(),
                ),
            )
        }
    }

    /// What element `index`, which holds `element`, becomes.
    pub open spec fn evaluated(self, a: ArraysView, index: u32, element: Seq<u8>) -> Seq<u8> {
        self.stored(self.values_for(a, index), element, self.stores.len() as int)
    }

    /// The arrays hold as many elements as they say.
    pub open spec fn reads_within(self, a: ArraysView) -> bool {
        &&& a.count * self.stride() <= a.input.len()
        &&& a.aux_count * self.aux_stride() <= a.aux.len()
    }
}

pub proof fn lemma_closing_bounds(p: ProgramView, at: int, open: nat)
    requires
        0 <= at <= p.ops.len(),
    ensures
        at <= p.closing(at, open) <= p.ops.len(),
    decreases p.ops.len() - at,
{
    if at < p.ops.len() {
        match p.ops[at] {
            Op::Repeat(_) => lemma_closing_bounds(p, at + 1, open + 1),
            Op::EndRepeat => {
                if open > 0 {
                    lemma_closing_bounds(p, at + 1, (open - 1) as nat);
                }
            },
            _ => lemma_closing_bounds(p, at + 1, open),
        }
    }
}

pub proof fn lemma_stored_len(p: ProgramView, values: Seq<u64>, element: Seq<u8>, n: int)
    ensures
        p.stored(values, element, n).len() == element.len(),
    decreases n,
{
    if n > 0 {
        lemma_stored_len(p, values, element, n - 1);
    }
}

/// The bytes of element `element` lie inside an array of `count` elements.
pub proof fn lemma_element_fits(element: int, count: int, stride: int)
    requires
        0 <= element < count,
        0 <= stride,
    ensures
        0 <= element * stride,
        element * stride + stride <= count * stride,
{
    assert(element * stride + stride == (element + 1) * stride) by (nonlinear_arith);
    assert((element + 1) * stride <= count * stride) by (nonlinear_arith)
        requires
            element + 1 <= count,
            0 <= stride,
    ;
    assert(0 <= element * stride) by (nonlinear_arith)
        requires
            0 <= element,
            0 <= stride,
    ;
}

pub proof fn lemma_shift_amount(x: u64)
    by (bit_vector)
    ensures
        x & 63 < 64,
{
}

// ---- the interpreter -------------------------------------------------------

/// The frozen arrays that a body is given.
#[derive(Clone, Copy)]
pub struct Arrays<'a> {
    pub input: &'a [u8],
    pub count: u32,
    pub aux: &'a [u8],
    pub aux_count: u32,
}

impl<'a> View for Arrays<'a> {
    type V = ArraysView;

    open spec fn view(&self) -> ArraysView {
        ArraysView {
            input: self.input@,
            count: self.count as nat,
            aux: self.aux@,
            aux_count: self.aux_count as nat,
        }
    }
}

fn read_field(array: &[u8], layout: &ElementLayout, element: usize, field: u32) -> (value: u64)
    requires
        layout.fits(),
        field < layout@.len(),
        element * stride_of(layout@) + stride_of(layout@) <= array@.len(),
    ensures
        value == field_value(array@, layout@, element as int, field as int),
{
    let stride: u32 = layout.stride();
    let len: usize = array.len();
    proof {
        lemma_field_fits(layout@, field as int, layout@.len() as int);
        assert(0 <= element * stride) by (nonlinear_arith);
        assert(element * stride == element * stride_of(layout@));
        assert(element * stride + stride <= len);
    }
    let offset: u32 = match layout.offset(field) {
        Some(at) => at,
        None => 0,
    };
    let width: FieldWidth = layout.widths[field as usize];
    let base: usize = element * stride as usize;
    bytes::get_le(array, base + offset as usize, width.bytes() as usize)
}

impl EvaluatorProgram {
    /// A sound body, with as many locals as its operations name.
    pub open spec fn well_formed(&self) -> bool {
        &&& self@.is_valid()
        &&& self.locals == self@.locals()
    }

    /// A body over one array. It is refused where an operand is no earlier
    /// operation, a field is not in the layout, or its loops do not balance.
    pub fn new(
        id: u32,
        name: String,
        layout: ElementLayout,
        ops: Vec<Op>,
        stores: Vec<Store>,
    ) -> (result: Result<Self, BodyError>)
        ensures
            ({
                let view = ProgramView {
                    id,
                    layout: layout@,
                    aux: None,
                    ops: ops@,
                    stores: stores@,
                };
                match result {
                    Ok(program) => program@ == view && program.well_formed() && program.name == name,
                    Err(error) => view.fault() == Some(error),
                }
            }),
    {
        Self::checked(id, name, layout, None, ops, stores)
    }

    /// A body that also gathers from a second array.
    pub fn with_aux(
        id: u32,
        name: String,
        layout: ElementLayout,
        aux: ElementLayout,
        ops: Vec<Op>,
        stores: Vec<Store>,
    ) -> (result: Result<Self, BodyError>)
        ensures
            ({
                let view = ProgramView {
                    id,
                    layout: layout@,
                    aux: Some(aux@),
                    ops: ops@,
                    stores: stores@,
                };
                match result {
                    Ok(program) => program@ == view && program.well_formed() && program.name == name,
                    Err(error) => view.fault() == Some(error),
                }
            }),
    {
        Self::checked(id, name, layout, Some(aux), ops, stores)
    }

    #[verifier::loop_isolation(false)]
    fn checked(
        id: u32,
        name: String,
        layout: ElementLayout,
        aux_layout: Option<ElementLayout>,
        ops: Vec<Op>,
        stores: Vec<Store>,
    ) -> (result: Result<Self, BodyError>)
        ensures
            ({
                let view = ProgramView {
                    id,
                    layout: layout@,
                    aux: match aux_layout {
                        Some(layout) => Some(layout@),
                        None => None,
                    },
                    ops: ops@,
                    stores: stores@,
                };
                match result {
                    Ok(program) => program@ == view && program.well_formed() && program.name == name,
                    Err(error) => view.fault() == Some(error),
                }
            }),
    {
        let mut program = Self { id, name, layout, aux_layout, ops, stores, locals: 0 };
        let ghost view = program@;
        if !fits_in_32_bits(&program.layout) {
            return Err(BodyError::LayoutTooWide);
        }
        let aux_fields: usize = match &program.aux_layout {
            Some(aux) => {
                if !fits_in_32_bits(aux) {
                    return Err(BodyError::LayoutTooWide);
                }
                aux.widths.len()
            },
            None => 0,
        };
        if program.ops.len() > u32::MAX as usize {
            return Err(BodyError::TooManyOperations);
        }
        let mut locals: u32 = 0;
        let mut depth: usize = 0;
        let mut at: usize = 0;
        while at < program.ops.len()
            invariant
                at <= program.ops.len() <= u32::MAX,
                program@ == view,
                aux_fields == view.aux_fields(),
                view.ops_fault(0) == view.ops_fault(at as int),
                locals == view.locals_of(at as int),
                depth == view.depth(at as int),
                depth <= at,
                view.stride() <= u32::MAX,
                view.aux_stride() <= u32::MAX,
            decreases program.ops.len() - at,
        {
            let op: Op = program.ops[at];
            if let Some(fault) = faulty(
                op,
                at as u32,
                program.layout.widths.len(),
                aux_fields,
                depth,
                Ghost(view),
            ) {
                return Err(fault);
            }
            match op {
                Op::Get(local) => {
                    if local >= locals {
                        locals = local + 1;
                    }
                },
                Op::Put(local, _) => {
                    if local >= locals {
                        locals = local + 1;
                    }
                },
                Op::Repeat(_) => {
                    depth = depth + 1;
                },
                Op::EndRepeat => {
                    depth = depth - 1;
                },
                _ => {},
            }
            at = at + 1;
        }
        if depth != 0 {
            return Err(BodyError::UnbalancedLoop);
        }
        let mut n: usize = 0;
        while n < program.stores.len()
            invariant
                n <= program.stores.len(),
                program@ == view,
                view.stores_fault(0) == view.stores_fault(n as int),
                view.ops_fault(0) is None,
                view.ops.len() <= u32::MAX,
                view.depth(view.ops.len() as int) == 0,
                view.stride() <= u32::MAX,
                view.aux_stride() <= u32::MAX,
            decreases program.stores.len() - n,
        {
            let store: Store = program.stores[n];
            if store.field as usize >= program.layout.widths.len() {
                return Err(BodyError::UnknownField);
            }
            if store.value as usize >= program.ops.len() {
                return Err(BodyError::UnknownValue);
            }
            n = n + 1;
        }
        program.locals = locals;
        assert(program@ =~= view);
        Ok(program)
    }

    pub fn id(&self) -> (id: u32)
        ensures
            id == self@.id,
    {
        self.id
    }

    pub fn stride(&self) -> (stride: u32)
        requires
            self.well_formed(),
        ensures
            stride == self@.stride(),
    {
        self.layout.stride()
    }

    /// The bytes of an element of the second array, zero where none is bound.
    pub fn aux_stride(&self) -> (stride: u32)
        requires
            self.well_formed(),
        ensures
            stride == self@.aux_stride(),
    {
        match &self.aux_layout {
            Some(layout) => layout.stride(),
            None => 0,
        }
    }

    pub fn binds_aux(&self) -> (bound: bool)
        ensures
            bound == (self@.aux is Some),
    {
        self.aux_layout.is_some()
    }

    pub fn locals(&self) -> (locals: u32)
        requires
            self.well_formed(),
        ensures
            locals == self@.locals(),
    {
        self.locals
    }

    pub fn duplicate(&self) -> (copy: Self)
        ensures
            copy@ == self@,
            self.well_formed() ==> copy.well_formed(),
    {
        let mut ops: Vec<Op> = Vec::new();
        let mut i: usize = 0;
        while i < self.ops.len()
            invariant
                i <= self.ops.len(),
                ops@ =~= self.ops@.take(i as int),
            decreases self.ops.len() - i,
        {
            ops.push(self.ops[i]);
            i = i + 1;
        }
        let mut stores: Vec<Store> = Vec::new();
        let mut n: usize = 0;
        while n < self.stores.len()
            invariant
                n <= self.stores.len(),
                stores@ =~= self.stores@.take(n as int),
            decreases self.stores.len() - n,
        {
            stores.push(self.stores[n]);
            n = n + 1;
        }
        let aux_layout: Option<ElementLayout> = match &self.aux_layout {
            Some(layout) => Some(layout.duplicate()),
            None => None,
        };
        let copy = Self {
            id: self.id,
            name: self.name.clone(),
            layout: self.layout.duplicate(),
            aux_layout,
            ops,
            stores,
            locals: self.locals,
        };
        assert(copy@ =~= self@);
        copy
    }

    fn value_of(&self, arrays: &Arrays<'_>, index: u32, values: &Vec<u64>, locals: &Vec<u64>, at: usize) -> (value:
        u64)
        requires
            self.well_formed(),
            self@.reads_within(arrays@),
            index < arrays.count,
            at < self.ops@.len(),
            values@.len() == self.ops@.len(),
            locals@.len() == self@.locals(),
        ensures
            value == self@.value_of(
                arrays@,
                index,
                Registers { values: values@, locals: locals@ },
                self.ops@[at as int],
            ),
    {
        proof {
            lemma_valid_ops(self@, 0);
            assert(self@.op_fault(at as int) is None);
            lemma_locals_grow(self@, at as int + 1, self@.ops.len() as int);
            lemma_element_fits(index as int, arrays.count as int, self@.stride() as int);
        }
        match self.ops[at] {
            Op::Load(field) => read_field(arrays.input, &self.layout, index as usize, field),
            Op::Index => index as u64,
            Op::Gather(a, field) => {
                let wanted: u64 = values[a as usize];
                let element: u32 = if wanted < arrays.count as u64 {
                    wanted as u32
                } else {
                    arrays.count - 1
                };
                proof {
                    lemma_element_fits(element as int, arrays.count as int, self@.stride() as int);
                }
                read_field(arrays.input, &self.layout, element as usize, field)
            },
            Op::GatherAux(a, field) => {
                if arrays.aux_count == 0 {
                    0
                } else {
                    let wanted: u64 = values[a as usize];
                    let element: u32 = if wanted < arrays.aux_count as u64 {
                        wanted as u32
                    } else {
                        arrays.aux_count - 1
                    };
                    match &self.aux_layout {
                        Some(layout) => {
                            proof {
                                lemma_element_fits(
                                    element as int,
                                    arrays.aux_count as int,
                                    self@.aux_stride() as int,
                                );
                            }
                            read_field(arrays.aux, layout, element as usize, field)
                        },
                        None => 0,
                    }
                }
            },
            Op::Const(value) => value,
            Op::Add(a, b) => values[a as usize].wrapping_add(values[b as usize]),
            Op::Sub(a, b) => values[a as usize].wrapping_sub(values[b as usize]),
            Op::Mul(a, b) => values[a as usize].wrapping_mul(values[b as usize]),
            Op::And(a, b) => values[a as usize] & values[b as usize],
            Op::Or(a, b) => values[a as usize] | values[b as usize],
            Op::Xor(a, b) => values[a as usize] ^ values[b as usize],
            Op::Shl(a, b) => {
                let amount: u64 = values[b as usize] & 63;
                proof {
                    lemma_shift_amount(values[b as int]);
                }
                values[a as usize] << amount
            },
            Op::Shr(a, b) => {
                let amount: u64 = values[b as usize] & 63;
                proof {
                    lemma_shift_amount(values[b as int]);
                }
                values[a as usize] >> amount
            },
            Op::CmpEq(a, b) => if values[a as usize] == values[b as usize] {
                1
            } else {
                0
            },
            Op::CmpLt(a, b) => if values[a as usize] < values[b as usize] {
                1
            } else {
                0
            },
            Op::Select(c, a, b) => if values[c as usize] != 0 {
                values[a as usize]
            } else {
                values[b as usize]
            },
            Op::Get(local) => locals[local as usize],
            Op::Put(_, a) => values[a as usize],
            Op::Repeat(_) | Op::EndRepeat | Op::BreakIf(_) => 0,
        }
    }

    fn loop_end(&self, from: usize, hi: usize) -> (end: usize)
        requires
            from <= hi <= self.ops@.len(),
        ensures
            end == self@.loop_end(from as int, hi as int),
            from <= end <= hi,
    {
        let mut open: usize = 0;
        let mut at: usize = from;
        proof {
            lemma_closing_bounds(self@, from as int, 0);
        }
        while at < hi
            invariant
                from <= at <= hi <= self.ops@.len(),
                open <= at - from,
                self@.closing(from as int, 0) == self@.closing(at as int, open as nat),
            decreases hi - at,
        {
            match self.ops[at] {
                Op::Repeat(_) => {
                    open = open + 1;
                },
                Op::EndRepeat => {
                    if open == 0 {
                        return at;
                    }
                    open = open - 1;
                },
                _ => {},
            }
            at = at + 1;
        }
        proof {
            lemma_closing_bounds(self@, hi as int, open as nat);
        }
        hi
    }

    fn run(
        &self,
        arrays: &Arrays<'_>,
        index: u32,
        values: &mut Vec<u64>,
        locals: &mut Vec<u64>,
        lo: usize,
        hi: usize,
    ) -> (broke: bool)
        requires
            self.well_formed(),
            self@.reads_within(arrays@),
            index < arrays.count,
            lo <= hi <= self.ops@.len(),
            old(values)@.len() == self.ops@.len(),
            old(locals)@.len() == self@.locals(),
        ensures
            final(values)@.len() == self.ops@.len(),
            final(locals)@.len() == self@.locals(),
            (Registers { values: final(values)@, locals: final(locals)@ }, broke) == self@.ran(
                arrays@,
                index,
                Registers { values: old(values)@, locals: old(locals)@ },
                lo as int,
                hi as int,
            ),
        decreases hi - lo,
    {
        let ghost goal = self@.ran(
            arrays@,
            index,
            Registers { values: values@, locals: locals@ },
            lo as int,
            hi as int,
        );
        proof {
            lemma_valid_ops(self@, 0);
        }
        let mut at: usize = lo;
        while at < hi
            invariant
                self.well_formed(),
                self@.reads_within(arrays@),
                index < arrays.count,
                lo <= at <= hi <= self.ops@.len(),
                goal == self@.ran(
                    arrays@,
                    index,
                    Registers { values: old(values)@, locals: old(locals)@ },
                    lo as int,
                    hi as int,
                ),
                values@.len() == self.ops@.len(),
                locals@.len() == self@.locals(),
                forall|i: int| 0 <= i < self.ops@.len() ==> (#[trigger] self@.op_fault(i)) is None,
                goal == self@.ran(
                    arrays@,
                    index,
                    Registers { values: values@, locals: locals@ },
                    at as int,
                    hi as int,
                ),
            decreases hi - at,
        {
            assert(self@.op_fault(at as int) is None);
            match self.ops[at] {
                Op::Repeat(times) => {
                    let end: usize = self.loop_end(at + 1, hi);
                    let ghost before = Registers { values: values@, locals: locals@ };
                    let ghost after = self@.rounds(
                        arrays@,
                        index,
                        before,
                        at + 1,
                        end as int,
                        times as nat,
                    );
                    let mut left: u32 = times;
                    let mut broke: bool = false;
                    while left > 0 && !broke
                        invariant
                            self.well_formed(),
                            self@.reads_within(arrays@),
                            index < arrays.count,
                            lo <= at < end <= hi,
                            at < hi,
                            hi <= self.ops@.len(),
                            values@.len() == self.ops@.len(),
                            locals@.len() == self@.locals(),
                            broke ==> after == (Registers { values: values@, locals: locals@ }),
                            !broke ==> after == self@.rounds(
                                arrays@,
                                index,
                                Registers { values: values@, locals: locals@ },
                                at + 1,
                                end as int,
                                left as nat,
                            ),
                        decreases left,
                    {
                        broke = self.run(arrays, index, values, locals, at + 1, end);
                        left = left - 1;
                    }
                    if end == hi {
                        at = hi;
                    } else {
                        at = end + 1;
                    }
                },
                Op::EndRepeat => {
                    at = at + 1;
                },
                Op::BreakIf(a) => {
                    if values[a as usize] != 0 {
                        return true;
                    }
                    at = at + 1;
                },
                _ => {
                    let ghost before = Registers { values: values@, locals: locals@ };
                    let value: u64 = self.value_of(arrays, index, values, locals, at);
                    values.set(at, value);
                    if let Op::Put(local, _) = self.ops[at] {
                        proof {
                            lemma_locals_grow(self@, at as int + 1, self@.ops.len() as int);
                        }
                        locals.set(local as usize, value);
                    }
                    assert((Registers { values: values@, locals: locals@ }) =~= self@.stepped(
                        arrays@,
                        index,
                        before,
                        at as int,
                    ));
                    at = at + 1;
                },
            }
        }
        false
    }

    /// What element `index` becomes: the body runs on the frozen arrays, and
    /// its stores overwrite fields of `element`, truncated to their widths.
    pub fn evaluate_bound(&self, arrays: &Arrays<'_>, index: u32, element: Vec<u8>) -> (out: Vec<u8>)
        requires
            self.well_formed(),
            self@.reads_within(arrays@),
            index < arrays.count,
            element@.len() == self@.stride(),
        ensures
            out@ == self@.evaluated(arrays@, index, element@),
            out@.len() == element@.len(),
    {
        let mut values: Vec<u64> = Vec::new();
        let mut i: usize = 0;
        while i < self.ops.len()
            invariant
                i <= self.ops.len(),
                values@ =~= Seq::new(i as nat, |j: int| 0u64),
            decreases self.ops.len() - i,
        {
            values.push(0);
            i = i + 1;
        }
        let mut locals: Vec<u64> = Vec::new();
        let mut n: u32 = 0;
        while n < self.locals
            invariant
                n <= self.locals,
                locals@ =~= Seq::new(n as nat, |j: int| 0u64),
            decreases self.locals - n,
        {
            locals.push(0);
            n = n + 1;
        }
        assert((Registers { values: values@, locals: locals@ }) =~= self@.blank());
        self.run(arrays, index, &mut values, &mut locals, 0, self.ops.len());
        let ghost start = element@;
        let mut out: Vec<u8> = element;
        let mut s: usize = 0;
        proof {
            lemma_valid_stores(self@, 0);
        }
        while s < self.stores.len()
            invariant
                s <= self.stores.len(),
                self.well_formed(),
                values@.len() == self.ops@.len(),
                out@.len() == start.len() == self@.stride(),
                out@ == self@.stored(values@, start, s as int),
                forall|i: int|
                    0 <= i < self.stores@.len() ==> (#[trigger] self@.store_fault(i)) is None,
            decreases self.stores.len() - s,
        {
            let store: Store = self.stores[s];
            assert(self@.store_fault(s as int) is None);
            proof {
                lemma_field_fits(self@.layout, store.field as int, self@.layout.len() as int);
            }
            let offset: u32 = match self.layout.offset(store.field) {
                Some(at) => at,
                None => 0,
            };
            let width: FieldWidth = self.layout.widths[store.field as usize];
            bytes::set_le(
                out.as_mut_slice(),
                offset as usize,
                values[store.value as usize],
                width.bytes() as usize,
            );
            s = s + 1;
        }
        out
    }
}

fn fits_in_32_bits(layout: &ElementLayout) -> (fits: bool)
    ensures
        fits == layout.fits(),
{
    let mut total: u32 = 0;
    let mut i: usize = 0;
    while i < layout.widths.len()
        invariant
            i <= layout.widths.len(),
            total == offset_of(layout@, i as int),
        decreases layout.widths.len() - i,
    {
        let width: u32 = layout.widths[i].bytes();
        proof {
            lemma_field_fits(layout@, i as int, layout@.len() as int);
        }
        if total > u32::MAX - width {
            return false;
        }
        total = total + width;
        i = i + 1;
    }
    true
}

fn faulty(
    op: Op,
    at: u32,
    fields: usize,
    aux_fields: usize,
    depth: usize,
    view: Ghost<ProgramView>,
) -> (fault: Option<BodyError>)
    requires
        at < view@.ops.len(),
        view@.ops[at as int] == op,
        fields == view@.layout.len(),
        aux_fields == view@.aux_fields(),
        depth == view@.depth(at as int),
    ensures
        fault == view@.op_fault(at as int),
{
    match op {
        Op::Load(field) => if field as usize >= fields {
            Some(BodyError::UnknownField)
        } else {
            None
        },
        Op::Gather(a, field) => if a >= at {
            Some(BodyError::UnknownValue)
        } else if field as usize >= fields {
            Some(BodyError::UnknownField)
        } else {
            None
        },
        Op::GatherAux(a, field) => if a >= at {
            Some(BodyError::UnknownValue)
        } else if field as usize >= aux_fields {
            Some(BodyError::UnknownField)
        } else {
            None
        },
        Op::Add(a, b)
        | Op::Sub(a, b)
        | Op::Mul(a, b)
        | Op::And(a, b)
        | Op::Or(a, b)
        | Op::Xor(a, b)
        | Op::Shl(a, b)
        | Op::Shr(a, b)
        | Op::CmpEq(a, b)
        | Op::CmpLt(a, b) => if a >= at || b >= at {
            Some(BodyError::UnknownValue)
        } else {
            None
        },
        Op::Select(a, b, c) => if a >= at || b >= at || c >= at {
            Some(BodyError::UnknownValue)
        } else {
            None
        },
        Op::Get(local) => if local == u32::MAX {
            Some(BodyError::UnknownLocal)
        } else {
            None
        },
        Op::Put(local, a) => if a >= at {
            Some(BodyError::UnknownValue)
        } else if local == u32::MAX {
            Some(BodyError::UnknownLocal)
        } else {
            None
        },
        Op::EndRepeat => if depth == 0 {
            Some(BodyError::UnbalancedLoop)
        } else {
            None
        },
        Op::BreakIf(a) => if a >= at {
            Some(BodyError::UnknownValue)
        } else if depth == 0 {
            Some(BodyError::UnbalancedLoop)
        } else {
            None
        },
        Op::Index | Op::Const(_) | Op::Repeat(_) => None,
    }
}

} // verus!
