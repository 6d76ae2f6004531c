//! What schedules are compared by.

use vstd::prelude::*;

verus! {

/// How ready continuations are grouped.
#[derive(Clone, Copy, Debug, PartialEq, Eq, Structural)]
pub enum SchedulingMode {
    /// By the run class each one names.
    RunClassBins,
    /// In one bin, in arrival order.
    PersistentFifo,
}

/// What becomes of lanes that do not fill a cohort.
#[derive(Clone, Copy, Debug, PartialEq, Eq, Structural)]
pub enum PartialCohortPolicy {
    Defer,
    SendToCpu,
    RunPartial,
    MergeWithGenericClass,
}

/// What a run was dispatched as.
#[derive(Clone, Copy, Debug, PartialEq, Eq, Structural)]
pub struct Accounting {
    pub cohorts: u64,
    pub lane_slots: u64,
    pub useful_lane_slots: u64,
    pub full_cohorts: u64,
    pub steps: u64,
    pub deferred_lanes: u64,
}

/// What dispatching some lanes costs.
#[derive(Clone, Copy, Debug, PartialEq, Eq, Structural)]
pub struct DispatchCost {
    pub dispatches: u64,
    pub lane_slots: u64,
    pub useful_lane_slots: u64,
    pub full_dispatches: u64,
}

/// A cost, not bounded by any machine word.
#[verifier::ext_equal]
pub ghost struct CostView {
    pub dispatches: int,
    pub lane_slots: int,
    pub useful: int,
    pub full: int,
}

impl View for DispatchCost {
    type V = CostView;

    open spec fn view(&self) -> CostView {
        CostView {
            dispatches: self.dispatches as int,
            lane_slots: self.lane_slots as int,
            useful: self.useful_lane_slots as int,
            full: self.full_dispatches as int,
        }
    }
}

impl CostView {
    pub open spec fn zero() -> CostView {
        CostView { dispatches: 0, lane_slots: 0, useful: 0, full: 0 }
    }

    pub open spec fn plus(self, other: CostView) -> CostView {
        CostView {
            dispatches: self.dispatches + other.dispatches,
            lane_slots: self.lane_slots + other.lane_slots,
            useful: self.useful + other.useful,
            full: self.full + other.full,
        }
    }

    /// Every count is one of a machine word, and no more than `n` lanes of
    /// `width` slots each can make it.
    pub open spec fn within(self, n: int, width: int) -> bool {
        &&& 0 <= self.full <= self.dispatches <= n
        &&& 0 <= self.useful <= n
        &&& 0 <= self.lane_slots == self.dispatches * width
    }
}

/// A lane group has at least one lane.
pub open spec fn lanes_in(width: u16) -> int {
    if width > 1 {
        width as int
    } else {
        1
    }
}

/// As many lane groups as there are items take no more slots than a word counts.
pub open spec fn lanes_fit(items: int, width: int) -> bool {
    items * width <= u64::MAX
}

pub proof fn lemma_fewer_lanes_fit(items: int, width: int, fewer: int)
    requires
        lanes_fit(items, width),
        0 <= fewer <= items,
        width >= 1,
    ensures
        lanes_fit(fewer, width),
        0 <= fewer * width <= u64::MAX,
        fewer <= u64::MAX,
{
    assert(fewer * width <= items * width && fewer <= fewer * width) by (nonlinear_arith)
        requires
            0 <= fewer <= items,
            width >= 1,
    ;
}

pub fn lane_width(width: u16) -> (w: usize)
    ensures
        w == lanes_in(width),
        1 <= w <= 65535,
{
    if width > 1 {
        width as usize
    } else {
        1
    }
}

/// What `n` lanes of one class cost: as many groups as hold them, all full but
/// for the last.
pub open spec fn uniform_cost(n: int, width: int) -> CostView {
    let groups = (n + width - 1) / width;
    CostView { dispatches: groups, lane_slots: groups * width, useful: n, full: n / width }
}

// ---- classes in order ------------------------------------------------------

/// An increasing list with `c` in its place.
pub open spec fn inserted(list: Seq<u32>, c: u32) -> Seq<u32>
    decreases list.len(),
{
    if list.len() == 0 {
        seq![c]
    } else if list.last() == c {
        list
    } else if list.last() < c {
        list.push(c)
    } else {
        inserted(list.drop_last(), c).push(list.last())
    }
}

/// The distinct values among the first `n`, in increasing order.
pub open spec fn distinct(values: Seq<u32>, n: int) -> Seq<u32>
    decreases n,
{
    if n <= 0 {
        Seq::empty()
    } else {
        inserted(distinct(values, n - 1), values[n - 1])
    }
}

pub open spec fn is_increasing(list: Seq<u32>) -> bool {
    forall|i: int, j: int| 0 <= i < j < list.len() ==> #[trigger] list[i] < #[trigger] list[j]
}

/// Inserting between the smaller and the larger values of an increasing list.
pub proof fn lemma_inserted(list: Seq<u32>, c: u32, at: int)
    requires
        0 <= at <= list.len(),
        forall|i: int| 0 <= i < at ==> #[trigger] list[i] < c,
        forall|i: int| at <= i < list.len() ==> #[trigger] list[i] > c,
    ensures
        inserted(list, c) == list.insert(at, c),
    decreases list.len(),
{
    if list.len() == 0 {
        assert(list.insert(0, c) =~= seq![c]);
    } else if at == list.len() {
        assert(list.insert(at, c) =~= list.push(c));
    } else {
        lemma_inserted(list.drop_last(), c, at);
        assert(list.insert(at, c) =~= list.drop_last().insert(at, c).push(list.last()));
    }
}

pub proof fn lemma_inserted_present(list: Seq<u32>, c: u32, at: int)
    requires
        is_increasing(list),
        0 <= at < list.len(),
        list[at] == c,
    ensures
        inserted(list, c) == list,
    decreases list.len(),
{
    if at < list.len() - 1 {
        assert(list[at] < list[list.len() - 1]);
        assert(is_increasing(list.drop_last())) by {
            assert forall|i: int, j: int| 0 <= i < j < list.len() - 1 implies #[trigger] list.drop_last()[i]
                < #[trigger] list.drop_last()[j] by {
                assert(list[i] < list[j]);
            }
        }
        lemma_inserted_present(list.drop_last(), c, at);
        assert(list.drop_last().push(list.last()) =~= list);
    }
}

/// Puts `c` into an increasing list, and says where it lies.
pub fn insert_class(list: &mut Vec<u32>, c: u32) -> (at: usize)
    requires
        is_increasing(old(list)@),
    ensures
        final(list)@ == inserted(old(list)@, c),
        is_increasing(final(list)@),
        at < final(list)@.len(),
        final(list)@[at as int] == c,
        final(list)@.len() <= old(list)@.len() + 1,
        forall|i: int|
            0 <= i < old(list)@.len() ==> final(list)@.contains(#[trigger] old(list)@[i]),
{
    let ghost before = list@;
    let mut at: usize = list.len();
    while at > 0 && list[at - 1] >= c
        invariant
            at <= list.len(),
            list@ == before,
            is_increasing(before),
            forall|i: int| at <= i < before.len() ==> #[trigger] before[i] >= c,
        decreases at,
    {
        at = at - 1;
    }
    proof {
        assert forall|i: int| 0 <= i < at implies #[trigger] before[i] < c by {
            if i < at - 1 {
                assert(before[i] < before[at - 1]);
            }
        }
    }
    if at < list.len() && list[at] == c {
        proof {
            lemma_inserted_present(before, c, at as int);
            assert forall|i: int| 0 <= i < before.len() implies before.contains(
                #[trigger] before[i],
            ) by {}
        }
        return at;
    }
    proof {
        assert forall|i: int| at <= i < before.len() implies #[trigger] before[i] > c by {
            if i > at {
                assert(before[at as int] < before[i]);
            }
        }
        lemma_inserted(before, c, at as int);
    }
    list.insert(at, c);
    proof {
        assert(list@ =~= before.insert(at as int, c));
        assert forall|i: int, j: int| 0 <= i < j < list@.len() implies #[trigger] list@[i]
            < #[trigger] list@[j] by {
            let x = if i < at {
                i
            } else {
                i - 1
            };
            let y = if j < at {
                j
            } else {
                j - 1
            };
            if i != at && j != at {
                assert(before[x] < before[y]);
            }
        }
        assert forall|i: int| 0 <= i < before.len() implies list@.contains(
            #[trigger] before[i],
        ) by {
            if i < at {
                assert(list@[i] == before[i]);
            } else {
                assert(list@[i + 1] == before[i]);
            }
        }
    }
    at
}

pub proof fn lemma_distinct(values: Seq<u32>, n: int)
    requires
        0 <= n <= values.len(),
    ensures
        is_increasing(distinct(values, n)),
        distinct(values, n).len() <= n,
        n > 0 ==> distinct(values, n).len() > 0,
        forall|i: int| 0 <= i < n ==> distinct(values, n).contains(#[trigger] values[i]),
        forall|c: u32| #[trigger]
            distinct(values, n).contains(c) ==> exists|i: int| 0 <= i < n && #[trigger] values[i]
                == c,
    decreases n,
{
    if n > 0 {
        lemma_distinct(values, n - 1);
        lemma_inserted_facts(distinct(values, n - 1), values[n - 1]);
        let list = distinct(values, n);
        assert forall|i: int| 0 <= i < n implies list.contains(#[trigger] values[i]) by {
            if i < n - 1 {
                assert(distinct(values, n - 1).contains(values[i]));
            }
        }
        assert forall|c: u32| #[trigger] list.contains(c) implies exists|i: int|
            0 <= i < n && #[trigger] values[i] == c by {
            if c == values[n - 1] {
                assert(values[n - 1] == c);
            } else {
                assert(distinct(values, n - 1).contains(c));
                let i = choose|i: int| 0 <= i < n - 1 && #[trigger] values[i] == c;
                assert(values[i] == c);
            }
        }
    }
}

pub proof fn lemma_inserted_facts(list: Seq<u32>, c: u32)
    requires
        is_increasing(list),
    ensures
        is_increasing(inserted(list, c)),
        inserted(list, c).len() <= list.len() + 1,
        inserted(list, c).len() > 0,
        inserted(list, c).contains(c),
        forall|d: u32| #[trigger] inserted(list, c).contains(d) <==> list.contains(d) || d == c,
    decreases list.len(),
{
    let result = inserted(list, c);
    if list.len() == 0 {
        assert(result[0] == c);
    } else if list.last() == c {
        assert(list[list.len() - 1] == c);
    } else if list.last() < c {
        assert(result =~= list.push(c));
        assert(result[list.len() as int] == c);
        assert forall|i: int, j: int| 0 <= i < j < result.len() implies #[trigger] result[i]
            < #[trigger] result[j] by {
            if j == list.len() && i < list.len() - 1 {
                assert(list[i] < list[list.len() - 1]);
            } else if j < list.len() {
                assert(list[i] < list[j]);
            }
        }
        assert forall|d: u32| #[trigger] result.contains(d) <==> list.contains(d) || d == c by {
            if list.contains(d) {
                let i = choose|i: int| 0 <= i < list.len() && list[i] == d;
                assert(result[i] == d);
            }
        }
    } else {
        let shorter = list.drop_last();
        assert forall|i: int, j: int| 0 <= i < j < shorter.len() implies #[trigger] shorter[i]
            < #[trigger] shorter[j] by {
            assert(list[i] < list[j]);
        }
        lemma_inserted_facts(shorter, c);
        let inner = inserted(shorter, c);
        assert(result =~= inner.push(list.last()));
        assert forall|i: int| 0 <= i < inner.len() implies #[trigger] inner[i] < list.last() by {
            assert(inner.contains(inner[i]));
            if inner[i] != c {
                let k = choose|k: int| 0 <= k < shorter.len() && shorter[k] == inner[i];
                assert(list[k] < list[list.len() - 1]);
            }
        }
        assert forall|i: int, j: int| 0 <= i < j < result.len() implies #[trigger] result[i]
            < #[trigger] result[j] by {
            if j < inner.len() {
                assert(inner[i] < inner[j]);
            }
        }
        assert forall|d: u32| #[trigger] result.contains(d) <==> list.contains(d) || d == c by {
            if list.contains(d) {
                let i = choose|i: int| 0 <= i < list.len() && list[i] == d;
                if i < list.len() - 1 {
                    assert(shorter[i] == d);
                    assert(inner.contains(d));
                    let k = choose|k: int| 0 <= k < inner.len() && inner[k] == d;
                    assert(result[k] == d);
                } else {
                    assert(result[inner.len() as int] == d);
                }
            }
            if d == c {
                assert(inner.contains(c));
                let k = choose|k: int| 0 <= k < inner.len() && inner[k] == c;
                assert(result[k] == c);
            }
            if result.contains(d) && d != c {
                let k = choose|k: int| 0 <= k < result.len() && result[k] == d;
                if k < inner.len() {
                    assert(inner.contains(d));
                    let i = choose|i: int| 0 <= i < shorter.len() && shorter[i] == d;
                    assert(list[i] == d);
                } else {
                    assert(list[list.len() - 1] == d);
                }
            }
        }
        assert(inner.contains(c));
    }
}

/// The distinct values of a list, in increasing order.
pub fn distinct_classes(values: &Vec<u32>) -> (list: Vec<u32>)
    ensures
        list@ == distinct(values@, values@.len() as int),
        is_increasing(list@),
{
    let mut list: Vec<u32> = Vec::new();
    let mut i: usize = 0;
    while i < values.len()
        invariant
            i <= values.len(),
            list@ == distinct(values@, i as int),
            is_increasing(list@),
        decreases values.len() - i,
    {
        insert_class(&mut list, values[i]);
        i = i + 1;
    }
    list
}

// ---- the cost of a mixed frontier ------------------------------------------

/// What the lane group of `lanes` costs: one masked dispatch for each class in
/// it. It is full where it fills the width with one class.
pub open spec fn group_cost(lanes: Seq<u32>, width: int) -> CostView {
    let classes = distinct(lanes, lanes.len() as int).len() as int;
    CostView {
        dispatches: classes,
        lane_slots: classes * width,
        useful: lanes.len() as int,
        full: if lanes.len() == width && classes == 1 {
            1
        } else {
            0
        },
    }
}

/// What `classes` cost when lane groups are cut from them in order, from `at`
/// on.
pub open spec fn cost_from(classes: Seq<u32>, width: int, at: int) -> CostView
    decreases classes.len() - at,
{
    if at >= classes.len() || width < 1 {
        CostView::zero()
    } else {
        let end = if at + width < classes.len() {
            at + width
        } else {
            classes.len() as int
        };
        group_cost(classes.subrange(at, end), width).plus(cost_from(classes, width, end))
    }
}

/// What dispatching `classes` in lane groups of `width` costs.
pub fn dispatch_cost(classes: &Vec<u32>, width: u16) -> (cost: DispatchCost)
    requires
        lanes_fit(classes@.len() as int, lanes_in(width)),
    ensures
        cost@ == cost_from(classes@, lanes_in(width), 0),
        cost@.within(classes@.len() as int, lanes_in(width)),
{
    let w: usize = lane_width(width);
    let mut cost = DispatchCost {
        dispatches: 0,
        lane_slots: 0,
        useful_lane_slots: 0,
        full_dispatches: 0,
    };
    let mut at: usize = 0;
    assert(cost@ =~= CostView::zero());
    assert(cost@.plus(cost_from(classes@, w as int, 0)) =~= cost_from(classes@, w as int, 0));
    while at < classes.len()
        invariant
            at <= classes.len(),
            1 <= w <= 65535,
            lanes_fit(classes@.len() as int, w as int),
            cost@.within(at as int, w as int),
            cost@.plus(cost_from(classes@, w as int, at as int)) == cost_from(
                classes@,
                w as int,
                0,
            ),
        decreases classes.len() - at,
    {
        let end: usize = if classes.len() - at > w {
            at + w
        } else {
            classes.len()
        };
        let ghost lanes = classes@.subrange(at as int, end as int);
        let mut list: Vec<u32> = Vec::new();
        let mut i: usize = at;
        while i < end
            invariant
                at <= i <= end <= classes.len(),
                lanes == classes@.subrange(at as int, end as int),
                list@ == distinct(lanes, i - at),
                is_increasing(list@),
                list@.len() <= i - at,
            decreases end - i,
        {
            assert(lanes[i - at] == classes@[i as int]);
            insert_class(&mut list, classes[i]);
            i = i + 1;
        }
        let found: u64 = list.len() as u64;
        let ghost before = cost@;
        let uniform: u64 = if end - at == w && list.len() == 1 {
            1
        } else {
            0
        };
        proof {
            lemma_distinct(lanes, lanes.len() as int);
            lemma_fewer_lanes_fit(classes@.len() as int, w as int, cost.dispatches + found);
            lemma_fewer_lanes_fit(classes@.len() as int, w as int, found as int);
            lemma_fewer_lanes_fit(classes@.len() as int, w as int, end as int);
            assert((cost.dispatches + found) * w == cost.dispatches * w + found * w)
                by (nonlinear_arith);
        }
        cost.dispatches = cost.dispatches + found;
        cost.lane_slots = cost.lane_slots + found * w as u64;
        cost.useful_lane_slots = cost.useful_lane_slots + (end - at) as u64;
        cost.full_dispatches = cost.full_dispatches + uniform;
        proof {
            let group = group_cost(lanes, w as int);
            assert(cost@ =~= before.plus(group));
            let rest = cost_from(classes@, w as int, end as int);
            assert(cost_from(classes@, w as int, at as int) == group.plus(rest));
            assert(before.plus(group.plus(rest)) =~= before.plus(group).plus(rest));
        }
        at = end;
    }
    assert(cost@.plus(CostView::zero()) =~= cost@);
    cost
}

/// Dispatching lanes of one class costs as many groups as hold them.
pub proof fn law_one_class_fills_groups(c: u32, n: nat, width: int, at: int)
    requires
        width >= 1,
        0 <= at <= n,
        at % width == 0,
    ensures
        cost_from(Seq::new(n, |i: int| c), width, at) == uniform_cost(n - at, width),
    decreases n - at,
{
    let classes = Seq::new(n, |i: int| c);
    let left = n - at;
    if at < n {
        let end = if at + width < n {
            at + width
        } else {
            n as int
        };
        let lanes = classes.subrange(at, end);
        lemma_one_class(lanes, c, lanes.len() as int);
        if at + width < n {
            assert((at + width) % width == 0) by (nonlinear_arith)
                requires
                    at % width == 0,
                    width >= 1,
            ;
            law_one_class_fills_groups(c, n, width, end);
            let rest = left - width;
            assert((left + width - 1) / width == (rest + width - 1) / width + 1)
                by (nonlinear_arith)
                requires
                    left == rest + width,
                    width >= 1,
            ;
            assert(left / width == rest / width + 1) by (nonlinear_arith)
                requires
                    left == rest + width,
                    width >= 1,
            ;
            let g = (rest + width - 1) / width;
            assert((g + 1) * width == g * width + width) by (nonlinear_arith);
        } else {
            assert((left + width - 1) / width == 1 && left / width == if left == width {
                1int
            } else {
                0
            }) by (nonlinear_arith)
                requires
                    1 <= left <= width,
            ;
            assert(cost_from(classes, width, end) == CostView::zero());
        }
        let group = group_cost(lanes, width);
        let kinds = distinct(lanes, lanes.len() as int).len() as int;
        assert(kinds == 1);
        assert(kinds * width == width) by (nonlinear_arith)
            requires
                kinds == 1,
        ;
        let groups = (left + width - 1) / width;
        if at + width >= n {
            assert(groups * width == width) by (nonlinear_arith)
                requires
                    groups == 1,
            ;
        }
        assert(cost_from(classes, width, at) == group.plus(cost_from(classes, width, end)));
        assert(cost_from(classes, width, at) =~= uniform_cost(left, width));
    } else {
        assert((width - 1) / width == 0 && 0int / width == 0) by (nonlinear_arith)
            requires
                width >= 1,
        ;
        assert(cost_from(classes, width, at) =~= uniform_cost(0, width));
    }
}

proof fn lemma_one_class(lanes: Seq<u32>, c: u32, n: int)
    requires
        0 <= n <= lanes.len(),
        forall|i: int| 0 <= i < lanes.len() ==> lanes[i] == c,
    ensures
        distinct(lanes, n) == if n == 0 {
            Seq::<u32>::empty()
        } else {
            seq![c]
        },
    decreases n,
{
    if n > 0 {
        lemma_one_class(lanes, c, n - 1);
    }
}

/// Useful lane slots are the lanes dispatched, however they are grouped.
pub proof fn law_useful_slots_are_the_lanes(classes: Seq<u32>, width: int, at: int)
    requires
        width >= 1,
        0 <= at <= classes.len(),
    ensures
        cost_from(classes, width, at).useful == classes.len() - at,
    decreases classes.len() - at,
{
    if at < classes.len() {
        let end = if at + width < classes.len() {
            at + width
        } else {
            classes.len() as int
        };
        law_useful_slots_are_the_lanes(classes, width, end);
    }
}

/// With one lane to a group every dispatch is full, so that the order of the lanes
/// cannot matter.
pub proof fn law_single_lanes_cost_the_same(classes: Seq<u32>, at: int)
    requires
        0 <= at <= classes.len(),
    ensures
        cost_from(classes, 1, at) == (CostView {
            dispatches: classes.len() - at,
            lane_slots: classes.len() - at,
            useful: classes.len() - at,
            full: classes.len() - at,
        }),
    decreases classes.len() - at,
{
    if at < classes.len() {
        law_single_lanes_cost_the_same(classes, at + 1);
        let lane = classes.subrange(at, at + 1);
        reveal_with_fuel(distinct, 2);
        reveal_with_fuel(inserted, 2);
        assert(distinct(lane, 1) =~= seq![lane[0]]);
    }
}

} // verus!
