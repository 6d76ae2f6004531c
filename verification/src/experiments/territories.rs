//! Routing arrivals to territories, each with its own queues.

use crate::experiments::class_queues;
use crate::experiments::class_queues::{Queues, QueuesView, Timing};
use crate::experiments::irregular_arrival;
use crate::experiments::irregular_arrival::{wait_percentile, Arrival, ArrivalTrace};
use crate::experiments::policies;
use crate::experiments::policies::{bulk_policy, class_index};
use crate::scheduler;
use crate::scheduler::{lane_width, CostView, DispatchCost};
use std::collections::BTreeMap;
use vstd::prelude::*;

verus! {

/// Which territory an arrival goes to.
#[derive(Clone, Copy, Debug, PartialEq, Eq, Structural)]
pub enum Routing {
    /// Where its parent ran, or else in turn.
    Local,
    /// In turn.
    RoundRobin,
    /// By its class.
    ClassAffinity,
    /// By its class, unless that territory's queue has reached the cap: then to
    /// the territory with the least queued.
    ClassAffinityBalanced { cap: usize },
    /// In turn among the territories that its class was given, each class as
    /// many as its share of the work.
    ProportionalAffinity,
}

#[derive(Clone, Copy, Debug)]
pub struct TerritoryConfig {
    pub territories: u32,
    pub width: u16,
    pub routing: Routing,
    pub max_defer: u32,
}

// ---- shares of the territories ---------------------------------------------

/// How many items each class has.
pub open spec fn class_counts(events: Seq<Arrival>, classes: Seq<u32>) -> Seq<int> {
    Seq::new(
        classes.len(),
        |j: int|
            policies::count_class(
                irregular_arrival::classes_of(events),
                classes[j],
                events.len() as int,
            ),
    )
}

/// A class's share of the territories, rounded down, and at least one.
pub open spec fn base_size(count: int, territories: int, total: int) -> int {
    let share = (count * territories) / total;
    if share > 1 {
        share
    } else {
        1
    }
}

pub open spec fn base_sizes(counts: Seq<int>, territories: int, total: int) -> Seq<int> {
    Seq::new(counts.len(), |j: int| base_size(counts[j], territories, total))
}

pub open spec fn remainder_of(count: int, territories: int, total: int) -> int {
    (count * territories) % total
}

/// `order` with class `i` behind every class whose remainder is no smaller.
pub open spec fn ranked(order: Seq<int>, remainders: Seq<int>, i: int) -> Seq<int>
    decreases order.len(),
{
    if order.len() == 0 || remainders[i] <= remainders[order.last()] {
        order.push(i)
    } else {
        ranked(order.drop_last(), remainders, i).push(order.last())
    }
}

/// The first `n` classes by falling remainder, equal ones in class order.
pub open spec fn rank_order(remainders: Seq<int>, n: int) -> Seq<int>
    decreases n,
{
    if n <= 0 {
        Seq::empty()
    } else {
        ranked(rank_order(remainders, n - 1), remainders, n - 1)
    }
}

/// `times` territories more, one to a class in rank order, round and round.
pub open spec fn raised(sizes: Seq<int>, order: Seq<int>, cursor: int, times: nat) -> Seq<int>
    decreases times,
{
    if times == 0 {
        sizes
    } else {
        let i = order[cursor % (order.len() as int)];
        raised(sizes.update(i, sizes[i] + 1), order, cursor + 1, (times - 1) as nat)
    }
}

/// The first of the largest classes among the first `n`.
pub open spec fn largest(sizes: Seq<int>, n: int) -> int
    decreases n,
{
    if n <= 1 {
        0
    } else {
        let before = largest(sizes, n - 1);
        if sizes[n - 1] > sizes[before] {
            n - 1
        } else {
            before
        }
    }
}

/// `times` territories fewer, each from the largest class, none below one.
pub open spec fn lowered(sizes: Seq<int>, times: nat) -> Seq<int>
    decreases times,
{
    if times == 0 {
        sizes
    } else {
        let i = largest(sizes, sizes.len() as int);
        if sizes[i] > 1 {
            lowered(sizes.update(i, sizes[i] - 1), (times - 1) as nat)
        } else {
            sizes
        }
    }
}

pub open spec fn sum(sizes: Seq<int>, n: int) -> int
    decreases n,
{
    if n <= 0 {
        0
    } else {
        sum(sizes, n - 1) + sizes[n - 1]
    }
}

/// How many territories each class is given: largest remainders first.
pub open spec fn class_sizes(counts: Seq<int>, territories: int, total: int) -> Seq<int> {
    let k = counts.len() as int;
    let base = base_sizes(counts, territories, total);
    let remainders = Seq::new(
        counts.len(),
        |j: int| remainder_of(counts[j], territories, total),
    );
    let assigned = sum(base, k);
    if assigned < territories {
        raised(base, rank_order(remainders, k), 0, (territories - assigned) as nat)
    } else {
        lowered(base, (assigned - territories) as nat)
    }
}

pub open spec fn least(a: int, b: int) -> int {
    if a < b {
        a
    } else {
        b
    }
}

/// How many territories a class of this size gets from `start` on.
pub open spec fn block_len(size: int, territories: int, start: int) -> int {
    least(
        if size > 1 {
            size
        } else {
            1
        },
        territories - least(start, territories - 1),
    )
}

/// Where the territories of class `j` would start.
pub open spec fn block_start(sizes: Seq<int>, territories: int, j: int) -> int
    decreases j,
{
    if j <= 0 {
        0
    } else {
        let start = block_start(sizes, territories, j - 1);
        least(start + block_len(sizes[j - 1], territories, start), territories)
    }
}

/// The territories of class `j`: the first of them, and how many.
pub open spec fn block_of(counts: Seq<int>, territories: int, total: int, j: int) -> (int, int) {
    if territories <= counts.len() {
        (j % territories, 1)
    } else {
        let sizes = class_sizes(counts, territories, total);
        let start = block_start(sizes, territories, j);
        (least(start, territories - 1), block_len(sizes[j], territories, start))
    }
}

/// Machine numbers as plain ones.
pub open spec fn ints(values: Seq<usize>) -> Seq<int> {
    Seq::new(values.len(), |i: int| values[i] as int)
}

proof fn lemma_sum_update(sizes: Seq<int>, i: int, v: int, n: int)
    requires
        0 <= i < sizes.len(),
        0 <= n <= sizes.len(),
    ensures
        sum(sizes.update(i, v), n) == sum(sizes, n) + if i < n {
            v - sizes[i]
        } else {
            0
        },
    decreases n,
{
    if n > 0 {
        lemma_sum_update(sizes, i, v, n - 1);
    }
}

proof fn lemma_sum_at_least(sizes: Seq<int>, n: int)
    requires
        0 <= n <= sizes.len(),
        forall|i: int| 0 <= i < sizes.len() ==> #[trigger] sizes[i] >= 1,
    ensures
        sum(sizes, n) >= n,
        forall|i: int| 0 <= i < n ==> #[trigger] sizes[i] <= sum(sizes, n),
    decreases n,
{
    if n > 0 {
        lemma_sum_at_least(sizes, n - 1);
        assert forall|i: int| 0 <= i < n implies #[trigger] sizes[i] <= sum(sizes, n) by {
            if i < n - 1 {
                assert(sizes[i] <= sum(sizes, n - 1));
            }
        }
    }
}

/// Inserting behind the entries that are no smaller and before the rest.
proof fn lemma_ranked_at(order: Seq<int>, remainders: Seq<int>, i: int, at: int)
    requires
        0 <= at <= order.len(),
        at > 0 ==> remainders[i] <= remainders[order[at - 1]],
        forall|j: int| at <= j < order.len() ==> remainders[i] > remainders[#[trigger] order[j]],
    ensures
        ranked(order, remainders, i) == order.insert(at, i),
    decreases order.len(),
{
    if at == order.len() {
        assert(order.insert(at, i) =~= order.push(i));
    } else {
        assert(remainders[i] > remainders[order[order.len() - 1]]);
        lemma_ranked_at(order.drop_last(), remainders, i, at);
        assert(order.insert(at, i) =~= order.drop_last().insert(at, i).push(order.last()));
    }
}

fn share(count: usize, territories: usize, total: usize) -> (parts: (usize, usize))
    requires
        count <= total,
        total > 0,
    ensures
        parts.0 == base_size(count as int, territories as int, total as int),
        parts.1 == remainder_of(count as int, territories as int, total as int),
        1 <= parts.0,
        parts.0 <= territories || parts.0 == 1,
{
    proof {
        assert(count * territories <= usize::MAX * usize::MAX) by (nonlinear_arith)
            requires
                count <= usize::MAX,
                territories <= usize::MAX,
        ;
        assert(usize::MAX * usize::MAX <= u128::MAX) by (nonlinear_arith)
            requires
                usize::MAX <= 0xffff_ffff_ffff_ffff,
        ;
        assert(0 <= count * territories) by (nonlinear_arith);
        let (c, t, n) = (count as int, territories as int, total as int);
        assert((c * t) / n <= t && 0 <= (c * t) / n) by (nonlinear_arith)
            requires
                0 <= c <= n,
                0 <= t,
                n > 0,
        ;
        assert(0 <= (c * t) % n < n) by (nonlinear_arith)
            requires
                n > 0,
        ;
    }
    let product: u128 = count as u128 * territories as u128;
    let whole: usize = (product / total as u128) as usize;
    let rest: usize = (product % total as u128) as usize;
    if whole > 1 {
        (whole, rest)
    } else {
        (1, rest)
    }
}

fn order_by_remainder(remainders: &Vec<usize>) -> (order: Vec<usize>)
    ensures
        ints(order@) == rank_order(ints(remainders@), remainders@.len() as int),
        order@.len() == remainders@.len(),
        forall|j: int| 0 <= j < order@.len() ==> #[trigger] order@[j] < remainders@.len(),
{
    let ghost values = ints(remainders@);
    let mut order: Vec<usize> = Vec::new();
    let mut i: usize = 0;
    assert(ints(order@) =~= Seq::<int>::empty());
    while i < remainders.len()
        invariant
            i <= remainders.len(),
            values == ints(remainders@),
            ints(order@) == rank_order(values, i as int),
            order@.len() == i,
            forall|j: int| 0 <= j < order@.len() ==> #[trigger] order@[j] < i,
        decreases remainders.len() - i,
    {
        let ghost before = ints(order@);
        let ghost placed = order@;
        let mut at: usize = order.len();
        while at > 0 && remainders[i] > remainders[order[at - 1]]
            invariant
                at <= order@.len(),
                order@ == placed,
                before == ints(placed),
                values == ints(remainders@),
                i < remainders.len(),
                forall|j: int| 0 <= j < order@.len() ==> #[trigger] order@[j] < i,
                forall|j: int|
                    at <= j < order@.len() ==> values[i as int] > values[#[trigger] before[j]],
            decreases at,
        {
            at = at - 1;
        }
        proof {
            lemma_ranked_at(before, values, i as int, at as int);
        }
        order.insert(at, i);
        proof {
            assert(order@ =~= placed.insert(at as int, i));
            assert(ints(order@) =~= before.insert(at as int, i as int));
            assert forall|j: int| 0 <= j < order@.len() implies #[trigger] order@[j] < i + 1 by {
                if j < at {
                    assert(order@[j] == placed[j]);
                } else if j > at {
                    assert(order@[j] == placed[j - 1]);
                }
            }
        }
        i = i + 1;
    }
    order
}

fn raise(sizes: &mut Vec<usize>, order: &Vec<usize>, times: usize, territories: Ghost<int>)
    requires
        order@.len() == old(sizes)@.len(),
        order@.len() > 0,
        forall|j: int| 0 <= j < order@.len() ==> #[trigger] order@[j] < order@.len(),
        forall|j: int| 0 <= j < old(sizes)@.len() ==> #[trigger] old(sizes)@[j] >= 1,
        sum(ints(old(sizes)@), old(sizes)@.len() as int) + times == territories@,
        territories@ <= usize::MAX,
    ensures
        ints(final(sizes)@) == raised(ints(old(sizes)@), ints(order@), 0, times as nat),
        final(sizes)@.len() == old(sizes)@.len(),
{
    let ghost goal = raised(ints(sizes@), ints(order@), 0, times as nat);
    let ghost k = sizes@.len() as int;
    let mut cursor: usize = 0;
    let mut left: usize = times;
    while left > 0
        invariant
            left <= times,
            cursor < order@.len(),
            sizes@.len() == order@.len() == k,
            k > 0,
            forall|j: int| 0 <= j < order@.len() ==> #[trigger] order@[j] < order@.len(),
            forall|j: int| 0 <= j < sizes@.len() ==> #[trigger] sizes@[j] >= 1,
            sum(ints(sizes@), k) + left == territories@,
            territories@ <= usize::MAX,
            goal == raised(ints(sizes@), ints(order@), cursor as int, left as nat),
        decreases left,
    {
        let ghost before = ints(sizes@);
        let i: usize = order[cursor];
        proof {
            lemma_sum_at_least(before, k);
            assert(before[i as int] <= sum(before, k));
            lemma_sum_update(before, i as int, before[i as int] + 1, k);
            vstd::arithmetic::div_mod::lemma_small_mod(cursor as nat, k as nat);
            assert(ints(order@)[cursor as int % k] == i);
        }
        let size: usize = sizes[i];
        sizes.set(i, size + 1);
        proof {
            assert(ints(sizes@) =~= before.update(i as int, before[i as int] + 1));
            lemma_raised_cycles(ints(sizes@), ints(order@), cursor + 1, (left - 1) as nat);
        }
        left = left - 1;
        cursor = if cursor + 1 == order.len() {
            0
        } else {
            cursor + 1
        };
    }
}

proof fn lemma_raised_cycles(sizes: Seq<int>, order: Seq<int>, cursor: int, times: nat)
    requires
        order.len() > 0,
        0 <= cursor,
    ensures
        cursor == order.len() ==> raised(sizes, order, cursor, times) == raised(
            sizes,
            order,
            0,
            times,
        ),
{
    if cursor == order.len() {
        lemma_raised_shift(sizes, order, 0, times);
    }
}

proof fn lemma_raised_shift(sizes: Seq<int>, order: Seq<int>, cursor: int, times: nat)
    requires
        order.len() > 0,
        0 <= cursor,
    ensures
        raised(sizes, order, cursor + order.len(), times) == raised(sizes, order, cursor, times),
    decreases times,
{
    let k = order.len() as int;
    if times > 0 {
        assert((cursor + k) % k == cursor % k) by (nonlinear_arith)
            requires
                k > 0,
                0 <= cursor,
        ;
        let i = order[cursor % k];
        lemma_raised_shift(
            sizes.update(i, sizes[i] + 1),
            order,
            cursor + 1,
            (times - 1) as nat,
        );
        assert(cursor + k + 1 == cursor + 1 + k);
    }
}

#[verifier::loop_isolation(false)]
fn lower(sizes: &mut Vec<usize>, times: u128)
    requires
        old(sizes)@.len() > 0,
    ensures
        ints(final(sizes)@) == lowered(ints(old(sizes)@), times as nat),
        final(sizes)@.len() == old(sizes)@.len(),
{
    let ghost goal = lowered(ints(sizes@), times as nat);
    let mut left: u128 = times;
    while left > 0
        invariant
            sizes@.len() == old(sizes)@.len(),
            goal == lowered(ints(sizes@), left as nat),
        decreases left,
    {
        let ghost before = ints(sizes@);
        let mut best: usize = 0;
        let mut i: usize = 1;
        while i < sizes.len()
            invariant
                1 <= i <= sizes@.len(),
                best < i,
                before == ints(sizes@),
                best == largest(before, i as int),
            decreases sizes@.len() - i,
        {
            if sizes[i] > sizes[best] {
                best = i;
            }
            i = i + 1;
        }
        if sizes[best] <= 1 {
            return;
        }
        let size: usize = sizes[best];
        sizes.set(best, size - 1);
        assert(ints(sizes@) =~= before.update(best as int, before[best as int] - 1));
        left = left - 1;
    }
}

/// Gives each class a run of territories in proportion to its work, largest
/// remainders first. With no more territories than classes, each class has one
/// and they share.
pub fn proportional_blocks(counts: &Vec<usize>, territories: usize, total: usize) -> (blocks: Vec<
    (usize, usize),
>)
    requires
        territories > 0,
        total > 0,
        counts@.len() > 0,
        forall|j: int| 0 <= j < counts@.len() ==> #[trigger] counts@[j] <= total,
    ensures
        blocks@.len() == counts@.len(),
        forall|j: int|
            0 <= j < blocks@.len() ==> ((#[trigger] blocks@[j]).0 as int, blocks@[j].1 as int)
                == block_of(ints(counts@), territories as int, total as int, j),
{
    let ghost values = ints(counts@);
    let k: usize = counts.len();
    let mut blocks: Vec<(usize, usize)> = Vec::new();
    if territories <= k {
        let mut i: usize = 0;
        while i < k
            invariant
                i <= k == counts@.len(),
                territories <= k,
                territories > 0,
                values == ints(counts@),
                blocks@.len() == i,
                forall|j: int|
                    0 <= j < i ==> ((#[trigger] blocks@[j]).0 as int, blocks@[j].1 as int)
                        == block_of(values, territories as int, total as int, j),
            decreases k - i,
        {
            blocks.push((i % territories, 1));
            i = i + 1;
        }
        return blocks;
    }
    let mut sizes: Vec<usize> = Vec::new();
    let mut remainders: Vec<usize> = Vec::new();
    let mut assigned: u128 = 0;
    let mut i: usize = 0;
    while i < k
        invariant
            i <= k == counts@.len(),
            total > 0,
            values == ints(counts@),
            forall|j: int| 0 <= j < counts@.len() ==> #[trigger] counts@[j] <= total,
            ints(sizes@) =~= base_sizes(values, territories as int, total as int).take(i as int),
            ints(remainders@) =~= Seq::new(
                i as nat,
                |j: int| remainder_of(values[j], territories as int, total as int),
            ),
            forall|j: int| 0 <= j < sizes@.len() ==> #[trigger] sizes@[j] >= 1,
            assigned == sum(ints(sizes@), i as int),
            assigned <= i * 0xffff_ffff_ffff_ffff,
        decreases k - i,
    {
        let (size, rest) = share(counts[i], territories, total);
        let ghost before = ints(sizes@);
        let ghost held = ints(remainders@);
        sizes.push(size);
        remainders.push(rest);
        proof {
            assert(values[i as int] == counts@[i as int]);
            assert(ints(remainders@) =~= held.push(rest as int));
            assert(ints(sizes@) =~= before.push(size as int));
            lemma_sum_same(before, ints(sizes@), i as int);
            assert(i * 0xffff_ffff_ffff_ffff + 0xffff_ffff_ffff_ffff <= u128::MAX);
        }
        assigned = assigned + size as u128;
        i = i + 1;
    }
    let ghost base = base_sizes(values, territories as int, total as int);
    let ghost rems = Seq::new(
        values.len(),
        |j: int| remainder_of(values[j], territories as int, total as int),
    );
    assert(ints(sizes@) =~= base);
    assert(ints(remainders@) =~= rems);
    if assigned < territories as u128 {
        let order: Vec<usize> = order_by_remainder(&remainders);
        raise(
            &mut sizes,
            &order,
            (territories as u128 - assigned) as usize,
            Ghost(territories as int),
        );
    } else {
        lower(&mut sizes, assigned - territories as u128);
    }
    assert(ints(sizes@) == class_sizes(values, territories as int, total as int));
    let mut start: usize = 0;
    let mut n: usize = 0;
    while n < k
        invariant
            n <= k == counts@.len(),
            k < territories,
            values == ints(counts@),
            sizes@.len() == k,
            ints(sizes@) == class_sizes(values, territories as int, total as int),
            start <= territories,
            start == block_start(ints(sizes@), territories as int, n as int),
            blocks@.len() == n,
            forall|j: int|
                0 <= j < n ==> ((#[trigger] blocks@[j]).0 as int, blocks@[j].1 as int) == block_of(
                    values,
                    territories as int,
                    total as int,
                    j,
                ),
        decreases k - n,
    {
        let first: usize = if start < territories - 1 {
            start
        } else {
            territories - 1
        };
        let wanted: usize = if sizes[n] > 1 {
            sizes[n]
        } else {
            1
        };
        let len: usize = if wanted < territories - first {
            wanted
        } else {
            territories - first
        };
        blocks.push((first, len));
        start = if len < territories - start {
            start + len
        } else {
            territories
        };
        n = n + 1;
    }
    blocks
}

proof fn lemma_sum_same(a: Seq<int>, b: Seq<int>, n: int)
    requires
        0 <= n <= a.len(),
        n <= b.len(),
        forall|i: int| 0 <= i < n ==> a[i] == b[i],
    ensures
        sum(a, n) == sum(b, n),
    decreases n,
{
    if n > 0 {
        lemma_sum_same(a, b, n - 1);
    }
}

// ---- routing ---------------------------------------------------------------

/// Where arrivals were sent, and what came of them.
#[verifier::ext_equal]
pub ghost struct RouterView {
    pub queues: QueuesView,
    /// Where each item went.
    pub placed: Map<u64, usize>,
    /// How many items were sent in turn.
    pub turn: int,
    /// How many items of each class were sent within its own territories.
    pub class_turn: Seq<int>,
    pub spills: int,
}

/// What a routing goes by.
#[verifier::ext_equal]
pub ghost struct Plan {
    pub classes: Seq<u32>,
    pub counts: Seq<int>,
    pub territories: int,
    pub total: int,
}

/// Items queued in the first `n` queues of a territory.
pub open spec fn queued_in(queues: Seq<Seq<Arrival>>, first: int, n: int) -> int
    decreases n,
{
    if n <= 0 {
        0
    } else {
        queued_in(queues, first, n - 1) + queues[first + n - 1].len()
    }
}

/// The first of the first `n` territories with the least queued.
pub open spec fn least_loaded(queues: Seq<Seq<Arrival>>, k: int, n: int) -> int
    decreases n,
{
    if n <= 1 {
        0
    } else {
        let before = least_loaded(queues, k, n - 1);
        if queued_in(queues, (n - 1) * k, k) < queued_in(queues, before * k, k) {
            n - 1
        } else {
            before
        }
    }
}

/// The territory an arrival of class number `c` goes to, and whether that is a
/// spill.
pub open spec fn route_of(r: RouterView, m: Plan, routing: Routing, a: Arrival, c: int) -> (
    int,
    bool,
) {
    let t = m.territories;
    let k = m.classes.len() as int;
    match routing {
        Routing::ProportionalAffinity => {
            let (start, len) = block_of(m.counts, t, m.total, c);
            (
                (start + r.class_turn[c] % (if len > 1 {
                    len
                } else {
                    1
                })) % t,
                false,
            )
        },
        Routing::RoundRobin => (r.turn % t, false),
        Routing::Local => match a.parent {
            Some(p) => if r.placed.dom().contains(p) {
                (r.placed[p] as int, false)
            } else {
                (r.turn % t, false)
            },
            None => (r.turn % t, false),
        },
        Routing::ClassAffinity => (a.run_class as int % t, false),
        Routing::ClassAffinityBalanced { cap } => {
            let home = a.run_class as int % t;
            if r.queues.queues[home * k + c].len() < cap {
                (home, false)
            } else {
                let target = least_loaded(r.queues.queues, k, t);
                (target, target != home)
            }
        },
    }
}

/// Whether the arrival was sent in turn.
pub open spec fn takes_turn(r: RouterView, routing: Routing, a: Arrival) -> bool {
    match routing {
        Routing::RoundRobin => true,
        Routing::Local => !(a.parent matches Some(p) && r.placed.dom().contains(p)),
        _ => false,
    }
}

/// One arrival routed and queued.
pub open spec fn routed(r: RouterView, m: Plan, routing: Routing, a: Arrival) -> RouterView {
    let c = m.classes.index_of(a.run_class);
    let (t, spilled) = route_of(r, m, routing, a, c);
    RouterView {
        queues: r.queues.joined(t * m.classes.len() + c, a),
        placed: r.placed.insert(a.id, t as usize),
        turn: r.turn + if takes_turn(r, routing, a) {
            1int
        } else {
            0
        },
        class_turn: if routing == Routing::ProportionalAffinity {
            r.class_turn.update(c, r.class_turn[c] + 1)
        } else {
            r.class_turn
        },
        spills: r.spills + if spilled {
            1int
        } else {
            0
        },
    }
}

/// What becomes ready at `tick` among the first `n` events, routed.
pub open spec fn all_routed(
    r: RouterView,
    m: Plan,
    routing: Routing,
    events: Seq<Arrival>,
    tick: int,
    n: int,
) -> RouterView
    decreases n,
{
    if n <= 0 {
        r
    } else {
        let before = all_routed(r, m, routing, events, tick, n - 1);
        if events[n - 1].tick == tick {
            routed(before, m, routing, events[n - 1])
        } else {
            before
        }
    }
}

pub open spec fn map_of(events: Seq<Arrival>, territories: int) -> Plan {
    let classes = irregular_arrival::class_list(events);
    Plan {
        classes,
        counts: class_counts(events, classes),
        territories,
        total: events.len() as int,
    }
}

pub open spec fn router_blank(m: Plan) -> RouterView {
    RouterView {
        queues: QueuesView::blank((m.territories * m.classes.len()) as nat, m.territories as nat),
        placed: Map::empty(),
        turn: 0,
        class_turn: Seq::new(m.classes.len(), |i: int| 0int),
        spills: 0,
    }
}

/// The router after the first `n` ticks.
pub open spec fn router_after(
    events: Seq<Arrival>,
    m: Plan,
    routing: Routing,
    timing: Timing,
    n: nat,
) -> RouterView
    decreases n,
{
    if n == 0 {
        router_blank(m)
    } else {
        let ready = all_routed(
            router_after(events, m, routing, timing, (n - 1) as nat),
            m,
            routing,
            events,
            n - 1,
            events.len() as int,
        );
        RouterView {
            queues: ready.queues.all_served(
                m.territories * m.classes.len(),
                m.classes.len() as int,
                timing,
                (n - 1) as u32,
            ),
            ..ready
        }
    }
}

pub open spec fn territories_of(config: TerritoryConfig) -> int {
    if config.territories > 1 {
        config.territories as int
    } else {
        1
    }
}

#[derive(Debug)]
pub struct TerritoryOutcome {
    pub cost: DispatchCost,
    /// Dispatches made by each territory.
    pub per_territory: Vec<u64>,
    pub waits: Vec<u32>,
    pub spills: u64,
    pub makespan: u32,
}

#[verifier::ext_equal]
pub ghost struct TerritoryView {
    pub cost: CostView,
    pub per_territory: Seq<int>,
    pub waits: Seq<u32>,
    pub spills: int,
    pub makespan: u32,
}

impl View for TerritoryOutcome {
    type V = TerritoryView;

    open spec fn view(&self) -> TerritoryView {
        TerritoryView {
            cost: self.cost@,
            per_territory: Seq::new(
                self.per_territory@.len(),
                |i: int| self.per_territory@[i] as int,
            ),
            waits: self.waits@,
            spills: self.spills as int,
            makespan: self.makespan,
        }
    }
}

/// What routing a trace comes to.
pub open spec fn territory_outcome(events: Seq<Arrival>, config: TerritoryConfig) -> TerritoryView {
    let t = territories_of(config);
    if events.len() == 0 {
        TerritoryView {
            cost: CostView::zero(),
            per_territory: Seq::new(t as nat, |i: int| 0int),
            waits: Seq::empty(),
            spills: 0,
            makespan: 0,
        }
    } else {
        let last = router_after(
            events,
            map_of(events, t),
            config.routing,
            policies::timing_of(events, config.width, config.max_defer),
            (irregular_arrival::horizon_of(events) + 1) as nat,
        );
        TerritoryView {
            cost: last.queues.out.cost,
            per_territory: last.queues.per_place,
            waits: last.queues.out.waits,
            spills: last.spills,
            makespan: last.queues.out.makespan,
        }
    }
}

struct Router {
    queues: Queues,
    placed: BTreeMap<u64, usize>,
    turn: usize,
    class_turn: Vec<usize>,
    spills: u64,
}

impl Router {
    spec fn view(&self) -> RouterView {
        RouterView {
            queues: self.queues@,
            placed: self.placed@,
            turn: self.turn as int,
            class_turn: ints(self.class_turn@),
            spills: self.spills as int,
        }
    }

    /// Counters are no larger than the items seen, and items were sent to
    /// territories that are there.
    spec fn holds(&self, m: Plan, seen: int) -> bool {
        &&& self.view().queues.queues.len() == m.territories * m.classes.len()
        &&& self.view().queues.per_place.len() == m.territories
        &&& self.class_turn@.len() == m.classes.len()
        &&& self.turn <= seen
        &&& self.spills <= seen
        &&& forall|c: int| 0 <= c < self.class_turn@.len() ==> #[trigger] self.class_turn@[c] <= seen
        &&& forall|id: u64| #[trigger]
            self.placed@.dom().contains(id) ==> self.placed@[id] < m.territories
    }
}

proof fn lemma_queue_index(t: int, territories: int, k: int, c: int)
    requires
        0 <= t < territories,
        0 <= c < k,
    ensures
        0 <= t * k,
        0 <= t * k + c < territories * k,
        t * k + k <= territories * k,
{
    assert(t * k + k <= territories * k) by (nonlinear_arith)
        requires
            t + 1 <= territories,
            k >= 0,
    ;
    assert(0 <= t * k) by (nonlinear_arith)
        requires
            0 <= t,
            0 <= k,
    ;
}

fn load_of(queues: &Vec<Vec<Arrival>>, first: usize, k: usize) -> (load: u128)
    requires
        first + k <= queues@.len(),
    ensures
        load == queued_in(class_queues::queue_views(queues@), first as int, k as int),
{
    let mut load: u128 = 0;
    let mut c: usize = 0;
    while c < k
        invariant
            c <= k,
            first + k <= queues.len(),
            load == queued_in(class_queues::queue_views(queues@), first as int, c as int),
            load <= c * 0xffff_ffff_ffff_ffff,
        decreases k - c,
    {
        proof {
            assert(c * 0xffff_ffff_ffff_ffff + 0xffff_ffff_ffff_ffff <= u128::MAX);
        }
        load = load + queues[first + c].len() as u128;
        c = c + 1;
    }
    load
}

fn find_least_loaded(queues: &Vec<Vec<Arrival>>, k: usize, territories: usize) -> (least: usize)
    requires
        territories >= 1,
        k >= 1,
        queues@.len() == territories * k,
    ensures
        least == least_loaded(class_queues::queue_views(queues@), k as int, territories as int),
        least < territories,
{
    let mut best: usize = 0;
    proof {
        lemma_queue_index(0, territories as int, k as int, 0);
    }
    let mut best_load: u128 = load_of(queues, 0, k);
    let mut t: usize = 1;
    let mut first: usize = k;
    let total: usize = queues.len();
    proof {
        assert(0 * k == 0);
        assert(1 * k == k);
    }
    while t < territories
        invariant
            1 <= t <= territories,
            best < t,
            k >= 1,
            total == queues@.len() == territories * k,
            first == t * k,
            best == least_loaded(class_queues::queue_views(queues@), k as int, t as int),
            best_load == queued_in(class_queues::queue_views(queues@), best * k, k as int),
        decreases territories - t,
    {
        proof {
            lemma_queue_index(t as int, territories as int, k as int, 0);
            assert((t + 1) * k == t * k + k) by (nonlinear_arith);
        }
        assert(first + k <= total);
        let load: u128 = load_of(queues, first, k);
        if load < best_load {
            best = t;
            best_load = load;
        }
        t = t + 1;
        first = first + k;
    }
    best
}

fn route(
    router: &Router,
    routing: Routing,
    territories: usize,
    blocks: &Vec<(usize, usize)>,
    arrival: &Arrival,
    c: usize,
    m: Ghost<Plan>,
    seen: Ghost<int>,
) -> (sent: (usize, bool))
    requires
        router.holds(m@, seen@),
        m@.territories == territories,
        territories >= 1,
        c < m@.classes.len(),
        blocks@.len() == m@.classes.len(),
        routing == Routing::ProportionalAffinity ==> forall|j: int|
            0 <= j < blocks@.len() ==> ((#[trigger] blocks@[j]).0 as int, blocks@[j].1 as int)
                == block_of(m@.counts, m@.territories, m@.total, j) && blocks@[j].0 < territories
                && blocks@[j].1 <= territories,
    ensures
        (sent.0 as int, sent.1) == route_of(router.view(), m@, routing, *arrival, c as int),
        sent.0 < territories,
{
    match routing {
        Routing::ProportionalAffinity => {
            let (start, len) = blocks[c];
            let span: usize = if len > 1 {
                len
            } else {
                1
            };
            assert(ints(router.class_turn@)[c as int] == router.class_turn@[c as int]);
            let offset: usize = router.class_turn[c] % span;
            let place: u128 = (start as u128 + offset as u128) % territories as u128;
            (place as usize, false)
        },
        Routing::RoundRobin => (router.turn % territories, false),
        Routing::Local => {
            if let Some(parent) = arrival.parent {
                if let Some(t) = router.placed.get(&parent) {
                    return (*t, false);
                }
            }
            (router.turn % territories, false)
        },
        Routing::ClassAffinity => ((arrival.run_class as u64 % territories as u64) as usize, false),
        Routing::ClassAffinityBalanced { cap } => {
            let home: usize = (arrival.run_class as u64 % territories as u64) as usize;
            let k: usize = router.class_turn.len();
            proof {
                lemma_queue_index(home as int, territories as int, k as int, c as int);
            }
            let count: usize = router.queues.queues.len();
            assert(count == territories * k);
            let at: usize = home * k + c;
            if router.queues.queues[at].len() < cap {
                (home, false)
            } else {
                let target: usize = find_least_loaded(&router.queues.queues, k, territories);
                (target, target != home)
            }
        },
    }
}

/// Every class has a block of at least one territory, and its block starts
/// among the ones that are there.
pub proof fn law_every_class_has_a_block(counts: Seq<int>, territories: int, total: int, j: int)
    requires
        territories >= 1,
        0 <= j < counts.len(),
    ensures
        0 <= block_of(counts, territories, total, j).0 < territories,
        1 <= block_of(counts, territories, total, j).1 <= territories,
{
    if territories > counts.len() {
        let sizes = class_sizes(counts, territories, total);
        lemma_start_fits(sizes, territories, j);
    }
}

proof fn lemma_start_fits(sizes: Seq<int>, territories: int, j: int)
    requires
        territories >= 1,
        0 <= j,
    ensures
        0 <= block_start(sizes, territories, j) <= territories,
    decreases j,
{
    if j > 0 {
        lemma_start_fits(sizes, territories, j - 1);
    }
}

fn count_all(trace: &ArrivalTrace, classes: &Vec<u32>) -> (counts: Vec<usize>)
    ensures
        ints(counts@) == class_counts(trace.events@, classes@),
        counts@.len() == classes@.len(),
        forall|j: int| 0 <= j < counts@.len() ==> #[trigger] counts@[j] <= trace.events@.len(),
{
    let ghost values = irregular_arrival::classes_of(trace.events@);
    let mut counts: Vec<usize> = Vec::new();
    let mut c: usize = 0;
    while c < classes.len()
        invariant
            c <= classes.len(),
            values == irregular_arrival::classes_of(trace.events@),
            counts@.len() == c,
            forall|j: int|
                0 <= j < c ==> #[trigger] counts@[j] == policies::count_class(
                    values,
                    classes@[j],
                    trace.events@.len() as int,
                ),
            forall|j: int| 0 <= j < counts@.len() ==> #[trigger] counts@[j] <= trace.events@.len(),
        decreases classes.len() - c,
    {
        let class: u32 = classes[c];
        let mut n: usize = 0;
        let mut i: usize = 0;
        while i < trace.events.len()
            invariant
                i <= trace.events.len(),
                values == irregular_arrival::classes_of(trace.events@),
                n <= i,
                n == policies::count_class(values, class, i as int),
            decreases trace.events.len() - i,
        {
            if trace.events[i].run_class == class {
                n = n + 1;
            }
            i = i + 1;
        }
        counts.push(n);
        c = c + 1;
    }
    assert(ints(counts@) =~= class_counts(trace.events@, classes@));
    counts
}

impl Router {
    /// Routes and queues one arrival.
    fn send(
        &mut self,
        routing: Routing,
        territories: usize,
        blocks: &Vec<(usize, usize)>,
        classes: &Vec<u32>,
        arrival: Arrival,
        tick: u32,
        m: Ghost<Plan>,
        seen: Ghost<int>,
        width: Ghost<int>,
    )
        requires
            old(self).holds(m@, seen@),
            old(self).view().queues.is_sound(tick, seen@, width@),
            0 <= seen@ < usize::MAX,
            m@.territories == territories,
            m@.classes == classes@,
            territories >= 1,
            scheduler::is_increasing(classes@),
            classes@.contains(arrival.run_class),
            arrival.tick <= tick,
            blocks@.len() == m@.classes.len(),
            forall|j: int|
                0 <= j < blocks@.len() ==> ((#[trigger] blocks@[j]).0 as int, blocks@[j].1 as int)
                    == block_of(m@.counts, m@.territories, m@.total, j) && blocks@[j].0
                    < territories && blocks@[j].1 <= territories,
        ensures
            final(self).view() == routed(old(self).view(), m@, routing, arrival),
            final(self).holds(m@, seen@ + 1),
            final(self).view().queues.is_sound(tick, seen@ + 1, width@),
    {
        let ghost before = self.view();
        let c: usize = class_index(classes, arrival.run_class);
        let (t, spilled) = route(
            self,
            routing,
            territories,
            blocks,
            &arrival,
            c,
            m,
            seen,
        );
        let ghost k = classes@.len() as int;
        proof {
            lemma_queue_index(t as int, territories as int, k, c as int);
        }
        let count: usize = self.queues.queues.len();
        assert(count == territories * k);
        let in_turn: bool = match routing {
            Routing::RoundRobin => true,
            Routing::Local => match arrival.parent {
                Some(parent) => !self.placed.contains_key(&parent),
                None => true,
            },
            _ => false,
        };
        assert(in_turn == takes_turn(before, routing, arrival));
        if in_turn {
            self.turn = self.turn.wrapping_add(1);
        }
        let proportional: bool = match routing {
            Routing::ProportionalAffinity => true,
            _ => false,
        };
        if proportional {
            let turns: usize = self.class_turn[c];
            self.class_turn.set(c, turns.wrapping_add(1));
        }
        if spilled {
            self.spills = self.spills + 1;
        }
        self.placed.insert(arrival.id, t);
        self.queues.join(t * classes.len() + c, arrival, tick, seen, width);
        proof {
            let after = routed(before, m@, routing, arrival);
            assert(c == classes@.index_of(arrival.run_class));
            assert(forall|j: int|
                0 <= j < self.class_turn@.len() ==> ints(self.class_turn@)[j]
                    == #[trigger] after.class_turn[j]);
            assert(self.view().class_turn =~= after.class_turn);
            assert(self.view() =~= after);
        }
    }
}

/// Routes a trace to territories, each of which keeps a queue for each class
/// and dispatches as its own.
pub fn territory_policy(trace: &ArrivalTrace, config: &TerritoryConfig) -> (out: TerritoryOutcome)
    requires
        scheduler::lanes_fit(trace.events@.len() as int, scheduler::lanes_in(config.width)),
        territories_of(*config) * irregular_arrival::class_list(trace.events@).len() <= usize::MAX,
    ensures
        out@ == territory_outcome(trace.events@, *config),
{
    let territories: usize = if config.territories > 1 {
        config.territories as usize
    } else {
        1
    };
    let ghost events = trace.events@;
    if trace.is_empty() {
        let out = TerritoryOutcome {
            cost: DispatchCost {
                dispatches: 0,
                lane_slots: 0,
                useful_lane_slots: 0,
                full_dispatches: 0,
            },
            per_territory: vec![0u64; territories],
            waits: Vec::new(),
            spills: 0,
            makespan: 0,
        };
        assert(out@ =~= territory_outcome(events, *config));
        return out;
    }
    let classes: Vec<u32> = trace.classes();
    let ghost m = map_of(events, territories as int);
    let counts: Vec<usize> = count_all(trace, &classes);
    proof {
        policies::lemma_class_listed(events, 0);
    }
    let blocks: Vec<(usize, usize)> = proportional_blocks(&counts, territories, trace.len());
    proof {
        assert forall|j: int| 0 <= j < blocks@.len() implies ((#[trigger] blocks@[j]).0 as int,
            blocks@[j].1 as int) == block_of(m.counts, m.territories, m.total, j) && blocks@[j].0
            < territories && blocks@[j].1 <= territories by {
            law_every_class_has_a_block(m.counts, m.territories, m.total, j);
        }
    }
    let last: u32 = trace.horizon();
    let timing = Timing { width: lane_width(config.width), max_defer: config.max_defer, last };
    assert(timing == policies::timing_of(events, config.width, config.max_defer));
    let ghost count = events.len() as int;
    let class_turn: Vec<usize> = vec![0usize; classes.len()];
    let mut router = Router {
        queues: Queues::new(territories * classes.len(), territories),
        placed: BTreeMap::new(),
        turn: 0,
        class_turn,
        spills: 0,
    };
    proof {
        policies::lemma_blank_is_sound(
            (m.territories * m.classes.len()) as nat,
            m.territories as nat,
            timing.width as int,
        );
        policies::lemma_ready(events, 0, count);
        assert(router.view().class_turn =~= router_blank(m).class_turn);
        assert(router.view() =~= router_blank(m));
    }
    let mut tick: u64 = 0;
    while tick <= last as u64
        invariant
            tick <= last + 1,
            events == trace.events@,
            count == events.len(),
            scheduler::lanes_fit(count, timing.width as int),
            m == map_of(events, territories as int),
            m.classes == classes@,
            classes@ == irregular_arrival::class_list(events),
            classes@.len() > 0,
            scheduler::is_increasing(classes@),
            territories >= 1,
            territories * classes@.len() <= usize::MAX,
            blocks@.len() == classes@.len(),
            forall|j: int|
                0 <= j < blocks@.len() ==> ((#[trigger] blocks@[j]).0 as int, blocks@[j].1 as int)
                    == block_of(m.counts, m.territories, m.total, j) && blocks@[j].0 < territories
                    && blocks@[j].1 <= territories,
            timing == policies::timing_of(events, config.width, config.max_defer),
            1 <= timing.width <= 65535,
            router.view() == router_after(events, m, config.routing, timing, tick as nat),
            router.holds(m, policies::ready_before(events, tick as int, count)),
            router.view().queues.is_sound(
                (if tick == 0 {
                    0
                } else {
                    (tick - 1) as int
                }) as u32,
                policies::ready_before(events, tick as int, count),
                timing.width as int,
            ),
        decreases last + 1 - tick,
    {
        let now: u32 = tick as u32;
        let ghost start = router.view();
        let ghost base = policies::ready_before(events, tick as int, count);
        assert(start.queues.is_sound(now, base, timing.width as int)) by {
            assert forall|i: int, j: int|
                0 <= i < start.queues.queues.len() && 0 <= j
                    < start.queues.queues[i].len() implies (
            #[trigger] start.queues.queues[i][j]).tick <= now by {}
        }
        proof {
            policies::lemma_ready(events, tick as int, count);
        }
        let mut i: usize = 0;
        while i < trace.events.len()
            invariant
                i <= trace.events.len(),
                events == trace.events@,
                count == events.len(),
                scheduler::lanes_fit(count, timing.width as int),
                m == map_of(events, territories as int),
                m.classes == classes@,
                classes@ == irregular_arrival::class_list(events),
                scheduler::is_increasing(classes@),
                territories >= 1,
                blocks@.len() == classes@.len(),
                forall|j: int|
                    0 <= j < blocks@.len() ==> ((#[trigger] blocks@[j]).0 as int,
                        blocks@[j].1 as int) == block_of(m.counts, m.territories, m.total, j)
                        && blocks@[j].0 < territories && blocks@[j].1 <= territories,
                now == tick,
                base >= 0,
                base + policies::ready_at(events, tick as int, count) <= count,
                router.view() == all_routed(
                    start,
                    m,
                    config.routing,
                    events,
                    tick as int,
                    i as int,
                ),
                router.holds(m, base + policies::ready_at(events, tick as int, i as int)),
                router.view().queues.is_sound(
                    now,
                    base + policies::ready_at(events, tick as int, i as int),
                    timing.width as int,
                ),
            decreases trace.events.len() - i,
        {
            let event: Arrival = trace.events[i];
            if event.tick == now {
                proof {
                    policies::lemma_class_listed(events, i as int);
                    policies::lemma_ready_grows(events, tick as int, i + 1, count);
                    policies::lemma_ready(events, tick as int, i as int);
                }
                router.send(
                    config.routing,
                    territories,
                    &blocks,
                    &classes,
                    event,
                    now,
                    Ghost(m),
                    Ghost(base + policies::ready_at(events, tick as int, i as int)),
                    Ghost(timing.width as int),
                );
            }
            i = i + 1;
        }
        let ghost total = base + policies::ready_at(events, tick as int, count);
        let ghost ready = router.view();
        proof {
            assert(territories * classes@.len() == classes@.len() * territories)
                by (nonlinear_arith);
        }
        proof {
            scheduler::lemma_fewer_lanes_fit(count, timing.width as int, total);
        }
        router.queues.serve_all(classes.len(), timing, now, Ghost(total));
        assert(router.view() =~= (RouterView {
            queues: ready.queues.all_served(
                m.territories * m.classes.len(),
                m.classes.len() as int,
                timing,
                now,
            ),
            ..ready
        }));
        tick = tick + 1;
    }
    let out = TerritoryOutcome {
        cost: router.queues.out.cost,
        per_territory: router.queues.per_place,
        waits: router.queues.out.waits,
        spills: router.spills,
        makespan: router.queues.out.makespan,
    };
    assert(out@ =~= territory_outcome(events, *config));
    out
}

impl TerritoryOutcome {
    pub fn dispatches(&self) -> (n: u64)
        ensures
            n == self.cost.dispatches,
    {
        self.cost.dispatches
    }

    pub fn items(&self) -> (n: usize)
        ensures
            n == self.waits@.len(),
    {
        self.waits.len()
    }

    /// Territories that made no dispatch.
    pub fn idle_territories(&self) -> (n: usize)
        ensures
            n == idle_among(self.per_territory@, self.per_territory@.len() as int),
    {
        let mut n: usize = 0;
        let mut i: usize = 0;
        while i < self.per_territory.len()
            invariant
                i <= self.per_territory.len(),
                n <= i,
                n == idle_among(self.per_territory@, i as int),
            decreases self.per_territory.len() - i,
        {
            if self.per_territory[i] == 0 {
                n = n + 1;
            }
            i = i + 1;
        }
        n
    }

    pub fn p50_wait(&self) -> (wait: u32)
        requires
            self.waits@.len() <= 0xffff_ffff_ffff,
        ensures
            wait == irregular_arrival::wait_at(self.waits@, 50),
    {
        wait_percentile(&self.waits, 50)
    }

    pub fn p99_wait(&self) -> (wait: u32)
        requires
            self.waits@.len() <= 0xffff_ffff_ffff,
        ensures
            wait == irregular_arrival::wait_at(self.waits@, 99),
    {
        wait_percentile(&self.waits, 99)
    }
}

pub open spec fn idle_among(dispatches: Seq<u64>, n: int) -> int
    decreases n,
{
    if n <= 0 {
        0
    } else {
        idle_among(dispatches, n - 1) + if dispatches[n - 1] == 0 {
            1int
        } else {
            0
        }
    }
}

/// The cost of the host-launched reference: everything sorted together.
pub fn global_sort_reference(trace: &ArrivalTrace, width: u16, window: u32) -> (cost: DispatchCost)
    requires
        scheduler::lanes_fit(trace.events@.len() as int, scheduler::lanes_in(width)),
    ensures
        cost@ == policies::bulk_outcome(trace.events@, width, window).cost,
{
    bulk_policy(trace, width, window).cost
}

/// What routing and serving keep: the queues are all there, items were sent to
/// territories that are there, and no item is lost.
spec fn keeps(r: RouterView, m: Plan, total: int) -> bool {
    &&& r.queues.queues.len() == m.territories * m.classes.len()
    &&& r.turn >= 0
    &&& r.class_turn.len() == m.classes.len()
    &&& forall|c: int| 0 <= c < r.class_turn.len() ==> #[trigger] r.class_turn[c] >= 0
    &&& forall|id: u64| #[trigger] r.placed.dom().contains(id) ==> r.placed[id] < m.territories
    &&& class_queues::queued(r.queues.queues, r.queues.queues.len() as int)
        + r.queues.out.waits.len() == total
}

proof fn lemma_least_loaded(queues: Seq<Seq<Arrival>>, k: int, n: int)
    requires
        n >= 1,
    ensures
        0 <= least_loaded(queues, k, n) < n,
    decreases n,
{
    if n > 1 {
        lemma_least_loaded(queues, k, n - 1);
    }
}

/// Every routing sends an arrival to a territory that is there.
pub proof fn law_routes_lead_to_a_territory(
    r: RouterView,
    m: Plan,
    routing: Routing,
    a: Arrival,
    c: int,
)
    requires
        m.territories >= 1,
        m.counts.len() == m.classes.len(),
        0 <= c < m.classes.len(),
        r.turn >= 0,
        r.class_turn[c] >= 0,
        forall|id: u64| #[trigger] r.placed.dom().contains(id) ==> r.placed[id] < m.territories,
    ensures
        0 <= route_of(r, m, routing, a, c).0 < m.territories,
{
    let t = m.territories;
    match routing {
        Routing::ProportionalAffinity => {
            law_every_class_has_a_block(m.counts, t, m.total, c);
            let (start, len) = block_of(m.counts, t, m.total, c);
            let step = r.class_turn[c] % (if len > 1 {
                len
            } else {
                1
            });
            assert(0 <= (start + step) % t < t) by (nonlinear_arith)
                requires
                    t >= 1,
            ;
        },
        Routing::ClassAffinityBalanced { cap } => {
            lemma_least_loaded(r.queues.queues, m.classes.len() as int, t);
            assert(0 <= a.run_class as int % t < t) by (nonlinear_arith)
                requires
                    t >= 1,
            ;
        },
        Routing::ClassAffinity => {
            assert(0 <= a.run_class as int % t < t) by (nonlinear_arith)
                requires
                    t >= 1,
            ;
        },
        _ => {
            assert(0 <= r.turn % t < t) by (nonlinear_arith)
                requires
                    t >= 1,
            ;
        },
    }
}

/// By affinity a class always goes to the same territory, whatever has come
/// before.
pub proof fn law_affinity_goes_by_class_alone(
    r: RouterView,
    later: RouterView,
    m: Plan,
    a: Arrival,
    b: Arrival,
    c: int,
)
    requires
        a.run_class == b.run_class,
    ensures
        route_of(r, m, Routing::ClassAffinity, a, c) == route_of(
            later,
            m,
            Routing::ClassAffinity,
            b,
            c,
        ),
{
}

proof fn lemma_routed_keeps(
    r: RouterView,
    m: Plan,
    routing: Routing,
    events: Seq<Arrival>,
    tick: int,
    n: int,
    total: int,
)
    requires
        0 <= n <= events.len(),
        m.territories >= 1,
        m.territories <= usize::MAX,
        m == map_of(events, m.territories),
        keeps(r, m, total),
    ensures
        keeps(
            all_routed(r, m, routing, events, tick, n),
            m,
            total + policies::ready_at(events, tick, n),
        ),
        all_routed(r, m, routing, events, tick, n).queues.out == r.queues.out,
    decreases n,
{
    if n > 0 {
        lemma_routed_keeps(r, m, routing, events, tick, n - 1, total);
        if events[n - 1].tick == tick {
            let before = all_routed(r, m, routing, events, tick, n - 1);
            let a = events[n - 1];
            policies::lemma_class_listed(events, n - 1);
            let c = m.classes.index_of(a.run_class);
            let (t, spilled) = route_of(before, m, routing, a, c);
            law_routes_lead_to_a_territory(before, m, routing, a, c);
            let k = m.classes.len() as int;
            lemma_queue_index(t, m.territories, k, c);
            let i = t * k + c;
            class_queues::lemma_queued_update(
                before.queues.queues,
                i,
                before.queues.queues[i].push(a),
                before.queues.queues.len() as int,
            );
        }
    }
}

proof fn lemma_router_keeps(events: Seq<Arrival>, m: Plan, routing: Routing, timing: Timing, n: nat)
    requires
        m.territories >= 1,
        m.territories <= usize::MAX,
        m == map_of(events, m.territories),
        timing.width >= 1,
    ensures
        keeps(
            router_after(events, m, routing, timing, n),
            m,
            policies::ready_before(events, n as int, events.len() as int),
        ),
    decreases n,
{
    let k = m.classes.len() as int;
    let queues = m.territories * k;
    assert(0 <= queues) by (nonlinear_arith)
        requires
            queues == m.territories * k,
            m.territories >= 1,
            k >= 0,
    ;
    policies::lemma_ready(events, n - 1, events.len() as int);
    if n == 0 {
        class_queues::lemma_queued_blank(queues as nat, queues);
    } else {
        lemma_router_keeps(events, m, routing, timing, (n - 1) as nat);
        let before = router_after(events, m, routing, timing, (n - 1) as nat);
        let total = policies::ready_before(events, n - 1, events.len() as int);
        lemma_routed_keeps(before, m, routing, events, n - 1, events.len() as int, total);
        let ready = all_routed(before, m, routing, events, n - 1, events.len() as int);
        policies::lemma_all_served_holds(ready.queues, queues, k, timing, (n - 1) as u32);
    }
}

/// Every item of a trace is dispatched exactly once, by whatever territory it
/// was routed to.
pub proof fn law_territories_dispatch_every_item_once(events: Seq<Arrival>, config: TerritoryConfig)
    requires
        forall|i: int|
            0 <= i < events.len() ==> (#[trigger] events[i]).tick <= irregular_arrival::horizon_of(
                events,
            ),
    ensures
        territory_outcome(events, config).waits.len() == events.len(),
{
    if events.len() > 0 {
        let t = territories_of(config);
        let m = map_of(events, t);
        let timing = policies::timing_of(events, config.width, config.max_defer);
        let n = (irregular_arrival::horizon_of(events) + 1) as nat;
        let k = m.classes.len() as int;
        let queues = t * k;
        assert(0 <= queues) by (nonlinear_arith)
            requires
                queues == t * k,
                t >= 1,
                k >= 0,
        ;
        lemma_router_keeps(events, m, config.routing, timing, n);
        lemma_router_keeps(events, m, config.routing, timing, (n - 1) as nat);
        policies::lemma_all_ready(events, n as int, events.len() as int);
        let before = router_after(events, m, config.routing, timing, (n - 1) as nat);
        let total = policies::ready_before(events, n - 1, events.len() as int);
        lemma_routed_keeps(before, m, config.routing, events, n - 1, events.len() as int, total);
        let ready = all_routed(before, m, config.routing, events, n - 1, events.len() as int);
        let after = router_after(events, m, config.routing, timing, n);
        assert forall|i: int| 0 <= i < queues implies (
        #[trigger] after.queues.queues[i]).len() == 0 by {
            class_queues::law_last_tick_empties_the_queues(ready.queues, queues, k, timing, i);
        }
        policies::lemma_nothing_queued(after.queues.queues, queues);
    }
}

proof fn lemma_route_in_time(
    r: RouterView,
    m: Plan,
    routing: Routing,
    events: Seq<Arrival>,
    tick: int,
    bound: int,
    n: int,
    total: int,
)
    requires
        0 <= n <= events.len(),
        0 <= tick,
        0 <= bound,
        m.territories >= 1,
        m.territories <= usize::MAX,
        m == map_of(events, m.territories),
        keeps(r, m, total),
        forall|q: int|
            0 <= q < r.queues.queues.len() ==> class_queues::waits_within(
                #[trigger] r.queues.queues[q],
                tick - 1,
                bound - 1,
            ),
    ensures
        ({
            let after = all_routed(r, m, routing, events, tick, n);
            &&& after.queues.queues.len() == r.queues.queues.len()
            &&& forall|q: int|
                0 <= q < r.queues.queues.len() ==> class_queues::waits_within(
                    #[trigger] after.queues.queues[q],
                    tick,
                    bound,
                )
        }),
    decreases n,
{
    let after = all_routed(r, m, routing, events, tick, n);
    if n > 0 {
        lemma_route_in_time(r, m, routing, events, tick, bound, n - 1, total);
        lemma_routed_keeps(r, m, routing, events, tick, n - 1, total);
        if events[n - 1].tick == tick {
            let before = all_routed(r, m, routing, events, tick, n - 1);
            let a = events[n - 1];
            policies::lemma_class_listed(events, n - 1);
            let c = m.classes.index_of(a.run_class);
            let (t, spilled) = route_of(before, m, routing, a, c);
            law_routes_lead_to_a_territory(before, m, routing, a, c);
            let k = m.classes.len() as int;
            lemma_queue_index(t, m.territories, k, c);
            class_queues::lemma_join_in_time(before.queues, t * k + c, a, tick, bound);
        }
    } else {
        assert forall|q: int| 0 <= q < r.queues.queues.len() implies class_queues::waits_within(
            #[trigger] after.queues.queues[q],
            tick,
            bound,
        ) by {
            assert(class_queues::waits_within(r.queues.queues[q], tick - 1, bound - 1));
        }
    }
}

proof fn lemma_router_in_time(events: Seq<Arrival>, m: Plan, routing: Routing, timing: Timing, n: nat)
    requires
        m.territories >= 1,
        m.territories <= usize::MAX,
        m == map_of(events, m.territories),
        timing.width >= 1,
        n <= 0x1_0000_0000,
    ensures
        ({
            let after = router_after(events, m, routing, timing, n).queues;
            &&& class_queues::waited_within(after.out.waits, timing.max_defer as int)
            &&& forall|q: int|
                0 <= q < after.queues.len() ==> class_queues::waits_within(
                    #[trigger] after.queues[q],
                    n - 1,
                    timing.max_defer - 1,
                )
        }),
    decreases n,
{
    if n > 0 {
        let k = m.classes.len() as int;
        let queues = m.territories * k;
        lemma_router_in_time(events, m, routing, timing, (n - 1) as nat);
        lemma_router_keeps(events, m, routing, timing, (n - 1) as nat);
        let before = router_after(events, m, routing, timing, (n - 1) as nat);
        let total = policies::ready_before(events, n - 1, events.len() as int);
        lemma_route_in_time(
            before,
            m,
            routing,
            events,
            n - 1,
            timing.max_defer as int,
            events.len() as int,
            total,
        );
        lemma_routed_keeps(before, m, routing, events, n - 1, events.len() as int, total);
        let ready = all_routed(before, m, routing, events, n - 1, events.len() as int);
        class_queues::lemma_serve_all_in_time(ready.queues, queues, k, timing, (n - 1) as u32);
    }
}

/// However items are routed, none waits for longer than `max_defer` ticks.
pub proof fn law_no_territory_keeps_an_item_too_long(events: Seq<Arrival>, config: TerritoryConfig)
    ensures
        class_queues::waited_within(
            territory_outcome(events, config).waits,
            config.max_defer as int,
        ),
{
    if events.len() > 0 {
        let t = territories_of(config);
        lemma_router_in_time(
            events,
            map_of(events, t),
            config.routing,
            policies::timing_of(events, config.width, config.max_defer),
            (irregular_arrival::horizon_of(events) + 1) as nat,
        );
    }
}

pub open spec fn name_of(routing: Routing) -> Seq<char> {
    match routing {
        Routing::Local => "local"@,
        Routing::RoundRobin => "round-robin"@,
        Routing::ClassAffinity => "class-affinity"@,
        Routing::ClassAffinityBalanced { .. } => "affinity+spill"@,
        Routing::ProportionalAffinity => "proportional"@,
    }
}

/// The routing's name.
pub fn routing_name(routing: Routing) -> (name: &'static str)
    ensures
        name@ == name_of(routing),
{
    match routing {
        Routing::Local => "local",
        Routing::RoundRobin => "round-robin",
        Routing::ClassAffinity => "class-affinity",
        Routing::ClassAffinityBalanced { .. } => "affinity+spill",
        Routing::ProportionalAffinity => "proportional",
    }
}

} // verus!
