//! How territories are shared out, windows are priced and comparisons are judged.

use crate::compiler::run_classes;
use crate::executives::scalar_laws;
use crate::experiments::class_queues::{QueuesView, Timing};
use crate::experiments::cohort_study;
use crate::experiments::discovery_bench;
use crate::experiments::discovery_search::DiscoveryKnobs;
use crate::experiments::irregular_arrival;
use crate::experiments::irregular_arrival::{Arrival, IrregularKnobs, NodeView, OutcomeView};
use crate::experiments::policies;
use crate::experiments::run_laws;
use crate::experiments::territories;
use crate::experiments::territories::TerritoryConfig;
use crate::scheduler;
use crate::scheduler::Accounting;
use vstd::prelude::*;

verus! {

// ---- shares ----------------------------------------------------------------

/// A class starts out with the whole part of its share of the territories, and with one at
/// least.
pub proof fn law_a_share_is_rounded_down_to_one_at_least(count: int, territories: int, total: int)
    requires
        0 <= count,
        territories >= 1,
        total >= 1,
    ensures
        ({
            let size = territories::base_size(count, territories, total);
            let rest = territories::remainder_of(count, territories, total);
            &&& size >= 1
            &&& count * territories >= total ==> size * total + rest == count * territories
            &&& count * territories < total ==> size == 1 && rest == count * territories
            &&& 0 <= rest < total
        }),
{
    let wanted = count * territories;
    assert(0 <= wanted) by (nonlinear_arith)
        requires
            wanted == count * territories,
            0 <= count,
            territories >= 1,
    ;
    vstd::arithmetic::div_mod::lemma_fundamental_div_mod(wanted, total);
    let share = wanted / total;
    let rest = wanted % total;
    assert(0 <= rest < total && (wanted >= total ==> share >= 1) && (wanted < total ==> share == 0))
        by (nonlinear_arith)
        requires
            wanted == total * share + rest,
            rest == wanted % total,
            total >= 1,
            0 <= wanted,
    ;
    assert(share * total == total * share) by (nonlinear_arith);
    if wanted < total {
        assert(total * share == 0) by (nonlinear_arith)
            requires
                share == 0,
        ;
    }
}

/// One comes before another in the order in which territories are left over.
pub open spec fn has_more_left(remainders: Seq<int>, a: int, b: int) -> bool {
    remainders[a] > remainders[b] || (remainders[a] == remainders[b] && a < b)
}

proof fn lemma_ranked(order: Seq<int>, remainders: Seq<int>, i: int)
    requires
        forall|a: int| 0 <= a < order.len() ==> 0 <= #[trigger] order[a] < i,
        forall|a: int, b: int|
            0 <= a < b < order.len() ==> has_more_left(remainders, order[a], order[b]),
    ensures
        ({
            let after = territories::ranked(order, remainders, i);
            &&& after.len() == order.len() + 1
            &&& forall|a: int| 0 <= a < after.len() ==> 0 <= #[trigger] after[a] <= i || after[a] == i
            &&& forall|a: int, b: int|
                0 <= a < b < after.len() ==> has_more_left(remainders, after[a], after[b])
            &&& forall|x: int| #[trigger] after.contains(x) <==> order.contains(x) || x == i
        }),
    decreases order.len(),
{
    let after = territories::ranked(order, remainders, i);
    if order.len() == 0 || remainders[i] <= remainders[order.last()] {
        assert(after == order.push(i));
        assert forall|a: int, b: int| 0 <= a < b < after.len() implies has_more_left(
            remainders,
            after[a],
            after[b],
        ) by {
            if b == order.len() {
                if a < order.len() - 1 {
                    assert(has_more_left(remainders, order[a], order[order.len() - 1]));
                }
                assert(0 <= order[a] < i);
            } else {
                assert(has_more_left(remainders, order[a], order[b]));
            }
        }
        assert forall|x: int| #[trigger] after.contains(x) <==> order.contains(x) || x == i by {
            assert(after[order.len() as int] == i);
            if order.contains(x) {
                let k = order.index_of(x);
                assert(after[k] == x);
            }
        }
    } else {
        let front = order.drop_last();
        assert forall|a: int, b: int| 0 <= a < b < front.len() implies has_more_left(
            remainders,
            front[a],
            front[b],
        ) by {
            assert(has_more_left(remainders, order[a], order[b]));
        }
        assert forall|a: int| 0 <= a < front.len() implies 0 <= #[trigger] front[a] < i by {
            assert(front[a] == order[a]);
        }
        lemma_ranked(front, remainders, i);
        let mid = territories::ranked(front, remainders, i);
        assert(after == mid.push(order.last()));
        assert forall|a: int, b: int| 0 <= a < b < after.len() implies has_more_left(
            remainders,
            after[a],
            after[b],
        ) by {
            if b == mid.len() {
                assert(mid.contains(mid[a]));
                if mid[a] != i {
                    let k = front.index_of(mid[a]);
                    assert(front.contains(mid[a]));
                    assert(has_more_left(remainders, order[k], order[order.len() - 1]));
                }
            } else {
                assert(has_more_left(remainders, mid[a], mid[b]));
            }
        }
        assert forall|x: int| #[trigger] after.contains(x) <==> order.contains(x) || x == i by {
            if after.contains(x) {
                let k = after.index_of(x);
                if k < mid.len() {
                    assert(mid.contains(mid[k]));
                    if front.contains(x) {
                        let j = front.index_of(x);
                        assert(order[j] == x);
                    }
                } else {
                    assert(order[order.len() - 1] == x);
                }
            }
            if order.contains(x) {
                let k = order.index_of(x);
                if k < front.len() {
                    assert(front[k] == x);
                    assert(mid.contains(x));
                    let j = mid.index_of(x);
                    assert(after[j] == x);
                } else {
                    assert(after[mid.len() as int] == x);
                }
            }
            if x == i {
                assert(mid.contains(x));
                let j = mid.index_of(x);
                assert(after[j] == x);
            }
        }
        assert forall|a: int| 0 <= a < after.len() implies 0 <= #[trigger] after[a] <= i || after[a]
            == i by {
            if a < mid.len() {
                assert(after[a] == mid[a]);
            } else {
                assert(order[order.len() - 1] == after[a]);
            }
        }
    }
}

/// What is left over goes first to the classes whose shares lost most by rounding, and to
/// the earlier of two that lost as much. Every class is in this order once.
pub proof fn law_leftovers_go_by_the_largest_remainder(remainders: Seq<int>, n: int)
    requires
        0 <= n <= remainders.len(),
    ensures
        ({
            let order = territories::rank_order(remainders, n);
            &&& order.len() == n
            &&& forall|a: int| 0 <= a < n ==> 0 <= #[trigger] order[a] < n
            &&& forall|a: int, b: int|
                0 <= a < b < n ==> has_more_left(remainders, order[a], order[b])
            &&& forall|x: int| 0 <= x < n ==> #[trigger] order.contains(x)
        }),
    decreases n,
{
    if n > 0 {
        law_leftovers_go_by_the_largest_remainder(remainders, n - 1);
        let before = territories::rank_order(remainders, n - 1);
        lemma_ranked(before, remainders, n - 1);
        assert forall|x: int| 0 <= x < n implies #[trigger] territories::rank_order(
            remainders,
            n,
        ).contains(x) by {
            if x < n - 1 {
                assert(before.contains(x));
            }
        }
    }
}

/// Territories that are left over are handed out one by one around the order, and ones that
/// are missing are taken one by one from the first of the largest, as long as it has more
/// than one.
pub proof fn law_shares_are_made_up_one_by_one(
    counts: Seq<int>,
    territories: int,
    total: int,
    sizes: Seq<int>,
    order: Seq<int>,
    cursor: int,
    times: nat,
)
    requires
        order.len() > 0,
    ensures
        territories::raised(sizes, order, cursor, 0) == sizes,
        ({
            let i = order[cursor % (order.len() as int)];
            territories::raised(sizes, order, cursor, times + 1) == territories::raised(
                sizes.update(i, sizes[i] + 1),
                order,
                cursor + 1,
                times,
            )
        }),
        territories::lowered(sizes, 0) == sizes,
        ({
            let i = territories::largest(sizes, sizes.len() as int);
            territories::lowered(sizes, times + 1) == if sizes[i] > 1 {
                territories::lowered(sizes.update(i, sizes[i] - 1), times)
            } else {
                sizes
            }
        }),
        ({
            let base = Seq::new(
                counts.len(),
                |j: int| territories::base_size(counts[j], territories, total),
            );
            let left = Seq::new(
                counts.len(),
                |j: int| territories::remainder_of(counts[j], territories, total),
            );
            let assigned = territories::sum(base, counts.len() as int);
            territories::class_sizes(counts, territories, total) == if assigned < territories {
                territories::raised(
                    base,
                    territories::rank_order(left, counts.len() as int),
                    0,
                    (territories - assigned) as nat,
                )
            } else {
                territories::lowered(base, (assigned - territories) as nat)
            }
        }),
{
}

/// The largest share is the first that no other exceeds.
pub proof fn law_the_first_largest_share_gives(sizes: Seq<int>, n: int, i: int)
    requires
        0 <= i < n <= sizes.len(),
    ensures
        0 <= territories::largest(sizes, n) < n,
        sizes[i] <= sizes[territories::largest(sizes, n)],
        i < territories::largest(sizes, n) ==> sizes[i] < sizes[territories::largest(sizes, n)],
    decreases n,
{
    if n > 1 {
        law_the_first_largest_share_gives(
            sizes,
            n - 1,
            if i < n - 1 {
                i
            } else {
                0
            },
        );
    }
}

/// Idle territories are those that dispatched nothing.
pub proof fn law_the_idle_dispatched_nothing(dispatches: Seq<u64>, n: int, config: TerritoryConfig)
    requires
        0 <= n < dispatches.len(),
    ensures
        territories::idle_among(dispatches, 0) == 0,
        dispatches[n] == 0 ==> territories::idle_among(dispatches, n + 1)
            == territories::idle_among(dispatches, n) + 1,
        dispatches[n] != 0 ==> territories::idle_among(dispatches, n + 1)
            == territories::idle_among(dispatches, n),
        territories::territories_of(config) >= 1,
        config.territories >= 1 ==> territories::territories_of(config) == config.territories,
{
}

// ---- prices ----------------------------------------------------------------

/// A sorted window is priced class by class, each class over its own items.
pub proof fn law_a_sorted_window_is_priced_by_class(items: Seq<u32>, classes: Seq<u32>, width: int, k: int)
    requires
        0 <= k < classes.len(),
    ensures
        ({
            let before = policies::sorted_cost(items, classes, width, k);
            let after = policies::sorted_cost(items, classes, width, k + 1);
            let own = scheduler::uniform_cost(
                policies::count_class(items, classes[k], items.len() as int),
                width,
            );
            &&& after.dispatches == before.dispatches + own.dispatches
            &&& after.lane_slots == before.lane_slots + own.lane_slots
            &&& after.useful == before.useful + own.useful
            &&& after.full == before.full + own.full
            &&& policies::sorted_cost(items, classes, width, 0).dispatches == 0
            &&& policies::sorted_cost(items, classes, width, 0).useful == 0
        }),
        policies::segment_cost(items, width) == policies::sorted_cost(
            items,
            scheduler::distinct(items, items.len() as int),
            width,
            scheduler::distinct(items, items.len() as int).len() as int,
        ),
{
}

/// Items of a class are counted one by one.
pub proof fn law_a_class_s_items_are_counted(items: Seq<u32>, c: u32, n: int)
    requires
        0 <= n < items.len(),
    ensures
        policies::count_class(items, c, 0) == 0,
        items[n] == c ==> policies::count_class(items, c, n + 1) == policies::count_class(
            items,
            c,
            n,
        ) + 1,
        items[n] != c ==> policies::count_class(items, c, n + 1) == policies::count_class(
            items,
            c,
            n,
        ),
{
}

/// A launched window is priced as its sorted items, which have each waited until now.
pub proof fn law_a_launch_prices_what_was_pending(w: policies::WindowView, width: int, tick: u32)
    ensures
        ({
            let after = policies::launched(w, width, tick);
            let cost = policies::segment_cost(irregular_arrival::classes_of(w.pending), width);
            &&& after.pending.len() == 0
            &&& after.out.cost.dispatches == w.out.cost.dispatches + cost.dispatches
            &&& after.out.cost.lane_slots == w.out.cost.lane_slots + cost.lane_slots
            &&& after.out.cost.useful == w.out.cost.useful + cost.useful
            &&& after.out.cost.full == w.out.cost.full + cost.full
            &&& after.out.host_launches == w.out.host_launches + 1
            &&& after.out.waits.len() == w.out.waits.len() + w.pending.len()
            &&& after.out.makespan == if w.out.makespan < tick {
                tick
            } else {
                w.out.makespan
            }
        }),
{
}

/// In each tick every arrival of that tick joins first, and then every class is served.
pub proof fn law_a_tick_takes_in_and_then_serves(
    events: Seq<Arrival>,
    classes: Seq<u32>,
    timing: Timing,
    n: nat,
)
    ensures
        policies::after_ticks(events, classes, timing, n + 1) == policies::arrived(
            policies::after_ticks(events, classes, timing, n),
            events,
            classes,
            n as int,
            events.len() as int,
        ).all_served(classes.len() as int, classes.len() as int, timing, n as u32),
        ({
            let start = policies::after_ticks(events, classes, timing, 0);
            &&& start.queues.len() == classes.len()
            &&& forall|i: int| 0 <= i < start.queues.len() ==> (#[trigger] start.queues[i]).len() == 0
            &&& start.out.waits.len() == 0
            &&& start.out.cost.dispatches == 0
            &&& start.out.host_launches == 0
        }),
{
}

/// Queues are served in order, each at the place that it belongs to.
pub proof fn law_queues_are_served_in_order(s: QueuesView, n: int, size: int, timing: Timing, tick: u32)
    requires
        n >= 0,
    ensures
        s.all_served(0, size, timing, tick) == s,
        s.all_served(n + 1, size, timing, tick) == s.all_served(n, size, timing, tick).served(
            n,
            n / size,
            timing,
            tick,
        ),
{
}

// ---- arrivals --------------------------------------------------------------

/// A child's value is its parent's, worked as a search node of that value works, and its own
/// number on.
pub proof fn law_a_child_s_value_is_its_parent_s_worked(
    k: IrregularKnobs,
    node: NodeView,
    id: int,
    i: int,
)
    requires
        0 <= i < k.branching_factor,
    ensures
        ({
            let value = node.value as int;
            let worked = scalar_laws::worked(
                value,
                k.arithmetic_ops as nat,
                (value % run_laws::spread(k.class_count)) as u32,
            );
            irregular_arrival::children_of(k, node, id)[i].value as int == (worked + i)
                % 0x1_0000_0000_0000_0000
        }),
{
    let class = run_classes::class_of_value(node.value, k.class_count);
    let m = run_laws::spread(k.class_count);
    assert(0 <= node.value as int % m < m) by (nonlinear_arith)
        requires
            m >= 1,
    ;
    scalar_laws::law_a_node_works_as_its_class_says(
        node.value,
        k.arithmetic_ops as nat,
        (class - 10) as u32,
    );
}

/// Arrivals are ordered by tick, and within a tick by number.
pub proof fn law_arrivals_are_ordered_by_tick(events: Seq<Arrival>, i: int, j: int)
    requires
        irregular_arrival::is_in_time(events),
        0 <= i < j < events.len(),
    ensures
        events[i].tick <= events[j].tick,
        events[i].tick == events[j].tick ==> events[i].id <= events[j].id,
{
    assert(irregular_arrival::comes_before(events[i], events[j]));
}

/// The last tick is the one of the last arrival.
pub proof fn law_the_horizon_is_the_last_tick(events: Seq<Arrival>)
    ensures
        events.len() == 0 ==> irregular_arrival::horizon_of(events) == 0,
        events.len() > 0 ==> irregular_arrival::horizon_of(events) == events[events.len() - 1].tick,
        OutcomeView::blank().waits.len() == 0,
        OutcomeView::blank().makespan == 0,
{
}

// ---- judgements ------------------------------------------------------------

/// Cohorts have met their aim where their lanes are half as full again as those of the
/// single queue: useful slots over slots, at least three to two.
pub proof fn law_cohorts_are_to_be_half_as_full_again(fifo: Accounting, cohorted: Accounting)
    ensures
        cohort_study::occupancy_is_met(fifo, cohorted) <==> {
            &&& fifo.useful_lane_slots > 0
            &&& fifo.lane_slots > 0
            &&& cohorted.lane_slots > 0
            &&& 2 * (cohorted.useful_lane_slots * fifo.lane_slots) >= 3 * (fifo.useful_lane_slots
                * cohorted.lane_slots)
        },
{
}

/// The crossover of a group is the batch size of its first point that was cleared.
pub proof fn law_a_crossover_is_the_first_cleared_point(
    grid: Seq<DiscoveryKnobs>,
    cleared: Seq<bool>,
    g: int,
    from: int,
)
    requires
        0 <= from <= grid.len(),
    ensures
        match discovery_bench::first_cleared(grid, cleared, g, from) {
            Some(size) => exists|i: int|
                from <= i < grid.len() && size == (#[trigger] grid[i]).elements_per_experiment
                    && discovery_bench::is_in_group(grid[i], g) && cleared[i] && forall|j: int|
                    from <= j < i ==> !(discovery_bench::is_in_group(#[trigger] grid[j], g)
                        && cleared[j]),
            None => forall|j: int|
                from <= j < grid.len() ==> !(discovery_bench::is_in_group(#[trigger] grid[j], g)
                    && cleared[j]),
        },
    decreases grid.len() - from,
{
    if from < grid.len() {
        if !(discovery_bench::is_in_group(grid[from], g) && cleared[from]) {
            law_a_crossover_is_the_first_cleared_point(grid, cleared, g, from + 1);
        }
    }
}

} // verus!
