//! When work is dispatched, what that costs, how it arrives, and where it is sent.

use crate::experiments::class_queues;
use crate::experiments::class_queues::{QueuesView, Timing};
use crate::experiments::irregular_arrival;
use crate::experiments::irregular_arrival::{Arrival, IrregularKnobs, NodeView};
use crate::experiments::policies;
use crate::experiments::territories;
use crate::experiments::territories::{Plan, RouterView, Routing};
use crate::scheduler;
use crate::scheduler::CostView;
use vstd::prelude::*;

verus! {

// ---- what dispatches cost --------------------------------------------------

/// Lanes of one class take as many groups as hold them and no more: every group but the
/// last is full, each takes all its slots, and the lanes themselves are the useful ones.
pub proof fn law_lanes_of_one_class_fill_groups(n: int, width: int)
    requires
        n >= 0,
        width >= 1,
    ensures
        ({
            let cost = scheduler::uniform_cost(n, width);
            &&& cost.dispatches * width >= n
            &&& n > 0 ==> (cost.dispatches - 1) * width < n
            &&& n == 0 ==> cost.dispatches == 0
            &&& cost.lane_slots == cost.dispatches * width
            &&& cost.useful == n
            &&& cost.full * width <= n < (cost.full + 1) * width
        }),
{
    let g = (n + width - 1) / width;
    let f = n / width;
    assert(g * width >= n && (n > 0 ==> (g - 1) * width < n) && (n == 0 ==> g == 0) && f * width
        <= n < (f + 1) * width) by (nonlinear_arith)
        requires
            g == (n + width - 1) / width,
            f == n / width,
            n >= 0,
            width >= 1,
    ;
}

/// A group of mixed lanes is dispatched once for each class that is in it, each time over
/// the whole width. Only a whole group of one class is a full dispatch.
pub proof fn law_a_mixed_group_goes_once_for_each_class(lanes: Seq<u32>, width: int)
    requires
        lanes.len() > 0,
    ensures
        ({
            let cost = scheduler::group_cost(lanes, width);
            let classes = scheduler::distinct(lanes, lanes.len() as int);
            &&& cost.dispatches == classes.len()
            &&& cost.lane_slots == classes.len() * width
            &&& cost.useful == lanes.len()
            &&& cost.full == 1 <==> lanes.len() == width && forall|i: int|
                0 <= i < lanes.len() ==> #[trigger] lanes[i] == lanes[0]
            &&& cost.full == 0 || cost.full == 1
            &&& forall|i: int, j: int| 0 <= i < j < classes.len() ==> classes[i] != classes[j]
            &&& forall|i: int| 0 <= i < lanes.len() ==> classes.contains(#[trigger] lanes[i])
            &&& forall|c: u32| #[trigger]
                classes.contains(c) ==> exists|i: int|
                    0 <= i < lanes.len() && #[trigger] lanes[i] == c
        }),
{
    let classes = scheduler::distinct(lanes, lanes.len() as int);
    scheduler::lemma_distinct(lanes, lanes.len() as int);
    if classes.len() == 1 {
        assert forall|i: int| 0 <= i < lanes.len() implies #[trigger] lanes[i] == lanes[0] by {
            assert(classes.contains(lanes[i]));
            assert(classes.contains(lanes[0]));
        }
    } else {
        if forall|i: int| 0 <= i < lanes.len() ==> #[trigger] lanes[i] == lanes[0] {
            assert(classes.contains(classes[0]) && classes.contains(classes[1]));
            assert(classes[0] < classes[1]);
        }
    }
}

/// Lanes are cut into groups in order, all of the full width but the last.
pub proof fn law_groups_are_cut_in_order(classes: Seq<u32>, width: int, at: int)
    requires
        width >= 1,
        0 <= at < classes.len(),
    ensures
        ({
            let end = if at + width <= classes.len() {
                at + width
            } else {
                classes.len() as int
            };
            let here = scheduler::group_cost(classes.subrange(at, end), width);
            let rest = scheduler::cost_from(classes, width, end);
            scheduler::cost_from(classes, width, at) == (CostView {
                dispatches: here.dispatches + rest.dispatches,
                lane_slots: here.lane_slots + rest.lane_slots,
                useful: here.useful + rest.useful,
                full: here.full + rest.full,
            })
        }),
        scheduler::cost_from(classes, width, classes.len() as int) == (CostView {
            dispatches: 0,
            lane_slots: 0,
            useful: 0,
            full: 0,
        }),
{
}

// ---- queues by class -------------------------------------------------------

/// No full group is ever held back: less than a group stays. What stays has its oldest
/// item waiting for less than the deferral, and nothing stays at the last tick. What is
/// due is whole groups, or all there is.
pub proof fn law_full_groups_go_and_old_ones_do_not_wait(queue: Seq<Arrival>, timing: Timing, tick: u32)
    requires
        timing.width >= 1,
        forall|i: int| 0 <= i < queue.len() ==> (#[trigger] queue[i]).tick <= tick,
    ensures
        ({
            let n = class_queues::due(queue, timing, tick);
            &&& 0 <= n <= queue.len()
            &&& queue.len() - n < timing.width
            &&& n < queue.len() ==> {
                &&& n % (timing.width as int) == 0
                &&& tick - queue[n].tick < timing.max_defer
                &&& tick != timing.last
            }
            &&& n == queue.len() && n % (timing.width as int) != 0 ==> {
                let oldest = n - n % (timing.width as int);
                tick - queue[oldest].tick >= timing.max_defer || tick == timing.last
            }
        }),
{
    let w = timing.width as int;
    let len = queue.len() as int;
    assert(0 <= len % w < w && (len - len % w) % w == 0 && 0 <= len - len % w) by (nonlinear_arith)
        requires
            w >= 1,
            len >= 0,
    ;
}

/// What is due leaves from the front of its queue, and the other queues stay. Each item
/// has waited from its tick to this one.
pub proof fn law_a_served_queue_loses_its_oldest(
    s: QueuesView,
    i: int,
    place: int,
    timing: Timing,
    tick: u32,
    j: int,
)
    requires
        timing.width >= 1,
        0 <= i < s.queues.len(),
        0 <= place < s.per_place.len(),
        forall|k: int| 0 <= k < s.queues[i].len() ==> (#[trigger] s.queues[i][k]).tick <= tick,
    ensures
        ({
            let n = class_queues::due(s.queues[i], timing, tick);
            let t = s.served(i, place, timing, tick);
            let cost = scheduler::uniform_cost(n, timing.width as int);
            &&& t.queues.len() == s.queues.len()
            &&& t.queues[i] == s.queues[i].skip(n)
            &&& 0 <= j < s.queues.len() && j != i ==> t.queues[j] == s.queues[j]
            &&& t.out.waits.len() == s.out.waits.len() + n
            &&& forall|k: int|
                0 <= k < n ==> #[trigger] t.out.waits[s.out.waits.len() + k] == tick
                    - s.queues[i][k].tick
            &&& t.out.cost.dispatches == s.out.cost.dispatches + cost.dispatches
            &&& t.out.cost.useful == s.out.cost.useful + n
            &&& t.out.cost.lane_slots == s.out.cost.lane_slots + cost.lane_slots
            &&& t.out.cost.full == s.out.cost.full + cost.full
            &&& t.per_place[place] == s.per_place[place] + cost.dispatches
            &&& n > 0 ==> t.out.makespan >= tick && t.out.makespan >= s.out.makespan && (
            t.out.makespan == tick || t.out.makespan == s.out.makespan)
            &&& t.out.host_launches == s.out.host_launches
        }),
{
    law_full_groups_go_and_old_ones_do_not_wait(s.queues[i], timing, tick);
    let n = class_queues::due(s.queues[i], timing, tick);
    let w = timing.width as int;
    if n == 0 {
        assert(s.queues[i].skip(0) =~= s.queues[i]);
        law_lanes_of_one_class_fill_groups(0, w);
        assert(0int / w == 0) by (nonlinear_arith)
            requires
                w >= 1,
        ;
        assert(0 * w == 0) by (nonlinear_arith);
    }
}

/// An item that becomes ready joins the end of its class's queue, and no other.
pub proof fn law_an_arrival_joins_its_class(
    s: QueuesView,
    events: Seq<Arrival>,
    classes: Seq<u32>,
    tick: int,
    n: int,
)
    requires
        0 <= n < events.len(),
        classes.contains(events[n].run_class),
        policies::arrived(s, events, classes, tick, n).queues.len() == classes.len(),
    ensures
        ({
            let before = policies::arrived(s, events, classes, tick, n);
            let after = policies::arrived(s, events, classes, tick, n + 1);
            if events[n].tick == tick {
                let c = classes.index_of(events[n].run_class);
                &&& 0 <= c < classes.len()
                &&& classes[c] == events[n].run_class
                &&& after.queues[c] == before.queues[c].push(events[n])
                &&& forall|k: int|
                    0 <= k < before.queues.len() && k != c ==> #[trigger] after.queues[k]
                        == before.queues[k]
                &&& after.out == before.out
            } else {
                after == before
            }
        }),
{
    let c = classes.index_of(events[n].run_class);
    let k = choose|k: int| 0 <= k < classes.len() && classes[k] == events[n].run_class;
    assert(classes[k] == events[n].run_class);
}

// ---- a sorted window -------------------------------------------------------

/// A window goes at its last tick, and at the last tick of all, where anything is
/// pending: in one launch, with nothing left behind, each item having waited from its
/// tick to this one. At any other tick it only gathers.
pub proof fn law_a_window_goes_at_its_end(
    events: Seq<Arrival>,
    width: u16,
    window: u32,
    tick: nat,
)
    requires
        tick <= irregular_arrival::horizon_of(events),
    ensures
        ({
            let before = policies::windows(events, width, window, tick);
            let after = policies::windows(events, width, window, tick + 1);
            let ready = policies::readied(events, tick as int, events.len() as int);
            let pending = before.pending + ready;
            let span = if window < 1 {
                1
            } else {
                window as int
            };
            let ends = (tick as int + 1) % span == 0 || tick == irregular_arrival::horizon_of(events);
            if ends && pending.len() > 0 {
                &&& after.pending.len() == 0
                &&& after.out.host_launches == before.out.host_launches + 1
                &&& after.out.waits.len() == before.out.waits.len() + pending.len()
                &&& forall|k: int|
                    0 <= k < pending.len() ==> #[trigger] after.out.waits[before.out.waits.len()
                        + k] == (tick - pending[k].tick) as u32
                &&& after.out.makespan >= tick
                &&& after.out.cost.useful == before.out.cost.useful + policies::segment_cost(
                    irregular_arrival::classes_of(pending),
                    scheduler::lanes_in(width),
                ).useful
            } else {
                after.pending == pending && after.out == before.out
            }
        }),
{
}

/// What becomes ready at a tick is what arrives at it, in order.
pub proof fn law_what_is_ready_arrived_now(events: Seq<Arrival>, tick: int, n: int)
    requires
        0 <= n < events.len(),
    ensures
        policies::readied(events, tick, 0).len() == 0,
        policies::readied(events, tick, n + 1) == if events[n].tick == tick {
            policies::readied(events, tick, n).push(events[n])
        } else {
            policies::readied(events, tick, n)
        },
{
}

// ---- arrivals --------------------------------------------------------------

/// Roots arrive over the span in order, the first at once and all within it, and all at
/// once where the span is zero. Their values are counted from one.
pub proof fn law_roots_are_spread_over_the_span(k: IrregularKnobs, root: int, later: int)
    requires
        0 <= root <= later < k.roots,
    ensures
        ({
            let roots = irregular_arrival::roots_of(k);
            &&& roots.len() == k.roots
            &&& roots[root].value == root + 1
            &&& roots[root].parent is None
            &&& roots[0].tick == 0
            &&& 0 <= roots[root].tick <= roots[later].tick
            &&& roots[later].tick <= k.arrival_span
            &&& k.arrival_span > 0 && k.roots > 1 ==> roots[later].tick < k.arrival_span
            &&& k.roots > 1 ==> roots[root].tick * k.roots <= root * k.arrival_span < (
            roots[root].tick + 1) * k.roots
        }),
{
    let r = k.roots as int;
    let s = k.arrival_span as int;
    let a = (root * s) / r;
    let b = (later * s) / r;
    if k.roots > 1 {
        assert(a * r <= root * s < (a + 1) * r && b * r <= later * s < (b + 1) * r)
            by (nonlinear_arith)
            requires
                a == (root * s) / r,
                b == (later * s) / r,
                r >= 1,
                root * s >= 0 || root * s < 0,
        ;
        assert(0 <= root * s <= later * s && (s > 0 ==> later * s < r * s) && later * s <= r * s)
            by (nonlinear_arith)
            requires
                0 <= root <= later < r,
                s >= 0,
        ;
        assert(0 <= a <= b && b <= s && (s > 0 ==> b < s)) by (nonlinear_arith)
            requires
                a * r <= root * s < (a + 1) * r,
                b * r <= later * s < (b + 1) * r,
                0 <= root * s <= later * s,
                s > 0 ==> later * s < r * s,
                later * s <= r * s,
                r >= 1,
        ;
        assert((0 * s) / r == 0) by (nonlinear_arith)
            requires
                r >= 1,
        ;
    }
}

/// A child is ready one tick behind its parent, and later by its own value's share of the
/// jitter: with no jitter siblings are ready together. It names its parent, and siblings'
/// values count on.
pub proof fn law_a_child_is_ready_after_its_parent(k: IrregularKnobs, node: NodeView, id: int, i: int)
    requires
        0 <= i < k.branching_factor,
    ensures
        ({
            let children = irregular_arrival::children_of(k, node, id);
            let child = children[i];
            &&& children.len() == k.branching_factor
            &&& child.parent == Some(id)
            &&& node.tick + 1 <= child.tick <= node.tick + 1 + k.jitter
            &&& child.tick == node.tick + 1 + child.value as int % (k.jitter + 1)
            &&& k.jitter == 0 ==> child.tick == node.tick + 1
            &&& child.value as int == (children[0].value + i) % 0x1_0000_0000_0000_0000
        }),
{
    let child = irregular_arrival::children_of(k, node, id)[i];
    let v = child.value as int;
    let j = k.jitter + 1;
    assert(0 <= v % j < j) by (nonlinear_arith)
        requires
            j >= 1,
    ;
}

/// The levels of a search follow one another, and their nodes are numbered through: the
/// children of a level's nodes, in order, are the next level.
pub proof fn law_levels_are_numbered_through(k: IrregularKnobs, d: nat, n: int, i: int)
    requires
        0 <= n < irregular_arrival::level_at(k, d).0.len(),
        0 <= i < k.branching_factor,
    ensures
        ({
            let (level, first) = irregular_arrival::level_at(k, d);
            let (next, start) = irregular_arrival::level_at(k, d + 1);
            &&& irregular_arrival::level_at(k, 0).1 == 0
            &&& irregular_arrival::level_at(k, 0).0.len() == k.roots
            &&& start == first + level.len()
            &&& next.len() == level.len() * k.branching_factor
            &&& next[n * k.branching_factor + i] == irregular_arrival::child_of(
                k,
                level[n],
                first + n,
                i,
            )
        }),
{
    let (level, first) = irregular_arrival::level_at(k, d);
    lemma_next_level(k, level, first, level.len() as int, n, i);
}

proof fn lemma_next_level(k: IrregularKnobs, level: Seq<NodeView>, first: int, m: int, n: int, i: int)
    requires
        0 <= n < m <= level.len(),
        0 <= i < k.branching_factor,
    ensures
        ({
            let next = irregular_arrival::next_level(k, level, first, m);
            &&& next.len() == m * k.branching_factor
            &&& 0 <= n * k.branching_factor + i < next.len()
            &&& next[n * k.branching_factor + i] == irregular_arrival::child_of(
                k,
                level[n],
                first + n,
                i,
            )
        }),
    decreases m,
{
    let b = k.branching_factor as int;
    let before = irregular_arrival::next_level(k, level, first, m - 1);
    assert((m - 1) * b + b == m * b && 0 <= n * b) by (nonlinear_arith)
        requires
            n >= 0,
            b >= 0,
    ;
    if m == 1 {
        assert(before.len() == 0);
        assert(0 * b == 0) by (nonlinear_arith);
    } else {
        lemma_next_level(
            k,
            level,
            first,
            m - 1,
            if n < m - 1 {
                n
            } else {
                0
            },
            i,
        );
    }
    if n < m - 1 {
        assert(n * b + i < (m - 1) * b) by (nonlinear_arith)
            requires
                n + 1 <= m - 1,
                0 <= i < b,
        ;
    }
}

/// A node arrives with its tick, its number, its parent's number, and the class that its
/// value picks.
pub proof fn law_a_node_arrives_as_itself(k: IrregularKnobs, node: NodeView, id: int)
    requires
        0 <= node.tick <= u32::MAX,
        0 <= id <= u64::MAX,
    ensures
        ({
            let a = irregular_arrival::arrival_of(k, node, id);
            let spread = if k.class_count < 1 {
                1
            } else if k.class_count > 8 {
                8
            } else {
                k.class_count as int
            };
            &&& a.tick == node.tick
            &&& a.id == id
            &&& a.run_class as int == 10 + node.value as int % spread
            &&& node.parent is None ==> a.parent is None
            &&& node.parent matches Some(p) ==> a.parent == Some(p as u64)
        }),
{
}

/// All levels arrive, down to the depth.
pub proof fn law_all_levels_arrive(k: IrregularKnobs, d: nat, n: int)
    requires
        0 <= n < irregular_arrival::level_at(k, d).0.len(),
    ensures
        irregular_arrival::arrivals_above(k, 0).len() == 0,
        ({
            let (level, first) = irregular_arrival::level_at(k, d);
            let before = irregular_arrival::arrivals_above(k, d);
            let after = irregular_arrival::arrivals_above(k, d + 1);
            &&& after.len() == before.len() + level.len()
            &&& after.take(before.len() as int) == before
            &&& after[before.len() + n] == irregular_arrival::arrival_of(k, level[n], first + n)
        }),
{
    let before = irregular_arrival::arrivals_above(k, d);
    let after = irregular_arrival::arrivals_above(k, d + 1);
    assert(after.take(before.len() as int) =~= before);
}

// ---- routing ---------------------------------------------------------------

/// In turn, every territory is served once before any is served again. Locally, an item
/// goes where its parent went, and in turn where that is not known. By affinity it goes
/// by its class number.
pub proof fn law_items_go_in_turn_or_home_or_by_class(
    r: RouterView,
    m: Plan,
    a: Arrival,
    c: int,
)
    requires
        m.territories >= 1,
        r.turn >= 0,
    ensures
        ({
            let t = m.territories;
            let known = a.parent matches Some(p) && r.placed.dom().contains(p);
            &&& territories::route_of(r, m, Routing::RoundRobin, a, c) == (r.turn % t, false)
            &&& territories::routed(r, m, Routing::RoundRobin, a).turn == r.turn + 1
            &&& known ==> territories::route_of(r, m, Routing::Local, a, c) == (
                r.placed[a.parent->0] as int,
                false,
            ) && territories::routed(r, m, Routing::Local, a).turn == r.turn
            &&& !known ==> territories::route_of(r, m, Routing::Local, a, c) == (r.turn % t, false)
                && territories::routed(r, m, Routing::Local, a).turn == r.turn + 1
            &&& territories::route_of(r, m, Routing::ClassAffinity, a, c) == (
                a.run_class as int % t,
                false,
            )
            &&& territories::routed(r, m, Routing::ClassAffinity, a).turn == r.turn
        }),
{
}

proof fn lemma_least(queues: Seq<Seq<Arrival>>, k: int, n: int, other: int)
    requires
        n >= 1,
        0 <= other < n,
    ensures
        ({
            let least = territories::least_loaded(queues, k, n);
            &&& 0 <= least < n
            &&& territories::queued_in(queues, least * k, k) <= territories::queued_in(
                queues,
                other * k,
                k,
            )
            &&& territories::queued_in(queues, least * k, k) == territories::queued_in(
                queues,
                other * k,
                k,
            ) ==> least <= other
        }),
    decreases n,
{
    if n > 1 {
        if other < n - 1 {
            lemma_least(queues, k, n - 1, other);
        } else {
            lemma_least(queues, k, n - 1, 0);
        }
    } else {
        assert(0 * k == 0) by (nonlinear_arith);
    }
}

/// With a cap, an item goes by its class number while its queue there is below the cap.
/// Otherwise it goes to the territory with the least queued, and the first of those, and
/// counts as spilled where that is another one.
pub proof fn law_a_full_territory_spills_to_the_least_loaded(
    r: RouterView,
    m: Plan,
    a: Arrival,
    c: int,
    cap: usize,
    other: int,
)
    requires
        m.territories >= 1,
        0 <= other < m.territories,
    ensures
        ({
            let routing = Routing::ClassAffinityBalanced { cap };
            let k = m.classes.len() as int;
            let home = a.run_class as int % m.territories;
            let queued = r.queues.queues[home * k + c].len();
            let (to, spilled) = territories::route_of(r, m, routing, a, c);
            &&& queued < cap ==> to == home && !spilled
            &&& queued >= cap ==> {
                &&& spilled <==> to != home
                &&& territories::queued_in(r.queues.queues, to * k, k) <= territories::queued_in(
                    r.queues.queues,
                    other * k,
                    k,
                )
                &&& territories::queued_in(r.queues.queues, to * k, k) == territories::queued_in(
                    r.queues.queues,
                    other * k,
                    k,
                ) ==> to <= other
            }
        }),
{
    lemma_least(r.queues.queues, m.classes.len() as int, m.territories, other);
}

/// With shares, an item goes in turn through the territories that its class has, from the
/// first of them on.
pub proof fn law_shares_are_taken_in_turn(r: RouterView, m: Plan, a: Arrival, c: int)
    requires
        m.territories >= 1,
        m.counts.len() == m.classes.len(),
        0 <= c < m.classes.len(),
        r.class_turn.len() == m.classes.len(),
        r.class_turn[c] >= 0,
        m.classes.index_of(a.run_class) == c,
    ensures
        ({
            let (start, len) = territories::block_of(m.counts, m.territories, m.total, c);
            let (to, spilled) = territories::route_of(r, m, Routing::ProportionalAffinity, a, c);
            let after = territories::routed(r, m, Routing::ProportionalAffinity, a);
            &&& 0 <= start < m.territories
            &&& len >= 1
            &&& start + len <= m.territories
            &&& start <= to < start + len
            &&& to == start + r.class_turn[c] % len
            &&& !spilled
            &&& after.class_turn[c] == r.class_turn[c] + 1
            &&& after.turn == r.turn
        }),
{
    territories::law_every_class_has_a_block(m.counts, m.territories, m.total, c);
    let (start, len) = territories::block_of(m.counts, m.territories, m.total, c);
    let step = r.class_turn[c] % len;
    assert(0 <= step < len) by (nonlinear_arith)
        requires
            step == r.class_turn[c] % len,
            len >= 1,
            r.class_turn[c] >= 0,
    ;
    vstd::arithmetic::div_mod::lemma_small_mod((start + step) as nat, m.territories as nat);
}

/// A routed item joins its class's queue in the territory that it is sent to, its place is
/// remembered, and a spill is counted.
pub proof fn law_a_routed_item_is_queued_where_it_was_sent(
    r: RouterView,
    m: Plan,
    routing: Routing,
    a: Arrival,
)
    requires
        m.territories >= 1,
        ({
            let c = m.classes.index_of(a.run_class);
            let q = territories::route_of(r, m, routing, a, c).0 * m.classes.len() + c;
            0 <= q < r.queues.queues.len()
        }),
        ({
            let c = m.classes.index_of(a.run_class);
            0 <= territories::route_of(r, m, routing, a, c).0 <= usize::MAX
        }),
    ensures
        ({
            let c = m.classes.index_of(a.run_class);
            let (to, spilled) = territories::route_of(r, m, routing, a, c);
            let q = to * m.classes.len() + c;
            let after = territories::routed(r, m, routing, a);
            &&& after.queues.queues[q] == r.queues.queues[q].push(a)
            &&& forall|k: int|
                0 <= k < r.queues.queues.len() && k != q ==> #[trigger] after.queues.queues[k]
                    == r.queues.queues[k]
            &&& after.placed.contains_key(a.id)
            &&& after.placed[a.id] == to
            &&& after.spills == r.spills + (if spilled {
                1int
            } else {
                0
            })
        }),
{
}

} // verus!
