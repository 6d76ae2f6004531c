//! The two ways to group an irregular workload.

use crate::experiments::class_queues;
use crate::experiments::class_queues::{blank_outcome, charge, Queues, QueuesView, Timing};
use crate::experiments::irregular_arrival;
use crate::experiments::irregular_arrival::{Arrival, ArrivalTrace, OutcomeView, PolicyOutcome};
use crate::scheduler;
use crate::scheduler::{distinct_classes, lane_width, CostView};
use vstd::prelude::*;

verus! {

/// How many of the first `n` events are ready before tick `bound`.
pub open spec fn ready_before(events: Seq<Arrival>, bound: int, n: int) -> int
    decreases n,
{
    if n <= 0 {
        0
    } else {
        ready_before(events, bound, n - 1) + if events[n - 1].tick < bound {
            1int
        } else {
            0
        }
    }
}

/// How many of the first `n` events become ready at `tick`.
pub open spec fn ready_at(events: Seq<Arrival>, tick: int, n: int) -> int
    decreases n,
{
    if n <= 0 {
        0
    } else {
        ready_at(events, tick, n - 1) + if events[n - 1].tick == tick {
            1int
        } else {
            0
        }
    }
}

pub proof fn lemma_ready(events: Seq<Arrival>, tick: int, n: int)
    requires
        0 <= n <= events.len(),
    ensures
        ready_before(events, tick + 1, n) == ready_before(events, tick, n) + ready_at(
            events,
            tick,
            n,
        ),
        0 <= ready_before(events, tick, n) <= n,
        0 <= ready_at(events, tick, n) <= n,
        ready_before(events, tick, n) + ready_at(events, tick, n) <= n,
        ready_before(events, 0, n) == 0,
    decreases n,
{
    if n > 0 {
        lemma_ready(events, tick, n - 1);
    }
}

pub proof fn lemma_ready_grows(events: Seq<Arrival>, tick: int, m: int, n: int)
    requires
        0 <= m <= n <= events.len(),
    ensures
        ready_at(events, tick, m) <= ready_at(events, tick, n),
    decreases n - m,
{
    if m < n {
        lemma_ready_grows(events, tick, m, n - 1);
    }
}

/// Where class `c` lies in an increasing list.
pub fn class_index(classes: &Vec<u32>, c: u32) -> (at: usize)
    requires
        scheduler::is_increasing(classes@),
        classes@.contains(c),
    ensures
        at < classes@.len(),
        classes@[at as int] == c,
        at == classes@.index_of(c),
{
    let ghost found = classes@.index_of(c);
    assert(0 <= found < classes@.len() && classes@[found] == c);
    let mut at: usize = 0;
    while classes[at] != c
        invariant
            at <= found < classes.len(),
            classes@[found] == c,
        decreases classes@.len() - at,
    {
        at = at + 1;
    }
    proof {
        if at < found {
            assert(classes@[at as int] < classes@[found]);
        }
    }
    at
}

// ---- queues by class -------------------------------------------------------

/// The queues with what becomes ready at `tick` among the first `n` events.
pub open spec fn arrived(
    state: QueuesView,
    events: Seq<Arrival>,
    classes: Seq<u32>,
    tick: int,
    n: int,
) -> QueuesView
    decreases n,
{
    if n <= 0 {
        state
    } else {
        let before = arrived(state, events, classes, tick, n - 1);
        if events[n - 1].tick == tick {
            before.joined(classes.index_of(events[n - 1].run_class), events[n - 1])
        } else {
            before
        }
    }
}

/// The queues after the first `n` ticks.
pub open spec fn after_ticks(
    events: Seq<Arrival>,
    classes: Seq<u32>,
    timing: Timing,
    n: nat,
) -> QueuesView
    decreases n,
{
    if n == 0 {
        QueuesView::blank(classes.len(), 1)
    } else {
        arrived(
            after_ticks(events, classes, timing, (n - 1) as nat),
            events,
            classes,
            n - 1,
            events.len() as int,
        ).all_served(classes.len() as int, classes.len() as int, timing, (n - 1) as u32)
    }
}

pub open spec fn timing_of(events: Seq<Arrival>, width: u16, max_defer: u32) -> Timing {
    Timing {
        width: scheduler::lanes_in(width) as usize,
        max_defer,
        last: irregular_arrival::horizon_of(events),
    }
}

/// What keeping a queue for each class comes to.
pub open spec fn soma_outcome(events: Seq<Arrival>, width: u16, max_defer: u32) -> OutcomeView {
    if events.len() == 0 {
        OutcomeView::blank()
    } else {
        after_ticks(
            events,
            irregular_arrival::class_list(events),
            timing_of(events, width, max_defer),
            (irregular_arrival::horizon_of(events) + 1) as nat,
        ).out
    }
}

pub proof fn lemma_class_listed(events: Seq<Arrival>, i: int)
    requires
        0 <= i < events.len(),
    ensures
        irregular_arrival::class_list(events).contains(events[i].run_class),
        irregular_arrival::class_list(events).len() > 0,
{
    let values = irregular_arrival::classes_of(events);
    scheduler::lemma_distinct(values, events.len() as int);
    assert(values[i] == events[i].run_class);
}

pub proof fn lemma_blank_is_sound(queues: nat, places: nat, width: int)
    ensures
        QueuesView::blank(queues, places).is_sound(0, 0, width),
{
    class_queues::lemma_queued_blank(queues, queues as int);
    assert(0 * width == 0);
}

/// Keeps a queue for each class. A class goes in full groups as soon as it has
/// them, and in a partial one once its oldest item has waited `max_defer`
/// ticks, or at the last tick.
pub fn soma_policy(trace: &ArrivalTrace, width: u16, max_defer: u32) -> (out: PolicyOutcome)
    requires
        scheduler::lanes_fit(trace.events@.len() as int, scheduler::lanes_in(width)),
    ensures
        out@ == soma_outcome(trace.events@, width, max_defer),
{
    if trace.is_empty() {
        return blank_outcome();
    }
    let ghost events = trace.events@;
    let classes: Vec<u32> = trace.classes();
    let ghost list = classes@;
    let last: u32 = trace.horizon();
    let timing = Timing { width: lane_width(width), max_defer, last };
    assert(timing == timing_of(events, width, max_defer));
    proof {
        lemma_class_listed(events, 0);
        lemma_blank_is_sound(list.len(), 1, timing.width as int);
        lemma_ready(events, 0, events.len() as int);
    }
    let mut state: Queues = Queues::new(classes.len(), 1);
    let mut tick: u64 = 0;
    while tick <= last as u64
        invariant
            tick <= last + 1,
            events == trace.events@,
            scheduler::lanes_fit(events.len() as int, timing.width as int),
            list == classes@,
            list == irregular_arrival::class_list(events),
            list.len() > 0,
            scheduler::is_increasing(list),
            timing == timing_of(events, width, max_defer),
            1 <= timing.width <= 65535,
            state@.queues.len() == list.len(),
            state@.per_place.len() == 1,
            state@ == after_ticks(events, list, timing, tick as nat),
            state@.is_sound(
                (if tick == 0 {
                    0
                } else {
                    (tick - 1) as int
                }) as u32,
                ready_before(events, tick as int, events.len() as int),
                timing.width as int,
            ),
        decreases last + 1 - tick,
    {
        let now: u32 = tick as u32;
        let ghost start = state@;
        let ghost base = ready_before(events, tick as int, events.len() as int);
        assert(start.is_sound(now, base, timing.width as int)) by {
            assert forall|i: int, j: int|
                0 <= i < start.queues.len() && 0 <= j < start.queues[i].len() implies (
            #[trigger] start.queues[i][j]).tick <= now by {}
        }
        proof {
            lemma_ready(events, tick as int, events.len() as int);
        }
        let mut i: usize = 0;
        while i < trace.events.len()
            invariant
                i <= trace.events.len(),
                events == trace.events@,
                scheduler::lanes_fit(events.len() as int, timing.width as int),
                list == classes@,
                list == irregular_arrival::class_list(events),
                scheduler::is_increasing(list),
                now == tick,
                base >= 0,
                state@.queues.len() == list.len(),
                state@.per_place.len() == 1,
                state@ == arrived(start, events, list, tick as int, i as int),
                state@.is_sound(
                    now,
                    base + ready_at(events, tick as int, i as int),
                    timing.width as int,
                ),
            decreases trace.events.len() - i,
        {
            let event: Arrival = trace.events[i];
            if event.tick == now {
                proof {
                    lemma_class_listed(events, i as int);
                }
                let at: usize = class_index(&classes, event.run_class);
                state.join(
                    at,
                    event,
                    now,
                    Ghost(base + ready_at(events, tick as int, i as int)),
                    Ghost(timing.width as int),
                );
            }
            i = i + 1;
        }
        let ghost total = base + ready_at(events, tick as int, events.len() as int);
        proof {
            scheduler::lemma_fewer_lanes_fit(events.len() as int, timing.width as int, total);
        }
        state.serve_all(classes.len(), timing, now, Ghost(total));
        tick = tick + 1;
    }
    state.out
}

// ---- a sorted window -------------------------------------------------------

/// How many of the first `n` items are of class `c`.
pub open spec fn count_class(items: Seq<u32>, c: u32, n: int) -> int
    decreases n,
{
    if n <= 0 {
        0
    } else {
        count_class(items, c, n - 1) + if items[n - 1] == c {
            1int
        } else {
            0
        }
    }
}

/// How many of the items are of the first `k` classes.
pub open spec fn count_classes(items: Seq<u32>, classes: Seq<u32>, n: int, k: int) -> int
    decreases k,
{
    if k <= 0 {
        0
    } else {
        count_classes(items, classes, n, k - 1) + count_class(items, classes[k - 1], n)
    }
}

proof fn lemma_count_step(items: Seq<u32>, classes: Seq<u32>, n: int, k: int)
    requires
        scheduler::is_increasing(classes),
        0 < n <= items.len(),
        0 <= k <= classes.len(),
    ensures
        count_classes(items, classes, n, k) == count_classes(items, classes, n - 1, k) + if exists|
            j: int,
        |
            0 <= j < k && #[trigger] classes[j] == items[n - 1] {
            1int
        } else {
            0
        },
    decreases k,
{
    if k > 0 {
        lemma_count_step(items, classes, n, k - 1);
        let c = items[n - 1];
        if classes[k - 1] == c {
            assert forall|j: int| 0 <= j < k - 1 implies #[trigger] classes[j] != c by {
                assert(classes[j] < classes[k - 1]);
            }
        }
    }
}

pub proof fn lemma_count_bound(items: Seq<u32>, classes: Seq<u32>, n: int, k: int)
    requires
        scheduler::is_increasing(classes),
        0 <= n <= items.len(),
        0 <= k <= classes.len(),
    ensures
        0 <= count_classes(items, classes, n, k) <= n,
    decreases n,
{
    if n > 0 {
        lemma_count_bound(items, classes, n - 1, k);
        lemma_count_step(items, classes, n, k);
    } else {
        lemma_count_none(items, classes, k);
    }
}

proof fn lemma_count_none(items: Seq<u32>, classes: Seq<u32>, k: int)
    ensures
        count_classes(items, classes, 0, k) == 0,
    decreases k,
{
    if k > 0 {
        lemma_count_none(items, classes, k - 1);
    }
}

pub proof fn lemma_count_class_bound(items: Seq<u32>, c: u32, n: int)
    requires
        0 <= n,
    ensures
        0 <= count_class(items, c, n) <= n,
    decreases n,
{
    if n > 0 {
        lemma_count_class_bound(items, c, n - 1);
    }
}

/// What dispatching items sorted by class costs, up to the first `k` classes.
pub open spec fn sorted_cost(items: Seq<u32>, classes: Seq<u32>, width: int, k: int) -> CostView
    decreases k,
{
    if k <= 0 {
        CostView::zero()
    } else {
        sorted_cost(items, classes, width, k - 1).plus(
            scheduler::uniform_cost(
                count_class(items, classes[k - 1], items.len() as int),
                width,
            ),
        )
    }
}

/// What dispatching items sorted by class costs.
pub open spec fn segment_cost(items: Seq<u32>, width: int) -> CostView {
    let classes = scheduler::distinct(items, items.len() as int);
    sorted_cost(items, classes, width, classes.len() as int)
}

/// Adds the cost of dispatching `items` sorted by class.
pub fn charge_sorted(
    cost: &mut scheduler::DispatchCost,
    items: &Vec<u32>,
    width: usize,
    earlier: u64,
)
    requires
        1 <= width <= 65535,
        old(cost)@.within(earlier as int, width as int),
        scheduler::lanes_fit(earlier + items@.len(), width as int),
    ensures
        final(cost)@ == old(cost)@.plus(segment_cost(items@, width as int)),
        final(cost)@.within(earlier + items@.len(), width as int),
{
    let ghost before = cost@;
    let classes: Vec<u32> = distinct_classes(items);
    let mut charged: usize = 0;
    let mut k: usize = 0;
    assert(before.plus(CostView::zero()) =~= before);
    while k < classes.len()
        invariant
            k <= classes.len(),
            1 <= width <= 65535,
            scheduler::lanes_fit(earlier + items@.len(), width as int),
            classes@ == scheduler::distinct(items@, items@.len() as int),
            scheduler::is_increasing(classes@),
            charged == count_classes(items@, classes@, items@.len() as int, k as int),
            cost@.within(earlier + charged, width as int),
            cost@ == before.plus(sorted_cost(items@, classes@, width as int, k as int)),
        decreases classes.len() - k,
    {
        let class: u32 = classes[k];
        let mut n: usize = 0;
        let mut i: usize = 0;
        while i < items.len()
            invariant
                i <= items.len(),
                n <= i,
                n == count_class(items@, class, i as int),
            decreases items.len() - i,
        {
            if items[i] == class {
                n = n + 1;
            }
            i = i + 1;
        }
        proof {
            lemma_count_bound(items@, classes@, items@.len() as int, k + 1);
            let a = sorted_cost(items@, classes@, width as int, k as int);
            let b = scheduler::uniform_cost(n as int, width as int);
            assert(before.plus(a).plus(b) =~= before.plus(a.plus(b)));
            scheduler::lemma_fewer_lanes_fit(
                earlier + items@.len(),
                width as int,
                earlier + charged + n,
            );
        }
        charge(cost, n, width, earlier + charged as u64);
        assert(charged + n <= items.len());
        charged = charged + n;
        k = k + 1;
    }
    proof {
        lemma_count_bound(items@, classes@, items@.len() as int, k as int);
    }
}

/// What is pending, and what came of the rest.
#[verifier::ext_equal]
pub ghost struct WindowView {
    pub pending: Seq<Arrival>,
    pub out: OutcomeView,
}

/// What becomes ready at `tick` among the first `n` events.
pub open spec fn readied(events: Seq<Arrival>, tick: int, n: int) -> Seq<Arrival>
    decreases n,
{
    if n <= 0 {
        Seq::empty()
    } else if events[n - 1].tick == tick {
        readied(events, tick, n - 1).push(events[n - 1])
    } else {
        readied(events, tick, n - 1)
    }
}

/// A window that goes: one launch, sorted by class.
pub open spec fn launched(w: WindowView, width: int, tick: u32) -> WindowView {
    WindowView {
        pending: Seq::empty(),
        out: OutcomeView {
            cost: w.out.cost.plus(
                segment_cost(irregular_arrival::classes_of(w.pending), width),
            ),
            host_launches: w.out.host_launches + 1,
            waits: w.out.waits + irregular_arrival::waits_of(w.pending, tick),
            makespan: irregular_arrival::longer(w.out.makespan, tick),
        },
    }
}

pub open spec fn window_of(window: u32) -> int {
    if window > 1 {
        window as int
    } else {
        1
    }
}

/// The window after the first `n` ticks.
pub open spec fn windows(events: Seq<Arrival>, width: u16, window: u32, n: nat) -> WindowView
    decreases n,
{
    if n == 0 {
        WindowView { pending: Seq::empty(), out: OutcomeView::blank() }
    } else {
        let before = windows(events, width, window, (n - 1) as nat);
        let tick = n - 1;
        let gathered = WindowView {
            pending: before.pending + readied(events, tick, events.len() as int),
            out: before.out,
        };
        let goes = n as int % window_of(window) == 0 || tick == irregular_arrival::horizon_of(
            events,
        );
        if goes && gathered.pending.len() > 0 {
            launched(gathered, scheduler::lanes_in(width), tick as u32)
        } else {
            gathered
        }
    }
}

/// What collecting for a window and dispatching it sorted comes to.
pub open spec fn bulk_outcome(events: Seq<Arrival>, width: u16, window: u32) -> OutcomeView {
    windows(events, width, window, (irregular_arrival::horizon_of(events) + 1) as nat).out
}

proof fn lemma_readied(events: Seq<Arrival>, tick: int, n: int)
    requires
        0 <= n <= events.len(),
    ensures
        readied(events, tick, n).len() == ready_at(events, tick, n),
        forall|i: int|
            0 <= i < readied(events, tick, n).len() ==> (#[trigger] readied(
                events,
                tick,
                n,
            )[i]).tick == tick,
    decreases n,
{
    if n > 0 {
        lemma_readied(events, tick, n - 1);
    }
}

/// Collects everything for `window` ticks, then dispatches it sorted by class.
pub fn bulk_policy(trace: &ArrivalTrace, width: u16, window: u32) -> (out: PolicyOutcome)
    requires
        scheduler::lanes_fit(trace.events@.len() as int, scheduler::lanes_in(width)),
    ensures
        out@ == bulk_outcome(trace.events@, width, window),
{
    let ghost events = trace.events@;
    let ghost count = events.len() as int;
    let last: u32 = trace.horizon();
    let w: usize = lane_width(width);
    let span: u64 = if window > 1 {
        window as u64
    } else {
        1
    };
    let mut out: PolicyOutcome = blank_outcome();
    let mut pending: Vec<Arrival> = Vec::new();
    let mut tick: u64 = 0;
    proof {
        lemma_ready(events, 0, count);
        assert(0 * w == 0);
        assert(pending@ =~= Seq::<Arrival>::empty());
    }
    while tick <= last as u64
        invariant
            tick <= last + 1,
            events == trace.events@,
            count == events.len(),
            scheduler::lanes_fit(count, w as int),
            last == irregular_arrival::horizon_of(events),
            w == scheduler::lanes_in(width),
            1 <= w <= 65535,
            span == window_of(window),
            (WindowView { pending: pending@, out: out@ }) == windows(
                events,
                width,
                window,
                tick as nat,
            ),
            out@.cost.within(out.waits@.len() as int, w as int),
            out.host_launches <= tick,
            pending@.len() + out.waits@.len() == ready_before(events, tick as int, count),
            forall|i: int| 0 <= i < pending@.len() ==> (#[trigger] pending@[i]).tick < tick,
        decreases last + 1 - tick,
    {
        let now: u32 = tick as u32;
        let ghost held = pending@;
        let ghost before = out@;
        proof {
            lemma_ready(events, tick as int, count);
            lemma_readied(events, tick as int, count);
            assert(held + readied(events, tick as int, 0) =~= held);
        }
        let mut i: usize = 0;
        while i < trace.events.len()
            invariant
                i <= trace.events.len(),
                events == trace.events@,
                now == tick,
                pending@ =~= held + readied(events, tick as int, i as int),
            decreases trace.events.len() - i,
        {
            if trace.events[i].tick == now {
                pending.push(trace.events[i]);
            }
            i = i + 1;
        }
        let ghost gathered = pending@;
        assert forall|j: int| 0 <= j < gathered.len() implies (#[trigger] gathered[j]).tick
            <= now by {
            if j < held.len() {
                assert(gathered[j] == held[j]);
            } else {
                assert(gathered[j] == readied(events, tick as int, count)[j - held.len()]);
            }
        }
        let due: bool = (tick + 1) % span == 0 || now == last;
        if due && pending.len() > 0 {
            let mut classes: Vec<u32> = Vec::new();
            let items: u64 = out.waits.len() as u64;
            let mut j: usize = 0;
            assert(before.waits + irregular_arrival::waits_of(gathered, now).take(0)
                =~= before.waits);
            while j < pending.len()
                invariant
                    j <= pending.len(),
                    pending@ == gathered,
                    forall|j: int|
                        0 <= j < gathered.len() ==> (#[trigger] gathered[j]).tick <= now,
                    classes@ =~= irregular_arrival::classes_of(gathered).take(j as int),
                    out.waits@ =~= before.waits + irregular_arrival::waits_of(gathered, now).take(
                        j as int,
                    ),
                    out.cost@ == before.cost,
                    out.makespan == before.makespan,
                    out.host_launches == before.host_launches,
                decreases pending.len() - j,
            {
                assert(gathered[j as int].tick <= now);
                classes.push(pending[j].run_class);
                out.waits.push(now - pending[j].tick);
                j = j + 1;
            }
            proof {
                assert(classes@ =~= irregular_arrival::classes_of(gathered));
                assert(irregular_arrival::waits_of(gathered, now).take(j as int)
                    =~= irregular_arrival::waits_of(gathered, now));
            }
            proof {
                scheduler::lemma_fewer_lanes_fit(count, w as int, items + classes@.len());
            }
            charge_sorted(&mut out.cost, &classes, w, items);
            out.host_launches = out.host_launches + 1;
            if out.makespan < now {
                out.makespan = now;
            }
            pending = Vec::new();
            proof {
                let after = launched(
                    WindowView { pending: gathered, out: before },
                    w as int,
                    now,
                );
                assert(out@ =~= after.out);
                assert(pending@ =~= after.pending);
            }
        }
        tick = tick + 1;
        assert((WindowView { pending: pending@, out: out@ }) =~= windows(
            events,
            width,
            window,
            tick as nat,
        ));
    }
    out
}

proof fn lemma_served_holds(state: QueuesView, i: int, place: int, timing: Timing, tick: u32)
    requires
        0 <= i < state.queues.len(),
        timing.width >= 1,
    ensures
        ({
            let after = state.served(i, place, timing, tick);
            &&& after.queues.len() == state.queues.len()
            &&& class_queues::queued(after.queues, after.queues.len() as int)
                + after.out.waits.len() == class_queues::queued(
                state.queues,
                state.queues.len() as int,
            ) + state.out.waits.len()
        }),
{
    let q = state.queues[i];
    let n = class_queues::due(q, timing, tick);
    let w = timing.width as int;
    assert(0 <= (q.len() as int) % w && (q.len() as int) % w <= q.len()) by (nonlinear_arith)
        requires
            w >= 1,
    ;
    class_queues::lemma_queued_update(state.queues, i, q.skip(n), state.queues.len() as int);
}

pub proof fn lemma_all_served_holds(state: QueuesView, n: int, size: int, timing: Timing, tick: u32)
    requires
        0 <= n <= state.queues.len(),
        timing.width >= 1,
    ensures
        ({
            let after = state.all_served(n, size, timing, tick);
            &&& after.queues.len() == state.queues.len()
            &&& class_queues::queued(after.queues, after.queues.len() as int)
                + after.out.waits.len() == class_queues::queued(
                state.queues,
                state.queues.len() as int,
            ) + state.out.waits.len()
        }),
    decreases n,
{
    if n > 0 {
        lemma_all_served_holds(state, n - 1, size, timing, tick);
        lemma_served_holds(
            state.all_served(n - 1, size, timing, tick),
            n - 1,
            (n - 1) / size,
            timing,
            tick,
        );
    }
}

proof fn lemma_arrived_holds(
    state: QueuesView,
    events: Seq<Arrival>,
    classes: Seq<u32>,
    tick: int,
    n: int,
)
    requires
        0 <= n <= events.len(),
        classes == irregular_arrival::class_list(events),
        state.queues.len() == classes.len(),
    ensures
        ({
            let after = arrived(state, events, classes, tick, n);
            &&& after.queues.len() == state.queues.len()
            &&& after.out == state.out
            &&& class_queues::queued(after.queues, after.queues.len() as int)
                == class_queues::queued(state.queues, state.queues.len() as int) + ready_at(
                events,
                tick,
                n,
            )
        }),
    decreases n,
{
    if n > 0 {
        lemma_arrived_holds(state, events, classes, tick, n - 1);
        let before = arrived(state, events, classes, tick, n - 1);
        if events[n - 1].tick == tick {
            lemma_class_listed(events, n - 1);
            let i = classes.index_of(events[n - 1].run_class);
            class_queues::lemma_queued_update(
                before.queues,
                i,
                before.queues[i].push(events[n - 1]),
                before.queues.len() as int,
            );
        }
    }
}

proof fn lemma_ticks_hold(events: Seq<Arrival>, classes: Seq<u32>, timing: Timing, n: nat)
    requires
        classes == irregular_arrival::class_list(events),
        timing.width >= 1,
    ensures
        ({
            let state = after_ticks(events, classes, timing, n);
            &&& state.queues.len() == classes.len()
            &&& class_queues::queued(state.queues, classes.len() as int)
                + state.out.waits.len() == ready_before(events, n as int, events.len() as int)
        }),
    decreases n,
{
    lemma_ready(events, n - 1, events.len() as int);
    if n == 0 {
        class_queues::lemma_queued_blank(classes.len(), classes.len() as int);
    } else {
        lemma_ticks_hold(events, classes, timing, (n - 1) as nat);
        let before = after_ticks(events, classes, timing, (n - 1) as nat);
        lemma_arrived_holds(before, events, classes, n - 1, events.len() as int);
        lemma_all_served_holds(
            arrived(before, events, classes, n - 1, events.len() as int),
            classes.len() as int,
            classes.len() as int,
            timing,
            (n - 1) as u32,
        );
    }
}

pub proof fn lemma_nothing_queued(queues: Seq<Seq<Arrival>>, n: int)
    requires
        0 <= n <= queues.len(),
        forall|i: int| 0 <= i < n ==> (#[trigger] queues[i]).len() == 0,
    ensures
        class_queues::queued(queues, n) == 0,
    decreases n,
{
    if n > 0 {
        lemma_nothing_queued(queues, n - 1);
    }
}

/// Every item of a trace is dispatched exactly once, whichever policy runs.
pub proof fn law_every_item_is_dispatched_once(
    events: Seq<Arrival>,
    width: u16,
    max_defer: u32,
    window: u32,
)
    requires
        forall|i: int|
            0 <= i < events.len() ==> (#[trigger] events[i]).tick <= irregular_arrival::horizon_of(
                events,
            ),
    ensures
        soma_outcome(events, width, max_defer).waits.len() == events.len(),
        bulk_outcome(events, width, window).waits.len() == events.len(),
{
    let n = (irregular_arrival::horizon_of(events) + 1) as nat;
    lemma_windows_hold(events, width, window, n);
    lemma_all_ready(events, n as int, events.len() as int);
    let before = windows(events, width, window, (n - 1) as nat);
    let pending = before.pending + readied(events, n - 1, events.len() as int);
    if pending.len() == 0 {
        assert(windows(events, width, window, n).pending =~= Seq::<Arrival>::empty());
    }
    if events.len() > 0 {
        let classes = irregular_arrival::class_list(events);
        let timing = timing_of(events, width, max_defer);
        let k = classes.len() as int;
        lemma_ticks_hold(events, classes, timing, n);
        lemma_ticks_hold(events, classes, timing, (n - 1) as nat);
        let earlier = after_ticks(events, classes, timing, (n - 1) as nat);
        lemma_arrived_holds(earlier, events, classes, n - 1, events.len() as int);
        let ready = arrived(earlier, events, classes, n - 1, events.len() as int);
        let after = after_ticks(events, classes, timing, n);
        assert forall|i: int| 0 <= i < k implies (#[trigger] after.queues[i]).len() == 0 by {
            class_queues::law_last_tick_empties_the_queues(ready, k, k, timing, i);
        }
        lemma_nothing_queued(after.queues, k);
    }
}

proof fn lemma_windows_hold(events: Seq<Arrival>, width: u16, window: u32, n: nat)
    ensures
        windows(events, width, window, n).pending.len() + windows(
            events,
            width,
            window,
            n,
        ).out.waits.len() == ready_before(events, n as int, events.len() as int),
    decreases n,
{
    lemma_ready(events, n - 1, events.len() as int);
    if n > 0 {
        lemma_windows_hold(events, width, window, (n - 1) as nat);
        lemma_readied(events, n - 1, events.len() as int);
    }
}

pub proof fn lemma_all_ready(events: Seq<Arrival>, bound: int, n: int)
    requires
        0 <= n <= events.len(),
        forall|i: int| 0 <= i < events.len() ==> (#[trigger] events[i]).tick < bound,
    ensures
        ready_before(events, bound, n) == n,
    decreases n,
{
    if n > 0 {
        lemma_all_ready(events, bound, n - 1);
    }
}

proof fn lemma_arrive_in_time(
    state: QueuesView,
    events: Seq<Arrival>,
    classes: Seq<u32>,
    tick: int,
    bound: int,
    n: int,
)
    requires
        0 <= n <= events.len(),
        0 <= tick,
        0 <= bound,
        state.queues.len() == classes.len(),
        forall|i: int|
            0 <= i < events.len() ==> classes.contains((#[trigger] events[i]).run_class),
        forall|i: int|
            0 <= i < state.queues.len() ==> class_queues::waits_within(
                #[trigger] state.queues[i],
                tick - 1,
                bound - 1,
            ),
    ensures
        ({
            let after = arrived(state, events, classes, tick, n);
            &&& after.queues.len() == state.queues.len()
            &&& after.out == state.out
            &&& forall|i: int|
                0 <= i < state.queues.len() ==> class_queues::waits_within(
                    #[trigger] after.queues[i],
                    tick,
                    bound,
                )
        }),
    decreases n,
{
    let after = arrived(state, events, classes, tick, n);
    if n > 0 {
        lemma_arrive_in_time(state, events, classes, tick, bound, n - 1);
        let before = arrived(state, events, classes, tick, n - 1);
        if events[n - 1].tick == tick {
            let c = classes.index_of(events[n - 1].run_class);
            assert(classes.contains(events[n - 1].run_class));
            class_queues::lemma_join_in_time(before, c, events[n - 1], tick, bound);
        }
    } else {
        assert forall|i: int| 0 <= i < state.queues.len() implies class_queues::waits_within(
            #[trigger] after.queues[i],
            tick,
            bound,
        ) by {
            assert(class_queues::waits_within(state.queues[i], tick - 1, bound - 1));
        }
    }
}

proof fn lemma_ticks_in_time(events: Seq<Arrival>, classes: Seq<u32>, timing: Timing, n: nat)
    requires
        timing.width >= 1,
        n <= 0x1_0000_0000,
        forall|i: int|
            0 <= i < events.len() ==> classes.contains((#[trigger] events[i]).run_class),
    ensures
        ({
            let after = after_ticks(events, classes, timing, n);
            &&& after.queues.len() == classes.len()
            &&& class_queues::waited_within(after.out.waits, timing.max_defer as int)
            &&& forall|i: int|
                0 <= i < classes.len() ==> class_queues::waits_within(
                    #[trigger] after.queues[i],
                    n - 1,
                    timing.max_defer - 1,
                )
        }),
    decreases n,
{
    if n > 0 {
        lemma_ticks_in_time(events, classes, timing, (n - 1) as nat);
        let earlier = after_ticks(events, classes, timing, (n - 1) as nat);
        let k = classes.len() as int;
        lemma_arrive_in_time(
            earlier,
            events,
            classes,
            n - 1,
            timing.max_defer as int,
            events.len() as int,
        );
        let ready = arrived(earlier, events, classes, n - 1, events.len() as int);
        class_queues::lemma_serve_all_in_time(ready, k, k, timing, (n - 1) as u32);
    }
}

/// No item waits for longer than `max_defer` ticks: a class that does not fill
/// its groups is not starved.
pub proof fn law_no_item_waits_longer_than_it_may(
    events: Seq<Arrival>,
    width: u16,
    max_defer: u32,
)
    ensures
        class_queues::waited_within(
            soma_outcome(events, width, max_defer).waits,
            max_defer as int,
        ),
{
    if events.len() > 0 {
        let classes = irregular_arrival::class_list(events);
        assert forall|i: int| 0 <= i < events.len() implies classes.contains(
            (#[trigger] events[i]).run_class,
        ) by {
            lemma_class_listed(events, i);
        }
        lemma_ticks_in_time(
            events,
            classes,
            timing_of(events, width, max_defer),
            (irregular_arrival::horizon_of(events) + 1) as nat,
        );
    }
}

proof fn lemma_windows_in_time(events: Seq<Arrival>, width: u16, window: u32, n: nat)
    requires
        n <= 0x1_0000_0000,
    ensures
        ({
            let after = windows(events, width, window, n);
            &&& class_queues::waited_within(after.out.waits, window_of(window) - 1)
            &&& forall|i: int|
                0 <= i < after.pending.len() ==> n - n as int % window_of(window) <= (
                #[trigger] after.pending[i]).tick < n
        }),
    decreases n,
{
    let w = window_of(window);
    if n > 0 {
        lemma_windows_in_time(events, width, window, (n - 1) as nat);
        let before = windows(events, width, window, (n - 1) as nat);
        let after = windows(events, width, window, n);
        let m = n as int;
        lemma_readied(events, m - 1, events.len() as int);
        assert(0 <= (m - 1) % w < w && (m % w != 0 ==> (m - 1) % w == m % w - 1))
            by (nonlinear_arith)
            requires
                w >= 1,
                m >= 1,
        ;
        let fresh = readied(events, m - 1, events.len() as int);
        let pending = before.pending + fresh;
        assert forall|i: int| 0 <= i < pending.len() implies (m - 1) - (m - 1) % w <= (
        #[trigger] pending[i]).tick <= m - 1 by {
            if i < before.pending.len() {
                assert(pending[i] == before.pending[i]);
            } else {
                assert(pending[i] == fresh[i - before.pending.len()]);
            }
        }
        let gone = irregular_arrival::waits_of(pending, (m - 1) as u32);
        assert forall|i: int| 0 <= i < gone.len() implies #[trigger] gone[i] <= w - 1 by {
            assert(pending[i].tick <= m - 1);
        }
    }
}

/// No item of a collected window waits for as long as the window is.
pub proof fn law_no_item_outwaits_its_window(events: Seq<Arrival>, width: u16, window: u32)
    ensures
        class_queues::waited_within(
            bulk_outcome(events, width, window).waits,
            window_of(window) - 1,
        ),
{
    lemma_windows_in_time(
        events,
        width,
        window,
        (irregular_arrival::horizon_of(events) + 1) as nat,
    );
}

proof fn lemma_lanes_served(state: QueuesView, n: int, size: int, timing: Timing, tick: u32)
    requires
        0 <= n <= state.queues.len(),
        timing.width >= 1,
        state.out.cost.useful == state.out.waits.len(),
    ensures
        state.all_served(n, size, timing, tick).queues.len() == state.queues.len(),
        state.all_served(n, size, timing, tick).out.cost.useful == state.all_served(
            n,
            size,
            timing,
            tick,
        ).out.waits.len(),
    decreases n,
{
    if n > 0 {
        lemma_lanes_served(state, n - 1, size, timing, tick);
        let before = state.all_served(n - 1, size, timing, tick);
        let queue = before.queues[n - 1];
        let w = timing.width as int;
        assert(0 <= queue.len() as int % w <= queue.len()) by (nonlinear_arith)
            requires
                w >= 1,
        ;
        assert(queue.take(class_queues::due(queue, timing, tick)).len() == class_queues::due(
            queue,
            timing,
            tick,
        ));
    }
}

proof fn lemma_lanes_ticked(events: Seq<Arrival>, classes: Seq<u32>, timing: Timing, n: nat)
    requires
        timing.width >= 1,
        classes == irregular_arrival::class_list(events),
    ensures
        after_ticks(events, classes, timing, n).queues.len() == classes.len(),
        after_ticks(events, classes, timing, n).out.cost.useful == after_ticks(
            events,
            classes,
            timing,
            n,
        ).out.waits.len(),
    decreases n,
{
    if n > 0 {
        lemma_lanes_ticked(events, classes, timing, (n - 1) as nat);
        let earlier = after_ticks(events, classes, timing, (n - 1) as nat);
        lemma_arrived_holds(earlier, events, classes, n - 1, events.len() as int);
        let ready = arrived(earlier, events, classes, n - 1, events.len() as int);
        lemma_lanes_served(
            ready,
            classes.len() as int,
            classes.len() as int,
            timing,
            (n - 1) as u32,
        );
    }
}

/// Each item that is dispatched takes one useful lane slot.
pub proof fn law_every_item_takes_one_lane(events: Seq<Arrival>, width: u16, max_defer: u32)
    ensures
        soma_outcome(events, width, max_defer).cost.useful == soma_outcome(
            events,
            width,
            max_defer,
        ).waits.len(),
{
    if events.len() > 0 {
        lemma_lanes_ticked(
            events,
            irregular_arrival::class_list(events),
            timing_of(events, width, max_defer),
            (irregular_arrival::horizon_of(events) + 1) as nat,
        );
    }
}

// ---- sorting ---------------------------------------------------------------

/// How many full or partial groups the items of one class from `at` on fill.
pub open spec fn groups_left(items: Seq<u32>, c: u32, width: int, at: int) -> int {
    let left = count_class(items, c, items.len() as int) - count_class(items, c, at);
    (left + width - 1) / width
}

/// The same of the first `k` classes together.
pub open spec fn all_groups_left(
    items: Seq<u32>,
    classes: Seq<u32>,
    width: int,
    at: int,
    k: int,
) -> int
    decreases k,
{
    if k <= 0 {
        0
    } else {
        all_groups_left(items, classes, width, at, k - 1) + groups_left(
            items,
            classes[k - 1],
            width,
            at,
        )
    }
}

/// Those of the first `k` classes that a group has items of.
spec fn classes_in(group: Seq<u32>, classes: Seq<u32>, k: int) -> Seq<u32>
    decreases k,
{
    if k <= 0 {
        Seq::empty()
    } else if group.contains(classes[k - 1]) {
        classes_in(group, classes, k - 1).push(classes[k - 1])
    } else {
        classes_in(group, classes, k - 1)
    }
}

proof fn lemma_classes_in(group: Seq<u32>, classes: Seq<u32>, k: int)
    requires
        0 <= k <= classes.len(),
        scheduler::is_increasing(classes),
    ensures
        classes_in(group, classes, k).no_duplicates(),
        forall|i: int|
            0 <= i < classes_in(group, classes, k).len() ==> {
                &&& group.contains(#[trigger] classes_in(group, classes, k)[i])
                &&& k < classes.len() ==> classes_in(group, classes, k)[i] < classes[k]
            },
    decreases k,
{
    if k > 0 {
        lemma_classes_in(group, classes, k - 1);
        if k < classes.len() {
            assert(classes[k - 1] < classes[k]);
        }
    }
}

/// No more classes have items in a group than the group has distinct ones.
proof fn lemma_classes_in_are_distinct(group: Seq<u32>, classes: Seq<u32>)
    requires
        scheduler::is_increasing(classes),
    ensures
        classes_in(group, classes, classes.len() as int).len() <= scheduler::distinct(
            group,
            group.len() as int,
        ).len(),
{
    let found = classes_in(group, classes, classes.len() as int);
    let all = scheduler::distinct(group, group.len() as int);
    lemma_classes_in(group, classes, classes.len() as int);
    scheduler::lemma_distinct(group, group.len() as int);
    assert forall|c: u32| #[trigger] found.to_set().contains(c) implies all.to_set().contains(
        c,
    ) by {
        assert(found.contains(c));
        let i = choose|i: int| 0 <= i < found.len() && found[i] == c;
        assert(group.contains(found[i]));
        let j = choose|j: int| 0 <= j < group.len() && group[j] == c;
        assert(all.contains(group[j]));
    }
    found.unique_seq_to_set();
    all.lemma_cardinality_of_set();
    vstd::seq_lib::seq_to_set_is_finite(all);
    vstd::set_lib::lemma_len_subset(found.to_set(), all.to_set());
}

proof fn lemma_count_between(items: Seq<u32>, c: u32, at: int, end: int)
    requires
        0 <= at <= end <= items.len(),
    ensures
        0 <= count_class(items, c, end) - count_class(items, c, at) <= end - at,
        count_class(items, c, end) > count_class(items, c, at) ==> items.subrange(
            at,
            end,
        ).contains(c),
    decreases end - at,
{
    if at < end {
        lemma_count_between(items, c, at, end - 1);
        let group = items.subrange(at, end);
        if items[end - 1] == c {
            assert(group[end - 1 - at] == c);
        } else if count_class(items, c, end - 1) > count_class(items, c, at) {
            let shorter = items.subrange(at, end - 1);
            let i = choose|i: int| 0 <= i < shorter.len() && shorter[i] == c;
            assert(group[i] == c);
        }
    }
}

/// A group takes at most one off what is left of each class that it has items of.
proof fn lemma_group_takes(
    items: Seq<u32>,
    classes: Seq<u32>,
    width: int,
    at: int,
    end: int,
    k: int,
)
    requires
        width >= 1,
        0 <= at <= end <= items.len(),
        end - at <= width,
        0 <= k <= classes.len(),
    ensures
        all_groups_left(items, classes, width, at, k) <= all_groups_left(
            items,
            classes,
            width,
            end,
            k,
        ) + classes_in(items.subrange(at, end), classes, k).len(),
    decreases k,
{
    if k > 0 {
        lemma_group_takes(items, classes, width, at, end, k - 1);
        let c = classes[k - 1];
        lemma_count_between(items, c, at, end);
        lemma_count_between(items, c, end, items.len() as int);
        let taken = count_class(items, c, end) - count_class(items, c, at);
        let rest = count_class(items, c, items.len() as int) - count_class(items, c, end);
        assert((taken + rest + width - 1) / width <= (rest + width - 1) / width + if taken > 0 {
            1int
        } else {
            0
        }) by (nonlinear_arith)
            requires
                width >= 1,
                0 <= taken <= width,
                0 <= rest,
        ;
    }
}

proof fn lemma_nothing_left(items: Seq<u32>, classes: Seq<u32>, width: int, k: int)
    requires
        width >= 1,
    ensures
        all_groups_left(items, classes, width, items.len() as int, k) == 0,
    decreases k,
{
    if k > 0 {
        lemma_nothing_left(items, classes, width, k - 1);
        assert((0 + width - 1) / width == 0) by (nonlinear_arith)
            requires
                width >= 1,
        ;
    }
}

proof fn lemma_cuts_cost_more(items: Seq<u32>, classes: Seq<u32>, width: int, at: int)
    requires
        width >= 1,
        0 <= at <= items.len(),
        scheduler::is_increasing(classes),
    ensures
        all_groups_left(items, classes, width, at, classes.len() as int) <= scheduler::cost_from(
            items,
            width,
            at,
        ).dispatches,
    decreases items.len() - at,
{
    let k = classes.len() as int;
    if at < items.len() {
        let end = if at + width < items.len() {
            at + width
        } else {
            items.len() as int
        };
        lemma_cuts_cost_more(items, classes, width, end);
        lemma_group_takes(items, classes, width, at, end, k);
        lemma_classes_in_are_distinct(items.subrange(at, end), classes);
    } else {
        lemma_nothing_left(items, classes, width, k);
    }
}

proof fn lemma_sorted_dispatches(items: Seq<u32>, classes: Seq<u32>, width: int, k: int)
    ensures
        sorted_cost(items, classes, width, k).dispatches == all_groups_left(
            items,
            classes,
            width,
            0,
            k,
        ),
    decreases k,
{
    if k > 0 {
        lemma_sorted_dispatches(items, classes, width, k - 1);
    }
}

proof fn lemma_sorted_useful(items: Seq<u32>, classes: Seq<u32>, width: int, k: int)
    ensures
        sorted_cost(items, classes, width, k).useful == count_classes(
            items,
            classes,
            items.len() as int,
            k,
        ),
    decreases k,
{
    if k > 0 {
        lemma_sorted_useful(items, classes, width, k - 1);
    }
}

proof fn lemma_all_counted(items: Seq<u32>, classes: Seq<u32>, n: int)
    requires
        0 <= n <= items.len(),
        scheduler::is_increasing(classes),
        forall|i: int| 0 <= i < items.len() ==> classes.contains(#[trigger] items[i]),
    ensures
        count_classes(items, classes, n, classes.len() as int) == n,
    decreases n,
{
    if n > 0 {
        lemma_all_counted(items, classes, n - 1);
        lemma_count_step(items, classes, n, classes.len() as int);
        assert(classes.contains(items[n - 1]));
    } else {
        lemma_count_none(items, classes, classes.len() as int);
    }
}

/// Partitioned items take one useful lane slot each.
pub proof fn lemma_segment_is_useful(items: Seq<u32>, width: int)
    ensures
        segment_cost(items, width).useful == items.len(),
{
    let classes = scheduler::distinct(items, items.len() as int);
    scheduler::lemma_distinct(items, items.len() as int);
    lemma_sorted_useful(items, classes, width, classes.len() as int);
    lemma_all_counted(items, classes, items.len() as int);
}

/// To partition items by class before they are dispatched never costs a dispatch.
pub proof fn law_sorting_never_costs_a_dispatch(items: Seq<u32>, width: int)
    requires
        width >= 1,
    ensures
        segment_cost(items, width).dispatches <= scheduler::cost_from(items, width, 0).dispatches,
{
    let classes = scheduler::distinct(items, items.len() as int);
    scheduler::lemma_distinct(items, items.len() as int);
    lemma_sorted_dispatches(items, classes, width, classes.len() as int);
    lemma_cuts_cost_more(items, classes, width, 0);
}

} // verus!
