//! Queues of arrivals by class, and when they are dispatched.
//!
//! Each queue is dispatched in full groups as soon as it holds them. What is
//! left over goes as a partial group once its oldest item has waited long
//! enough, or at the last tick.

use crate::experiments::irregular_arrival;
use crate::experiments::irregular_arrival::{Arrival, OutcomeView, PolicyOutcome};
use crate::scheduler;
use crate::scheduler::DispatchCost;
use vstd::prelude::*;

verus! {

/// When queues are dispatched.
#[derive(Clone, Copy, Debug)]
pub struct Timing {
    /// Lanes of a full group.
    pub width: usize,
    /// Ticks after which a partial group goes.
    pub max_defer: u32,
    pub last: u32,
}

/// How many items of `queue` go at `tick`: the full groups, and the rest too
/// where it is due.
pub open spec fn due(queue: Seq<Arrival>, timing: Timing, tick: u32) -> int {
    let full = queue.len() - queue.len() as int % timing.width as int;
    if full < queue.len() && (tick - queue[full].tick >= timing.max_defer || tick == timing.last) {
        queue.len() as int
    } else {
        full
    }
}

/// The queues, what came of them so far, and how many dispatches each of the
/// places they are grouped under has made.
#[verifier::ext_equal]
pub ghost struct QueuesView {
    pub queues: Seq<Seq<Arrival>>,
    pub per_place: Seq<int>,
    pub out: OutcomeView,
}

impl QueuesView {
    pub open spec fn blank(queues: nat, places: nat) -> QueuesView {
        QueuesView {
            queues: Seq::new(queues, |i: int| Seq::empty()),
            per_place: Seq::new(places, |i: int| 0int),
            out: OutcomeView::blank(),
        }
    }

    /// One more item in queue `i`.
    pub open spec fn joined(self, i: int, item: Arrival) -> QueuesView {
        QueuesView { queues: self.queues.update(i, self.queues[i].push(item)), ..self }
    }

    /// Queue `i` of `place`, dispatched as far as it is due.
    pub open spec fn served(self, i: int, place: int, timing: Timing, tick: u32) -> QueuesView {
        let n = due(self.queues[i], timing, tick);
        if n == 0 {
            self
        } else {
            let cost = scheduler::uniform_cost(n, timing.width as int);
            QueuesView {
                queues: self.queues.update(i, self.queues[i].skip(n)),
                per_place: self.per_place.update(place, self.per_place[place] + cost.dispatches),
                out: self.out.dispatched(self.queues[i].take(n), timing.width as int, tick),
            }
        }
    }

    /// The first `n` queues served in order, `size` of them to a place.
    pub open spec fn all_served(self, n: int, size: int, timing: Timing, tick: u32) -> QueuesView
        decreases n,
    {
        if n <= 0 {
            self
        } else {
            self.all_served(n - 1, size, timing, tick).served(
                n - 1,
                (n - 1) / size,
                timing,
                tick,
            )
        }
    }

    /// No item is from the future, and counts are those of `total` items.
    pub open spec fn is_sound(self, tick: u32, total: int, width: int) -> bool {
        &&& forall|i: int, j: int|
            0 <= i < self.queues.len() && 0 <= j < self.queues[i].len() ==> (
            #[trigger] self.queues[i][j]).tick <= tick
        &&& queued(self.queues, self.queues.len() as int) + self.out.waits.len() == total
        &&& self.out.cost.within(self.out.waits.len() as int, width)
        &&& forall|p: int|
            0 <= p < self.per_place.len() ==> 0 <= #[trigger] self.per_place[p]
                <= self.out.cost.dispatches
    }
}

/// Items in the first `n` queues.
pub open spec fn queued(queues: Seq<Seq<Arrival>>, n: int) -> int
    decreases n,
{
    if n <= 0 {
        0
    } else {
        queued(queues, n - 1) + queues[n - 1].len()
    }
}

pub proof fn lemma_queued_update(queues: Seq<Seq<Arrival>>, i: int, q: Seq<Arrival>, n: int)
    requires
        0 <= i < queues.len(),
        0 <= n <= queues.len(),
    ensures
        queued(queues.update(i, q), n) == queued(queues, n) + if i < n {
            q.len() - queues[i].len()
        } else {
            0
        },
    decreases n,
{
    if n > 0 {
        lemma_queued_update(queues, i, q, n - 1);
    }
}

pub proof fn lemma_queued_bound(queues: Seq<Seq<Arrival>>, i: int, n: int)
    requires
        0 <= i < n <= queues.len(),
    ensures
        0 <= queues[i].len() <= queued(queues, n),
    decreases n,
{
    lemma_queued_nonnegative(queues, n - 1);
    if i < n - 1 {
        lemma_queued_bound(queues, i, n - 1);
    }
}

pub proof fn lemma_queued_nonnegative(queues: Seq<Seq<Arrival>>, n: int)
    ensures
        queued(queues, n) >= 0,
    decreases n,
{
    if n > 0 {
        lemma_queued_nonnegative(queues, n - 1);
    }
}

pub proof fn lemma_queued_blank(count: nat, n: int)
    requires
        0 <= n <= count,
    ensures
        queued(Seq::new(count, |i: int| Seq::<Arrival>::empty()), n) == 0,
    decreases n,
{
    if n > 0 {
        lemma_queued_blank(count, n - 1);
    }
}

pub struct Queues {
    pub queues: Vec<Vec<Arrival>>,
    pub per_place: Vec<u64>,
    pub out: PolicyOutcome,
}

pub open spec fn queue_views(queues: Seq<Vec<Arrival>>) -> Seq<Seq<Arrival>> {
    Seq::new(queues.len(), |i: int| queues[i]@)
}

impl View for Queues {
    type V = QueuesView;

    open spec fn view(&self) -> QueuesView {
        QueuesView {
            queues: queue_views(self.queues@),
            per_place: Seq::new(self.per_place@.len(), |i: int| self.per_place@[i] as int),
            out: self.out@,
        }
    }
}

pub fn blank_outcome() -> (out: PolicyOutcome)
    ensures
        out@ == OutcomeView::blank(),
{
    let out = PolicyOutcome {
        cost: DispatchCost {
            dispatches: 0,
            lane_slots: 0,
            useful_lane_slots: 0,
            full_dispatches: 0,
        },
        host_launches: 0,
        waits: Vec::new(),
        makespan: 0,
    };
    assert(out@ =~= OutcomeView::blank());
    out
}

proof fn lemma_uniform_bounds(n: int, width: int)
    requires
        0 <= n,
        width >= 1,
    ensures
        0 <= scheduler::uniform_cost(n, width).full
            <= scheduler::uniform_cost(n, width).dispatches <= n,
        n > 0 ==> scheduler::uniform_cost(n, width).dispatches >= 1,
{
    let g = (n + width - 1) / width;
    assert(0 <= n / width <= g <= n) by (nonlinear_arith)
        requires
            0 <= n,
            width >= 1,
            g == (n + width - 1) / width,
    ;
    assert(n > 0 ==> g >= 1) by (nonlinear_arith)
        requires
            width >= 1,
            g == (n + width - 1) / width,
    ;
}

/// Adds to an outcome what dispatching `n` items of one class at `tick` costs.
pub fn charge(cost: &mut DispatchCost, n: usize, width: usize, items: u64) -> (dispatches: u64)
    requires
        1 <= width <= 65535,
        old(cost)@.within(items as int, width as int),
        scheduler::lanes_fit(items + n, width as int),
    ensures
        final(cost)@ == old(cost)@.plus(scheduler::uniform_cost(n as int, width as int)),
        final(cost)@.within(items + n, width as int),
        dispatches == scheduler::uniform_cost(n as int, width as int).dispatches,
{
    let w: u64 = width as u64;
    let whole: u64 = n as u64 / w;
    proof {
        let all = n as int;
        assert(all % (w as int) != 0 ==> all / (w as int) < all) by (nonlinear_arith)
            requires
                w >= 1,
                all >= 0,
        ;
    }
    let groups: u64 = if n as u64 % w == 0 {
        whole
    } else {
        whole + 1
    };
    proof {
        lemma_uniform_bounds(n as int, width as int);
        assert(groups == (n + width - 1) / (width as int)) by (nonlinear_arith)
            requires
                width >= 1,
                w == width,
                whole == n as int / w as int,
                groups as int == if n as int % w as int == 0 {
                    whole as int
                } else {
                    whole + 1
                },
        ;
        let d = cost.dispatches as int;
        scheduler::lemma_fewer_lanes_fit(items + n, width as int, items + n);
        scheduler::lemma_fewer_lanes_fit(items + n, width as int, d + groups);
        scheduler::lemma_fewer_lanes_fit(items + n, width as int, groups as int);
        assert((d + groups) * w == d * w + groups * w) by (nonlinear_arith);
    }
    cost.dispatches = cost.dispatches + groups;
    cost.lane_slots = cost.lane_slots + groups * w;
    cost.useful_lane_slots = cost.useful_lane_slots + n as u64;
    cost.full_dispatches = cost.full_dispatches + whole;
    groups
}

impl Queues {
    pub fn new(queues: usize, places: usize) -> (made: Self)
        ensures
            made@ == QueuesView::blank(queues as nat, places as nat),
    {
        let mut list: Vec<Vec<Arrival>> = Vec::new();
        let mut i: usize = 0;
        while i < queues
            invariant
                i <= queues,
                list@.len() == i,
                forall|j: int| 0 <= j < i ==> (#[trigger] list@[j])@ == Seq::<Arrival>::empty(),
            decreases queues - i,
        {
            let fresh: Vec<Arrival> = Vec::new();
            assert(fresh@ =~= Seq::<Arrival>::empty());
            list.push(fresh);
            i = i + 1;
        }
        let per_place: Vec<u64> = vec![0u64; places];
        let made = Queues { queues: list, per_place, out: blank_outcome() };
        assert(made@ =~= QueuesView::blank(queues as nat, places as nat));
        made
    }

    pub fn join(&mut self, i: usize, item: Arrival, tick: u32, total: Ghost<int>, width: Ghost<int>)
        requires
            i < old(self)@.queues.len(),
            item.tick <= tick,
            old(self)@.is_sound(tick, total@, width@),
        ensures
            final(self)@ == old(self)@.joined(i as int, item),
            final(self)@.is_sound(tick, total@ + 1, width@),
    {
        let ghost before = self@;
        self.queues[i].push(item);
        proof {
            let after = before.joined(i as int, item);
            assert(self@.queues =~= after.queues);
            assert(self@ =~= after);
            lemma_queued_update(
                before.queues,
                i as int,
                before.queues[i as int].push(item),
                before.queues.len() as int,
            );
            assert forall|a: int, b: int|
                0 <= a < after.queues.len() && 0 <= b < after.queues[a].len() implies (
            #[trigger] after.queues[a][b]).tick <= tick by {
                if a == i && b == before.queues[i as int].len() {
                    assert(after.queues[a][b] == item);
                } else {
                    assert(before.queues[a][b].tick <= tick);
                }
            }
        }
    }

    /// Serves queue `i`.
    pub fn serve(&mut self, i: usize, place: usize, timing: Timing, tick: u32, total: Ghost<int>)
        requires
            i < old(self)@.queues.len(),
            place < old(self)@.per_place.len(),
            1 <= timing.width <= 65535,
            scheduler::lanes_fit(total@, timing.width as int),
            old(self)@.is_sound(tick, total@, timing.width as int),
        ensures
            final(self)@ == old(self)@.served(i as int, place as int, timing, tick),
            final(self)@.is_sound(tick, total@, timing.width as int),
    {
        let ghost before = self@;
        let ghost q = before.queues[i as int];
        let len: usize = self.queues[i].len();
        let rest: usize = len % timing.width;
        proof {
            assert(0 <= (len as int) % (timing.width as int) && (len as int) % (timing.width as int)
                <= len) by (nonlinear_arith)
                requires
                    timing.width >= 1,
            ;
        }
        let full: usize = len - rest;
        let mut n: usize = full;
        if full < len {
            let oldest: u32 = self.queues[i][full].tick;
            assert(before.queues[i as int][full as int].tick <= tick);
            if tick - oldest >= timing.max_defer || tick == timing.last {
                n = len;
            }
        }
        assert(n == due(q, timing, tick));
        if n == 0 {
            return;
        }
        let mut kept: Vec<Arrival> = Vec::new();
        let mut j: usize = n;
        while j < len
            invariant
                n <= j <= len,
                i < self.queues@.len(),
                self.queues@[i as int]@ == q,
                len == q.len(),
                kept@ =~= q.subrange(n as int, j as int),
                self@ == before,
            decreases len - j,
        {
            kept.push(self.queues[i][j]);
            j = j + 1;
        }
        let mut m: usize = 0;
        let items: u64 = self.out.waits.len() as u64;
        proof {
            lemma_queued_bound(before.queues, i as int, before.queues.len() as int);
            assert(before.out.waits + irregular_arrival::waits_of(q.take(n as int), tick).take(0)
                =~= before.out.waits);
        }
        while m < n
            invariant
                m <= n <= len == q.len(),
                i < self.queues@.len(),
                queue_views(self.queues@) == before.queues,
                self.queues@[i as int]@ == q,
                forall|b: int| 0 <= b < q.len() ==> (#[trigger] q[b]).tick <= tick,
                self.per_place@.len() == before.per_place.len(),
                forall|p: int|
                    0 <= p < before.per_place.len() ==> self.per_place@[p] == before.per_place[p],
                self.out.cost@ == before.out.cost,
                self.out.makespan == before.out.makespan,
                self.out.host_launches == before.out.host_launches,
                self.out.waits@ =~= before.out.waits + irregular_arrival::waits_of(
                    q.take(n as int),
                    tick,
                ).take(m as int),
            decreases n - m,
        {
            assert(q[m as int].tick <= tick);
            let wait: u32 = tick - self.queues[i][m].tick;
            self.out.waits.push(wait);
            m = m + 1;
        }
        assert(irregular_arrival::waits_of(q.take(n as int), tick).take(m as int)
            =~= irregular_arrival::waits_of(q.take(n as int), tick));
        proof {
            scheduler::lemma_fewer_lanes_fit(total@, timing.width as int, items + n);
        }
        let made: u64 = charge(&mut self.out.cost, n, timing.width, items);
        if self.out.makespan < tick {
            self.out.makespan = tick;
        }
        let held: u64 = self.per_place[place];
        proof {
            assert(before.per_place[place as int] <= before.out.cost.dispatches);
        }
        self.per_place.set(place, held + made);
        let mut rest_queue: Vec<Arrival> = kept;
        std::mem::swap(&mut self.queues[i], &mut rest_queue);
        proof {
            let after = before.served(i as int, place as int, timing, tick);
            assert(kept@ =~= q.skip(n as int));
            assert(self@.queues =~= after.queues);
            assert(self@.per_place =~= after.per_place);
            assert(self@.out =~= after.out);
            lemma_queued_update(
                before.queues,
                i as int,
                q.skip(n as int),
                before.queues.len() as int,
            );
            assert forall|a: int, b: int|
                0 <= a < after.queues.len() && 0 <= b < after.queues[a].len() implies (
            #[trigger] after.queues[a][b]).tick <= tick by {
                if a == i {
                    assert(after.queues[a][b] == q[b + n]);
                    assert(before.queues[i as int][b + n].tick <= tick);
                } else {
                    assert(before.queues[a][b].tick <= tick);
                }
            }
            assert forall|p: int| 0 <= p < after.per_place.len() implies 0
                <= #[trigger] after.per_place[p] <= after.out.cost.dispatches by {
                assert(before.per_place[p] <= before.out.cost.dispatches);
            }
        }
    }

    /// Serves all queues in order, `size` of them to a place.
    pub fn serve_all(&mut self, size: usize, timing: Timing, tick: u32, total: Ghost<int>)
        requires
            size >= 1,
            old(self)@.queues.len() == size * old(self)@.per_place.len(),
            1 <= timing.width <= 65535,
            scheduler::lanes_fit(total@, timing.width as int),
            old(self)@.is_sound(tick, total@, timing.width as int),
        ensures
            final(self)@ == old(self)@.all_served(
                old(self)@.queues.len() as int,
                size as int,
                timing,
                tick,
            ),
            final(self)@.is_sound(tick, total@, timing.width as int),
            final(self)@.queues.len() == old(self)@.queues.len(),
            final(self)@.per_place.len() == old(self)@.per_place.len(),
    {
        let ghost before = self@;
        let mut i: usize = 0;
        while i < self.queues.len()
            invariant
                i <= self.queues@.len(),
                size >= 1,
                self@.queues.len() == before.queues.len(),
                self@.per_place.len() == before.per_place.len(),
                before.queues.len() == size * before.per_place.len(),
                1 <= timing.width <= 65535,
                scheduler::lanes_fit(total@, timing.width as int),
                self@ == before.all_served(i as int, size as int, timing, tick),
                self@.is_sound(tick, total@, timing.width as int),
            decreases self.queues@.len() - i,
        {
            proof {
                let places = before.per_place.len() as int;
                assert((i as int) / (size as int) < places) by (nonlinear_arith)
                    requires
                        i < size * places,
                        size >= 1,
                ;
            }
            self.serve(i, i / size, timing, tick, total);
            i = i + 1;
        }
    }
}

/// Everything is dispatched at the last tick.
pub proof fn law_last_tick_empties_the_queues(
    state: QueuesView,
    n: int,
    size: int,
    timing: Timing,
    i: int,
)
    requires
        0 <= i < n <= state.queues.len(),
        timing.width >= 1,
    ensures
        state.all_served(n, size, timing, timing.last).queues[i].len() == 0,
    decreases n,
{
    let before = state.all_served(n - 1, size, timing, timing.last);
    lemma_served_lengths(state, n - 1, size, timing, timing.last);
    let q = before.queues[n - 1];
    let w = timing.width as int;
    assert(0 <= q.len() as int % w <= q.len()) by (nonlinear_arith)
        requires
            w >= 1,
    ;
    if i < n - 1 {
        law_last_tick_empties_the_queues(state, n - 1, size, timing, i);
    }
}

proof fn lemma_served_lengths(state: QueuesView, n: int, size: int, timing: Timing, tick: u32)
    requires
        0 <= n <= state.queues.len(),
    ensures
        state.all_served(n, size, timing, tick).queues.len() == state.queues.len(),
    decreases n,
{
    if n > 0 {
        lemma_served_lengths(state, n - 1, size, timing, tick);
    }
}

/// Items wait in the order in which they came, none of them for longer than
/// `bound` ticks.
pub open spec fn waits_within(queue: Seq<Arrival>, tick: int, bound: int) -> bool {
    &&& forall|j: int, k: int| 0 <= j < k < queue.len() ==> queue[j].tick <= queue[k].tick
    &&& forall|j: int|
        0 <= j < queue.len() ==> (#[trigger] queue[j]).tick <= tick && tick - queue[j].tick <= bound
}

/// No item that was dispatched waited for longer than `bound` ticks.
pub open spec fn waited_within(waits: Seq<u32>, bound: int) -> bool {
    forall|i: int| 0 <= i < waits.len() ==> #[trigger] waits[i] <= bound
}

/// An item that joins at its own tick goes behind those that came before it.
pub proof fn lemma_join_in_time(state: QueuesView, i: int, item: Arrival, tick: int, bound: int)
    requires
        0 <= i < state.queues.len(),
        0 <= bound,
        item.tick == tick,
        forall|q: int|
            0 <= q < state.queues.len() ==> waits_within(#[trigger] state.queues[q], tick, bound),
    ensures
        state.joined(i, item).queues.len() == state.queues.len(),
        forall|q: int|
            0 <= q < state.queues.len() ==> waits_within(
                #[trigger] state.joined(i, item).queues[q],
                tick,
                bound,
            ),
{
    let after = state.joined(i, item);
    assert forall|q: int| 0 <= q < state.queues.len() implies waits_within(
        #[trigger] after.queues[q],
        tick,
        bound,
    ) by {
        let queue = state.queues[q];
        assert(waits_within(queue, tick, bound));
        if q == i {
            let grown = after.queues[q];
            assert forall|j: int, k: int| 0 <= j < k < grown.len() implies grown[j].tick
                <= grown[k].tick by {
                assert(queue[j] == grown[j]);
                if k < queue.len() {
                    assert(queue[k] == grown[k]);
                }
            }
        }
    }
}

/// Serving a queue dispatches nothing late, and leaves nothing that the next tick
/// would find late.
proof fn lemma_serve_in_time(state: QueuesView, i: int, place: int, timing: Timing, tick: u32)
    requires
        0 <= i < state.queues.len(),
        timing.width >= 1,
        waits_within(state.queues[i], tick as int, timing.max_defer as int),
        waited_within(state.out.waits, timing.max_defer as int),
    ensures
        ({
            let after = state.served(i, place, timing, tick);
            &&& waits_within(after.queues[i], tick as int, timing.max_defer - 1)
            &&& waited_within(after.out.waits, timing.max_defer as int)
            &&& after.queues.len() == state.queues.len()
            &&& forall|j: int|
                0 <= j < state.queues.len() && j != i ==> #[trigger] after.queues[j]
                    == state.queues[j]
        }),
{
    let queue = state.queues[i];
    let n = due(queue, timing, tick);
    let w = timing.width as int;
    let full = queue.len() - queue.len() as int % w;
    assert(0 <= queue.len() as int % w <= queue.len()) by (nonlinear_arith)
        requires
            w >= 1,
    ;
    let after = state.served(i, place, timing, tick);
    let left = queue.skip(n);
    if n == 0 {
        assert(left =~= queue);
    }
    assert forall|j: int| 0 <= j < left.len() implies (#[trigger] left[j]).tick <= tick && tick
        - left[j].tick <= timing.max_defer - 1 by {
        assert(left[j] == queue[n + j]);
        assert(queue[full].tick <= queue[n + j].tick);
    }
    let gone = irregular_arrival::waits_of(queue.take(n), tick);
    assert forall|j: int| 0 <= j < gone.len() implies #[trigger] gone[j] <= timing.max_defer by {
        assert(queue.take(n)[j] == queue[j]);
        assert(tick - queue[j].tick <= timing.max_defer);
    }
}

/// The same of all queues, served in order.
pub proof fn lemma_serve_all_in_time(
    state: QueuesView,
    n: int,
    size: int,
    timing: Timing,
    tick: u32,
)
    requires
        0 <= n <= state.queues.len(),
        timing.width >= 1,
        forall|i: int|
            0 <= i < state.queues.len() ==> waits_within(
                #[trigger] state.queues[i],
                tick as int,
                timing.max_defer as int,
            ),
        waited_within(state.out.waits, timing.max_defer as int),
    ensures
        ({
            let after = state.all_served(n, size, timing, tick);
            &&& after.queues.len() == state.queues.len()
            &&& waited_within(after.out.waits, timing.max_defer as int)
            &&& forall|i: int|
                0 <= i < n ==> waits_within(
                    #[trigger] after.queues[i],
                    tick as int,
                    timing.max_defer - 1,
                )
            &&& forall|i: int|
                n <= i < state.queues.len() ==> #[trigger] after.queues[i] == state.queues[i]
        }),
    decreases n,
{
    if n > 0 {
        lemma_serve_all_in_time(state, n - 1, size, timing, tick);
        let before = state.all_served(n - 1, size, timing, tick);
        lemma_serve_in_time(before, n - 1, (n - 1) / size, timing, tick);
    }
}

} // verus!
