//! Work that arrives irregularly, and two ways to group it.
//!
//! One policy keeps a queue for each class and dispatches a full group as soon
//! as it has one, or a partial one once its oldest item has waited long enough.
//! The other collects everything for a window and dispatches it sorted.

use crate::compiler::run_classes;
use crate::compiler::run_classes::{search_class, SEARCH_BRANCH};
use crate::compiler::state_machine_lowering;
use crate::compiler::state_machine_lowering::search_step;
use crate::samples;
use crate::scheduler;
use crate::scheduler::{distinct_classes, CostView, DispatchCost};
pub use crate::experiments::policies::{bulk_policy, soma_policy};
use vstd::prelude::*;

verus! {

/// One item of work and the tick at which it becomes ready.
#[derive(Clone, Copy, Debug, PartialEq, Eq, Structural)]
pub struct Arrival {
    pub tick: u32,
    pub run_class: u32,
    pub id: u64,
    /// The item that this one came from.
    pub parent: Option<u64>,
}

#[derive(Debug)]
pub struct ArrivalTrace {
    pub events: Vec<Arrival>,
}

pub open spec fn classes_of(events: Seq<Arrival>) -> Seq<u32> {
    Seq::new(events.len(), |i: int| events[i].run_class)
}

/// The distinct classes of a trace, in increasing order.
pub open spec fn class_list(events: Seq<Arrival>) -> Seq<u32> {
    scheduler::distinct(classes_of(events), events.len() as int)
}

pub open spec fn horizon_of(events: Seq<Arrival>) -> u32 {
    if events.len() == 0 {
        0
    } else {
        events.last().tick
    }
}

impl ArrivalTrace {
    pub fn len(&self) -> (n: usize)
        ensures
            n == self.events@.len(),
    {
        self.events.len()
    }

    pub fn is_empty(&self) -> (empty: bool)
        ensures
            empty == (self.events@.len() == 0),
    {
        self.events.len() == 0
    }

    /// The tick of the last event.
    pub fn horizon(&self) -> (tick: u32)
        ensures
            tick == horizon_of(self.events@),
    {
        if self.events.len() == 0 {
            0
        } else {
            self.events[self.events.len() - 1].tick
        }
    }

    pub fn classes(&self) -> (list: Vec<u32>)
        ensures
            list@ == class_list(self.events@),
            scheduler::is_increasing(list@),
    {
        let mut values: Vec<u32> = Vec::new();
        let mut i: usize = 0;
        while i < self.events.len()
            invariant
                i <= self.events.len(),
                values@ =~= classes_of(self.events@).take(i as int),
            decreases self.events.len() - i,
        {
            values.push(self.events[i].run_class);
            i = i + 1;
        }
        assert(values@ =~= classes_of(self.events@));
        distinct_classes(&values)
    }

    pub fn distinct_classes(&self) -> (n: usize)
        ensures
            n == class_list(self.events@).len(),
    {
        self.classes().len()
    }
}

#[derive(Clone, Copy, Debug)]
pub struct IrregularKnobs {
    pub roots: u32,
    pub arrival_span: u32,
    pub depth: u32,
    pub branching_factor: u32,
    pub class_count: u32,
    pub jitter: u32,
    pub arithmetic_ops: u32,
}

impl Default for IrregularKnobs {
    fn default() -> (knobs: Self)
        ensures
            knobs == (IrregularKnobs {
                roots: 8,
                arrival_span: 12,
                depth: 4,
                branching_factor: 3,
                class_count: 4,
                jitter: 3,
                arithmetic_ops: 16,
            }),
    {
        IrregularKnobs {
            roots: 8,
            arrival_span: 12,
            depth: 4,
            branching_factor: 3,
            class_count: 4,
            jitter: 3,
            arithmetic_ops: 16,
        }
    }
}

// ---- the trace -------------------------------------------------------------

/// A node of the search before it is given a number.
#[verifier::ext_equal]
pub ghost struct NodeView {
    pub value: u64,
    pub tick: int,
    pub parent: Option<int>,
}

struct Node {
    value: u64,
    tick: u32,
    parent: Option<u64>,
}

impl Node {
    spec fn view(&self) -> NodeView {
        NodeView {
            value: self.value,
            tick: self.tick as int,
            parent: match self.parent {
                Some(p) => Some(p as int),
                None => None,
            },
        }
    }
}

pub open spec fn root_tick(knobs: IrregularKnobs, root: int) -> int {
    if knobs.roots <= 1 {
        0
    } else {
        (root * knobs.arrival_span) / (knobs.roots as int)
    }
}

pub open spec fn roots_of(knobs: IrregularKnobs) -> Seq<NodeView> {
    Seq::new(
        knobs.roots as nat,
        |root: int|
            NodeView { value: (root + 1) as u64, tick: root_tick(knobs, root), parent: None },
    )
}

pub open spec fn class_of(knobs: IrregularKnobs, value: u64) -> u32 {
    run_classes::class_of_value(value, knobs.class_count)
}

/// Child `i` of a node that is number `id`: ready one tick later, and up to
/// `jitter` more by its value.
pub open spec fn child_of(knobs: IrregularKnobs, node: NodeView, id: int, i: int) -> NodeView {
    let stepped = state_machine_lowering::searched(
        node.value,
        knobs.arithmetic_ops as nat,
        (class_of(knobs, node.value) - SEARCH_BRANCH) as u32,
    );
    let value = stepped.wrapping_add(i as u64);
    NodeView {
        value,
        tick: node.tick + 1 + value as int % (knobs.jitter + 1),
        parent: Some(id),
    }
}

pub open spec fn children_of(knobs: IrregularKnobs, node: NodeView, id: int) -> Seq<NodeView> {
    Seq::new(knobs.branching_factor as nat, |i: int| child_of(knobs, node, id, i))
}

/// The children of the first `n` nodes of a level whose first is number
/// `first`.
pub open spec fn next_level(knobs: IrregularKnobs, level: Seq<NodeView>, first: int, n: int) -> Seq<
    NodeView,
>
    decreases n,
{
    if n <= 0 {
        Seq::empty()
    } else {
        next_level(knobs, level, first, n - 1) + children_of(knobs, level[n - 1], first + n - 1)
    }
}

/// Level `d` of the search, and the number of its first node.
pub open spec fn level_at(knobs: IrregularKnobs, d: nat) -> (Seq<NodeView>, int)
    decreases d,
{
    if d == 0 {
        (roots_of(knobs), 0)
    } else {
        let (level, first) = level_at(knobs, (d - 1) as nat);
        (next_level(knobs, level, first, level.len() as int), first + level.len())
    }
}

/// The arrival of a node as number `id`.
pub open spec fn arrival_of(knobs: IrregularKnobs, node: NodeView, id: int) -> Arrival {
    Arrival {
        tick: node.tick as u32,
        run_class: class_of(knobs, node.value),
        id: id as u64,
        parent: match node.parent {
            Some(p) => Some(p as u64),
            None => None,
        },
    }
}

pub open spec fn arrivals_of_level(knobs: IrregularKnobs, level: Seq<NodeView>, first: int) -> Seq<
    Arrival,
> {
    Seq::new(level.len(), |i: int| arrival_of(knobs, level[i], first + i))
}

/// The arrivals of the levels above `d`, in the order they are numbered.
pub open spec fn arrivals_above(knobs: IrregularKnobs, d: nat) -> Seq<Arrival>
    decreases d,
{
    if d == 0 {
        Seq::empty()
    } else {
        let (level, first) = level_at(knobs, (d - 1) as nat);
        arrivals_above(knobs, (d - 1) as nat) + arrivals_of_level(knobs, level, first)
    }
}

pub open spec fn comes_before(a: Arrival, b: Arrival) -> bool {
    a.tick < b.tick || (a.tick == b.tick && a.id <= b.id)
}

/// Arrivals by tick, those of one tick by number.
pub open spec fn is_in_time(events: Seq<Arrival>) -> bool {
    forall|i: int, j: int|
        0 <= i < j < events.len() ==> comes_before(#[trigger] events[i], #[trigger] events[j])
}

/// Ticks of these nodes fit in 32 bits.
pub open spec fn all_fit(level: Seq<NodeView>) -> bool {
    forall|i: int| 0 <= i < level.len() ==> (#[trigger] level[i]).tick <= u32::MAX
}

/// Ticks of the whole search do.
pub open spec fn ticks_fit(knobs: IrregularKnobs) -> bool {
    forall|d: nat| d <= knobs.depth ==> all_fit((#[trigger] level_at(knobs, d)).0)
}

spec fn node_views(nodes: Seq<Node>) -> Seq<NodeView> {
    Seq::new(nodes.len(), |i: int| nodes[i].view())
}

fn number_level(knobs: &IrregularKnobs, level: &Vec<Node>, events: &mut Vec<Arrival>)
    requires
        old(events)@.len() + level@.len() <= u64::MAX,
    ensures
        final(events)@ == old(events)@ + arrivals_of_level(
            *knobs,
            node_views(level@),
            old(events)@.len() as int,
        ),
{
    let ghost before = events@;
    let ghost views = node_views(level@);
    let mut i: usize = 0;
    assert(before + arrivals_of_level(*knobs, views, before.len() as int).take(0) =~= before);
    while i < level.len()
        invariant
            i <= level.len(),
            views == node_views(level@),
            before.len() + level@.len() <= u64::MAX,
            events@ =~= before + arrivals_of_level(*knobs, views, before.len() as int).take(
                i as int,
            ),
        decreases level.len() - i,
    {
        let ghost at = events@.len();
        events.push(
            Arrival {
                tick: level[i].tick,
                run_class: search_class(level[i].value, knobs.class_count),
                id: events.len() as u64,
                parent: level[i].parent,
            },
        );
        assert(events@[at as int] == arrival_of(*knobs, views[i as int], before.len() + i));
        i = i + 1;
    }
    assert(arrivals_of_level(*knobs, views, before.len() as int).take(i as int)
        =~= arrivals_of_level(*knobs, views, before.len() as int));
}

proof fn lemma_level_grows(knobs: IrregularKnobs, level: Seq<NodeView>, first: int, n: int, m: int)
    requires
        0 <= n <= m,
    ensures
        next_level(knobs, level, first, n).len() <= next_level(knobs, level, first, m).len(),
        forall|i: int|
            0 <= i < next_level(knobs, level, first, n).len() ==> #[trigger] next_level(
                knobs,
                level,
                first,
                n,
            )[i] == next_level(knobs, level, first, m)[i],
    decreases m - n,
{
    if n < m {
        lemma_level_grows(knobs, level, first, n, m - 1);
    }
}

/// The children of a level, or none where a tick does not fit.
fn expand_level(knobs: &IrregularKnobs, level: &Vec<Node>, first: u64) -> (next: Option<Vec<Node>>)
    requires
        first + level@.len() <= u64::MAX,
    ensures
        ({
            let children = next_level(
                *knobs,
                node_views(level@),
                first as int,
                level@.len() as int,
            );
            match next {
                Some(next) => node_views(next@) == children,
                None => !all_fit(children),
            }
        }),
{
    let ghost views = node_views(level@);
    let mut next: Vec<Node> = Vec::new();
    let mut n: usize = 0;
    assert(node_views(next@) =~= Seq::<NodeView>::empty());
    while n < level.len()
        invariant
            n <= level.len(),
            views == node_views(level@),
            first + level@.len() <= u64::MAX,
            node_views(next@) == next_level(*knobs, views, first as int, n as int),
        decreases level.len() - n,
    {
        let value: u64 = level[n].value;
        let tick: u32 = level[n].tick;
        let run_class: u32 = search_class(value, knobs.class_count);
        let stepped: u64 = search_step(value, knobs.arithmetic_ops, run_class - SEARCH_BRANCH);
        let ghost id = first + n;
        let ghost held = node_views(next@);
        let ghost children = children_of(*knobs, views[n as int], id);
        let mut i: u32 = 0;
        assert(held + children.take(0) =~= held);
        while i < knobs.branching_factor
            invariant
                n < level.len(),
                i <= knobs.branching_factor,
                id == first + n,
                id <= u64::MAX,
                views == node_views(level@),
                held == next_level(*knobs, views, first as int, n as int),
                views[n as int] == (NodeView {
                    value,
                    tick: tick as int,
                    parent: views[n as int].parent,
                }),
                stepped == state_machine_lowering::searched(
                    value,
                    knobs.arithmetic_ops as nat,
                    (class_of(*knobs, value) - SEARCH_BRANCH) as u32,
                ),
                children == children_of(*knobs, views[n as int], id),
                node_views(next@) =~= held + children.take(i as int),
            decreases knobs.branching_factor - i,
        {
            let child: u64 = stepped.wrapping_add(i as u64);
            let late: u64 = child % (knobs.jitter as u64 + 1);
            let ready: u64 = tick as u64 + 1 + late;
            if ready > u32::MAX as u64 {
                proof {
                    let whole = next_level(*knobs, views, first as int, n + 1);
                    let at = held.len() + i;
                    assert(whole[at] == children[i as int]);
                    lemma_level_grows(*knobs, views, first as int, n + 1, level@.len() as int);
                    let all = next_level(*knobs, views, first as int, level@.len() as int);
                    assert(all[at].tick == ready);
                }
                return None;
            }
            let made = Node {
                value: child,
                tick: ready as u32,
                parent: Some(first + n as u64),
            };
            assert(made.view() =~= children[i as int]);
            let ghost before = node_views(next@);
            next.push(made);
            assert(node_views(next@) =~= before.push(made.view()));
            i = i + 1;
        }
        assert(children.take(i as int) =~= children);
        n = n + 1;
    }
    Some(next)
}

fn sort_by_time(events: &Vec<Arrival>) -> (sorted: Vec<Arrival>)
    ensures
        is_in_time(sorted@),
        sorted@.to_multiset() == events@.to_multiset(),
{
    let mut sorted: Vec<Arrival> = Vec::new();
    let mut i: usize = 0;
    assert(events@.take(0) =~= sorted@);
    while i < events.len()
        invariant
            i <= events.len(),
            sorted@.len() == i,
            is_in_time(sorted@),
            sorted@.to_multiset() == events@.take(i as int).to_multiset(),
        decreases events.len() - i,
    {
        let event: Arrival = events[i];
        let ghost before = sorted@;
        let mut at: usize = sorted.len();
        while at > 0 && (event.tick < sorted[at - 1].tick || (event.tick == sorted[at - 1].tick
            && event.id < sorted[at - 1].id))
            invariant
                at <= sorted@.len(),
                sorted@ == before,
                forall|j: int| at <= j < before.len() ==> comes_before(event, #[trigger] before[j]),
            decreases at,
        {
            at = at - 1;
        }
        proof {
            assert forall|j: int| 0 <= j < at implies comes_before(#[trigger] before[j], event) by {
                if j < at - 1 {
                    assert(comes_before(before[j], before[at - 1]));
                }
            }
        }
        sorted.insert(at, event);
        proof {
            vstd::seq_lib::to_multiset_insert(before, at as int, event);
            assert(events@.take(i + 1) =~= events@.take(i as int).push(event));
            vstd::seq_lib::to_multiset_build(events@.take(i as int), event);
            assert(sorted@ =~= before.insert(at as int, event));
            assert forall|a: int, b: int| 0 <= a < b < sorted@.len() implies comes_before(
                #[trigger] sorted@[a],
                #[trigger] sorted@[b],
            ) by {
                let x = if a < at {
                    a
                } else {
                    a - 1
                };
                let y = if b < at {
                    b
                } else {
                    b - 1
                };
                if a != at && b != at {
                    assert(comes_before(before[x], before[y]));
                }
            }
        }
        i = i + 1;
    }
    assert(events@.take(i as int) =~= events@);
    sorted
}

/// The trace of a workload, or none where its ticks do not fit in 32 bits or its
/// nodes cannot be numbered.
pub fn checked_trace(knobs: &IrregularKnobs) -> (made: Option<ArrivalTrace>)
    ensures
        made is Some <==> ticks_fit(*knobs) && arrivals_above(
            *knobs,
            (knobs.depth + 1) as nat,
        ).len() <= u64::MAX,
        made matches Some(made) ==> {
            &&& is_in_time(made.events@)
            &&& made.events@.to_multiset() == arrivals_above(
                *knobs,
                (knobs.depth + 1) as nat,
            ).to_multiset()
        },
{
    let mut level: Vec<Node> = Vec::new();
    let mut root: u32 = 0;
    while root < knobs.roots
        invariant
            root <= knobs.roots,
            node_views(level@) =~= roots_of(*knobs).take(root as int),
        decreases knobs.roots - root,
    {
        let tick: u32 = if knobs.roots <= 1 {
            0
        } else {
            proof {
                assert(root * knobs.arrival_span <= 0xffff_ffff * 0xffff_ffff) by (nonlinear_arith)
                    requires
                        root <= 0xffff_ffff,
                        knobs.arrival_span <= 0xffff_ffff,
                ;
                let (r, s, n) = (root as int, knobs.arrival_span as int, knobs.roots as int);
                assert((r * s) / n <= s && 0 <= (r * s) / n) by (nonlinear_arith)
                    requires
                        0 <= r < n,
                        0 <= s,
                ;
            }
            ((root as u64 * knobs.arrival_span as u64) / knobs.roots as u64) as u32
        };
        let ghost before = node_views(level@);
        let made = Node { value: root as u64 + 1, tick, parent: None };
        level.push(made);
        assert(node_views(level@) =~= before.push(made.view()));
        root = root + 1;
    }
    assert(node_views(level@) =~= roots_of(*knobs));
    let mut events: Vec<Arrival> = Vec::new();
    let mut d: u32 = 0;
    loop
        invariant_except_break
            d <= knobs.depth,
            level_at(*knobs, d as nat) == (node_views(level@), events@.len() as int),
            events@ == arrivals_above(*knobs, d as nat),
            forall|e: nat| e < d ==> all_fit((#[trigger] level_at(*knobs, e)).0),
        ensures
            events@ == arrivals_above(*knobs, (knobs.depth + 1) as nat),
            events@.len() <= u64::MAX,
            ticks_fit(*knobs),
        decreases knobs.depth - d,
    {
        let first: u64 = events.len() as u64;
        proof {
            lemma_arrivals_grow(*knobs, (d + 1) as nat, (knobs.depth + 1) as nat);
            assert forall|i: int| 0 <= i < node_views(level@).len() implies (
            #[trigger] node_views(level@)[i]).tick <= u32::MAX by {}
            assert(all_fit(level_at(*knobs, d as nat).0));
        }
        if first.checked_add(level.len() as u64).is_none() {
            return None;
        }
        number_level(knobs, &level, &mut events);
        if d == knobs.depth {
            break;
        }
        level = match expand_level(knobs, &level, first) {
            Some(next) => next,
            None => {
                assert(!all_fit(level_at(*knobs, (d + 1) as nat).0));
                return None;
            },
        };
        d = d + 1;
    }
    Some(ArrivalTrace { events: sort_by_time(&events) })
}

/// An irregular workload: search trees whose roots are spread over a span and
/// whose nodes become ready a jittered time after their parents.
pub fn trace(knobs: &IrregularKnobs) -> (made: ArrivalTrace)
    requires
        ticks_fit(*knobs),
        arrivals_above(*knobs, (knobs.depth + 1) as nat).len() <= u64::MAX,
    ensures
        is_in_time(made.events@),
        made.events@.to_multiset() == arrivals_above(
            *knobs,
            (knobs.depth + 1) as nat,
        ).to_multiset(),
{
    checked_trace(knobs).unwrap()
}

proof fn lemma_arrivals_grow(knobs: IrregularKnobs, a: nat, b: nat)
    requires
        a <= b,
    ensures
        arrivals_above(knobs, a).len() <= arrivals_above(knobs, b).len(),
    decreases b - a,
{
    if a < b {
        lemma_arrivals_grow(knobs, a, (b - 1) as nat);
    }
}

// ---- outcomes --------------------------------------------------------------

/// What a policy did with a trace.
#[derive(Debug)]
pub struct PolicyOutcome {
    pub cost: DispatchCost,
    pub host_launches: u64,
    /// How long each item waited, in the order in which items were dispatched.
    pub waits: Vec<u32>,
    pub makespan: u32,
}

#[verifier::ext_equal]
pub ghost struct OutcomeView {
    pub cost: CostView,
    pub host_launches: int,
    pub waits: Seq<u32>,
    pub makespan: u32,
}

impl View for PolicyOutcome {
    type V = OutcomeView;

    open spec fn view(&self) -> OutcomeView {
        OutcomeView {
            cost: self.cost@,
            host_launches: self.host_launches as int,
            waits: self.waits@,
            makespan: self.makespan,
        }
    }
}

pub open spec fn longer(a: u32, b: u32) -> u32 {
    if a < b {
        b
    } else {
        a
    }
}

pub open spec fn waits_of(items: Seq<Arrival>, tick: u32) -> Seq<u32> {
    Seq::new(items.len(), |i: int| (tick - items[i].tick) as u32)
}

impl OutcomeView {
    pub open spec fn blank() -> OutcomeView {
        OutcomeView {
            cost: CostView::zero(),
            host_launches: 0,
            waits: Seq::empty(),
            makespan: 0,
        }
    }

    /// The outcome with `items` of one class dispatched at `tick`.
    pub open spec fn dispatched(self, items: Seq<Arrival>, width: int, tick: u32) -> OutcomeView {
        OutcomeView {
            cost: self.cost.plus(scheduler::uniform_cost(items.len() as int, width)),
            waits: self.waits + waits_of(items, tick),
            makespan: longer(self.makespan, tick),
            ..self
        }
    }
}

fn wide_waits(waits: &Vec<u32>) -> (wide: Vec<u64>)
    ensures
        wide@ == Seq::new(waits@.len(), |i: int| waits@[i] as u64),
{
    let mut wide: Vec<u64> = Vec::new();
    let mut i: usize = 0;
    while i < waits.len()
        invariant
            i <= waits.len(),
            wide@ =~= Seq::new(i as nat, |j: int| waits@[j] as u64),
        decreases waits.len() - i,
    {
        wide.push(waits[i] as u64);
        i = i + 1;
    }
    wide
}

/// The wait at a percentage.
pub open spec fn wait_at(waits: Seq<u32>, percent: int) -> u64 {
    samples::percentile_of(Seq::new(waits.len(), |i: int| waits[i] as u64), percent)
}

pub proof fn lemma_wait_fits(waits: Seq<u32>, percent: int)
    requires
        0 <= percent <= 100,
    ensures
        wait_at(waits, percent) <= u32::MAX,
{
    let wide = Seq::new(waits.len(), |i: int| waits[i] as u64);
    if waits.len() > 0 {
        samples::law_percentiles_are_samples_in_order(wide, percent, percent);
        let i = choose|i: int| 0 <= i < wide.len() && wide[i] == wait_at(waits, percent);
        assert(wide[i] == waits[i]);
    }
}

pub fn wait_percentile(waits: &Vec<u32>, percent: u8) -> (wait: u32)
    requires
        percent <= 100,
        waits@.len() <= 0xffff_ffff_ffff,
    ensures
        wait == wait_at(waits@, percent as int),
{
    let wide: Vec<u64> = wide_waits(waits);
    proof {
        lemma_wait_fits(waits@, percent as int);
    }
    samples::percentile(&wide, percent) as u32
}

impl PolicyOutcome {
    pub fn dispatches(&self) -> (n: u64)
        ensures
            n == self.cost.dispatches,
    {
        self.cost.dispatches
    }

    pub fn items(&self) -> (n: usize)
        ensures
            n == self.waits@.len(),
    {
        self.waits.len()
    }

    pub fn p50_wait(&self) -> (wait: u32)
        requires
            self.waits@.len() <= 0xffff_ffff_ffff,
        ensures
            wait == wait_at(self.waits@, 50),
    {
        wait_percentile(&self.waits, 50)
    }

    pub fn p99_wait(&self) -> (wait: u32)
        requires
            self.waits@.len() <= 0xffff_ffff_ffff,
        ensures
            wait == wait_at(self.waits@, 99),
    {
        wait_percentile(&self.waits, 99)
    }
}

} // verus!
