//! The bulk frontier baseline: a level-synchronous search that the host drives.
//!
//! It does exactly the work of the branching search and is scored by the same
//! divergence model, and it comes in a sorted variant that partitions each
//! level by run class before it is dispatched.

use crate::compiler::run_classes;
use crate::compiler::run_classes::{search_class, SEARCH_BRANCH};
use crate::compiler::state_machine_lowering;
use crate::compiler::state_machine_lowering::search_step;
use crate::experiments::dynamic_search;
use crate::experiments::dynamic_search::ControlKnobs;
use crate::experiments::policies;
use crate::experiments::policies::charge_sorted;
use crate::scheduler;
use crate::scheduler::{dispatch_cost, lane_width, CostView, DispatchCost};
use vstd::prelude::*;

verus! {

/// A completed run.
#[derive(Clone, Copy, Debug, PartialEq, Eq, Structural)]
pub struct BulkFrontierRun {
    /// Whether each frontier was partitioned by run class before dispatch.
    pub sorted: bool,
    pub width: u16,
    /// Kernel launches, one for each level.
    pub levels: u32,
    pub host_launches: u64,
    pub global_barriers: u64,
    pub nodes_expanded: u64,
    pub cost: DispatchCost,
}

impl BulkFrontierRun {
    pub fn dispatches(&self) -> (n: u64)
        ensures
            n == self.cost.dispatches,
    {
        self.cost.dispatches
    }
}

/// A node's value after its own arithmetic.
pub open spec fn worked(knobs: ControlKnobs, value: u64) -> u64 {
    let class = run_classes::class_of_value(value, knobs.class_count);
    state_machine_lowering::searched(
        value,
        knobs.arithmetic_ops as nat,
        (class - SEARCH_BRANCH) as u32,
    )
}

pub open spec fn children_of(knobs: ControlKnobs, value: u64) -> Seq<u64> {
    Seq::new(
        knobs.branching_factor as nat,
        |i: int| worked(knobs, value).wrapping_add(i as u64),
    )
}

/// The children of the first `n` nodes, in order.
pub open spec fn expanded(knobs: ControlKnobs, frontier: Seq<u64>, n: int) -> Seq<u64>
    decreases n,
{
    if n <= 0 {
        Seq::empty()
    } else {
        expanded(knobs, frontier, n - 1) + children_of(knobs, frontier[n - 1])
    }
}

/// The values of the nodes of a level.
pub open spec fn frontier_at(knobs: ControlKnobs, level: nat) -> Seq<u64>
    decreases level,
{
    if level == 0 {
        Seq::new(knobs.process_count as nat, |i: int| (i + 1) as u64)
    } else if level > knobs.depth {
        Seq::empty()
    } else {
        let above = frontier_at(knobs, (level - 1) as nat);
        expanded(knobs, above, above.len() as int)
    }
}

pub open spec fn classes_at(knobs: ControlKnobs, level: nat) -> Seq<u32> {
    Seq::new(
        frontier_at(knobs, level).len(),
        |i: int| run_classes::class_of_value(frontier_at(knobs, level)[i], knobs.class_count),
    )
}

pub open spec fn level_cost(knobs: ControlKnobs, width: u16, sorted: bool, level: nat) -> CostView {
    if sorted {
        policies::segment_cost(classes_at(knobs, level), scheduler::lanes_in(width))
    } else {
        scheduler::cost_from(classes_at(knobs, level), scheduler::lanes_in(width), 0)
    }
}

/// What the levels above `level` cost.
pub open spec fn cost_above(knobs: ControlKnobs, width: u16, sorted: bool, level: nat) -> CostView
    decreases level,
{
    if level == 0 {
        CostView::zero()
    } else {
        cost_above(knobs, width, sorted, (level - 1) as nat).plus(
            level_cost(knobs, width, sorted, (level - 1) as nat),
        )
    }
}

/// How many levels have nodes.
pub open spec fn live_levels(knobs: ControlKnobs) -> nat {
    if knobs.process_count == 0 {
        0
    } else if knobs.branching_factor == 0 {
        1
    } else {
        (knobs.depth + 1) as nat
    }
}

proof fn lemma_expanded_len(knobs: ControlKnobs, frontier: Seq<u64>, n: int)
    requires
        0 <= n,
    ensures
        expanded(knobs, frontier, n).len() == n * knobs.branching_factor,
    decreases n,
{
    let b = knobs.branching_factor as int;
    if n > 0 {
        lemma_expanded_len(knobs, frontier, n - 1);
        assert((n - 1) * b + b == n * b) by (nonlinear_arith);
    } else {
        assert(0 * b == 0);
    }
}

/// A level of the search has as many nodes as its trees have there.
pub proof fn law_level_sizes(knobs: ControlKnobs, level: nat)
    requires
        level <= knobs.depth,
    ensures
        frontier_at(knobs, level).len() == knobs.process_count * dynamic_search::level_size(
            knobs.branching_factor as nat,
            level,
        ),
    decreases level,
{
    let p = knobs.process_count as int;
    let b = knobs.branching_factor as int;
    if level > 0 {
        law_level_sizes(knobs, (level - 1) as nat);
        let above = frontier_at(knobs, (level - 1) as nat);
        lemma_expanded_len(knobs, above, above.len() as int);
        let size = dynamic_search::level_size(b as nat, (level - 1) as nat) as int;
        assert((p * size) * b == p * (size * b)) by (nonlinear_arith);
    } else {
        assert(p * 1 == p);
    }
}

proof fn lemma_live(knobs: ControlKnobs, level: nat)
    requires
        level <= knobs.depth + 1,
    ensures
        level < live_levels(knobs) ==> frontier_at(knobs, level).len() > 0,
        level == live_levels(knobs) ==> frontier_at(knobs, level).len() == 0,
{
    if level <= knobs.depth {
        law_level_sizes(knobs, level);
        let p = knobs.process_count as int;
        let size = dynamic_search::level_size(knobs.branching_factor as nat, level) as int;
        lemma_level_size(knobs.branching_factor as nat, level);
        if p == 0 {
            assert(p * size == 0) by (nonlinear_arith)
                requires
                    p == 0,
            ;
        } else if size > 0 {
            assert(p * size > 0) by (nonlinear_arith)
                requires
                    p > 0,
                    size > 0,
            ;
        } else {
            assert(p * size == 0) by (nonlinear_arith)
                requires
                    size == 0,
            ;
        }
    }
}

proof fn lemma_level_size(b: nat, level: nat)
    ensures
        b > 0 ==> dynamic_search::level_size(b, level) > 0,
        b == 0 && level > 0 ==> dynamic_search::level_size(b, level) == 0,
    decreases level,
{
    if level > 0 {
        lemma_level_size(b, (level - 1) as nat);
        let size = dynamic_search::level_size(b, (level - 1) as nat);
        if b > 0 {
            assert(size * b > 0) by (nonlinear_arith)
                requires
                    size > 0,
                    b > 0,
            ;
        } else {
            assert(size * b == 0) by (nonlinear_arith)
                requires
                    b == 0,
            ;
        }
    }
}

/// The nodes above a level.
pub open spec fn nodes_above(knobs: ControlKnobs, level: nat) -> nat
    decreases level,
{
    if level == 0 {
        0
    } else {
        nodes_above(knobs, (level - 1) as nat) + frontier_at(knobs, (level - 1) as nat).len()
    }
}

proof fn lemma_nodes(knobs: ControlKnobs, level: nat)
    requires
        level <= knobs.depth + 1,
    ensures
        nodes_above(knobs, level) == knobs.process_count * dynamic_search::nodes_above(
            knobs.branching_factor as nat,
            level,
        ),
        nodes_above(knobs, level) <= dynamic_search::search_size(knobs),
    decreases level,
{
    let p = knobs.process_count as int;
    let b = knobs.branching_factor as nat;
    let now = dynamic_search::nodes_above(b, level) as int;
    if level > 0 {
        lemma_nodes(knobs, (level - 1) as nat);
        law_level_sizes(knobs, (level - 1) as nat);
        let x = dynamic_search::nodes_above(b, (level - 1) as nat) as int;
        let y = dynamic_search::level_size(b, (level - 1) as nat) as int;
        assert(p * x + p * y == p * (x + y)) by (nonlinear_arith);
    } else {
        assert(p * 0 == 0);
    }
    dynamic_search::lemma_nodes_grow(b, level, (knobs.depth + 1) as nat);
    let whole = dynamic_search::tree_size(knobs) as int;
    assert(p * now <= p * whole) by (nonlinear_arith)
        requires
            0 <= p,
            now <= whole,
    ;
}

/// The baseline visits exactly the nodes that the search has.
pub proof fn law_the_frontier_visits_every_node(knobs: ControlKnobs)
    ensures
        nodes_above(knobs, live_levels(knobs)) == dynamic_search::search_size(knobs),
{
    lemma_nodes(knobs, (knobs.depth + 1) as nat);
    lemma_rest_is_empty(knobs, (knobs.depth + 1) as nat);
}

proof fn lemma_rest_is_empty(knobs: ControlKnobs, level: nat)
    requires
        live_levels(knobs) <= level <= knobs.depth + 1,
    ensures
        nodes_above(knobs, level) == nodes_above(knobs, live_levels(knobs)),
    decreases level,
{
    if level > live_levels(knobs) {
        lemma_rest_is_empty(knobs, (level - 1) as nat);
        law_level_sizes(knobs, (level - 1) as nat);
        lemma_level_size(knobs.branching_factor as nat, (level - 1) as nat);
        let p = knobs.process_count as int;
        let size = dynamic_search::level_size(
            knobs.branching_factor as nat,
            (level - 1) as nat,
        ) as int;
        assert(p == 0 || size == 0);
        assert(p * size == 0) by (nonlinear_arith)
            requires
                p == 0 || size == 0,
        ;
    }
}

fn classes_of(knobs: &ControlKnobs, frontier: &Vec<u64>, level: Ghost<nat>) -> (classes: Vec<u32>)
    requires
        frontier@ == frontier_at(*knobs, level@),
    ensures
        classes@ == classes_at(*knobs, level@),
{
    let mut classes: Vec<u32> = Vec::new();
    let mut i: usize = 0;
    while i < frontier.len()
        invariant
            i <= frontier.len(),
            classes@.len() == i,
            forall|j: int|
                0 <= j < i ==> #[trigger] classes@[j] == run_classes::class_of_value(
                    frontier@[j],
                    knobs.class_count,
                ),
        decreases frontier.len() - i,
    {
        classes.push(search_class(frontier[i], knobs.class_count));
        i = i + 1;
    }
    assert(classes@ =~= classes_at(*knobs, level@));
    classes
}

fn expand(knobs: &ControlKnobs, frontier: &Vec<u64>) -> (next: Vec<u64>)
    ensures
        next@ == expanded(*knobs, frontier@, frontier@.len() as int),
{
    let mut next: Vec<u64> = Vec::new();
    let mut n: usize = 0;
    while n < frontier.len()
        invariant
            n <= frontier.len(),
            next@ == expanded(*knobs, frontier@, n as int),
        decreases frontier.len() - n,
    {
        let value: u64 = frontier[n];
        let index: u32 = search_class(value, knobs.class_count) - SEARCH_BRANCH;
        let after: u64 = search_step(value, knobs.arithmetic_ops, index);
        assert(after == worked(*knobs, value));
        let ghost before = next@;
        let mut i: u32 = 0;
        assert(before =~= before + children_of(*knobs, value).take(0));
        while i < knobs.branching_factor
            invariant
                i <= knobs.branching_factor,
                after == worked(*knobs, value),
                next@ == before + children_of(*knobs, value).take(i as int),
            decreases knobs.branching_factor - i,
        {
            next.push(after.wrapping_add(i as u64));
            assert(next@ =~= before + children_of(*knobs, value).take(i + 1));
            i = i + 1;
        }
        assert(children_of(*knobs, value).take(i as int) =~= children_of(*knobs, value));
        n = n + 1;
    }
    next
}

fn roots(count: u32) -> (frontier: Vec<u64>)
    ensures
        frontier@ == Seq::new(count as nat, |i: int| (i + 1) as u64),
{
    let mut frontier: Vec<u64> = Vec::new();
    let mut i: u32 = 0;
    while i < count
        invariant
            i <= count,
            frontier@ =~= Seq::new(i as nat, |j: int| (j + 1) as u64),
        decreases count - i,
    {
        frontier.push(i as u64 + 1);
        i = i + 1;
    }
    frontier
}

/// Runs the level-synchronous search over the same trees. `sorted` partitions
/// each level by run class, and is paid for with a sort on the host.
pub fn run(knobs: &ControlKnobs, width: u16, sorted: bool) -> (out: BulkFrontierRun)
    requires
        scheduler::lanes_fit(dynamic_search::search_size(*knobs) as int, scheduler::lanes_in(width)),
        live_levels(*knobs) <= u32::MAX,
    ensures
        out.sorted == sorted,
        out.width == width,
        out.levels == live_levels(*knobs),
        out.host_launches == out.levels,
        out.global_barriers == out.levels,
        out.nodes_expanded == dynamic_search::search_size(*knobs),
        out.cost@ == cost_above(*knobs, width, sorted, live_levels(*knobs)),
{
    let mut frontier: Vec<u64> = roots(knobs.process_count);
    let mut out = BulkFrontierRun {
        sorted,
        width,
        levels: 0,
        host_launches: 0,
        global_barriers: 0,
        nodes_expanded: 0,
        cost: DispatchCost {
            dispatches: 0,
            lane_slots: 0,
            useful_lane_slots: 0,
            full_dispatches: 0,
        },
    };
    let w: usize = lane_width(width);
    assert(out.cost@ =~= CostView::zero());
    proof {
        lemma_live(*knobs, 0);
    }
    while frontier.len() > 0
        invariant
            scheduler::lanes_fit(dynamic_search::search_size(*knobs) as int, w as int),
            live_levels(*knobs) <= u32::MAX,
            w == scheduler::lanes_in(width),
            1 <= w <= 65535,
            out.levels <= live_levels(*knobs),
            frontier@.len() > 0 <==> out.levels < live_levels(*knobs),
            frontier@ == frontier_at(*knobs, out.levels as nat),
            out.sorted == sorted,
            out.width == width,
            out.host_launches == out.levels,
            out.global_barriers == out.levels,
            out.nodes_expanded == nodes_above(*knobs, out.levels as nat),
            out.cost@ == cost_above(*knobs, width, sorted, out.levels as nat),
            out.cost@.within(out.nodes_expanded as int, w as int),
        decreases live_levels(*knobs) - out.levels,
    {
        let ghost level = out.levels as nat;
        let classes: Vec<u32> = classes_of(knobs, &frontier, Ghost(level));
        proof {
            lemma_nodes(*knobs, level + 1);
            scheduler::lemma_fewer_lanes_fit(
                dynamic_search::search_size(*knobs) as int,
                w as int,
                out.nodes_expanded + classes@.len(),
            );
            scheduler::lemma_fewer_lanes_fit(
                dynamic_search::search_size(*knobs) as int,
                w as int,
                classes@.len() as int,
            );
        }
        let ghost before = out.cost@;
        if sorted {
            charge_sorted(&mut out.cost, &classes, w, out.nodes_expanded);
        } else {
            let cost: DispatchCost = dispatch_cost(&classes, width);
            proof {
                let d = out.cost.dispatches as int;
                let e = cost.dispatches as int;
                let n = out.nodes_expanded as int;
                let m = classes@.len() as int;
                assert(d * w + e * w == (d + e) * w) by (nonlinear_arith);
                scheduler::lemma_fewer_lanes_fit(n + m, w as int, d + e);
            }
            out.cost = DispatchCost {
                dispatches: out.cost.dispatches + cost.dispatches,
                lane_slots: out.cost.lane_slots + cost.lane_slots,
                useful_lane_slots: out.cost.useful_lane_slots + cost.useful_lane_slots,
                full_dispatches: out.cost.full_dispatches + cost.full_dispatches,
            };
            assert(out.cost@ =~= before.plus(cost@));
        }
        out.nodes_expanded = out.nodes_expanded + frontier.len() as u64;
        let next: Vec<u64> = if level_is_last(knobs, out.levels) {
            Vec::new()
        } else {
            expand(knobs, &frontier)
        };
        frontier = next;
        proof {
            assert(level <= knobs.depth);
            lemma_live(*knobs, level + 1);
            assert(frontier@ =~= frontier_at(*knobs, level + 1));
        }
        out.levels = out.levels + 1;
        out.host_launches = out.host_launches + 1;
        out.global_barriers = out.global_barriers + 1;
    }
    proof {
        law_the_frontier_visits_every_node(*knobs);
    }
    out
}

/// Nodes at the last level have no children.
fn level_is_last(knobs: &ControlKnobs, level: u32) -> (last: bool)
    ensures
        last == (level >= knobs.depth),
{
    level >= knobs.depth
}

/// The sorted variant of a run never needs more dispatches than the unsorted one
/// over the same levels.
pub proof fn law_a_sorted_frontier_costs_no_more(knobs: ControlKnobs, width: u16, level: nat)
    ensures
        cost_above(knobs, width, true, level).dispatches <= cost_above(
            knobs,
            width,
            false,
            level,
        ).dispatches,
    decreases level,
{
    if level > 0 {
        law_a_sorted_frontier_costs_no_more(knobs, width, (level - 1) as nat);
        policies::law_sorting_never_costs_a_dispatch(
            classes_at(knobs, (level - 1) as nat),
            scheduler::lanes_in(width),
        );
    }
}

/// Every node takes one useful lane slot, sorted or not.
pub proof fn law_every_node_takes_one_lane(knobs: ControlKnobs, width: u16, sorted: bool, level: nat)
    ensures
        cost_above(knobs, width, sorted, level).useful == nodes_above(knobs, level),
    decreases level,
{
    if level > 0 {
        law_every_node_takes_one_lane(knobs, width, sorted, (level - 1) as nat);
        let classes = classes_at(knobs, (level - 1) as nat);
        let w = scheduler::lanes_in(width);
        if sorted {
            policies::lemma_segment_is_useful(classes, w);
        } else {
            scheduler::law_useful_slots_are_the_lanes(classes, w, 0);
        }
    }
}

} // verus!
