//! What a discovery trace says, event by event.

use crate::bytes;
use crate::compiler::body;
use crate::compiler::body::{ArraysView, Op};
use crate::discovery::{EventView, NodeView};
use crate::experiments::ant_colony as colony;
use crate::experiments::discovery_search;
use crate::experiments::discovery_search::DiscoveryKnobs;
use crate::experiments::dynamic_search;
use vstd::prelude::*;

verus! {

/// What a trace can be made of.
pub open spec fn is_countable(k: DiscoveryKnobs) -> bool {
    &&& discovery_search::tree_size(k) * (k.depth + 1) < u64::MAX
}

/// How many hypotheses there are.
pub open spec fn hypotheses(k: DiscoveryKnobs) -> int {
    discovery_search::tree_size(k) as int
}

/// A node of the tree has as many children as the branching factor, and at least one: a
/// tree one level deeper is a root over that many trees.
pub proof fn law_the_tree_branches(b: nat, depth: nat)
    ensures
        dynamic_search::nodes_above(b, 1) == 1,
        dynamic_search::nodes_above(b, depth + 1) == 1 + b * dynamic_search::nodes_above(b, depth),
    decreases depth,
{
    reveal_with_fuel(dynamic_search::nodes_above, 2);
    reveal_with_fuel(dynamic_search::level_size, 2);
    if depth > 0 {
        law_the_tree_branches(b, (depth - 1) as nat);
        let low = dynamic_search::nodes_above(b, (depth - 1) as nat);
        let size = dynamic_search::level_size(b, (depth - 1) as nat);
        assert(dynamic_search::level_size(b, depth) == size * b);
        assert(b * (low + size) == b * low + size * b) by (nonlinear_arith);
    } else {
        assert(b * 0 == 0) by (nonlinear_arith);
    }
}

proof fn lemma_tree_is_not_empty(k: DiscoveryKnobs)
    ensures
        hypotheses(k) >= 1,
        is_countable(k) ==> hypotheses(k) < u64::MAX,
{
    let b = discovery_search::at_least_one(k.branching_factor) as nat;
    law_the_tree_branches(b, k.depth as nat);
    let size = hypotheses(k);
    assert(b * dynamic_search::nodes_above(b, k.depth as nat) >= 0) by (nonlinear_arith);
    assert(size <= size * (k.depth + 1)) by (nonlinear_arith)
        requires
            size >= 0,
            k.depth >= 0,
    ;
}

proof fn lemma_created(b: int, n: int)
    requires
        0 <= n,
    ensures
        discovery_search::created_events(b, n).len() == n,
        forall|i: int|
            0 <= i < n ==> {
                &&& (#[trigger] discovery_search::created_events(b, n)[i]) is HypothesisCreated
                &&& discovery_search::created_events(b, n)[i]->HypothesisCreated_id == (i + 1) as u64
                &&& discovery_search::created_events(b, n)[i]->HypothesisCreated_parent == if i == 0 {
                    None
                } else {
                    Some(((i - 1) / b + 1) as u64)
                }
            },
    decreases n,
{
    if n > 0 {
        lemma_created(b, n - 1);
    }
}

/// A trace begins with its hypotheses, numbered from one: the first has no parent, and
/// the children of a hypothesis are as many as the branching factor, one behind the
/// other, in the order of their parents.
pub proof fn law_hypotheses_form_a_tree(k: DiscoveryKnobs, id: int)
    requires
        is_countable(k),
        1 <= id <= hypotheses(k),
    ensures
        ({
            let t = discovery_search::trace_of(k);
            let b = if k.branching_factor < 1 {
                1
            } else {
                k.branching_factor as int
            };
            &&& t[id - 1] matches EventView::HypothesisCreated { id: number, parent }
            &&& number == id
            &&& parent is None <==> id == 1
            &&& parent matches Some(p) ==> {
                &&& 1 <= p < id
                &&& b * (p - 1) + 2 <= id <= b * p + 1
            }
        }),
{
    let b = discovery_search::at_least_one(k.branching_factor) as int;
    let size = hypotheses(k);
    lemma_tree_is_not_empty(k);
    lemma_created(b, size);
    if id > 1 {
        let q = (id - 2) / b;
        assert(b * q <= id - 2 < b * q + b && 0 <= q <= id - 2) by (nonlinear_arith)
            requires
                q == (id - 2) / b,
                b >= 1,
                id >= 2,
        ;
        assert(b * (q + 1) == b * q + b) by (nonlinear_arith);
    }
}

/// Where the requests of a level start.
pub open spec fn level_start(k: DiscoveryKnobs, level: int) -> int {
    hypotheses(k) + discovery_search::levels_events(k, hypotheses(k), level).len()
}

/// Where hypothesis `id` is asked at `level`: from the second level on a dependency
/// follows each request.
pub open spec fn place(k: DiscoveryKnobs, level: int, id: int) -> int {
    level_start(k, level) + if level == 0 {
        id - 1
    } else {
        2 * (id - 1)
    }
}

proof fn lemma_asked(k: DiscoveryKnobs, level: u32, n: int)
    requires
        0 <= n <= hypotheses(k),
    ensures
        ({
            let count = hypotheses(k);
            let asked = discovery_search::asked_events(k, count, level, n);
            let wide = if level == 0 {
                1int
            } else {
                2
            };
            &&& asked.len() == wide * n
            &&& forall|j: int|
                0 <= j < asked.len() ==> {
                    let id = j / wide + 1;
                    let request = level * count + id;
                    if j % wide == 0 {
                        (#[trigger] asked[j]) == (EventView::NodeRequested {
                            request: request as u64,
                            hypothesis: id as u64,
                            node: discovery_search::node_of(k, request as u64, id as u64, level),
                        })
                    } else {
                        asked[j] == (EventView::DependencyAdded {
                            node: request as u64,
                            depends_on: (request - count) as u64,
                        })
                    }
                }
        }),
    decreases n,
{
    if n > 0 {
        lemma_asked(k, level, n - 1);
        let count = hypotheses(k);
        let before = discovery_search::asked_events(k, count, level, n - 1);
        let asked = discovery_search::asked_events(k, count, level, n);
        assert forall|j: int| 0 <= j < before.len() implies asked[j] == #[trigger] before[j] by {}
    }
}

proof fn lemma_levels_prefix(k: DiscoveryKnobs, n: int, m: int)
    requires
        0 <= n <= m,
    ensures
        ({
            let a = discovery_search::levels_events(k, hypotheses(k), n);
            let b = discovery_search::levels_events(k, hypotheses(k), m);
            a.len() <= b.len() && a =~= b.take(a.len() as int)
        }),
    decreases m,
{
    if n < m {
        lemma_levels_prefix(k, n, m - 1);
        let a = discovery_search::levels_events(k, hypotheses(k), n);
        let mid = discovery_search::levels_events(k, hypotheses(k), m - 1);
        let b = discovery_search::levels_events(k, hypotheses(k), m);
        assert(b.take(mid.len() as int) =~= mid);
        assert(a =~= b.take(a.len() as int));
    } else {
        let a = discovery_search::levels_events(k, hypotheses(k), n);
        assert(a =~= a.take(a.len() as int));
    }
}

/// What a hypothesis is asked at a level: a decision at the last one, an aggregate at the
/// one before, and else a derivation, unless it is an observation, which takes its sample
/// number from the request.
pub open spec fn suits(k: DiscoveryKnobs, level: int, request: int, node: NodeView) -> bool {
    match node {
        NodeView::Decision(_) => level == k.depth,
        NodeView::Aggregate(_) => level + 1 == k.depth,
        NodeView::Derivation(_) => level + 1 < k.depth,
        NodeView::Observation { sample, .. } => sample == request,
    }
}

/// `e` asks hypothesis `id` at `level`.
pub open spec fn asks(k: DiscoveryKnobs, e: EventView, level: int, id: int) -> bool {
    &&& e matches EventView::NodeRequested { request, hypothesis, node }
    &&& request == level * hypotheses(k) + id
    &&& hypothesis == id
    &&& suits(k, level, request as int, node)
}

proof fn lemma_request_fits(k: DiscoveryKnobs, level: int, id: int)
    requires
        is_countable(k),
        0 <= level <= k.depth,
        1 <= id <= hypotheses(k),
    ensures
        0 <= level * hypotheses(k),
        level > 0 ==> (level - 1) * hypotheses(k) == level * hypotheses(k) - hypotheses(k),
        level > 0 ==> 0 <= (level - 1) * hypotheses(k),
        level * hypotheses(k) + id < u64::MAX,
{
    let size = hypotheses(k);
    assert(0 <= level * size && level * size + size <= size * (k.depth + 1)) by (nonlinear_arith)
        requires
            0 <= level <= k.depth,
            size >= 0,
    ;
    assert((level - 1) * size == level * size - size) by (nonlinear_arith);
    if level > 0 {
        assert(0 <= (level - 1) * size) by (nonlinear_arith)
            requires
                level >= 1,
                size >= 0,
        ;
    }
}

/// At every level each hypothesis is asked once, in order, and the requests are numbered
/// from one without a gap. From the second level on, a request depends on the one of the
/// same hypothesis at the level before.
pub proof fn law_each_hypothesis_is_asked_at_each_level(k: DiscoveryKnobs, level: int, id: int)
    requires
        is_countable(k),
        0 <= level <= k.depth,
        1 <= id <= hypotheses(k),
    ensures
        ({
            let t = discovery_search::trace_of(k);
            let p = place(k, level, id);
            &&& hypotheses(k) <= p < t.len()
            &&& asks(k, t[p], level, id)
            &&& level > 0 ==> p + 1 < t.len() && t[p + 1] == (EventView::DependencyAdded {
                node: (level * hypotheses(k) + id) as u64,
                depends_on: ((level - 1) * hypotheses(k) + id) as u64,
            })
            &&& level > 0 ==> place(k, level - 1, id) < p
        }),
{
    let size = hypotheses(k);
    let b = discovery_search::at_least_one(k.branching_factor) as int;
    let t = discovery_search::trace_of(k);
    let wide = if level == 0 {
        1int
    } else {
        2
    };
    lemma_tree_is_not_empty(k);
    lemma_created(b, size);
    lemma_request_fits(k, level, id);
    lemma_asked(k, level as u32, size);
    lemma_levels_prefix(k, level + 1, k.depth + 1);
    let before = discovery_search::levels_events(k, size, level);
    let here = discovery_search::levels_events(k, size, level + 1);
    let all = discovery_search::levels_events(k, size, k.depth + 1);
    let asked = discovery_search::asked_events(k, size, level as u32, size);
    let j = wide * (id - 1);
    assert(j / wide == id - 1 && j % wide == 0);
    assert(here == before + discovery_search::level_events(k, size, level as u32));
    assert(here[before.len() + j] == asked[j]);
    assert(all[before.len() + j] == here[before.len() + j]);
    assert(t[size + before.len() + j] == all[before.len() + j]);
    if level > 0 {
        assert((j + 1) / wide == id - 1 && (j + 1) % wide == 1);
        assert(here[before.len() + j + 1] == asked[j + 1]);
        assert(all[before.len() + j + 1] == here[before.len() + j + 1]);
        assert(t[size + before.len() + j + 1] == all[before.len() + j + 1]);
        lemma_asked(k, (level - 1) as u32, size);
        let lower = discovery_search::levels_events(k, size, level - 1);
        assert(before == lower + discovery_search::level_events(k, size, (level - 1) as u32));
    }
}

proof fn lemma_rejected(k: DiscoveryKnobs, n: int)
    ensures
        forall|i: int|
            0 <= i < discovery_search::rejected_events(k, n).len() ==> (
            #[trigger] discovery_search::rejected_events(k, n)[i]) is HypothesisRejected,
    decreases n,
{
    if n > 0 {
        lemma_rejected(k, n - 1);
    }
}

proof fn lemma_accepted(k: DiscoveryKnobs, b: int, n: int)
    ensures
        forall|i: int|
            0 <= i < discovery_search::accepted_events(k, b, n).len() ==> (
            #[trigger] discovery_search::accepted_events(k, b, n)[i]) is HypothesisAccepted,
    decreases n,
{
    if n > 0 {
        lemma_accepted(k, b, n - 1);
    }
}

/// Event `i` of the first `n` levels belongs to a request.
spec fn belongs(k: DiscoveryKnobs, n: int, i: int, level: int, id: int) -> bool {
    &&& 0 <= level < n
    &&& 1 <= id <= hypotheses(k)
    &&& hypotheses(k) + i == place(k, level, id) || (level > 0 && hypotheses(k) + i == place(
        k,
        level,
        id,
    ) + 1)
}

proof fn lemma_located(k: DiscoveryKnobs, n: int, i: int)
    requires
        is_countable(k),
        0 <= n <= k.depth + 1,
        0 <= i < discovery_search::levels_events(k, hypotheses(k), n).len(),
        ({
            let e = discovery_search::levels_events(k, hypotheses(k), n)[i];
            e is NodeRequested || e is DependencyAdded
        }),
    ensures
        exists|level: int, id: int| #[trigger] belongs(k, n, i, level, id),
    decreases n,
{
    let size = hypotheses(k);
    let level = n - 1;
    let before = discovery_search::levels_events(k, size, level);
    let all = discovery_search::levels_events(k, size, n);
    if i < before.len() {
        assert(all[i] == before[i]);
        lemma_located(k, level, i);
        let (l, id) = choose|l: int, id: int| #[trigger] belongs(k, level, i, l, id);
        assert(belongs(k, n, i, l, id));
    } else {
        lemma_tree_is_not_empty(k);
        lemma_asked(k, level as u32, size);
        lemma_rejected(k, size);
        let asked = discovery_search::asked_events(k, size, level as u32, size);
        let j = i - before.len();
        assert(all[i] == discovery_search::level_events(k, size, level as u32)[j]);
        assert(j < asked.len());
        let wide = if level == 0 {
            1int
        } else {
            2
        };
        assert(asked[j] == all[i]);
        assert(belongs(k, n, i, level, j / wide + 1));
    }
}

/// A trace asks nothing else: every request and every dependency is one of those.
proof fn lemma_all_located(k: DiscoveryKnobs, i: int)
    requires
        is_countable(k),
        0 <= i < discovery_search::trace_of(k).len(),
        discovery_search::trace_of(k)[i] is NodeRequested || discovery_search::trace_of(
            k,
        )[i] is DependencyAdded,
    ensures
        exists|level: int, id: int| #[trigger]
            belongs(k, k.depth + 1, i - hypotheses(k), level, id),
{
    let size = hypotheses(k);
    let b = discovery_search::at_least_one(k.branching_factor) as int;
    let t = discovery_search::trace_of(k);
    let all = discovery_search::levels_events(k, size, k.depth + 1);
    lemma_tree_is_not_empty(k);
    lemma_created(b, size);
    lemma_accepted(k, b, size);
    assert(i >= size) by {
        if i < size {
            assert(t[i] == discovery_search::created_events(b, size)[i]);
        }
    }
    assert(i - size < all.len()) by {
        if i - size >= all.len() {
            if i - size == all.len() {
                assert(t[i] is EvidencePublished);
            } else {
                assert(t[i] == discovery_search::accepted_events(k, b, size)[i - size - all.len()
                    - 1]);
            }
        }
    }
    assert(t[i] == all[i - size]);
    lemma_located(k, k.depth + 1, i - size);
}

proof fn lemma_places_rise(k: DiscoveryKnobs, low: int, high: int, id: int)
    requires
        is_countable(k),
        0 <= low < high <= k.depth,
        1 <= id <= hypotheses(k),
    ensures
        place(k, low, id) < place(k, high, id),
    decreases high - low,
{
    law_each_hypothesis_is_asked_at_each_level(k, high, id);
    if low < high - 1 {
        lemma_places_rise(k, low, high - 1, id);
    }
}

/// Every dependency of a trace follows the request that has it, and leads to an earlier
/// request for the same hypothesis: the last one before it.
pub proof fn law_a_request_depends_on_the_one_before(k: DiscoveryKnobs, i: int, node: u64, on: u64)
    requires
        is_countable(k),
        0 <= i < discovery_search::trace_of(k).len(),
        discovery_search::trace_of(k)[i] == (EventView::DependencyAdded { node, depends_on: on }),
    ensures
        ({
            let t = discovery_search::trace_of(k);
            &&& on < node
            &&& exists|a: int, h: u64|
                {
                    &&& 0 <= a < i - 1
                    &&& #[trigger] is_request(t[a], on, h)
                    &&& is_request(t[i - 1], node, h)
                    &&& forall|j: int|
                        a < j < i - 1 && (#[trigger] t[j]) is NodeRequested
                            ==> t[j]->NodeRequested_hypothesis != h
                }
        }),
{
    let t = discovery_search::trace_of(k);
    let size = hypotheses(k);
    lemma_all_located(k, i);
    let (level, id) = choose|level: int, id: int| #[trigger]
        belongs(k, k.depth + 1, i - size, level, id);
    law_each_hypothesis_is_asked_at_each_level(k, level, id);
    lemma_request_fits(k, level, id);
    lemma_tree_is_not_empty(k);
    assert(level > 0 && i == place(k, level, id) + 1);
    law_each_hypothesis_is_asked_at_each_level(k, level - 1, id);
    lemma_request_fits(k, level - 1, id);
    let a = place(k, level - 1, id);
    let h = id as u64;
    assert forall|j: int| a < j < i - 1 && (#[trigger] t[j]) is NodeRequested implies
        t[j]->NodeRequested_hypothesis != h by {
        lemma_all_located(k, j);
        let (l, other) = choose|l: int, other: int| #[trigger]
            belongs(k, k.depth + 1, j - size, l, other);
        law_each_hypothesis_is_asked_at_each_level(k, l, other);
        lemma_request_fits(k, l, other);
        if t[j]->NodeRequested_hypothesis == h {
            assert(other == id);
            if l < level - 1 {
                lemma_places_rise(k, l, level - 1, id);
            }
            if l > level {
                lemma_places_rise(k, level, l, id);
            }
        }
    }
    assert(is_request(t[a], on, h));
}

/// `e` is request `number`, for hypothesis `h`.
pub open spec fn is_request(e: EventView, number: u64, h: u64) -> bool {
    e matches EventView::NodeRequested { request, hypothesis, .. } && request == number && hypothesis
        == h
}

/// No two requests of a trace have the same number, and later ones have higher numbers.
pub proof fn law_requests_are_numbered_in_order(k: DiscoveryKnobs, level: int, id: int)
    requires
        is_countable(k),
        0 <= level <= k.depth,
        1 <= id <= hypotheses(k),
    ensures
        ({
            let t = discovery_search::trace_of(k);
            let e = t[place(k, level, id)];
            &&& level == 0 && id == 1 ==> e->NodeRequested_request == 1
            &&& id < hypotheses(k) ==> t[place(k, level, id + 1)]->NodeRequested_request
                == e->NodeRequested_request + 1
            &&& id == hypotheses(k) && level < k.depth ==> t[place(
                k,
                level + 1,
                1,
            )]->NodeRequested_request == e->NodeRequested_request + 1
        }),
{
    let size = hypotheses(k);
    lemma_tree_is_not_empty(k);
    law_each_hypothesis_is_asked_at_each_level(k, level, id);
    if id < size {
        law_each_hypothesis_is_asked_at_each_level(k, level, id + 1);
    }
    if level < k.depth {
        law_each_hypothesis_is_asked_at_each_level(k, level + 1, 1);
        assert((level + 1) * size == level * size + size) by (nonlinear_arith);
    }
    assert(0 * size == 0) by (nonlinear_arith);
}

// ---- what falls ------------------------------------------------------------

proof fn lemma_draw_is_small(value: u64)
    ensures
        discovery_search::drawn(value) < 0x100_0000,
{
    assert(value >> 40 < 0x100_0000) by (bit_vector);
}

/// Every draw lies below a rate of one, and none below a rate of zero: at rate zero
/// nothing is refuted, and at rate one everything but the first hypothesis.
pub proof fn law_rates_are_shares_of_one(k: DiscoveryKnobs, id: int)
    ensures
        k.rejection_rate == 0 ==> !discovery_search::is_refuted(k, id),
        k.rejection_rate >= 0x100_0000 && id != 1 ==> discovery_search::is_refuted(k, id),
        !discovery_search::is_refuted(k, 1),
{
    lemma_draw_is_small(colony::rng_draw((id as u64) ^ 0xD15C_0A3E));
}

/// A higher rate refutes all that a lower one does.
pub proof fn law_a_higher_rate_refutes_more(low: DiscoveryKnobs, high: DiscoveryKnobs, id: int)
    requires
        low.rejection_rate <= high.rejection_rate,
        discovery_search::is_refuted(low, id),
    ensures
        discovery_search::is_refuted(high, id),
{
}

proof fn lemma_rejected_are_the_refuted(k: DiscoveryKnobs, n: int, id: int)
    requires
        0 <= n < u64::MAX,
        1 <= id < u64::MAX,
    ensures
        discovery_search::rejected_events(k, n).contains(
            EventView::HypothesisRejected { id: id as u64 },
        ) <==> id <= n && discovery_search::is_refuted(k, id),
    decreases n,
{
    let e = EventView::HypothesisRejected { id: id as u64 };
    if n > 0 {
        lemma_rejected_are_the_refuted(k, n - 1, id);
        let before = discovery_search::rejected_events(k, n - 1);
        let after = discovery_search::rejected_events(k, n);
        if before.contains(e) {
            let i = choose|i: int| 0 <= i < before.len() && before[i] == e;
            assert(after[i] == e);
        }
        if discovery_search::is_refuted(k, n) {
            assert(after.last() == after[after.len() - 1]);
            if after.contains(e) {
                let i = choose|i: int| 0 <= i < after.len() && after[i] == e;
                if i < before.len() {
                    assert(before[i] == e);
                }
            }
        }
    }
}

proof fn lemma_accepted_are_the_standing(k: DiscoveryKnobs, b: int, n: int, id: int)
    requires
        0 <= n < u64::MAX,
        1 <= id < u64::MAX,
    ensures
        discovery_search::accepted_events(k, b, n).contains(
            EventView::HypothesisAccepted { id: id as u64 },
        ) <==> id <= n && !discovery_search::falls(k, b, id),
    decreases n,
{
    let e = EventView::HypothesisAccepted { id: id as u64 };
    if n > 0 {
        lemma_accepted_are_the_standing(k, b, n - 1, id);
        let before = discovery_search::accepted_events(k, b, n - 1);
        let after = discovery_search::accepted_events(k, b, n);
        if before.contains(e) {
            let i = choose|i: int| 0 <= i < before.len() && before[i] == e;
            assert(after[i] == e);
        }
        if !discovery_search::falls(k, b, n) {
            assert(after.last() == after[after.len() - 1]);
            if after.contains(e) {
                let i = choose|i: int| 0 <= i < after.len() && after[i] == e;
                if i < before.len() {
                    assert(before[i] == e);
                }
            }
        }
    }
}

/// The hypotheses from `id` up to the first: `id` itself, or one above its parent.
#[verifier::opaque]
pub open spec fn is_above(b: int, root: int, id: int) -> bool
    decreases id,
{
    id >= 1 && (root == id || (id >= 2 && b >= 1 && is_above(
        b,
        root,
        if (id - 2) / b + 1 < id {
            (id - 2) / b + 1
        } else {
            0
        },
    )))
}

proof fn lemma_descends_is_above(b: int, root: int, id: int)
    requires
        b >= 1,
        id >= 1,
    ensures
        is_above(b, root, id) <==> root == id || discovery_search::descends(b, id, root),
    decreases id,
{
    reveal(is_above);
    if id >= 2 {
        discovery_search::lemma_parent(b, id);
        lemma_descends_is_above(b, root, (id - 2) / b + 1);
    }
}

/// The trace rejects hypothesis `id`.
pub open spec fn rejects(k: DiscoveryKnobs, id: int) -> bool {
    discovery_search::rejected_events(k, hypotheses(k)).contains(
        EventView::HypothesisRejected { id: id as u64 },
    )
}

/// The trace accepts hypothesis `id` at its end.
pub open spec fn accepts(k: DiscoveryKnobs, id: int) -> bool {
    discovery_search::accepted_events(k, branches(k), hypotheses(k)).contains(
        EventView::HypothesisAccepted { id: id as u64 },
    )
}

/// How many children a hypothesis has.
pub open spec fn branches(k: DiscoveryKnobs) -> int {
    if k.branching_factor < 1 {
        1
    } else {
        k.branching_factor as int
    }
}

/// A hypothesis that is rejected is not accepted, and neither is any that was made from
/// it, at whatever distance.
pub proof fn law_a_rejection_takes_all_below_along(k: DiscoveryKnobs, root: int, id: int)
    requires
        is_countable(k),
        1 <= root <= hypotheses(k),
        1 <= id <= hypotheses(k),
        is_above(branches(k), root, id),
        rejects(k, root),
    ensures
        !accepts(k, id),
{
    let size = hypotheses(k);
    lemma_tree_is_not_empty(k);
    lemma_rejected_are_the_refuted(k, size, root);
    lemma_accepted_are_the_standing(k, branches(k), size, id);
    lemma_descends_is_above(branches(k), root, id);
}

/// What is not accepted was rejected, or was made from a hypothesis that was.
pub proof fn law_only_the_rejected_do_not_stand(k: DiscoveryKnobs, id: int) -> (root: int)
    requires
        is_countable(k),
        1 <= id <= hypotheses(k),
        !accepts(k, id),
    ensures
        1 <= root <= id,
        is_above(branches(k), root, id),
        rejects(k, root),
{
    let size = hypotheses(k);
    lemma_tree_is_not_empty(k);
    lemma_accepted_are_the_standing(k, branches(k), size, id);
    let root = lemma_a_fall_has_a_root(k, branches(k), id);
    lemma_rejected_are_the_refuted(k, size, root);
    root
}

proof fn lemma_a_fall_has_a_root(k: DiscoveryKnobs, b: int, id: int) -> (root: int)
    requires
        b >= 1,
        id >= 1,
        discovery_search::falls(k, b, id),
    ensures
        1 <= root <= id,
        is_above(b, root, id),
        discovery_search::is_refuted(k, root),
{
    if discovery_search::is_refuted(k, id) {
        lemma_descends_is_above(b, id, id);
        id
    } else {
        let root = choose|root: int| #[trigger]
            discovery_search::is_refuted(k, root) && discovery_search::descends(b, id, root);
        lemma_ancestor_is_lower(b, id, root);
        lemma_descends_is_above(b, root, id);
        root
    }
}

proof fn lemma_ancestor_is_lower(b: int, id: int, root: int)
    requires
        b >= 1,
        discovery_search::descends(b, id, root),
    ensures
        1 <= root < id,
    decreases id,
{
    discovery_search::lemma_parent(b, id);
    let up = discovery_search::parent_of(b, id);
    if up != root {
        lemma_ancestor_is_lower(b, up, root);
    }
}

/// Hypotheses are rejected behind the requests of one level, the rejection depth or the
/// last, and nowhere else. Evidence is published behind every level that completes the
/// skew, and once more before the trace says what stands.
pub proof fn law_rejections_and_evidence_have_their_places(k: DiscoveryKnobs, level: u32)
    requires
        is_countable(k),
        level <= k.depth,
    ensures
        ({
            let size = hypotheses(k);
            let here = discovery_search::level_events(k, size, level);
            let asked = if level == 0 {
                size
            } else {
                2 * size
            };
            let skew = if k.arrival_skew < 1 {
                1
            } else {
                k.arrival_skew as int
            };
            let rejects = level == k.rejection_depth || (k.rejection_depth > k.depth && level
                == k.depth);
            let publishes = (level + 1) % skew == 0;
            let rejected = discovery_search::rejected_events(k, size);
            &&& here.len() == asked + (if rejects {
                rejected.len() as int
            } else {
                0
            }) + (if publishes {
                1int
            } else {
                0
            })
            &&& rejects ==> here.subrange(asked, asked + rejected.len()) == rejected
            &&& publishes ==> here.last() is EvidencePublished
            &&& ({
                let t = discovery_search::trace_of(k);
                let end = level_start(k, k.depth + 1);
                end < t.len() && t[end] is EvidencePublished
            })
        }),
{
    let size = hypotheses(k);
    let b = discovery_search::at_least_one(k.branching_factor) as int;
    lemma_tree_is_not_empty(k);
    lemma_created(b, size);
    lemma_asked(k, level, size);
    let here = discovery_search::level_events(k, size, level);
    let rejected = discovery_search::rejected_events(k, size);
    let asked = discovery_search::asked_events(k, size, level, size).len() as int;
    if level == discovery_search::rejection_level(k) {
        assert(here.subrange(asked, asked + rejected.len()) =~= rejected);
    }
}

// ---- what is asked ---------------------------------------------------------

/// With shared prefixes throughout, all hypotheses of a level in the first half are asked
/// on the same inputs. Without them, and with duplicates throughout, hypotheses whose
/// numbers agree but for the lowest two bits are. Without either, a hypothesis' inputs
/// are drawn from its own number and level.
pub proof fn law_sharing_decides_the_inputs(
    k: DiscoveryKnobs,
    a: u64,
    b: u64,
    level: u32,
)
    ensures
        k.shared_prefix_rate >= 0x100_0000 && level <= k.depth / 2 ==> discovery_search::identity_of(
            k,
            a,
            level,
        ) == level as u64,
        k.shared_prefix_rate == 0 && k.duplicate_rate >= 0x100_0000 && a / 4 == b / 4
            ==> discovery_search::identity_of(k, a, level) == discovery_search::identity_of(
            k,
            b,
            level,
        ),
        k.shared_prefix_rate == 0 && k.duplicate_rate == 0 ==> discovery_search::identity_of(
            k,
            a,
            level,
        ) == (a << 32) ^ (level as u64),
        discovery_search::identity_of(k, a, level) == discovery_search::identity_of(k, b, level)
            ==> discovery_search::evaluation_of(k, a, level).inputs
            == discovery_search::evaluation_of(k, b, level).inputs,
{
    let x = discovery_search::entropy_of(a, level);
    let y = discovery_search::entropy_of(b, level);
    lemma_draw_is_small(discovery_search::turned_7(x));
    lemma_draw_is_small(discovery_search::turned_19(x));
    lemma_draw_is_small(discovery_search::turned_19(y));
}

proof fn lemma_inputs(identity: u64, n: int, i: int)
    requires
        0 <= i < n,
    ensures
        discovery_search::inputs_of(identity, n).len() == 8 * n,
        bytes::word_at(discovery_search::inputs_of(identity, n), 8 * i, 8) == colony::rng_draw(
            identity ^ (i as u64),
        ) as nat,
    decreases n,
{
    let before = discovery_search::inputs_of(identity, n - 1);
    let all = discovery_search::inputs_of(identity, n);
    let value = colony::rng_draw(identity ^ ((n - 1) as u64)) as nat;
    bytes::lemma_radix_values();
    bytes::lemma_le_round_trip(value, 8);
    if n > 1 {
        lemma_inputs(
            identity,
            n - 1,
            if i < n - 1 {
                i
            } else {
                0
            },
        );
    }
    if i < n - 1 {
        assert(all.subrange(8 * i, 8 * i + 8) =~= before.subrange(8 * i, 8 * i + 8));
    } else {
        assert(all.subrange(8 * i, 8 * i + 8) =~= bytes::le_bytes(value, 8));
    }
}

/// An evaluation has as many elements of eight bytes as the knobs ask for, at least one,
/// each drawn from the inputs' identity and its place.
pub proof fn law_an_evaluation_has_its_elements(k: DiscoveryKnobs, hypothesis: u64, level: u32, i: int)
    requires
        0 <= i < (if k.elements_per_experiment < 1 {
            1
        } else {
            k.elements_per_experiment as int
        }),
    ensures
        ({
            let e = discovery_search::evaluation_of(k, hypothesis, level);
            &&& e.element_count == (if k.elements_per_experiment < 1 {
                1
            } else {
                k.elements_per_experiment
            })
            &&& e.element_stride == 8
            &&& e.inputs.len() == 8 * e.element_count
            &&& bytes::word_at(e.inputs, 8 * i, 8) == colony::rng_draw(
                discovery_search::identity_of(k, hypothesis, level) ^ (i as u64),
            ) as nat
        }),
{
    let e = discovery_search::evaluation_of(k, hypothesis, level);
    lemma_inputs(
        discovery_search::identity_of(k, hypothesis, level),
        e.element_count as int,
        i,
    );
}

/// The evaluator of a class multiplies an element by the class and two more, and adds
/// one, around 2^64.
pub proof fn law_an_evaluator_multiplies_and_adds(
    class: u32,
    a: ArraysView,
    index: u32,
    element: Seq<u8>,
)
    requires
        class <= u32::MAX - 2,
        index < a.count,
        a.count * 8 <= a.input.len(),
        element == a.input.subrange(8 * index as int, 8 * index as int + 8),
    ensures
        ({
            let after = discovery_search::discovery_view(class).evaluated(a, index, element);
            &&& after.len() == 8
            &&& bytes::word_at(after, 0, 8) as int == (bytes::word_at(element, 0, 8) * (class + 2)
                + 1) % 0x1_0000_0000_0000_0000
        }),
{
    let p = discovery_search::discovery_view(class);
    let r0 = p.blank();
    let r1 = p.stepped(a, index, r0, 0);
    let r2 = p.stepped(a, index, r1, 1);
    let r3 = p.stepped(a, index, r2, 2);
    let r4 = p.stepped(a, index, r3, 3);
    let r5 = p.stepped(a, index, r4, 4);
    assert(p.ops[0] == Op::Load(0));
    assert(p.ops[1] == Op::Const((class + 2) as u64));
    assert(p.ops[2] == Op::Mul(0, 1));
    assert(p.ops[3] == Op::Const(1));
    assert(p.ops[4] == Op::Add(2, 3));
    assert(p.ran(a, index, r5, 5, 5) == (r5, false));
    assert(p.ran(a, index, r4, 4, 5) == (r5, false));
    assert(p.ran(a, index, r3, 3, 5) == (r5, false));
    assert(p.ran(a, index, r2, 2, 5) == (r5, false));
    assert(p.ran(a, index, r1, 1, 5) == (r5, false));
    assert(p.ran(a, index, r0, 0, 5) == (r5, false));
    assert(p.values_for(a, index) == r5.values);
    body::lemma_even_offsets(p.layout, body::FieldWidth::U64, 1);
    reveal_with_fuel(body::offset_of, 2);
    bytes::lemma_radix_values();
    bytes::lemma_le_bytes_of_value(element);
    assert(element.subrange(0, 8) =~= element);
    let x = bytes::word_at(element, 0, 8);
    assert(body::stride_of(p.layout) == 8);
    assert(body::offset_of(p.layout, 0) == 0);
    assert(p.layout[0].size() == 8);
    assert(a.input.subrange(index * 8, index * 8 + 8) =~= element);
    assert(body::field_value(a.input, p.layout, index as int, 0) == x as u64);
    assert(r1.values[0] == x as u64);
    let value = r5.values[4];
    let m = 0x1_0000_0000_0000_0000int;
    assert(value == (x as u64).wrapping_mul((class + 2) as u64).wrapping_add(1));
    vstd::arithmetic::div_mod::lemma_add_mod_noop(x * (class + 2), 1, m);
    assert(value as int == (x * (class + 2) + 1) % m);
    bytes::lemma_splice_then_read(element, 0, value);
    assert(p.stored(r5.values, element, 0) == element);
    assert(p.evaluated(a, index, element) == p.stored(r5.values, element, 1));
}

} // verus!
