//! A deterministic discovery workload: one trace, generated without any
//! intelligence, that every executor sees in the same order.
//!
//! Rates are counted in parts of two to the twenty-fourth: a draw is one of
//! that many equally likely values.

use crate::bytes;
use crate::compiler::body;
use crate::compiler::body::{ElementLayout, EvaluatorProgram, FieldWidth, Op, ProgramView, Store};
use crate::discovery;
use crate::discovery::{
    DiscoveryEvent, DiscoveryNode, DiscoveryTrace, EvaluationSpec, EvaluationView, EventView,
    FusionClass, ModuleDigest, NodeView,
};
use crate::experiments::ant_colony as colony;
use crate::experiments::ant_colony::split_mix;
use crate::experiments::dynamic_search;
use crate::text;
use crate::text::{push_decimal, push_text};
use vstd::prelude::*;

verus! {

/// The parts of a rate of one.
pub const RATE_ONE: u32 = 0x100_0000;

/// None, a quarter, a half and three quarters.
pub const DUPLICATION_RATES: [u32; 4] = [0, 0x40_0000, 0x80_0000, 0xc0_0000];

/// None, a quarter and a half.
pub const PRUNING_RATES: [u32; 3] = [0, 0x40_0000, 0x80_0000];

pub const EVALUATOR_CLASSES: [u32; 3] = [1, 4, 16];

pub const BATCH_SIZES: [u32; 3] = [1, 64, 1_024];

/// What shapes a discovery.
#[derive(Clone, Copy, Debug, PartialEq, Eq, Structural)]
pub struct DiscoveryKnobs {
    pub branching_factor: u32,
    pub depth: u32,
    pub duplicate_rate: u32,
    pub shared_prefix_rate: u32,
    pub rejection_rate: u32,
    pub rejection_depth: u32,
    pub evaluator_classes: u32,
    pub elements_per_experiment: u32,
    pub arrival_skew: u32,
    pub observation_rate: u32,
}

impl Default for DiscoveryKnobs {
    fn default() -> (knobs: Self)
        ensures
            knobs == (DiscoveryKnobs {
                branching_factor: 3,
                depth: 5,
                duplicate_rate: 5_872_026,
                shared_prefix_rate: 6_710_887,
                rejection_rate: 4_194_304,
                rejection_depth: 2,
                evaluator_classes: 4,
                elements_per_experiment: 64,
                arrival_skew: 2,
                observation_rate: 1_677_722,
            }),
    {
        DiscoveryKnobs {
            branching_factor: 3,
            depth: 5,
            duplicate_rate: 5_872_026,
            shared_prefix_rate: 6_710_887,
            rejection_rate: 4_194_304,
            rejection_depth: 2,
            evaluator_classes: 4,
            elements_per_experiment: 64,
            arrival_skew: 2,
            observation_rate: 1_677_722,
        }
    }
}

// ---- regimes ---------------------------------------------------------------

/// How many regimes a map has.
pub const REGIMES: usize = 108;

/// Regime `i` of a map over `base`: batch sizes vary fastest, then classes,
/// pruning rates and duplication rates.
pub open spec fn regime(base: DiscoveryKnobs, i: int) -> DiscoveryKnobs {
    DiscoveryKnobs {
        duplicate_rate: DUPLICATION_RATES@[i / 27],
        rejection_rate: PRUNING_RATES@[(i / 9) % 3],
        evaluator_classes: EVALUATOR_CLASSES@[(i / 3) % 3],
        elements_per_experiment: BATCH_SIZES@[i % 3],
        ..base
    }
}

/// The regimes of a map, in order.
pub fn regimes(base: DiscoveryKnobs) -> (grid: Vec<DiscoveryKnobs>)
    ensures
        grid@ == Seq::new(108, |i: int| regime(base, i)),
{
    let mut grid: Vec<DiscoveryKnobs> = Vec::new();
    let mut i: usize = 0;
    while i < REGIMES
        invariant
            i <= REGIMES,
            grid@ =~= Seq::new(i as nat, |j: int| regime(base, j)),
        decreases REGIMES - i,
    {
        grid.push(
            DiscoveryKnobs {
                duplicate_rate: DUPLICATION_RATES[i / 27],
                rejection_rate: PRUNING_RATES[(i / 9) % 3],
                evaluator_classes: EVALUATOR_CLASSES[(i / 3) % 3],
                elements_per_experiment: BATCH_SIZES[i % 3],
                ..base
            },
        );
        i = i + 1;
    }
    grid
}

// ---- draws -----------------------------------------------------------------

pub open spec fn at_least_one(n: u32) -> u32 {
    if n > 1 {
        n
    } else {
        1
    }
}

fn one_or_more(n: u32) -> (m: u32)
    ensures
        m == at_least_one(n),
        m >= 1,
{
    if n > 1 {
        n
    } else {
        1
    }
}

fn splitmix64(value: u64) -> (mixed: u64)
    ensures
        mixed == colony::rng_draw(value),
{
    let mut state: u64 = value;
    split_mix(&mut state)
}

/// A draw out of the upper bits of a value.
pub open spec fn drawn(value: u64) -> u64 {
    value >> 40
}

pub open spec fn turned_7(value: u64) -> u64 {
    (value << 7) | (value >> 57)
}

pub open spec fn turned_19(value: u64) -> u64 {
    (value << 19) | (value >> 45)
}

pub open spec fn turned_31(value: u64) -> u64 {
    (value << 31) | (value >> 33)
}

// ---- hypotheses ------------------------------------------------------------

/// The hypothesis that hypothesis `id` was made from: they are numbered from
/// one, level by level.
pub open spec fn parent_of(b: int, id: int) -> int {
    (id - 2) / b + 1
}

pub open spec fn tree_size(k: DiscoveryKnobs) -> nat {
    dynamic_search::nodes_above(at_least_one(k.branching_factor) as nat, (k.depth + 1) as nat)
}

pub open spec fn tree_of(b: int, count: nat) -> Seq<(u64, Option<u64>)> {
    Seq::new(
        count,
        |i: int|
            (
                (i + 1) as u64,
                if i == 0 {
                    None
                } else {
                    Some(parent_of(b, i + 1) as u64)
                },
            ),
    )
}

pub proof fn lemma_parent(b: int, id: int)
    requires
        b >= 1,
        id >= 2,
    ensures
        1 <= parent_of(b, id) < id,
{
    let q = (id - 2) / b;
    assert(0 <= q <= id - 2) by (nonlinear_arith)
        requires
            q == (id - 2) / b,
            b >= 1,
            id >= 2,
    ;
}

/// Whether `candidate` was made from `ancestor`, at any remove.
pub open spec fn descends(b: int, candidate: int, ancestor: int) -> bool
    decreases candidate,
    when b >= 1
    via descends_goes_up
{
    candidate >= 2 && (parent_of(b, candidate) == ancestor || descends(
        b,
        parent_of(b, candidate),
        ancestor,
    ))
}

#[via_fn]
proof fn descends_goes_up(b: int, candidate: int, ancestor: int) {
    if candidate >= 2 {
        lemma_parent(b, candidate);
    }
}

/// The tree of hypotheses, each behind the one it was made from.
fn hypothesis_tree(branching: u32, depth: u32) -> (out: Vec<(u64, Option<u64>)>)
    requires
        dynamic_search::nodes_above(at_least_one(branching) as nat, (depth + 1) as nat)
            <= usize::MAX,
    ensures
        out@ == tree_of(
            at_least_one(branching) as int,
            dynamic_search::nodes_above(at_least_one(branching) as nat, (depth + 1) as nat),
        ),
{
    let b: u32 = one_or_more(branching);
    let ghost whole = dynamic_search::nodes_above(b as nat, (depth + 1) as nat);
    let mut out: Vec<(u64, Option<u64>)> = vec![(1u64, None)];
    let mut level: u32 = 0;
    // Hypotheses of the level above: how many, and the first of them.
    let mut wide: u64 = 1;
    let mut first: u64 = 1;
    reveal_with_fuel(dynamic_search::nodes_above, 2);
    reveal_with_fuel(dynamic_search::level_size, 2);
    assert(out@ =~= tree_of(b as int, 1));
    while level < depth
        invariant
            level <= depth,
            b >= 1,
            whole == dynamic_search::nodes_above(b as nat, (depth + 1) as nat),
            whole <= usize::MAX,
            out@ == tree_of(
                b as int,
                dynamic_search::nodes_above(b as nat, (level + 1) as nat),
            ),
            wide == dynamic_search::level_size(b as nat, level as nat),
            wide >= 1,
            first == dynamic_search::nodes_above(b as nat, level as nat) + 1,
            out@.len() == first + wide - 1,
            // The children of the level above follow it directly.
            first + wide - 1 == b * (first - 1) + 1,
        decreases depth - level,
    {
        let ghost start = out@.len();
        let mut p: u64 = 0;
        proof {
            dynamic_search::lemma_nodes_grow(
                b as nat,
                (level + 2) as nat,
                (depth + 1) as nat,
            );
            assert(dynamic_search::level_size(b as nat, (level + 1) as nat) == wide * b);
        }
        while p < wide
            invariant
                p <= wide,
                b >= 1,
                first >= 1,
                start == first + wide - 1,
                start == b * (first - 1) + 1,
                start + wide * b <= usize::MAX,
                out@ == tree_of(b as int, (start + p * b) as nat),
            decreases wide - p,
        {
            let mut c: u32 = 0;
            proof {
                assert((p + 1) * b == p * b + b) by (nonlinear_arith);
                assert((p + 1) * b <= wide * b) by (nonlinear_arith)
                    requires
                        p + 1 <= wide,
                        b >= 1,
                ;
                assert(0 <= p * b) by (nonlinear_arith)
                    requires
                        0 <= p,
                        0 <= b,
                ;
            }
            while c < b
                invariant
                    c <= b,
                    b >= 1,
                    first >= 1,
                    p < wide,
                    start == b * (first - 1) + 1,
                    0 <= p * b,
                    start + p * b + b <= usize::MAX,
                    out@ =~= tree_of(b as int, (start + p * b + c) as nat),
                decreases b - c,
            {
                let id: u64 = out.len() as u64 + 1;
                proof {
                    let i = start + p * b + c;
                    assert(id - 2 == b * (first - 1 + p) + c) by (nonlinear_arith)
                        requires
                            id == b * (first - 1) + 1 + p * b + c + 1,
                    ;
                    assert((id - 2) / (b as int) == first - 1 + p) by (nonlinear_arith)
                        requires
                            id - 2 == b * (first - 1 + p) + c,
                            0 <= c < b,
                    ;
                    assert(parent_of(b as int, i + 1) == first + p);
                }
                out.push((id, Some(first + p)));
                c = c + 1;
            }
            p = p + 1;
        }
        proof {
            let n = dynamic_search::nodes_above(b as nat, (level + 1) as nat);
            assert(b * (start as int) == b * (first - 1) + b * wide) by (nonlinear_arith)
                requires
                    start == first - 1 + wide,
            ;
            assert(b * wide == wide * b) by (nonlinear_arith);
            assert(wide * b >= wide) by (nonlinear_arith)
                requires
                    wide >= 1,
                    b >= 1,
            ;
        }
        first = first + wide;
        wide = wide * b as u64;
        level = level + 1;
    }
    out
}

/// Whether a hypothesis descends from another, by the parents in the tree.
fn descends_from(
    candidate: u64,
    ancestor: u64,
    hypotheses: &Vec<(u64, Option<u64>)>,
    b: Ghost<int>,
) -> (found: bool)
    requires
        b@ >= 1,
        hypotheses@ == tree_of(b@, hypotheses@.len()),
        1 <= candidate <= hypotheses@.len(),
    ensures
        found == descends(b@, candidate as int, ancestor as int),
{
    let mut current: u64 = candidate;
    let count: usize = hypotheses.len();
    while current >= 2
        invariant_except_break
            1 <= current <= candidate <= count,
            count == hypotheses@.len(),
            b@ >= 1,
            candidate <= hypotheses@.len(),
            hypotheses@ == tree_of(b@, hypotheses@.len()),
            descends(b@, candidate as int, ancestor as int) == descends(
                b@,
                current as int,
                ancestor as int,
            ),
        ensures
            current < 2,
            descends(b@, candidate as int, ancestor as int) == descends(
                b@,
                current as int,
                ancestor as int,
            ),
        decreases current,
    {
        proof {
            lemma_parent(b@, current as int);
            assert(hypotheses@[current - 1] == tree_of(b@, hypotheses@.len())[current - 1]);
        }
        let parent: u64 = match hypotheses[(current - 1) as usize].1 {
            Some(parent) => parent,
            None => 0,
        };
        assert(parent == parent_of(b@, current as int));
        if parent == ancestor {
            return true;
        }
        current = parent;
    }
    false
}

// ---- what is asked of a hypothesis -----------------------------------------

pub open spec fn entropy_of(hypothesis: u64, level: u32) -> u64 {
    colony::rng_draw((hypothesis << 32) ^ (level as u64))
}

/// What an evaluation's inputs are drawn from: evaluations with the same
/// identity and class are the same.
pub open spec fn identity_of(k: DiscoveryKnobs, hypothesis: u64, level: u32) -> u64 {
    let entropy = entropy_of(hypothesis, level);
    if drawn(turned_7(entropy)) < k.shared_prefix_rate && level <= k.depth / 2 {
        level as u64
    } else if drawn(turned_19(entropy)) < k.duplicate_rate {
        (hypothesis / 4) ^ (level as u64)
    } else {
        (hypothesis << 32) ^ (level as u64)
    }
}

/// The first `n` elements of an evaluation's inputs.
pub open spec fn inputs_of(identity: u64, n: int) -> Seq<u8>
    decreases n,
{
    if n <= 0 {
        Seq::empty()
    } else {
        inputs_of(identity, n - 1) + bytes::le_bytes(
            colony::rng_draw(identity ^ ((n - 1) as u64)) as nat,
            8,
        )
    }
}

pub open spec fn class_of(k: DiscoveryKnobs, hypothesis: u64, level: u32) -> u32 {
    (entropy_of(hypothesis, level) % (at_least_one(k.evaluator_classes) as u64)) as u32
}

pub open spec fn evaluation_of(k: DiscoveryKnobs, hypothesis: u64, level: u32) -> EvaluationView {
    let class = class_of(k, hypothesis, level);
    let elements = at_least_one(k.elements_per_experiment);
    EvaluationView {
        operation: "derive-"@ + text::decimal(class as nat),
        module: "discovery-evaluator-"@ + text::decimal(class as nat),
        evaluator: (10_000 + class) as u32,
        inputs: inputs_of(identity_of(k, hypothesis, level), elements as int),
        element_count: elements,
        element_stride: 8,
        fusion: FusionClass::Pointwise,
        contract: Seq::empty(),
    }
}

/// The node that is requested: now and then an observation, and otherwise what
/// the level is for.
pub open spec fn node_of(k: DiscoveryKnobs, request: u64, hypothesis: u64, level: u32) -> NodeView {
    let evaluation = evaluation_of(k, hypothesis, level);
    if drawn(turned_31(entropy_of(hypothesis, level))) < k.observation_rate {
        NodeView::Observation { sample: request, evaluation }
    } else if level == k.depth {
        NodeView::Decision(evaluation)
    } else if level + 1 == k.depth {
        NodeView::Aggregate(evaluation)
    } else {
        NodeView::Derivation(evaluation)
    }
}

fn labelled(prefix: &str, class: u32) -> (label: String)
    ensures
        label@ == prefix@ + text::decimal(class as nat),
{
    let mut label: String = String::new();
    push_text(&mut label, prefix);
    push_decimal(&mut label, class as u64);
    assert(Seq::<char>::empty() + prefix@ =~= prefix@);
    label
}

fn evaluation(knobs: &DiscoveryKnobs, hypothesis: u64, level: u32) -> (spec: EvaluationSpec)
    requires
        at_least_one(knobs.evaluator_classes) + 9_999 <= u32::MAX,
    ensures
        spec@ == evaluation_of(*knobs, hypothesis, level),
{
    let entropy: u64 = splitmix64((hypothesis << 32) ^ (level as u64));
    let classes: u32 = one_or_more(knobs.evaluator_classes);
    let class: u32 = (entropy % classes as u64) as u32;
    let turned: u64 = (entropy << 7) | (entropy >> 57);
    let again: u64 = (entropy << 19) | (entropy >> 45);
    let shared: bool = (turned >> 40) < knobs.shared_prefix_rate as u64 && level <= knobs.depth
        / 2;
    let duplicate: bool = (again >> 40) < knobs.duplicate_rate as u64;
    let identity: u64 = if shared {
        level as u64
    } else if duplicate {
        (hypothesis / 4) ^ (level as u64)
    } else {
        (hypothesis << 32) ^ (level as u64)
    };
    let elements: u32 = one_or_more(knobs.elements_per_experiment);
    let mut inputs: Vec<u8> = Vec::new();
    let mut element: u32 = 0;
    while element < elements
        invariant
            element <= elements,
            inputs@ == inputs_of(identity, element as int),
        decreases elements - element,
    {
        bytes::put_le(&mut inputs, splitmix64(identity ^ (element as u64)), 8);
        element = element + 1;
    }
    let spec = EvaluationSpec::new(
        labelled("derive-", class),
        ModuleDigest { source: labelled("discovery-evaluator-", class) },
        10_000 + class,
        inputs,
        elements,
        8,
        FusionClass::Pointwise,
    );
    assert(spec@ =~= evaluation_of(*knobs, hypothesis, level));
    spec
}

fn node(knobs: &DiscoveryKnobs, request: u64, hypothesis: u64, level: u32) -> (node: DiscoveryNode)
    requires
        at_least_one(knobs.evaluator_classes) + 9_999 <= u32::MAX,
        level <= knobs.depth,
    ensures
        node@ == node_of(*knobs, request, hypothesis, level),
{
    let spec: EvaluationSpec = evaluation(knobs, hypothesis, level);
    let entropy: u64 = splitmix64((hypothesis << 32) ^ (level as u64));
    let turned: u64 = (entropy << 31) | (entropy >> 33);
    if (turned >> 40) < knobs.observation_rate as u64 {
        DiscoveryNode::Observation { sample: request, evaluation: spec }
    } else if level == knobs.depth {
        DiscoveryNode::Decision(spec)
    } else if level + 1 == knobs.depth {
        DiscoveryNode::Aggregate(spec)
    } else {
        DiscoveryNode::Derivation(spec)
    }
}

// ---- the trace -------------------------------------------------------------

pub open spec fn created_events(b: int, n: int) -> Seq<EventView>
    decreases n,
{
    if n <= 0 {
        Seq::empty()
    } else {
        created_events(b, n - 1).push(
            EventView::HypothesisCreated {
                id: n as u64,
                parent: if n == 1 {
                    None
                } else {
                    Some(parent_of(b, n) as u64)
                },
            },
        )
    }
}

/// The request that hypothesis `id` makes at `level`, of `count` hypotheses.
pub open spec fn request_of(count: int, id: int, level: int) -> int {
    level * count + id
}

/// What hypotheses 1 to `n` ask for at a level: each depends on what it asked
/// for at the level before.
pub open spec fn asked_events(k: DiscoveryKnobs, count: int, level: u32, n: int) -> Seq<EventView>
    decreases n,
{
    if n <= 0 {
        Seq::empty()
    } else {
        let request = request_of(count, n, level as int);
        let asked = asked_events(k, count, level, n - 1).push(
            EventView::NodeRequested {
                request: request as u64,
                hypothesis: n as u64,
                node: node_of(k, request as u64, n as u64, level),
            },
        );
        if level > 0 {
            asked.push(
                EventView::DependencyAdded {
                    node: request as u64,
                    depends_on: (request - count) as u64,
                },
            )
        } else {
            asked
        }
    }
}

/// Whether hypothesis `id` is rejected by itself. The first never is.
pub open spec fn is_refuted(k: DiscoveryKnobs, id: int) -> bool {
    id != 1 && drawn(colony::rng_draw((id as u64) ^ 0xD15C_0A3E)) < k.rejection_rate
}

pub open spec fn rejected_events(k: DiscoveryKnobs, n: int) -> Seq<EventView>
    decreases n,
{
    if n <= 0 {
        Seq::empty()
    } else {
        let before = rejected_events(k, n - 1);
        if is_refuted(k, n) {
            before.push(EventView::HypothesisRejected { id: n as u64 })
        } else {
            before
        }
    }
}

/// Whether a hypothesis falls: it, or one that it was made from, is refuted.
pub open spec fn falls(k: DiscoveryKnobs, b: int, id: int) -> bool {
    is_refuted(k, id) || exists|root: int| #[trigger] is_refuted(k, root) && descends(b, id, root)
}

pub open spec fn accepted_events(k: DiscoveryKnobs, b: int, n: int) -> Seq<EventView>
    decreases n,
{
    if n <= 0 {
        Seq::empty()
    } else {
        let before = accepted_events(k, b, n - 1);
        if falls(k, b, n) {
            before
        } else {
            before.push(EventView::HypothesisAccepted { id: n as u64 })
        }
    }
}

pub open spec fn rejection_level(k: DiscoveryKnobs) -> u32 {
    if k.rejection_depth < k.depth {
        k.rejection_depth
    } else {
        k.depth
    }
}

pub open spec fn level_events(k: DiscoveryKnobs, count: int, level: u32) -> Seq<EventView> {
    asked_events(k, count, level, count) + (if level == rejection_level(k) {
        rejected_events(k, count)
    } else {
        Seq::empty()
    }) + (if (level + 1) % (at_least_one(k.arrival_skew) as int) == 0 {
        seq![EventView::EvidencePublished]
    } else {
        Seq::empty()
    })
}

pub open spec fn levels_events(k: DiscoveryKnobs, count: int, n: int) -> Seq<EventView>
    decreases n,
{
    if n <= 0 {
        Seq::empty()
    } else {
        levels_events(k, count, n - 1) + level_events(k, count, (n - 1) as u32)
    }
}

/// The whole trace: hypotheses, then level by level what is asked of them, with
/// the rejections where they fall and evidence as often as the skew says, then
/// what is left standing.
pub open spec fn trace_of(k: DiscoveryKnobs) -> Seq<EventView> {
    let b = at_least_one(k.branching_factor) as int;
    let count = tree_size(k) as int;
    created_events(b, count) + levels_events(k, count, k.depth + 1)
        + seq![EventView::EvidencePublished] + accepted_events(k, b, count)
}

fn push_created(trace: &mut DiscoveryTrace, hypotheses: &Vec<(u64, Option<u64>)>, b: Ghost<int>)
    requires
        b@ >= 1,
        hypotheses@ == tree_of(b@, hypotheses@.len()),
        hypotheses@.len() <= usize::MAX,
    ensures
        final(trace)@ == old(trace)@ + created_events(b@, hypotheses@.len() as int),
{
    let ghost start = trace@;
    let mut i: usize = 0;
    assert(start =~= start + created_events(b@, 0));
    while i < hypotheses.len()
        invariant
            i <= hypotheses.len() <= usize::MAX,
            hypotheses@ == tree_of(b@, hypotheses@.len()),
            trace@ == start + created_events(b@, i as int),
        decreases hypotheses.len() - i,
    {
        let (id, parent) = hypotheses[i];
        assert(hypotheses@[i as int] == tree_of(b@, hypotheses@.len())[i as int]);
        trace.push(DiscoveryEvent::HypothesisCreated { id, parent });
        assert(trace@ =~= start + created_events(b@, i + 1));
        i = i + 1;
    }
}

fn push_asked(trace: &mut DiscoveryTrace, knobs: &DiscoveryKnobs, count: u64, level: u32)
    requires
        at_least_one(knobs.evaluator_classes) + 9_999 <= u32::MAX,
        count * (level + 1) < u64::MAX,
        level <= knobs.depth,
    ensures
        final(trace)@ == old(trace)@ + asked_events(*knobs, count as int, level, count as int),
{
    let ghost start = trace@;
    let mut id: u64 = 0;
    assert(start =~= start + asked_events(*knobs, count as int, level, 0));
    while id < count
        invariant
            id <= count,
            count * (level + 1) < u64::MAX,
            at_least_one(knobs.evaluator_classes) + 9_999 <= u32::MAX,
            level <= knobs.depth,
            trace@ == start + asked_events(*knobs, count as int, level, id as int),
        decreases count - id,
    {
        proof {
            assert(count * (level + 1) == level * count + count) by (nonlinear_arith);
            assert(0 <= level * count) by (nonlinear_arith)
                requires
                    0 <= level,
                    0 <= count,
            ;
            if level > 0 {
                assert(level * count >= count) by (nonlinear_arith)
                    requires
                        level >= 1,
                        count >= 0,
                ;
            }
        }
        id = id + 1;
        let request: u64 = level as u64 * count + id;
        trace.push(
            DiscoveryEvent::NodeRequested {
                request,
                hypothesis: id,
                node: node(knobs, request, id, level),
            },
        );
        if level > 0 {
            trace.push(
                DiscoveryEvent::DependencyAdded { node: request, depends_on: request - count },
            );
        }
        assert(trace@ =~= start + asked_events(*knobs, count as int, level, id as int));
    }
}

/// Records the rejections, and marks every hypothesis that falls with them.
fn push_rejected(
    trace: &mut DiscoveryTrace,
    knobs: &DiscoveryKnobs,
    hypotheses: &Vec<(u64, Option<u64>)>,
    b: Ghost<int>,
) -> (fallen: Vec<bool>)
    requires
        b@ >= 1,
        hypotheses@ == tree_of(b@, hypotheses@.len()),
        hypotheses@.len() <= usize::MAX,
    ensures
        final(trace)@ == old(trace)@ + rejected_events(*knobs, hypotheses@.len() as int),
        fallen@.len() == hypotheses@.len(),
        forall|i: int| 0 <= i < fallen@.len() ==> #[trigger] fallen@[i] == falls(*knobs, b@, i + 1),
{
    let ghost start = trace@;
    let count: usize = hypotheses.len();
    let mut fallen: Vec<bool> = vec![false; count];
    let mut root: u64 = 0;
    assert(start =~= start + rejected_events(*knobs, 0));
    while root < count as u64
        invariant
            root <= count,
            count == hypotheses@.len(),
            count <= usize::MAX,
            b@ >= 1,
            hypotheses@ == tree_of(b@, hypotheses@.len()),
            trace@ == start + rejected_events(*knobs, root as int),
            fallen@.len() == count,
            forall|i: int|
                0 <= i < count ==> #[trigger] fallen@[i] == fallen_below(
                    *knobs,
                    b@,
                    i + 1,
                    root as int,
                ),
        decreases count - root,
    {
        let ghost before = fallen@;
        root = root + 1;
        let refuted: bool = root != 1 && (splitmix64(root ^ 0xD15C_0A3E) >> 40)
            < knobs.rejection_rate as u64;
        assert(refuted == is_refuted(*knobs, root as int));
        if refuted {
            trace.push(DiscoveryEvent::HypothesisRejected { id: root });
            let mut c: usize = 0;
            while c < count
                invariant
                    c <= count,
                    count == hypotheses@.len(),
                    count <= usize::MAX,
                    b@ >= 1,
                    1 <= root <= count,
                    is_refuted(*knobs, root as int),
                    hypotheses@ == tree_of(b@, hypotheses@.len()),
                    fallen@.len() == count,
                    before.len() == count,
                    forall|i: int|
                        0 <= i < count ==> #[trigger] before[i] == fallen_below(
                            *knobs,
                            b@,
                            i + 1,
                            root - 1,
                        ),
                    forall|i: int|
                        0 <= i < c ==> #[trigger] fallen@[i] == fallen_below(
                            *knobs,
                            b@,
                            i + 1,
                            root as int,
                        ),
                    forall|i: int| c <= i < count ==> #[trigger] fallen@[i] == before[i],
                decreases count - c,
            {
                let candidate: u64 = c as u64 + 1;
                if candidate == root || descends_from(candidate, root, hypotheses, b) {
                    fallen.set(c, true);
                }
                proof {
                    lemma_fallen_step(*knobs, b@, c + 1, root as int);
                    assert(before[c as int] == fallen_below(*knobs, b@, c + 1, root - 1));
                }
                c = c + 1;
            }
        } else {
            proof {
                assert forall|i: int| 0 <= i < count implies #[trigger] fallen@[i] == fallen_below(
                    *knobs,
                    b@,
                    i + 1,
                    root as int,
                ) by {
                    lemma_fallen_step(*knobs, b@, i + 1, root as int);
                }
            }
        }
        assert(trace@ =~= start + rejected_events(*knobs, root as int));
    }
    proof {
        assert forall|i: int| 0 <= i < fallen@.len() implies #[trigger] fallen@[i] == falls(
            *knobs,
            b@,
            i + 1,
        ) by {
            lemma_all_roots(*knobs, b@, i + 1, count as int);
        }
    }
    fallen
}

/// Whether a hypothesis falls by one of the first `n`.
spec fn fallen_below(k: DiscoveryKnobs, b: int, id: int, n: int) -> bool {
    exists|root: int| #[trigger]
        is_refuted(k, root) && 1 <= root <= n && (root == id || descends(b, id, root))
}

proof fn lemma_fallen_step(k: DiscoveryKnobs, b: int, id: int, n: int)
    requires
        n >= 1,
    ensures
        fallen_below(k, b, id, n) == (fallen_below(k, b, id, n - 1) || is_refuted(k, n) && (n == id
            || descends(b, id, n))),
{
    if fallen_below(k, b, id, n) {
        let root = choose|root: int| #[trigger]
            is_refuted(k, root) && 1 <= root <= n && (root == id || descends(b, id, root));
        if root < n {
            assert(is_refuted(k, root));
        }
    }
    if fallen_below(k, b, id, n - 1) {
        let root = choose|root: int| #[trigger]
            is_refuted(k, root) && 1 <= root <= n - 1 && (root == id || descends(b, id, root));
        assert(is_refuted(k, root));
    }
}

proof fn lemma_ancestor_is_earlier(b: int, id: int, root: int)
    requires
        b >= 1,
        descends(b, id, root),
    ensures
        1 <= root < id,
    decreases id,
{
    lemma_parent(b, id);
    if parent_of(b, id) != root {
        lemma_ancestor_is_earlier(b, parent_of(b, id), root);
    }
}

proof fn lemma_all_roots(k: DiscoveryKnobs, b: int, id: int, n: int)
    requires
        b >= 1,
        1 <= id <= n,
    ensures
        fallen_below(k, b, id, n) == falls(k, b, id),
{
    if falls(k, b, id) && !is_refuted(k, id) {
        let root = choose|root: int| #[trigger] is_refuted(k, root) && descends(b, id, root);
        lemma_ancestor_is_earlier(b, id, root);
        assert(is_refuted(k, root));
    }
}

fn push_accepted(
    trace: &mut DiscoveryTrace,
    knobs: &DiscoveryKnobs,
    fallen: &Vec<bool>,
    b: Ghost<int>,
)
    requires
        fallen@.len() <= usize::MAX,
        forall|i: int| 0 <= i < fallen@.len() ==> #[trigger] fallen@[i] == falls(*knobs, b@, i + 1),
    ensures
        final(trace)@ == old(trace)@ + accepted_events(*knobs, b@, fallen@.len() as int),
{
    let ghost start = trace@;
    let mut i: usize = 0;
    assert(start =~= start + accepted_events(*knobs, b@, 0));
    while i < fallen.len()
        invariant
            i <= fallen.len() <= usize::MAX,
            forall|i: int|
                0 <= i < fallen@.len() ==> #[trigger] fallen@[i] == falls(*knobs, b@, i + 1),
            trace@ == start + accepted_events(*knobs, b@, i as int),
        decreases fallen.len() - i,
    {
        if !fallen[i] {
            trace.push(DiscoveryEvent::HypothesisAccepted { id: i as u64 + 1 });
        }
        assert(trace@ =~= start + accepted_events(*knobs, b@, i + 1));
        i = i + 1;
    }
}

/// One trace: every executor sees precisely these events in precisely this
/// order.
pub fn generate_trace(knobs: &DiscoveryKnobs) -> (trace: DiscoveryTrace)
    requires
        tree_size(*knobs) <= usize::MAX,
        tree_size(*knobs) * (knobs.depth + 1) < u64::MAX,
        at_least_one(knobs.evaluator_classes) + 9_999 <= u32::MAX,
    ensures
        trace@ == trace_of(*knobs),
{
    let hypotheses: Vec<(u64, Option<u64>)> = hypothesis_tree(
        knobs.branching_factor,
        knobs.depth,
    );
    let ghost b = at_least_one(knobs.branching_factor) as int;
    let ghost size = tree_size(*knobs) as int;
    let count: u64 = hypotheses.len() as u64;
    let mut trace = DiscoveryTrace::new();
    push_created(&mut trace, &hypotheses, Ghost(b));
    let ghost start = trace@;
    assert(start =~= created_events(b, size));
    let reject_at: u32 = if knobs.rejection_depth < knobs.depth {
        knobs.rejection_depth
    } else {
        knobs.depth
    };
    let skew: u64 = one_or_more(knobs.arrival_skew) as u64;
    let mut fallen: Vec<bool> = Vec::new();
    let mut level: u64 = 0;
    assert(start =~= start + levels_events(*knobs, size, 0));
    while level <= knobs.depth as u64
        invariant
            level <= knobs.depth + 1,
            size == tree_size(*knobs),
            size <= usize::MAX,
            size * (knobs.depth + 1) < u64::MAX,
            at_least_one(knobs.evaluator_classes) + 9_999 <= u32::MAX,
            b == at_least_one(knobs.branching_factor),
            b >= 1,
            hypotheses@ == tree_of(b, size as nat),
            hypotheses@.len() == size,
            count == size,
            reject_at == rejection_level(*knobs),
            reject_at <= knobs.depth,
            skew == at_least_one(knobs.arrival_skew),
            trace@ == start + levels_events(*knobs, size, level as int),
            level > reject_at ==> fallen@.len() == size,
            level > reject_at ==> forall|i: int|
                0 <= i < fallen@.len() ==> #[trigger] fallen@[i] == falls(*knobs, b, i + 1),
        decreases knobs.depth + 1 - level,
    {
        let ghost before = trace@;
        let now: u32 = level as u32;
        proof {
            assert(size * (now + 1) <= size * (knobs.depth + 1)) by (nonlinear_arith)
                requires
                    0 <= size,
                    now <= knobs.depth,
            ;
        }
        push_asked(&mut trace, knobs, count, now);
        let ghost asked = trace@;
        if now == reject_at {
            fallen = push_rejected(&mut trace, knobs, &hypotheses, Ghost(b));
        }
        let ghost rejected = trace@;
        if (level + 1) % skew == 0 {
            trace.push(DiscoveryEvent::EvidencePublished);
        }
        proof {
            assert(rejected =~= asked + (if now == rejection_level(*knobs) {
                rejected_events(*knobs, size)
            } else {
                Seq::<EventView>::empty()
            }));
            assert(trace@ =~= before + level_events(*knobs, size, now));
            assert(trace@ =~= start + levels_events(*knobs, size, level + 1));
        }
        level = level + 1;
    }
    trace.push(DiscoveryEvent::EvidencePublished);
    push_accepted(&mut trace, knobs, &fallen, Ghost(b));
    assert(trace@ =~= trace_of(*knobs));
    trace
}

/// A hypothesis stands exactly where neither it nor one that it was made from
/// is refuted, and the first always stands.
pub proof fn law_the_first_hypothesis_stands(k: DiscoveryKnobs)
    ensures
        !falls(k, at_least_one(k.branching_factor) as int, 1),
{
    let b = at_least_one(k.branching_factor) as int;
    assert forall|root: int| #[trigger] is_refuted(k, root) implies !descends(b, 1, root) by {}
}

/// What falls with a hypothesis falls with all that was made from it.
pub proof fn law_a_fall_takes_descendants_along(k: DiscoveryKnobs, id: int)
    requires
        id >= 2,
        falls(
            k,
            at_least_one(k.branching_factor) as int,
            parent_of(at_least_one(k.branching_factor) as int, id),
        ),
    ensures
        falls(k, at_least_one(k.branching_factor) as int, id),
{
    let b = at_least_one(k.branching_factor) as int;
    let up = parent_of(b, id);
    if is_refuted(k, up) {
        assert(descends(b, id, up));
    } else {
        let root = choose|root: int| #[trigger] is_refuted(k, root) && descends(b, up, root);
        assert(is_refuted(k, root) && descends(b, id, root));
    }
}

// ---- the evaluators --------------------------------------------------------

/// The body of a class: it multiplies by the class and two more, and adds one.
pub open spec fn discovery_view(class: u32) -> ProgramView {
    ProgramView {
        id: (10_000 + class) as u32,
        layout: seq![FieldWidth::U64],
        aux: None,
        ops: seq![
            Op::Load(0),
            Op::Const((class + 2) as u64),
            Op::Mul(0, 1),
            Op::Const(1),
            Op::Add(2, 3),
        ],
        stores: seq![Store { field: 0, value: 4 }],
    }
}

fn evaluator_program(class: u32) -> (program: EvaluatorProgram)
    requires
        10_000 + class <= u32::MAX,
    ensures
        program@ == discovery_view(class),
        program.well_formed(),
{
    let ops: Vec<Op> = vec![
        Op::Load(0),
        Op::Const(class as u64 + 2),
        Op::Mul(0, 1),
        Op::Const(1),
        Op::Add(2, 3),
    ];
    let stores: Vec<Store> = vec![Store { field: 0, value: 4 }];
    let widths: Vec<FieldWidth> = vec![FieldWidth::U64];
    proof {
        let p = discovery_view(class);
        assert(ops@ =~= p.ops);
        assert(stores@ =~= p.stores);
        assert(widths@ =~= p.layout);
        body::lemma_even_offsets(p.layout, FieldWidth::U64, 1);
        body::lemma_plain_is_valid(p);
    }
    EvaluatorProgram::new(
        10_000 + class,
        labelled("discovery_", class),
        ElementLayout::new(widths),
        ops,
        stores,
    ).unwrap()
}

/// The evaluators that a trace of this many classes asks for.
pub fn evaluator_programs(classes: u32) -> (programs: Vec<EvaluatorProgram>)
    requires
        at_least_one(classes) + 9_999 <= u32::MAX,
    ensures
        programs@.len() == at_least_one(classes),
        forall|i: int|
            0 <= i < programs@.len() ==> (#[trigger] programs@[i])@ == discovery_view(i as u32)
                && programs@[i].well_formed(),
{
    let count: u32 = one_or_more(classes);
    let mut programs: Vec<EvaluatorProgram> = Vec::new();
    let mut class: u32 = 0;
    while class < count
        invariant
            class <= count,
            count + 9_999 <= u32::MAX,
            programs@.len() == class,
            forall|i: int|
                0 <= i < programs@.len() ==> (#[trigger] programs@[i])@ == discovery_view(i as u32)
                    && programs@[i].well_formed(),
        decreases count - class,
    {
        programs.push(evaluator_program(class));
        class = class + 1;
    }
    programs
}

/// Every evaluation that a trace asks for has its evaluator among those of the
/// trace's classes.
pub proof fn law_every_evaluation_has_an_evaluator(k: DiscoveryKnobs, hypothesis: u64, level: u32)
    requires
        at_least_one(k.evaluator_classes) + 9_999 <= u32::MAX,
    ensures
        class_of(k, hypothesis, level) < at_least_one(k.evaluator_classes),
        evaluation_of(k, hypothesis, level).evaluator == discovery_view(
            class_of(k, hypothesis, level),
        ).id,
{
}

} // verus!
