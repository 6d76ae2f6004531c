//! Discovery traces: hypotheses, what is asked of them, and what came of it.

use crate::executives::batch::BackendError;
use vstd::prelude::*;

verus! {

#[derive(Debug)]
pub enum DiscoveryError {
    InvalidTrace(&'static str),
    Backend(BackendError),
}

/// Which evaluations may run in one batch.
#[derive(Clone, Copy, Debug, PartialEq, Eq, Structural)]
pub enum FusionClass {
    Pointwise,
}

/// The digest of a module, by the text that is digested.
#[derive(Debug)]
pub struct ModuleDigest {
    pub source: String,
}

/// The digest of an object's bytes.
#[derive(Clone, Copy, Debug, PartialEq, Eq)]
pub struct ObjectDigest {
    pub bytes: [u8; 32],
}

/// One evaluation that a trace asks for.
#[derive(Debug)]
pub struct EvaluationSpec {
    pub operation: String,
    pub module: ModuleDigest,
    pub evaluator: u32,
    pub inputs: Vec<u8>,
    pub element_count: u32,
    pub element_stride: u32,
    pub fusion: FusionClass,
    /// What tells it apart from evaluations that are otherwise the same.
    pub contract: Vec<u8>,
}

#[verifier::ext_equal]
pub ghost struct EvaluationView {
    pub operation: Seq<char>,
    pub module: Seq<char>,
    pub evaluator: u32,
    pub inputs: Seq<u8>,
    pub element_count: u32,
    pub element_stride: u32,
    pub fusion: FusionClass,
    pub contract: Seq<u8>,
}

impl View for EvaluationSpec {
    type V = EvaluationView;

    open spec fn view(&self) -> EvaluationView {
        EvaluationView {
            operation: self.operation@,
            module: self.module.source@,
            evaluator: self.evaluator,
            inputs: self.inputs@,
            element_count: self.element_count,
            element_stride: self.element_stride,
            fusion: self.fusion,
            contract: self.contract@,
        }
    }
}

impl EvaluationSpec {
    pub fn new(
        operation: String,
        module: ModuleDigest,
        evaluator: u32,
        inputs: Vec<u8>,
        element_count: u32,
        element_stride: u32,
        fusion: FusionClass,
    ) -> (spec: Self)
        ensures
            spec@ == (EvaluationView {
                operation: operation@,
                module: module.source@,
                evaluator,
                inputs: inputs@,
                element_count,
                element_stride,
                fusion,
                contract: Seq::empty(),
            }),
    {
        let spec = EvaluationSpec {
            operation,
            module,
            evaluator,
            inputs,
            element_count,
            element_stride,
            fusion,
            contract: Vec::new(),
        };
        assert(spec@.contract =~= Seq::<u8>::empty());
        spec
    }
}

#[derive(Debug)]
pub enum DiscoveryNode {
    Derivation(EvaluationSpec),
    Aggregate(EvaluationSpec),
    Decision(EvaluationSpec),
    /// One of many samples of the same evaluation: never shared with another.
    Observation { sample: u64, evaluation: EvaluationSpec },
}

pub ghost enum NodeView {
    Derivation(EvaluationView),
    Aggregate(EvaluationView),
    Decision(EvaluationView),
    Observation { sample: u64, evaluation: EvaluationView },
}

impl View for DiscoveryNode {
    type V = NodeView;

    open spec fn view(&self) -> NodeView {
        match self {
            DiscoveryNode::Derivation(spec) => NodeView::Derivation(spec@),
            DiscoveryNode::Aggregate(spec) => NodeView::Aggregate(spec@),
            DiscoveryNode::Decision(spec) => NodeView::Decision(spec@),
            DiscoveryNode::Observation { sample, evaluation } => NodeView::Observation {
                sample: *sample,
                evaluation: evaluation@,
            },
        }
    }
}

#[derive(Debug)]
pub enum DiscoveryEvent {
    HypothesisCreated { id: u64, parent: Option<u64> },
    NodeRequested { request: u64, hypothesis: u64, node: DiscoveryNode },
    DependencyAdded { node: u64, depends_on: u64 },
    EvidencePublished,
    HypothesisRejected { id: u64 },
    HypothesisAccepted { id: u64 },
}

pub ghost enum EventView {
    HypothesisCreated { id: u64, parent: Option<u64> },
    NodeRequested { request: u64, hypothesis: u64, node: NodeView },
    DependencyAdded { node: u64, depends_on: u64 },
    EvidencePublished,
    HypothesisRejected { id: u64 },
    HypothesisAccepted { id: u64 },
}

impl View for DiscoveryEvent {
    type V = EventView;

    open spec fn view(&self) -> EventView {
        match self {
            DiscoveryEvent::HypothesisCreated { id, parent } => EventView::HypothesisCreated {
                id: *id,
                parent: *parent,
            },
            DiscoveryEvent::NodeRequested { request, hypothesis, node } => {
                EventView::NodeRequested { request: *request, hypothesis: *hypothesis, node: node@ }
            },
            DiscoveryEvent::DependencyAdded { node, depends_on } => EventView::DependencyAdded {
                node: *node,
                depends_on: *depends_on,
            },
            DiscoveryEvent::EvidencePublished => EventView::EvidencePublished,
            DiscoveryEvent::HypothesisRejected { id } => EventView::HypothesisRejected { id: *id },
            DiscoveryEvent::HypothesisAccepted { id } => EventView::HypothesisAccepted { id: *id },
        }
    }
}

/// What every executor of a discovery sees, in the order it sees it.
#[derive(Debug)]
pub struct DiscoveryTrace {
    pub events: Vec<DiscoveryEvent>,
}

impl View for DiscoveryTrace {
    type V = Seq<EventView>;

    open spec fn view(&self) -> Seq<EventView> {
        Seq::new(self.events@.len(), |i: int| self.events@[i]@)
    }
}

impl DiscoveryTrace {
    pub fn new() -> (trace: Self)
        ensures
            trace@ == Seq::<EventView>::empty(),
    {
        let trace = DiscoveryTrace { events: Vec::new() };
        assert(trace@ =~= Seq::<EventView>::empty());
        trace
    }

    pub fn push(&mut self, event: DiscoveryEvent)
        ensures
            final(self)@ == old(self)@.push(event@),
    {
        let ghost before = self@;
        self.events.push(event);
        assert(self@ =~= before.push(event@));
    }
}

} // verus!
