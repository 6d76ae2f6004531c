//! The host side of a search and of frame graphs that stay resident on a Metal
//! device.

use crate::compiler::body::EvaluatorProgram;
use crate::device::{DeviceLaneAccess, DeviceLaneOperation, DeviceOperationJournal, JournalView};
use crate::executives::batch::BackendError;
use crate::executives::metal_scheduler;
use crate::executives::metal_scheduler::{
    reference_lane_conflicts, DeviceEvaluation, DeviceEvaluatorLane, DeviceEvaluatorResult,
    DeviceLaneConflict, LaneValidationError, FIRST_FRAME_CLASS,
};
use std::collections::BTreeMap;
use vstd::prelude::*;

verus! {

/// A search to run on the device.
#[derive(Clone, Copy, Debug, PartialEq, Eq, Structural)]
pub struct ResidentSearchConfig {
    pub roots: u32,
    pub depth: u32,
    pub branching: u32,
    pub work_iters: u32,
    pub class_count: u32,
    pub cohort_width: u32,
}

/// One node as the device holds it.
#[derive(Clone, Copy, Debug, PartialEq, Eq, Structural)]
pub struct ResidentNode {
    pub value: u64,
    pub depth: u32,
    pub branching: u32,
    pub work_iters: u32,
    pub class_count: u32,
}

/// What the device holds constant over a search.
#[derive(Clone, Copy, Debug, PartialEq, Eq, Structural)]
pub struct ResidentConfig {
    pub capacity: u32,
    pub branching: u32,
    pub work_iters: u32,
    pub class_count: u32,
    pub cohort_width: u32,
}

#[derive(Clone, Copy, Debug, PartialEq, Eq, Structural)]
pub struct ResidentSearchResult {
    pub nodes: u32,
    pub epochs: u32,
    pub checksum_sum: u32,
    pub checksum_xor: u32,
    pub overflow: u32,
    pub cohorts: u32,
    pub lane_slots: u32,
    pub useful_lane_slots: u32,
}

/// Nodes at level `n`: each node has `branching` children.
pub open spec fn level_size(config: ResidentSearchConfig, n: nat) -> int
    decreases n,
{
    if n == 0 {
        config.roots as int
    } else {
        level_size(config, (n - 1) as nat) * config.branching
    }
}

/// Nodes above level `n`.
pub open spec fn nodes_above(config: ResidentSearchConfig, n: nat) -> int
    decreases n,
{
    if n == 0 {
        0
    } else {
        nodes_above(config, (n - 1) as nat) + level_size(config, (n - 1) as nat)
    }
}

/// All nodes of the search.
pub open spec fn node_total(config: ResidentSearchConfig) -> int {
    nodes_above(config, (config.depth + 1) as nat)
}

pub proof fn lemma_levels(config: ResidentSearchConfig, n: nat, m: nat)
    requires
        n <= m,
    ensures
        0 <= level_size(config, n),
        0 <= nodes_above(config, n) <= nodes_above(config, m),
    decreases m,
{
    lemma_level_size(config, n);
    if m > n {
        lemma_levels(config, n, (m - 1) as nat);
        lemma_level_size(config, (m - 1) as nat);
    } else {
        lemma_nodes_above(config, n);
    }
}

proof fn lemma_level_size(config: ResidentSearchConfig, n: nat)
    ensures
        0 <= level_size(config, n),
    decreases n,
{
    if n > 0 {
        lemma_level_size(config, (n - 1) as nat);
        let before = level_size(config, (n - 1) as nat);
        assert(0 <= before * config.branching) by (nonlinear_arith)
            requires
                0 <= before,
        ;
    }
}

proof fn lemma_nodes_above(config: ResidentSearchConfig, n: nat)
    ensures
        0 <= nodes_above(config, n),
    decreases n,
{
    if n > 0 {
        lemma_nodes_above(config, (n - 1) as nat);
        lemma_level_size(config, (n - 1) as nat);
    }
}

/// One epoch of a resident search: where its trace starts.
#[derive(Clone, Copy, Debug, PartialEq, Eq, Structural)]
pub struct EpochDispatch {
    pub epoch: u32,
    pub trace_offset: u32,
}

/// What the device is handed to run a search.
#[derive(Debug)]
pub struct SearchPlan {
    pub constants: ResidentConfig,
    pub roots: Vec<ResidentNode>,
    pub epochs: Vec<EpochDispatch>,
}

/// The search cannot be numbered in 32 bits: its nodes, or the children that
/// its last level would have.
pub open spec fn is_too_large(config: ResidentSearchConfig) -> bool {
    node_total(config) > u32::MAX || exists|n: nat|
        n <= config.depth + 1 && #[trigger] level_size(config, n) > u32::MAX
}

pub open spec fn root_of(config: ResidentSearchConfig, i: int) -> ResidentNode {
    ResidentNode {
        value: (i + 1) as u64,
        depth: config.depth,
        branching: config.branching,
        work_iters: config.work_iters,
        class_count: config.class_count,
    }
}

pub open spec fn search_plan_is(config: ResidentSearchConfig, plan: SearchPlan) -> bool {
    let total = node_total(config);
    let most = if total > config.roots {
        total
    } else {
        config.roots as int
    };
    &&& plan.constants == (ResidentConfig {
        capacity: if most > 1 {
            most as u32
        } else {
            1
        },
        branching: config.branching,
        work_iters: config.work_iters,
        class_count: config.class_count,
        cohort_width: if config.cohort_width > 1 {
            config.cohort_width
        } else {
            1
        },
    })
    &&& plan.roots@ == Seq::new(config.roots as nat, |i: int| root_of(config, i))
    &&& plan.epochs@.len() == config.depth + 1
    &&& forall|e: int|
        0 <= e <= config.depth ==> #[trigger] plan.epochs@[e] == (EpochDispatch {
            epoch: e as u32,
            trace_offset: nodes_above(config, e as nat) as u32,
        })
}

impl ResidentSearchConfig {
    /// How many nodes the search has, where they can be numbered in 32 bits.
    pub fn node_count(&self) -> (count: Option<u32>)
        ensures
            count == if node_total(*self) > u32::MAX {
                None
            } else {
                Some(node_total(*self) as u32)
            },
    {
        let mut total: u64 = 0;
        let mut level: u64 = self.roots as u64;
        let mut n: u64 = 0;
        while n <= self.depth as u64
            invariant
                n <= self.depth + 1,
                total <= u32::MAX,
                total == nodes_above(*self, n as nat),
                level <= u32::MAX ==> level == level_size(*self, n as nat),
                level > u32::MAX ==> level_size(*self, n as nat) > u32::MAX,
                level <= 0xffff_ffff * 0xffff_ffff,
            decreases self.depth + 1 - n,
        {
            if level > u32::MAX as u64 || total + level > u32::MAX as u64 {
                proof {
                    lemma_levels(*self, (n + 1) as nat, (self.depth + 1) as nat);
                }
                return None;
            }
            total = total + level;
            proof {
                assert(level * self.branching <= 0xffff_ffff * 0xffff_ffff) by (nonlinear_arith)
                    requires
                        level <= 0xffff_ffff,
                        self.branching <= 0xffff_ffff,
                ;
            }
            level = level * self.branching as u64;
            n = n + 1;
        }
        Some(total as u32)
    }
}

/// What the device is handed to run a search: its constants, its roots, and one
/// epoch for each level.
pub fn plan_search(config: ResidentSearchConfig) -> (plan: Result<SearchPlan, BackendError>)
    ensures
        match plan {
            Ok(plan) => !is_too_large(config) && search_plan_is(config, plan),
            Err(error) => is_too_large(config) && error == BackendError::InvalidInput,
        },
{
    let total: u32 = match config.node_count() {
        Some(total) => total,
        None => {
            return Err(BackendError::InvalidInput);
        },
    };
    let mut epochs: Vec<EpochDispatch> = Vec::new();
    let mut trace_offset: u64 = 0;
    let mut frontier: u64 = config.roots as u64;
    let mut epoch: u64 = 0;
    while epoch <= config.depth as u64
        invariant
            epoch <= config.depth + 1,
            node_total(config) <= u32::MAX,
            trace_offset == nodes_above(config, epoch as nat),
            trace_offset <= u32::MAX,
            frontier == level_size(config, epoch as nat),
            frontier <= u32::MAX,
            forall|n: nat| n <= epoch ==> #[trigger] level_size(config, n) <= u32::MAX,
            epochs@.len() == epoch,
            forall|e: int|
                0 <= e < epoch ==> #[trigger] epochs@[e] == (EpochDispatch {
                    epoch: e as u32,
                    trace_offset: nodes_above(config, e as nat) as u32,
                }),
        decreases config.depth + 1 - epoch,
    {
        epochs.push(EpochDispatch { epoch: epoch as u32, trace_offset: trace_offset as u32 });
        proof {
            lemma_levels(config, (epoch + 1) as nat, (config.depth + 1) as nat);
            assert(frontier * config.branching <= 0xffff_ffff * 0xffff_ffff) by (nonlinear_arith)
                requires
                    frontier <= 0xffff_ffff,
                    config.branching <= 0xffff_ffff,
            ;
        }
        trace_offset = trace_offset + frontier;
        let next: u64 = frontier * config.branching as u64;
        if next > u32::MAX as u64 {
            assert(level_size(config, (epoch + 1) as nat) > u32::MAX);
            return Err(BackendError::InvalidInput);
        }
        frontier = next;
        epoch = epoch + 1;
    }
    let mut roots: Vec<ResidentNode> = Vec::new();
    let mut i: u32 = 0;
    while i < config.roots
        invariant
            i <= config.roots,
            roots@ =~= Seq::new(i as nat, |j: int| root_of(config, j)),
        decreases config.roots - i,
    {
        roots.push(
            ResidentNode {
                value: i as u64 + 1,
                depth: config.depth,
                branching: config.branching,
                work_iters: config.work_iters,
                class_count: config.class_count,
            },
        );
        i = i + 1;
    }
    let most: u32 = if total > config.roots {
        total
    } else {
        config.roots
    };
    let constants = ResidentConfig {
        capacity: if most > 1 {
            most
        } else {
            1
        },
        branching: config.branching,
        work_iters: config.work_iters,
        class_count: config.class_count,
        cohort_width: if config.cohort_width > 1 {
            config.cohort_width
        } else {
            1
        },
    };
    Ok(SearchPlan { constants, roots, epochs })
}

/// The traces of a search's epochs do not overlap and fill the buffer that the
/// device was given.
pub proof fn law_search_traces_fit(config: ResidentSearchConfig, e: nat)
    requires
        e <= config.depth,
    ensures
        nodes_above(config, e) + level_size(config, e) == nodes_above(config, e + 1),
        nodes_above(config, e + 1) <= node_total(config),
{
    lemma_levels(config, e + 1, (config.depth + 1) as nat);
}

/// What a search's state holds, word by word.
pub open spec fn search_result(words: Seq<u32>) -> ResidentSearchResult {
    ResidentSearchResult {
        nodes: words[3],
        epochs: words[4],
        checksum_sum: words[5],
        checksum_xor: words[6],
        overflow: words[7],
        cohorts: words[8],
        lane_slots: words[9],
        useful_lane_slots: words[10],
    }
}

/// The words of a search's state, as the device left them.
pub fn finish_search(completed: bool, words: &Vec<u32>) -> (result: Result<
    ResidentSearchResult,
    BackendError,
>)
    requires
        words@.len() == 11,
    ensures
        result == if !completed {
            Err::<ResidentSearchResult, _>(BackendError::ExecutionFailed)
        } else {
            Ok(search_result(words@))
        },
{
    if !completed {
        return Err(BackendError::ExecutionFailed);
    }
    Ok(
        ResidentSearchResult {
            nodes: words[3],
            epochs: words[4],
            checksum_sum: words[5],
            checksum_xor: words[6],
            overflow: words[7],
            cohorts: words[8],
            lane_slots: words[9],
            useful_lane_slots: words[10],
        },
    )
}

/// One node that a search visited.
#[derive(Clone, Copy, Debug, PartialEq, Eq, Structural)]
pub struct ResidentTraceEvent {
    pub value: u64,
    pub epoch: u32,
    pub lane: u32,
    pub lane_sequence: u32,
    pub run_class: u32,
    pub word: u32,
    pub reserved: u32,
}

/// The words of a search's state, with one event for each node that they count.
/// A state that counts more nodes than the trace has events is a failed
/// execution.
pub fn finish_search_with_trace(
    completed: bool,
    words: &Vec<u32>,
    trace: Vec<ResidentTraceEvent>,
) -> (result: Result<(ResidentSearchResult, Vec<ResidentTraceEvent>), BackendError>)
    requires
        words@.len() == 11,
    ensures
        match result {
            Ok((found, events)) => {
                &&& completed
                &&& words@[3] <= trace@.len()
                &&& found == search_result(words@)
                &&& events@ == trace@.take(words@[3] as int)
            },
            Err(error) => {
                &&& !completed || words@[3] > trace@.len()
                &&& error == BackendError::ExecutionFailed
            },
        },
{
    let found = match finish_search(completed, words) {
        Ok(found) => found,
        Err(error) => {
            return Err(error);
        },
    };
    if found.nodes as usize > trace.len() {
        return Err(BackendError::ExecutionFailed);
    }
    let mut events: Vec<ResidentTraceEvent> = trace;
    events.truncate(found.nodes as usize);
    Ok((found, events))
}

// ---- frame graphs ----------------------------------------------------------

#[derive(Clone, Copy, Debug, PartialEq, Eq, Structural)]
pub struct ResidentFrameBinding {
    pub continuation: u64,
    pub process: u64,
    pub frame: u64,
    pub actor: u64,
    pub target: u64,
}

#[derive(Clone, Copy, Debug, PartialEq, Eq, Structural)]
pub struct ResidentFrameGraphConfig {
    pub run_class: u32,
    pub epochs: u32,
    pub cohort_width: u32,
}

#[derive(Clone, Copy, Debug, PartialEq, Eq, Structural)]
pub struct ResidentFrameTraceEvent {
    pub epoch: u32,
    pub lane: u32,
    pub run_class: u32,
    pub word: u32,
}

/// What a frame graph left: the frames, two accesses and two operations for
/// each lane, and one trace event for each lane and epoch.
#[derive(Clone, Debug, Default, PartialEq, Eq)]
pub struct ResidentFrameGraphResult {
    pub frames: Vec<u8>,
    pub accesses: Vec<DeviceLaneAccess>,
    pub operations: Vec<DeviceOperationJournal>,
    pub trace: Vec<ResidentFrameTraceEvent>,
}

#[verifier::ext_equal]
pub ghost struct GraphView {
    pub frames: Seq<u8>,
    pub accesses: Seq<DeviceLaneAccess>,
    pub operations: Seq<JournalView>,
    pub trace: Seq<ResidentFrameTraceEvent>,
}

impl View for ResidentFrameGraphResult {
    type V = GraphView;

    open spec fn view(&self) -> GraphView {
        GraphView {
            frames: self.frames@,
            accesses: self.accesses@,
            operations: journal_views(self.operations@),
            trace: self.trace@,
        }
    }
}

impl ResidentFrameGraphResult {
    /// Another graph with the same contents.
    pub fn duplicate(&self) -> (copy: Self)
        ensures
            copy@ == self@,
    {
        let mut accesses: Vec<DeviceLaneAccess> = Vec::new();
        let mut i: usize = 0;
        while i < self.accesses.len()
            invariant
                i <= self.accesses.len(),
                accesses@ =~= self.accesses@.take(i as int),
            decreases self.accesses.len() - i,
        {
            accesses.push(self.accesses[i]);
            i = i + 1;
        }
        let mut operations: Vec<DeviceOperationJournal> = Vec::new();
        let mut n: usize = 0;
        while n < self.operations.len()
            invariant
                n <= self.operations.len(),
                journal_views(operations@) =~= journal_views(self.operations@).take(n as int),
            decreases self.operations.len() - n,
        {
            let ghost before = journal_views(operations@);
            let copy: DeviceOperationJournal = copy_journal(&self.operations[n]);
            operations.push(copy);
            assert(journal_views(operations@) =~= before.push(copy@));
            n = n + 1;
        }
        let copy = ResidentFrameGraphResult {
            frames: vstd::slice::slice_to_vec(self.frames.as_slice()),
            accesses,
            operations,
            trace: copy_trace(&self.trace),
        };
        assert(copy@ =~= self@);
        copy
    }
}

fn copy_journal(journal: &DeviceOperationJournal) -> (copy: DeviceOperationJournal)
    ensures
        copy@ == journal@,
{
    let mut operations: Vec<DeviceLaneOperation> = Vec::new();
    let mut i: usize = 0;
    while i < journal.operations.len()
        invariant
            i <= journal.operations.len(),
            operations@ =~= journal.operations@.take(i as int),
        decreases journal.operations.len() - i,
    {
        operations.push(journal.operations[i]);
        i = i + 1;
    }
    let copy = DeviceOperationJournal {
        operations,
        payload: vstd::slice::slice_to_vec(journal.payload.as_slice()),
    };
    assert(copy@ =~= journal@);
    copy
}

/// Bytes of one trace event.
pub const TRACE_EVENT_BYTES: usize = 16;

#[derive(Clone, Copy, Debug, PartialEq, Eq, Structural)]
pub struct FrameGraphPlan {
    /// The class whose handler runs, and how often.
    pub run_class: u32,
    pub epochs: u32,
    pub stride: u32,
    pub count: u32,
    pub frame_bytes: usize,
    pub trace_count: usize,
    /// Which of the two frame buffers holds the frames at the end.
    pub final_buffer: usize,
}

/// The host's record of a resident search: the frame handlers it has pipelines
/// for, how wide a cohort of frames is, and the graph that awaits validation.
pub struct MetalResidentSearch {
    pub frame_handlers: BTreeMap<u32, u32>,
    pub frame_cohort_width: u32,
    pub last_frame_graph: Option<ResidentFrameGraphResult>,
    pub last_frame_trace: Vec<ResidentFrameTraceEvent>,
}

/// Why a frame graph is refused, if it is.
pub open spec fn graph_refusal(
    handlers: Map<u32, u32>,
    config: ResidentFrameGraphConfig,
    bindings: int,
    frames: int,
) -> Option<BackendError> {
    if !handlers.dom().contains(config.run_class) {
        Some(BackendError::UnsupportedEvaluator)
    } else if bindings > u32::MAX || config.cohort_width == 0 || frames != bindings
        * handlers[config.run_class] {
        Some(BackendError::InvalidInput)
    } else if bindings > 0 && bindings * config.epochs * 16 > usize::MAX {
        Some(BackendError::InvalidInput)
    } else {
        None
    }
}

impl MetalResidentSearch {
    pub fn new() -> (search: Self)
        ensures
            search.frame_handlers@ == Map::<u32, u32>::empty(),
            search.frame_cohort_width == 32,
            search.last_frame_graph is None,
            search.last_frame_trace@ == Seq::<ResidentFrameTraceEvent>::empty(),
    {
        MetalResidentSearch {
            frame_handlers: BTreeMap::new(),
            frame_cohort_width: 32,
            last_frame_graph: None,
            last_frame_trace: Vec::new(),
        }
    }

    pub fn last_frame_trace(&self) -> (trace: &Vec<ResidentFrameTraceEvent>)
        ensures
            trace == self.last_frame_trace,
    {
        &self.last_frame_trace
    }

    /// A cohort of frames has at least one lane.
    pub fn set_frame_cohort_width(&mut self, width: u32) -> (result: Result<(), BackendError>)
        ensures
            result == if width == 0 {
                Err::<(), _>(BackendError::InvalidInput)
            } else {
                Ok(())
            },
            final(self).frame_cohort_width == if width == 0 {
                old(self).frame_cohort_width
            } else {
                width
            },
            final(self).frame_handlers == old(self).frame_handlers,
            final(self).last_frame_graph == old(self).last_frame_graph,
            final(self).last_frame_trace == old(self).last_frame_trace,
    {
        if width == 0 {
            return Err(BackendError::InvalidInput);
        }
        self.frame_cohort_width = width;
        Ok(())
    }

    /// Records a frame handler that the device has compiled. A handler sees its
    /// own frame alone.
    pub fn install_frame_handler(&mut self, run_class: u32, program: &EvaluatorProgram) -> (result:
        Result<(), BackendError>)
        requires
            program.well_formed(),
        ensures
            ({
                let refused = run_class < 1024 || program@.aux is Some || program@.stride() == 0
                    || metal_scheduler::any_gathers(program@.ops);
                &&& result == if refused {
                    Err::<(), _>(BackendError::InvalidInput)
                } else {
                    Ok(())
                }
                &&& final(self).frame_handlers@ == if refused {
                    old(self).frame_handlers@
                } else {
                    old(self).frame_handlers@.insert(run_class, program@.stride() as u32)
                }
            }),
            final(self).frame_cohort_width == old(self).frame_cohort_width,
            final(self).last_frame_graph == old(self).last_frame_graph,
            final(self).last_frame_trace == old(self).last_frame_trace,
    {
        if run_class < FIRST_FRAME_CLASS || program.binds_aux() || program.stride() == 0
            || metal_scheduler::reads_place(&program.ops, false) {
            return Err(BackendError::InvalidInput);
        }
        self.frame_handlers.insert(run_class, program.stride());
        Ok(())
    }

    /// What the device is handed to run a frame graph. Nothing is handed over
    /// where there are no lanes.
    pub fn plan_frame_graph(&self, config: ResidentFrameGraphConfig, bindings: usize, frames: usize) -> (plan:
        Result<Option<FrameGraphPlan>, BackendError>)
        ensures
            match plan {
                Err(error) => graph_refusal(
                    self.frame_handlers@,
                    config,
                    bindings as int,
                    frames as int,
                ) == Some(error),
                Ok(plan) => {
                    &&& graph_refusal(
                        self.frame_handlers@,
                        config,
                        bindings as int,
                        frames as int,
                    ) is None
                    &&& plan is None <==> bindings == 0
                    &&& plan matches Some(plan) ==> plan == (FrameGraphPlan {
                        run_class: config.run_class,
                        epochs: config.epochs,
                        stride: self.frame_handlers@[config.run_class],
                        count: bindings as u32,
                        frame_bytes: frames,
                        trace_count: (bindings * config.epochs) as usize,
                        final_buffer: (config.epochs as int % 2) as usize,
                    })
                },
            },
    {
        let stride: u32 = match self.frame_handlers.get(&config.run_class) {
            Some(stride) => *stride,
            None => {
                return Err(BackendError::UnsupportedEvaluator);
            },
        };
        if bindings > u32::MAX as usize {
            return Err(BackendError::InvalidInput);
        }
        let fits: bool = match bindings.checked_mul(stride as usize) {
            Some(frame_bytes) => frames == frame_bytes,
            None => false,
        };
        if config.cohort_width == 0 || !fits {
            return Err(BackendError::InvalidInput);
        }
        if bindings == 0 {
            return Ok(None);
        }
        let trace_count: usize = match bindings.checked_mul(config.epochs as usize) {
            Some(count) => count,
            None => {
                return Err(BackendError::InvalidInput);
            },
        };
        if trace_count.checked_mul(TRACE_EVENT_BYTES).is_none() {
            return Err(BackendError::InvalidInput);
        }
        Ok(
            Some(
                FrameGraphPlan {
                    run_class: config.run_class,
                    epochs: config.epochs,
                    stride,
                    count: bindings as u32,
                    frame_bytes: frames,
                    trace_count,
                    final_buffer: (config.epochs % 2) as usize,
                },
            ),
        )
    }
}

pub open spec fn journal_views(journals: Seq<DeviceOperationJournal>) -> Seq<JournalView> {
    Seq::new(journals.len(), |i: int| journals[i]@)
}

/// The two operations of lane `i`, without payload.
pub open spec fn pair_journal(operations: Seq<DeviceLaneOperation>, i: int) -> JournalView {
    JournalView {
        operations: seq![operations[2 * i], operations[2 * i + 1]],
        payload: Seq::empty(),
    }
}

/// The device completed the planned graph and left what was planned.
pub open spec fn graph_is_whole(
    plan: FrameGraphPlan,
    completed: bool,
    frames: Seq<u8>,
    accesses: Seq<DeviceLaneAccess>,
    operations: Seq<DeviceLaneOperation>,
    trace: Seq<ResidentFrameTraceEvent>,
) -> bool {
    &&& completed
    &&& frames.len() == plan.frame_bytes
    &&& accesses.len() == 2 * plan.count
    &&& operations.len() == 2 * plan.count
    &&& trace.len() == plan.trace_count
}

impl MetalResidentSearch {
    /// What a frame graph comes to once the device has run it: operations are
    /// dealt out two to a lane, and the graph is kept for validation.
    pub fn finish_frame_graph(
        &mut self,
        plan: &FrameGraphPlan,
        completed: bool,
        frames: Vec<u8>,
        accesses: Vec<DeviceLaneAccess>,
        operations: &Vec<DeviceLaneOperation>,
        trace: Vec<ResidentFrameTraceEvent>,
    ) -> (result: Result<ResidentFrameGraphResult, BackendError>)
        ensures
            final(self).frame_handlers == old(self).frame_handlers,
            final(self).frame_cohort_width == old(self).frame_cohort_width,
            final(self).last_frame_trace == old(self).last_frame_trace,
            ({
                let whole = graph_is_whole(
                    *plan,
                    completed,
                    frames@,
                    accesses@,
                    operations@,
                    trace@,
                );
                match result {
                    Err(error) => {
                        &&& !whole
                        &&& error == BackendError::ExecutionFailed
                        &&& final(self).last_frame_graph == old(self).last_frame_graph
                    },
                    Ok(graph) => {
                        &&& whole
                        &&& graph@ == (GraphView {
                            frames: frames@,
                            accesses: accesses@,
                            operations: Seq::new(
                                plan.count as nat,
                                |i: int| pair_journal(operations@, i),
                            ),
                            trace: trace@,
                        })
                        &&& graph.operations@.len() == plan.count
                        &&& final(self).last_frame_graph matches Some(kept) && kept@ == graph@
                    },
                }
            }),
    {
        let pairs: usize = plan.count as usize;
        if !completed || frames.len() != plan.frame_bytes || accesses.len() as u64 != 2
            * plan.count as u64 || operations.len() as u64 != 2 * plan.count as u64 || trace.len()
            != plan.trace_count {
            return Err(BackendError::ExecutionFailed);
        }
        let mut journals: Vec<DeviceOperationJournal> = Vec::new();
        let mut i: usize = 0;
        while i < pairs
            invariant
                i <= pairs,
                2 * pairs == operations@.len(),
                journals@.len() == i,
                forall|j: int|
                    0 <= j < i ==> (#[trigger] journals@[j])@ == pair_journal(operations@, j),
            decreases pairs - i,
        {
            let len: usize = operations.len();
            assert(len == operations@.len());
            let mut two: Vec<DeviceLaneOperation> = Vec::new();
            two.push(operations[2 * i]);
            two.push(operations[2 * i + 1]);
            let journal = DeviceOperationJournal { operations: two, payload: Vec::new() };
            assert(journal@ =~= pair_journal(operations@, i as int));
            journals.push(journal);
            i = i + 1;
        }
        assert(journal_views(journals@) =~= Seq::new(
            plan.count as nat,
            |i: int| pair_journal(operations@, i),
        ));
        let graph = ResidentFrameGraphResult { frames, accesses, operations: journals, trace };
        self.last_frame_graph = Some(graph.duplicate());
        Ok(graph)
    }
}

/// A graph that a search has just finished is the one that its next validation
/// holds the epoch against: its own records match it.
pub proof fn law_a_graph_matches_its_own_records(
    graph: ResidentFrameGraphResult,
    accesses: Seq<DeviceLaneAccess>,
    operations: Seq<&DeviceOperationJournal>,
)
    requires
        graph@.accesses.len() == 2 * graph@.operations.len(),
        accesses == graph@.accesses,
        operations.len() == graph@.operations.len(),
        forall|i: int|
            0 <= i < operations.len() ==> (#[trigger] operations[i])@ == graph@.operations[i],
    ensures
        graph_matches(graph, accesses, operations),
{
    assert forall|i: int| 0 <= i < operations.len() implies (
    #[trigger] graph.operations@[i])@ == operations[i]@ by {
        assert(graph@.operations[i] == graph.operations@[i]@);
    }
    assert forall|i: int| 0 <= i < graph.accesses@.len() implies accesses.contains(
        #[trigger] graph.accesses@[i],
    ) by {
        assert(accesses[i] == graph.accesses@[i]);
    }
}

// ---- lanes of a frame class ------------------------------------------------

/// Lane `i` is of the class of the first one, with a frame of that class's
/// length inside the frames.
pub open spec fn lane_fits(lanes: Seq<DeviceEvaluatorLane>, stride: u32, frames: int, i: int) -> bool {
    &&& lanes[i].run_class == lanes[0].run_class
    &&& lanes[i].frame_len == stride
    &&& lanes[i].frame_offset + stride <= frames
}

pub open spec fn lanes_fit(
    handlers: Map<u32, u32>,
    lanes: Seq<DeviceEvaluatorLane>,
    frames: int,
) -> bool {
    &&& handlers.dom().contains(lanes[0].run_class)
    &&& forall|i: int|
        0 <= i < lanes.len() ==> #[trigger] lane_fits(
            lanes,
            handlers[lanes[0].run_class],
            frames,
            i,
        )
}

pub open spec fn binding_of(lane: DeviceEvaluatorLane) -> ResidentFrameBinding {
    ResidentFrameBinding {
        continuation: lane.continuation,
        process: lane.process,
        frame: lane.frame,
        actor: lane.process,
        target: lane.frame,
    }
}

/// The frames of the first `n` lanes, one after the other.
pub open spec fn packed_frames(
    lanes: Seq<DeviceEvaluatorLane>,
    frames: Seq<u8>,
    stride: int,
    n: int,
) -> Seq<u8>
    decreases n,
{
    if n <= 0 {
        Seq::empty()
    } else {
        packed_frames(lanes, frames, stride, n - 1) + frames.subrange(
            lanes[n - 1].frame_offset as int,
            lanes[n - 1].frame_offset + stride,
        )
    }
}

/// The graph that lanes of one class run as.
#[derive(Debug)]
pub struct LaneGraph {
    pub config: ResidentFrameGraphConfig,
    pub bindings: Vec<ResidentFrameBinding>,
    pub packed: Vec<u8>,
}

impl MetalResidentSearch {
    /// Lanes of one class as a graph of one epoch. There is none for no lanes.
    pub fn plan_lanes(&self, lanes: &Vec<DeviceEvaluatorLane>, frames: &Vec<u8>) -> (plan: Result<
        Option<LaneGraph>,
        LaneValidationError,
    >)
        ensures
            if lanes@.len() == 0 {
                plan matches Ok(None)
            } else if !lanes_fit(self.frame_handlers@, lanes@, frames@.len() as int) {
                plan == Err::<Option<LaneGraph>, _>(LaneValidationError::InvalidInput)
            } else {
                plan matches Ok(Some(graph)) && {
                    &&& graph.config == (ResidentFrameGraphConfig {
                        run_class: lanes@[0].run_class,
                        epochs: 1,
                        cohort_width: self.frame_cohort_width,
                    })
                    &&& graph.bindings@ == Seq::new(lanes@.len(), |i: int| binding_of(lanes@[i]))
                    &&& graph.packed@ == packed_frames(
                        lanes@,
                        frames@,
                        self.frame_handlers@[lanes@[0].run_class] as int,
                        lanes@.len() as int,
                    )
                }
            },
    {
        if lanes.len() == 0 {
            return Ok(None);
        }
        let run_class: u32 = lanes[0].run_class;
        let stride: u32 = match self.frame_handlers.get(&run_class) {
            Some(stride) => *stride,
            None => {
                return Err(LaneValidationError::InvalidInput);
            },
        };
        let mut i: usize = 0;
        while i < lanes.len()
            invariant
                i <= lanes.len(),
                lanes@.len() > 0,
                run_class == lanes@[0].run_class,
                self.frame_handlers@.dom().contains(run_class),
                stride == self.frame_handlers@[run_class],
                forall|j: int|
                    0 <= j < i ==> #[trigger] lane_fits(lanes@, stride, frames@.len() as int, j),
            decreases lanes.len() - i,
        {
            let lane: DeviceEvaluatorLane = lanes[i];
            let end: u64 = lane.frame_offset as u64 + stride as u64;
            if lane.run_class != run_class || lane.frame_len != stride || end
                > frames.len() as u64 {
                assert(!lane_fits(lanes@, stride, frames@.len() as int, i as int));
                return Err(LaneValidationError::InvalidInput);
            }
            i = i + 1;
        }
        let mut packed: Vec<u8> = Vec::new();
        let mut bindings: Vec<ResidentFrameBinding> = Vec::new();
        let mut n: usize = 0;
        while n < lanes.len()
            invariant
                n <= lanes.len(),
                forall|j: int|
                    0 <= j < lanes@.len() ==> #[trigger] lane_fits(
                        lanes@,
                        stride,
                        frames@.len() as int,
                        j,
                    ),
                packed@ == packed_frames(lanes@, frames@, stride as int, n as int),
                bindings@ =~= Seq::new(n as nat, |j: int| binding_of(lanes@[j])),
            decreases lanes.len() - n,
        {
            let lane: DeviceEvaluatorLane = lanes[n];
            assert(lane_fits(lanes@, stride, frames@.len() as int, n as int));
            let start: usize = lane.frame_offset as usize;
            assert(start + stride <= frames.len());
            let end: usize = start + stride as usize;
            let mut frame: Vec<u8> = vstd::slice::slice_to_vec(
                vstd::slice::slice_subrange(frames.as_slice(), start, end),
            );
            packed.append(&mut frame);
            bindings.push(
                ResidentFrameBinding {
                    continuation: lane.continuation,
                    process: lane.process,
                    frame: lane.frame,
                    actor: lane.process,
                    target: lane.frame,
                },
            );
            n = n + 1;
        }
        Ok(
            Some(
                LaneGraph {
                    config: ResidentFrameGraphConfig {
                        run_class,
                        epochs: 1,
                        cohort_width: self.frame_cohort_width,
                    },
                    bindings,
                    packed,
                },
            ),
        )
    }

    /// What the lanes of a graph come to: its operations are given their lanes,
    /// the graph is kept for validation, and each lane took one step.
    pub fn finish_lanes(
        &mut self,
        lanes: &Vec<DeviceEvaluatorLane>,
        stride: u32,
        graph: ResidentFrameGraphResult,
    ) -> (evaluation: DeviceEvaluation)
        requires
            graph.operations@.len() == lanes@.len(),
            lanes@.len() * stride <= u32::MAX,
        ensures
            evaluation.frames@ == graph.frames@,
            evaluation.results@ == Seq::new(
                lanes@.len(),
                |i: int|
                    metal_scheduler::completed_lane(lanes@[i].lane, (i * stride) as u32, stride),
            ),
            final(self).frame_handlers == old(self).frame_handlers,
            final(self).frame_cohort_width == old(self).frame_cohort_width,
            final(self).last_frame_trace@ == graph.trace@,
            final(self).last_frame_graph matches Some(kept) && {
                &&& kept.frames@ == graph.frames@
                &&& kept.accesses@ == graph.accesses@
                &&& kept.trace@ == graph.trace@
                &&& journal_views(kept.operations@) == Seq::new(
                    lanes@.len(),
                    |i: int| relabelled(graph.operations@[i]@, lanes@[i].lane),
                )
            },
    {
        let ghost before = graph.operations@;
        let mut operations: Vec<DeviceOperationJournal> = graph.operations;
        let mut results: Vec<DeviceEvaluatorResult> = Vec::new();
        let mut i: usize = 0;
        let mut at: u32 = 0;
        while i < lanes.len()
            invariant
                i <= lanes.len() == before.len(),
                operations@.len() == before.len(),
                lanes@.len() * stride <= u32::MAX,
                at == i * stride,
                forall|j: int|
                    0 <= j < i ==> (#[trigger] operations@[j])@ == relabelled(
                        before[j]@,
                        lanes@[j].lane,
                    ),
                forall|j: int| i <= j < before.len() ==> operations@[j] == before[j],
                results@ =~= Seq::new(
                    i as nat,
                    |j: int|
                        metal_scheduler::completed_lane(
                            lanes@[j].lane,
                            (j * stride) as u32,
                            stride,
                        ),
                ),
            decreases lanes.len() - i,
        {
            proof {
                assert((i + 1) * stride <= lanes@.len() * stride) by (nonlinear_arith)
                    requires
                        i + 1 <= lanes@.len(),
                ;
                assert((i + 1) * stride == i * stride + stride) by (nonlinear_arith);
            }
            relabel(&mut operations[i], lanes[i].lane);
            results.push(metal_scheduler::finished(lanes[i].lane, at, stride));
            i = i + 1;
            at = at + stride;
        }
        let frames: Vec<u8> = vstd::slice::slice_to_vec(graph.frames.as_slice());
        let trace: Vec<ResidentFrameTraceEvent> = copy_trace(&graph.trace);
        assert(journal_views(operations@) =~= Seq::new(
            lanes@.len(),
            |i: int| relabelled(before[i]@, lanes@[i].lane),
        ));
        self.last_frame_trace = trace;
        self.last_frame_graph = Some(
            ResidentFrameGraphResult {
                frames: graph.frames,
                accesses: graph.accesses,
                operations,
                trace: graph.trace,
            },
        );
        DeviceEvaluation { results, frames }
    }

    /// The conflicts between an epoch's lanes, which the host finds itself.
    pub fn validate_lane_journals(&self, accesses: &Vec<DeviceLaneAccess>, lane_count: u32) -> (result:
        Result<Vec<DeviceLaneConflict>, LaneValidationError>)
        ensures
            result matches Ok(conflicts) && metal_scheduler::are_conflicts(
                conflicts@,
                accesses@,
                lane_count,
            ),
    {
        Ok(reference_lane_conflicts(accesses, lane_count))
    }

    /// Holds the graph that was run last against what the host recorded of the
    /// epoch: the device's operations are the recorded ones, and each of its
    /// accesses was recorded. A graph is validated once.
    #[verifier::loop_isolation(false)]
    pub fn validate_epoch(
        &mut self,
        accesses: &Vec<DeviceLaneAccess>,
        lane_count: u32,
        operations: &[&DeviceOperationJournal],
    ) -> (result: Result<Vec<DeviceLaneConflict>, LaneValidationError>)
        requires
            operations@.len() <= usize::MAX / 2,
        ensures
            final(self).last_frame_graph is None,
            final(self).frame_handlers == old(self).frame_handlers,
            final(self).frame_cohort_width == old(self).frame_cohort_width,
            final(self).last_frame_trace == old(self).last_frame_trace,
            match old(self).last_frame_graph {
                None => result == Err::<Vec<DeviceLaneConflict>, _>(
                    LaneValidationError::InvalidInput,
                ),
                Some(graph) => if !graph_matches(graph, accesses@, operations@) {
                    result == Err::<Vec<DeviceLaneConflict>, _>(LaneValidationError::ProtocolError)
                } else {
                    result matches Ok(conflicts) && metal_scheduler::are_conflicts(
                        conflicts@,
                        accesses@,
                        lane_count,
                    )
                },
            },
    {
        let mut taken: Option<ResidentFrameGraphResult> = None;
        std::mem::swap(&mut taken, &mut self.last_frame_graph);
        let graph: ResidentFrameGraphResult = match taken {
            Some(graph) => graph,
            None => {
                return Err(LaneValidationError::InvalidInput);
            },
        };
        if graph.operations.len() != operations.len() || graph.accesses.len() != operations.len()
            * 2 {
            return Err(LaneValidationError::ProtocolError);
        }
        let mut i: usize = 0;
        while i < operations.len()
            invariant
                i <= operations.len() == graph.operations@.len(),
                forall|j: int|
                    0 <= j < i ==> (#[trigger] graph.operations@[j])@ == operations@[j]@,
            decreases operations.len() - i,
        {
            if !same_journal(&graph.operations[i], operations[i]) {
                assert(graph.operations@[i as int]@ != operations@[i as int]@);
                return Err(LaneValidationError::ProtocolError);
            }
            i = i + 1;
        }
        let mut n: usize = 0;
        while n < graph.accesses.len()
            invariant
                n <= graph.accesses.len(),
                forall|j: int|
                    0 <= j < n ==> accesses@.contains(#[trigger] graph.accesses@[j]),
            decreases graph.accesses.len() - n,
        {
            if !holds(accesses, graph.accesses[n]) {
                assert(!accesses@.contains(graph.accesses@[n as int]));
                return Err(LaneValidationError::ProtocolError);
            }
            n = n + 1;
        }
        Ok(reference_lane_conflicts(accesses, lane_count))
    }
}

/// A journal with every operation of lane `lane`.
pub open spec fn relabelled(journal: JournalView, lane: u32) -> JournalView {
    JournalView {
        operations: Seq::new(
            journal.operations.len(),
            |i: int| DeviceLaneOperation { lane, ..journal.operations[i] },
        ),
        payload: journal.payload,
    }
}

fn relabel(journal: &mut DeviceOperationJournal, lane: u32)
    ensures
        final(journal)@ == relabelled(old(journal)@, lane),
{
    let ghost before = journal@;
    let mut i: usize = 0;
    while i < journal.operations.len()
        invariant
            i <= journal.operations.len() == before.operations.len(),
            journal.payload@ == before.payload,
            forall|j: int|
                0 <= j < i ==> #[trigger] journal.operations@[j] == (DeviceLaneOperation {
                    lane,
                    ..before.operations[j]
                }),
            forall|j: int|
                i <= j < before.operations.len() ==> journal.operations@[j]
                    == before.operations[j],
        decreases journal.operations.len() - i,
    {
        let mut operation: DeviceLaneOperation = journal.operations[i];
        operation.lane = lane;
        journal.operations.set(i, operation);
        i = i + 1;
    }
    assert(journal@ =~= relabelled(before, lane));
}

fn copy_trace(trace: &Vec<ResidentFrameTraceEvent>) -> (copy: Vec<ResidentFrameTraceEvent>)
    ensures
        copy@ == trace@,
{
    let mut copy: Vec<ResidentFrameTraceEvent> = Vec::new();
    let mut i: usize = 0;
    while i < trace.len()
        invariant
            i <= trace.len(),
            copy@ =~= trace@.take(i as int),
        decreases trace.len() - i,
    {
        copy.push(trace[i]);
        i = i + 1;
    }
    copy
}

/// What the device did is what the host recorded.
pub open spec fn graph_matches(
    graph: ResidentFrameGraphResult,
    accesses: Seq<DeviceLaneAccess>,
    operations: Seq<&DeviceOperationJournal>,
) -> bool {
    &&& graph.operations@.len() == operations.len()
    &&& graph.accesses@.len() == 2 * operations.len()
    &&& forall|i: int|
        0 <= i < operations.len() ==> (#[trigger] graph.operations@[i])@ == operations[i]@
    &&& forall|i: int|
        0 <= i < graph.accesses@.len() ==> accesses.contains(#[trigger] graph.accesses@[i])
}

fn same_journal(a: &DeviceOperationJournal, b: &DeviceOperationJournal) -> (same: bool)
    ensures
        same == (a@ == b@),
{
    if a.operations.len() != b.operations.len() || a.payload.len() != b.payload.len() {
        return false;
    }
    let mut i: usize = 0;
    while i < a.operations.len()
        invariant
            i <= a.operations.len() == b.operations.len(),
            forall|j: int| 0 <= j < i ==> a.operations@[j] == b.operations@[j],
        decreases a.operations.len() - i,
    {
        if a.operations[i] != b.operations[i] {
            assert(a@.operations[i as int] != b@.operations[i as int]);
            return false;
        }
        i = i + 1;
    }
    let mut n: usize = 0;
    while n < a.payload.len()
        invariant
            n <= a.payload.len() == b.payload.len(),
            forall|j: int| 0 <= j < n ==> a.payload@[j] == b.payload@[j],
        decreases a.payload.len() - n,
    {
        if a.payload[n] != b.payload[n] {
            assert(a@.payload[n as int] != b@.payload[n as int]);
            return false;
        }
        n = n + 1;
    }
    assert(a@ =~= b@);
    true
}

fn holds(accesses: &Vec<DeviceLaneAccess>, wanted: DeviceLaneAccess) -> (found: bool)
    ensures
        found == accesses@.contains(wanted),
{
    let mut i: usize = 0;
    while i < accesses.len()
        invariant
            i <= accesses.len(),
            forall|j: int| 0 <= j < i ==> accesses@[j] != wanted,
        decreases accesses.len() - i,
    {
        if accesses[i] == wanted {
            assert(accesses@[i as int] == wanted);
            return true;
        }
        i = i + 1;
    }
    false
}

} // verus!
