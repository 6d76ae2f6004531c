use soma::bytes::get_le;
use soma::compiler::run_classes::{
    EXPAND_RESUME_0, JOIN_AWAIT, POLL_FUTURE, SEARCH_HEURISTIC, WORLD_STEP,
};
use soma::compiler::state_machine_lowering::{HeuristicFrame, JoinFrame, SearchFrame};
use soma::executives::batch::{
    execute_epoch_with_spill, execute_with_spill, BackendError, BatchBackend, CpuReferenceBackend,
    PlacementStats,
};
use soma::executives::cpu_scalar::dispatch;
use soma::executives::lane::LaneView;
use soma::executives::step::StepResult;
use soma::experiments::ant_colony::{
    build_in as build_colony, compare as compare_colony, field_totals, inject_predator, observe_ants, population_digest,
    read_frame, run as run_colony, run_mode, AntFrame, ColonyComparison, ColonyFrame, ColonyKnobs,
    PredatorStrike, WorldFrame,
};
use soma::experiments::backend_bench::{synthetic_inputs, synthetic_program};
use soma::experiments::bulk_frontier;
use soma::experiments::cohort_setup::{gather_outputs, prepare_cohorts, CohortShape};
use soma::experiments::cohort_study;
use soma::experiments::ant_trace::ExportOptions;
use soma::experiments::dynamic_search::{self, ControlKnobs};
use soma::experiments::export_run::{build_for, colony_header, ExportAction, ExportEvent, ExportRun, Closing};
use soma::experiments::multi_input_graph::{self, MultiInputConfig};
use soma::experiments::streaming_graph::{self, StreamingGraphConfig};
use soma::experiments::supervision_tree::{self, TreeKnobs};
use soma::kernel::{
    count_events, AuxBinding, AwaitOutcome, BatchOrder, CallLog, ChannelRight, ContinuationInfo,
    ContinuationSpec, DetachedKernel, EventKind, Kernel, LaneOperation, MessageDescriptor,
    ObjectKind, ProcessMode, ProcessState, Ref64, Resource, RuntimeError, StateAccess,
    SupervisionPolicy, TraceCensus, TraceEvent, TraceSnapshotRow,
};
use soma::scheduler::{dispatch_cost, Accounting, PartialCohortPolicy, SchedulingMode};
use std::collections::{BTreeMap, VecDeque};

#[derive(Clone, Copy, Debug, PartialEq)]
enum Standing {
    Ready,
    OnFuture(u64),
    OnMailbox(u64),
    OnRoom(u64),
    Gone,
}

struct Held {
    process: u64,
    frame: u64,
    run_class: u32,
    steps_left: u32,
    standing: Standing,
}

struct Batch {
    order: BatchOrder,
    output: Option<u64>,
}

struct Channel {
    owner: u64,
    capacity: usize,
    queue: VecDeque<MessageDescriptor>,
    closed: bool,
}

/// A small machine in memory: every continuation that is ready at the start of
/// an epoch takes one step in it.
#[derive(Default)]
struct Machine {
    next: u64,
    epoch: u32,
    objects: BTreeMap<u64, Vec<u8>>,
    frozen: Vec<u64>,
    futures: BTreeMap<u64, Option<u64>>,
    mailboxes: BTreeMap<u64, VecDeque<MessageDescriptor>>,
    capacity: usize,
    processes: BTreeMap<u64, ProcessState>,
    supervisors: BTreeMap<u64, u64>,
    notices: BTreeMap<u64, u64>,
    continuations: BTreeMap<u64, Held>,
    batches: BTreeMap<u64, Batch>,
    steps: u64,
    recorded: u64,
    recording: bool,
    process_limit: Option<usize>,
    trace: Vec<TraceSnapshotRow>,
    schedule: Option<(SchedulingMode, u16, PartialCohortPolicy)>,
    /// Cohorts, lane slots, useful ones, and full cohorts.
    spent: [u64; 4],
    channels: BTreeMap<u64, Channel>,
    grants: Vec<(u64, u64, ChannelRight)>,
    taken: u64,
    keeps_epoch: bool,
}

impl Machine {
    fn fresh(&mut self) -> Ref64 {
        self.next += 1;
        Ref64 { raw: self.next }
    }

    fn fail(&mut self, process: u64) {
        self.processes.insert(process, ProcessState::Failed);
        self.trace.push(TraceSnapshotRow {
            epoch: self.epoch,
            event: TraceEvent {
                kind: EventKind::ProcessFailed,
                run_class: 0,
                auxiliary: 0,
            },
            process: Ref64 { raw: process },
        });
        if let Some(supervisor) = self.supervisors.get(&process) {
            *self.notices.entry(*supervisor).or_default() += 1;
        }
        for held in self.continuations.values_mut() {
            if held.process == process {
                held.standing = Standing::Gone;
            }
        }
    }

    fn is_ready(&self, held: &Held) -> bool {
        match held.standing {
            Standing::Ready => true,
            Standing::OnFuture(future) => matches!(self.futures.get(&future), Some(Some(_))),
            Standing::OnMailbox(process) => self
                .mailboxes
                .get(&process)
                .map_or(false, |queue| !queue.is_empty()),
            Standing::OnRoom(process) => self
                .mailboxes
                .get(&process)
                .map_or(true, |queue| queue.len() < self.capacity),
            Standing::Gone => false,
        }
    }

    /// Counts the lane groups that an epoch's classes are cut into.
    fn charge(&mut self, mut classes: Vec<u32>) {
        let Some((mode, width, _)) = self.schedule else {
            return;
        };
        let mut segments = Vec::new();
        if mode == SchedulingMode::RunClassBins {
            classes.sort();
            while let Some(class) = classes.first().copied() {
                segments.push(classes.iter().copied().filter(|c| *c == class).collect());
                classes.retain(|c| *c != class);
            }
        } else {
            segments.push(classes);
        }
        for segment in segments {
            let cost = dispatch_cost(&segment, width);
            self.spent[0] += cost.dispatches;
            self.spent[1] += cost.lane_slots;
            self.spent[2] += cost.useful_lane_slots;
            self.spent[3] += cost.full_dispatches;
        }
    }

    fn may(&self, process: Ref64, channel: Ref64, right: ChannelRight) -> bool {
        self.channels
            .get(&channel.raw)
            .map_or(false, |held| held.owner == process.raw)
            || self.grants.contains(&(process.raw, channel.raw, right))
    }

    fn mailbox(&self, process: Ref64) -> Vec<MessageDescriptor> {
        self.mailboxes
            .get(&process.raw)
            .map(|queue| queue.iter().copied().collect())
            .unwrap_or_default()
    }
}

impl Kernel for Machine {
    fn log(&self) -> CallLog {
        unreachable!()
    }
    fn epoch(&self) -> u32 {
        unreachable!()
    }
    fn epoch_number(&self) -> u32 {
        self.epoch
    }
    fn record_speculative_read(&mut self, _: Resource) {
        self.recorded += 1;
    }
    fn record_speculative_write(&mut self, _: Resource) {
        self.recorded += 1;
    }
    fn record_speculative_allocation(&mut self) {
        self.recorded += 1;
    }
    fn record_speculative_process_creation(&mut self, _: Ref64) {
        self.recorded += 1;
    }
    fn record_speculative_object_mutation(&mut self, _: Ref64) {
        self.recorded += 1;
    }
    fn record_speculative_operation(&mut self, _: LaneOperation) {
        self.recorded += 1;
    }
    fn is_speculative_recording(&mut self) -> bool {
        self.recording
    }
    fn observe_future(&mut self, _: Ref64, future: Ref64) -> Result<Option<Ref64>, RuntimeError> {
        match self.futures.get(&future.raw) {
            Some(value) => Ok(value.map(|raw| Ref64 { raw })),
            None => Err(RuntimeError::Unavailable),
        }
    }
    fn object_bytes(&mut self, _: Ref64, object: Ref64) -> Result<Vec<u8>, RuntimeError> {
        self.objects
            .get(&object.raw)
            .cloned()
            .ok_or(RuntimeError::Unavailable)
    }
    fn object_bytes_many(
        &mut self,
        actor: Ref64,
        objects: &Vec<Ref64>,
    ) -> Result<Vec<Vec<u8>>, RuntimeError> {
        let mut lists = Vec::new();
        for object in objects {
            lists.push(self.object_bytes(actor, *object)?);
        }
        Ok(lists)
    }
    fn read_u64_object(&mut self, _: Ref64, object: Ref64) -> Option<u64> {
        let content = self.objects.get(&object.raw)?;
        if content.len() < 8 {
            return None;
        }
        Some(get_le(content, 0, 8))
    }
    fn create_process(&mut self, _: Ref64, _: ProcessMode) -> Result<Ref64, RuntimeError> {
        if let Some(limit) = self.process_limit {
            if self.processes.len() >= limit {
                return Err(RuntimeError::Unavailable);
            }
        }
        let process = self.fresh();
        self.processes.insert(process.raw, ProcessState::Active);
        Ok(process)
    }
    fn create_continuation(
        &mut self,
        _: Ref64,
        process: Ref64,
        spec: ContinuationSpec,
    ) -> Result<Ref64, RuntimeError> {
        let frame = self.fresh();
        self.objects.insert(frame.raw, spec.frame);
        let continuation = self.fresh();
        self.continuations.insert(
            continuation.raw,
            Held {
                process: process.raw,
                frame: frame.raw,
                run_class: spec.run_class,
                steps_left: spec.max_steps,
                standing: Standing::Ready,
            },
        );
        Ok(continuation)
    }
    fn create_future(&mut self, _: Ref64) -> Ref64 {
        let future = self.fresh();
        self.futures.insert(future.raw, None);
        future
    }
    fn create_object(&mut self, _: Ref64, _: ObjectKind, bytes: Vec<u8>) -> Ref64 {
        let object = self.fresh();
        self.objects.insert(object.raw, bytes);
        object
    }
    fn edit_object(
        &mut self,
        _: Ref64,
        object: Ref64,
        _: bool,
    ) -> Result<&mut Vec<u8>, RuntimeError> {
        if self.frozen.contains(&object.raw) {
            return Err(RuntimeError::Unavailable);
        }
        self.objects
            .get_mut(&object.raw)
            .ok_or(RuntimeError::Unavailable)
    }
    fn enqueue_message(
        &mut self,
        actor: Ref64,
        receiver: Ref64,
        payload: Ref64,
        _: Ref64,
    ) -> Result<(), RuntimeError> {
        let queue = self.mailboxes.entry(receiver.raw).or_default();
        if self.capacity > 0 && queue.len() >= self.capacity {
            return Err(RuntimeError::MailboxFull);
        }
        queue.push_back(MessageDescriptor {
            sender: actor,
            payload,
        });
        Ok(())
    }
    fn receive_message(
        &mut self,
        actor: Ref64,
        _: Ref64,
    ) -> Result<Option<MessageDescriptor>, RuntimeError> {
        Ok(self.mailboxes.entry(actor.raw).or_default().pop_front())
    }
    fn resolve_future(
        &mut self,
        _: Ref64,
        future: Ref64,
        value: Ref64,
    ) -> Result<(), RuntimeError> {
        match self.futures.get_mut(&future.raw) {
            Some(slot) if slot.is_none() => {
                *slot = Some(value.raw);
                Ok(())
            }
            _ => Err(RuntimeError::Unavailable),
        }
    }
    fn await_future(
        &mut self,
        _: Ref64,
        _: Ref64,
        future: Ref64,
        _: u32,
    ) -> Result<AwaitOutcome, RuntimeError> {
        match self.futures.get(&future.raw) {
            Some(Some(raw)) => Ok(AwaitOutcome::AlreadySettled(Ref64 { raw: *raw })),
            Some(None) => Ok(AwaitOutcome::Registered),
            None => Err(RuntimeError::Unavailable),
        }
    }
    fn create_supervised_process(
        &mut self,
        supervisor: Ref64,
        mode: ProcessMode,
    ) -> Result<Ref64, RuntimeError> {
        let process = self.create_process(supervisor, mode)?;
        self.supervisors.insert(process.raw, supervisor.raw);
        Ok(process)
    }
    fn object_byte_length(&mut self, object: Ref64) -> Result<u64, RuntimeError> {
        match self.objects.get(&object.raw) {
            Some(content) => Ok(content.len() as u64),
            None => Err(RuntimeError::Unavailable),
        }
    }
    fn grant_read(&mut self, _: Ref64, _: Ref64, _: Ref64, _: u64) -> Result<(), RuntimeError> {
        Ok(())
    }
    fn continuation(&mut self, continuation: Ref64) -> Option<ContinuationInfo> {
        self.continuations
            .get(&continuation.raw)
            .map(|held| ContinuationInfo {
                frame: Ref64 { raw: held.frame },
                run_class: held.run_class,
                alive: held.standing != Standing::Gone,
            })
    }
    fn total_pending(&mut self) -> u64 {
        self.continuations
            .values()
            .filter(|held| self.is_ready(held))
            .count() as u64
    }
    fn run_epoch(&mut self) {
        let ready: Vec<u64> = self
            .continuations
            .iter()
            .filter(|(_, held)| self.is_ready(held))
            .map(|(id, _)| *id)
            .collect();
        self.charge(
            ready
                .iter()
                .map(|id| self.continuations[id].run_class)
                .collect(),
        );
        for id in ready {
            let (process, frame, run_class, steps_left, standing) = {
                let held = &self.continuations[&id];
                (
                    held.process,
                    held.frame,
                    held.run_class,
                    held.steps_left,
                    held.standing,
                )
            };
            if standing == Standing::Gone {
                continue;
            }
            if steps_left == 0 {
                self.fail(process);
                continue;
            }
            self.steps += 1;
            let machine = std::mem::take(self);
            let mut lane = LaneView::new(machine, Ref64 { raw: frame });
            let result = dispatch(
                &mut lane,
                Ref64 { raw: id },
                Ref64 { raw: process },
                run_class,
            );
            *self = lane.kernel;
            let held = self.continuations.get_mut(&id).unwrap();
            held.steps_left -= 1;
            match result {
                StepResult::Yield { next } => {
                    held.run_class = next;
                    held.standing = Standing::Ready;
                }
                StepResult::Await { on, next } => {
                    held.run_class = next;
                    held.standing = if self.futures.contains_key(&on.raw) {
                        Standing::OnFuture(on.raw)
                    } else if on.raw == process {
                        Standing::OnMailbox(on.raw)
                    } else {
                        Standing::OnRoom(on.raw)
                    };
                }
                StepResult::Spawn { .. } | StepResult::Complete => {
                    held.standing = Standing::Gone;
                    self.processes.insert(process, ProcessState::Completed);
                }
                StepResult::Fault { .. } => self.fail(process),
            }
        }
        self.epoch += 1;
    }
    fn pending_supervision_notices(&mut self, process: Ref64) -> u64 {
        self.notices.get(&process.raw).copied().unwrap_or(0)
    }
    fn is_alive(&mut self, process: Ref64) -> bool {
        self.processes.get(&process.raw) == Some(&ProcessState::Active)
    }
    fn failures(&mut self) -> u64 {
        self.processes
            .values()
            .filter(|state| **state == ProcessState::Failed)
            .count() as u64
    }
    fn accounting(&mut self) -> Accounting {
        Accounting {
            cohorts: self.spent[0],
            lane_slots: self.spent[1],
            useful_lane_slots: self.spent[2],
            full_cohorts: self.spent[3],
            steps: self.steps,
            deferred_lanes: 0,
        }
    }
    fn configure(&mut self, mode: SchedulingMode, width: u16, partial: PartialCohortPolicy) {
        self.schedule = Some((mode, width, partial));
    }
    fn keep_epoch_records(&mut self) {
        self.keeps_epoch = true;
    }
    fn take_trace_events(&mut self) -> Vec<TraceEvent> {
        let events: Vec<TraceEvent> = self.trace.drain(..).map(|row| row.event).collect();
        self.taken += events.len() as u64;
        events
    }
    fn pending_counts(&mut self) -> Vec<(u32, u64)> {
        let mut counts: BTreeMap<u32, u64> = BTreeMap::new();
        for held in self.continuations.values() {
            if self.is_ready(held) {
                *counts.entry(held.run_class).or_default() += 1;
            }
        }
        counts.into_iter().collect()
    }
    fn trace_census(&mut self) -> TraceCensus {
        TraceCensus {
            taken: self.taken,
            dropped: 0,
        }
    }
    fn create_channel(&mut self, owner: Ref64, capacity: u32) -> Ref64 {
        let channel = self.fresh();
        self.channels.insert(
            channel.raw,
            Channel {
                owner: owner.raw,
                capacity: capacity as usize,
                queue: VecDeque::new(),
                closed: false,
            },
        );
        channel
    }
    fn grant_channel(
        &mut self,
        _: Ref64,
        receiver: Ref64,
        channel: Ref64,
        right: ChannelRight,
    ) -> Result<(), RuntimeError> {
        self.grants.push((receiver.raw, channel.raw, right));
        Ok(())
    }
    fn send_channel(
        &mut self,
        actor: Ref64,
        channel: Ref64,
        payload: Ref64,
    ) -> Result<(), RuntimeError> {
        if !self.may(actor, channel, ChannelRight::Send) {
            return Err(RuntimeError::Unavailable);
        }
        let held = self.channels.get_mut(&channel.raw).unwrap();
        if held.closed {
            return Err(RuntimeError::Unavailable);
        }
        if held.queue.len() >= held.capacity {
            return Err(RuntimeError::MailboxFull);
        }
        held.queue.push_back(MessageDescriptor {
            sender: actor,
            payload,
        });
        Ok(())
    }
    fn receive_channel(
        &mut self,
        actor: Ref64,
        channel: Ref64,
    ) -> Result<Option<MessageDescriptor>, RuntimeError> {
        if !self.may(actor, channel, ChannelRight::Receive) {
            return Err(RuntimeError::Unavailable);
        }
        Ok(self
            .channels
            .get_mut(&channel.raw)
            .unwrap()
            .queue
            .pop_front())
    }
    fn receive_channel_pair(
        &mut self,
        actor: Ref64,
        left: Ref64,
        right: Ref64,
    ) -> Result<Option<(MessageDescriptor, MessageDescriptor)>, RuntimeError> {
        if self.channel_len(left)? == 0 || self.channel_len(right)? == 0 {
            return Ok(None);
        }
        let first = self.receive_channel(actor, left)?;
        let second = self.receive_channel(actor, right)?;
        Ok(Some((first.unwrap(), second.unwrap())))
    }
    fn close_channel(&mut self, actor: Ref64, channel: Ref64) -> Result<(), RuntimeError> {
        match self.channels.get_mut(&channel.raw) {
            Some(held) if held.owner == actor.raw => {
                held.closed = true;
                Ok(())
            }
            _ => Err(RuntimeError::Unavailable),
        }
    }
    fn channel_len(&mut self, channel: Ref64) -> Result<u64, RuntimeError> {
        match self.channels.get(&channel.raw) {
            Some(held) => Ok(held.queue.len() as u64),
            None => Err(RuntimeError::Unavailable),
        }
    }
    fn process_state(&mut self, process: Ref64) -> Result<ProcessState, RuntimeError> {
        self.processes
            .get(&process.raw)
            .copied()
            .ok_or(RuntimeError::Unavailable)
    }
    fn create_worker_process(
        &mut self,
        supervisor: Ref64,
        mode: ProcessMode,
        _: SupervisionPolicy,
    ) -> Result<Ref64, RuntimeError> {
        self.create_supervised_process(supervisor, mode)
    }
    fn is_legal(&mut self) -> bool {
        true
    }
    fn trace_events(&mut self) -> Vec<TraceEvent> {
        self.trace.iter().map(|row| row.event).collect()
    }
    fn trace_snapshot(&mut self) -> Vec<TraceSnapshotRow> {
        self.trace.clone()
    }
    fn create_restartable_process(
        &mut self,
        supervisor: Ref64,
        mode: ProcessMode,
        _: u32,
        spec: ContinuationSpec,
    ) -> Result<Ref64, RuntimeError> {
        let process = self.create_supervised_process(supervisor, mode)?;
        self.create_continuation(process, process, spec)?;
        Ok(process)
    }
    fn batch_evaluate_request(&mut self, collective: Ref64) -> Result<BatchOrder, RuntimeError> {
        match self.batches.get(&collective.raw) {
            Some(batch) => Ok(batch.order),
            None => Err(RuntimeError::Unavailable),
        }
    }
    fn batch_evaluate_aux(&mut self, _: Ref64) -> Result<AuxBinding, RuntimeError> {
        Ok(AuxBinding {
            inputs: Ref64 { raw: 0 },
            element_count: 0,
            element_stride: 0,
        })
    }
    fn freeze(&mut self, _: Ref64, object: Ref64) -> Result<(), RuntimeError> {
        self.frozen.push(object.raw);
        Ok(())
    }
    fn create_batch_evaluate(
        &mut self,
        _: Ref64,
        evaluator: u32,
        input: Ref64,
        element_count: u32,
        element_stride: u32,
    ) -> Result<Ref64, RuntimeError> {
        let collective = self.fresh();
        self.batches.insert(
            collective.raw,
            Batch {
                order: BatchOrder {
                    evaluator,
                    inputs: input,
                    element_count,
                    element_stride,
                },
                output: None,
            },
        );
        Ok(collective)
    }
    fn complete_batch_evaluate(
        &mut self,
        _: Ref64,
        collective: Ref64,
        output: Ref64,
    ) -> Result<(), RuntimeError> {
        let batch = self
            .batches
            .get_mut(&collective.raw)
            .ok_or(RuntimeError::Unavailable)?;
        batch.output = Some(output.raw);
        Ok(())
    }
}

fn start(machine: &mut Machine, process: Ref64, run_class: u32, frame: Vec<u8>) -> Ref64 {
    machine
        .create_continuation(
            process,
            process,
            ContinuationSpec::new(StateAccess::ReadOnly, run_class, 0, frame, 64),
        )
        .unwrap()
}

fn settle(machine: &mut Machine) {
    while machine.total_pending() > 0 {
        machine.run_epoch();
    }
}

#[test]
fn a_search_visits_every_node_and_so_does_the_frontier() {
    let knobs = ControlKnobs::default();
    let mut machine = Machine::default();
    let epochs = dynamic_search::run(&mut machine, &knobs).unwrap();
    assert_eq!(knobs.node_count(), 242);
    assert_eq!(machine.steps, 242);
    assert_eq!(epochs, 5);
    for sorted in [false, true] {
        let run = bulk_frontier::run(&knobs, 32, sorted);
        assert_eq!(run.nodes_expanded, 242);
        assert_eq!(run.levels, 5);
        assert_eq!(run.host_launches, 5);
        assert_eq!(run.global_barriers, 5);
        assert_eq!(run.cost.useful_lane_slots, 242);
        // Levels of 2, 6, 18, 54 and 162 nodes of one class.
        assert_eq!(run.dispatches(), 1 + 1 + 1 + 2 + 6);
    }
}

#[test]
fn a_sorted_frontier_needs_no_more_dispatches_than_an_unsorted_one() {
    let knobs = ControlKnobs {
        class_count: 4,
        ..ControlKnobs::default()
    };
    let plain = bulk_frontier::run(&knobs, 8, false);
    let sorted = bulk_frontier::run(&knobs, 8, true);
    assert_eq!(plain.cost.useful_lane_slots, sorted.cost.useful_lane_slots);
    assert!(sorted.dispatches() < plain.dispatches());
}

#[test]
fn a_full_machine_refuses_the_roots() {
    let mut machine = Machine {
        process_limit: Some(1),
        ..Machine::default()
    };
    assert_eq!(
        dynamic_search::build_in(&mut machine, &ControlKnobs::default()),
        Err(RuntimeError::Unavailable)
    );
    assert_eq!(machine.processes.len(), 1);
    assert_eq!(machine.continuations.len(), 1);
}

#[test]
fn a_node_that_cannot_spawn_faults_with_its_children_so_far() {
    let mut machine = Machine::default();
    let process = machine
        .create_process(Ref64 { raw: 0 }, ProcessMode::Serial)
        .unwrap();
    machine.process_limit = Some(2);
    let mut frame = Vec::new();
    let node = SearchFrame {
        value: 5,
        depth: 1,
        branching: 3,
        work_iters: 0,
        class_count: 1,
    };
    node.encode(&mut frame);
    start(&mut machine, process, node.run_class(), frame);
    machine.run_epoch();
    assert_eq!(machine.failures(), 1);
    assert_eq!(machine.processes.len(), 2);
}

#[test]
fn an_expansion_answers_its_request() {
    let mut machine = Machine::default();
    let asker = machine
        .create_process(Ref64 { raw: 0 }, ProcessMode::Serial)
        .unwrap();
    let node = machine
        .create_process(Ref64 { raw: 0 }, ProcessMode::Serial)
        .unwrap();
    start(&mut machine, node, EXPAND_RESUME_0, Vec::new());
    // Nothing to receive yet: the continuation parks.
    machine.run_epoch();
    assert_eq!(machine.total_pending(), 0);
    let payload = machine.create_object(
        asker,
        ObjectKind::MessagePayload,
        7u64.to_le_bytes().to_vec(),
    );
    machine
        .enqueue_message(asker, node, payload, Ref64 { raw: 0 })
        .unwrap();
    settle(&mut machine);
    assert_eq!(machine.failures(), 0);
    // The heuristic answers twice the request and one more.
    let replies = machine.mailbox(asker);
    assert_eq!(replies.len(), 1);
    assert_eq!(machine.read_u64_object(asker, replies[0].payload), Some(15));
    // One child for each of the three moves, and each is a leaf of its multiple.
    assert_eq!(machine.processes.len(), 2 + 3);
}

#[test]
fn a_full_reply_mailbox_starts_no_child_twice() {
    let mut machine = Machine {
        capacity: 1,
        ..Machine::default()
    };
    let asker = machine
        .create_process(Ref64 { raw: 0 }, ProcessMode::Serial)
        .unwrap();
    let node = machine
        .create_process(Ref64 { raw: 0 }, ProcessMode::Serial)
        .unwrap();
    let payload = machine.create_object(
        asker,
        ObjectKind::MessagePayload,
        7u64.to_le_bytes().to_vec(),
    );
    machine
        .enqueue_message(asker, node, payload, Ref64 { raw: 0 })
        .unwrap();
    machine
        .enqueue_message(asker, asker, payload, Ref64 { raw: 0 })
        .unwrap();
    start(&mut machine, node, EXPAND_RESUME_0, Vec::new());
    for _ in 0..6 {
        machine.run_epoch();
    }
    assert_eq!(machine.processes.len(), 5);
    let first = machine.receive_message(asker, Ref64 { raw: 0 }).unwrap();
    assert!(first.is_some());
    for _ in 0..3 {
        machine.run_epoch();
    }
    assert_eq!(machine.mailbox(asker).len(), 1);
    assert_eq!(machine.processes.len(), 5);
}

#[test]
fn a_join_sees_what_the_future_took() {
    let mut machine = Machine::default();
    let process = machine
        .create_process(Ref64 { raw: 0 }, ProcessMode::Serial)
        .unwrap();
    let future = machine.create_future(process);
    let mut frame = Vec::new();
    JoinFrame {
        future,
        observed: Ref64 { raw: 0 },
    }
    .encode(&mut frame);
    let joiner = start(&mut machine, process, JOIN_AWAIT, frame.clone());
    let mut heuristic = Vec::new();
    HeuristicFrame { future, input: 20 }.encode(&mut heuristic);
    let resolver = machine
        .create_process(Ref64 { raw: 0 }, ProcessMode::Serial)
        .unwrap();
    start(&mut machine, resolver, SEARCH_HEURISTIC, heuristic);
    settle(&mut machine);
    let kept = machine.continuations[&joiner.raw].frame;
    let content = machine.objects[&kept].clone();
    let joined = JoinFrame::decode(&content).unwrap();
    assert_eq!(machine.read_u64_object(process, joined.observed), Some(41));

    // A poll behind it sends what it saw to its own mailbox.
    let poller = machine
        .create_process(Ref64 { raw: 0 }, ProcessMode::Serial)
        .unwrap();
    start(&mut machine, poller, POLL_FUTURE, frame);
    settle(&mut machine);
    let sent = machine.mailbox(poller);
    assert_eq!(sent.len(), 1);
    let content = machine.objects[&sent[0].payload.raw].clone();
    assert_eq!(content, (joined.observed.raw as u32).to_le_bytes());
}

#[test]
fn a_poll_that_sees_nothing_sends_nothing() {
    let mut machine = Machine::default();
    let process = machine
        .create_process(Ref64 { raw: 0 }, ProcessMode::Serial)
        .unwrap();
    let future = machine.create_future(process);
    let mut frame = Vec::new();
    JoinFrame {
        future,
        observed: Ref64 { raw: 0 },
    }
    .encode(&mut frame);
    start(&mut machine, process, POLL_FUTURE, frame);
    settle(&mut machine);
    assert!(machine.mailbox(process).is_empty());
    assert_eq!(machine.failures(), 0);
}

#[test]
fn an_unknown_run_class_faults() {
    let mut machine = Machine::default();
    let process = machine
        .create_process(Ref64 { raw: 0 }, ProcessMode::Serial)
        .unwrap();
    start(&mut machine, process, 9_999, Vec::new());
    machine.run_epoch();
    assert_eq!(machine.failures(), 1);
}

#[test]
fn recording_changes_no_result() {
    let knobs = ControlKnobs::default();
    let mut plain = Machine::default();
    let mut recorded = Machine {
        recording: true,
        ..Machine::default()
    };
    let policy = PartialCohortPolicy::RunPartial;
    let mode = SchedulingMode::RunClassBins;
    let a = cohort_study::run(&mut plain, &knobs, mode, 32, policy).unwrap();
    let b = cohort_study::run(&mut recorded, &knobs, mode, 32, policy).unwrap();
    assert_eq!(plain.schedule, Some((mode, 32, policy)));
    assert_eq!(a, b);
    // Levels of 2, 6, 18, 54 and 162 nodes of one class.
    assert_eq!(a.dispatches(), 11);
    assert_eq!(a.accounting.steps, 242);
    assert!(recorded.recorded > plain.recorded);
}

fn small_colony() -> ColonyKnobs {
    ColonyKnobs {
        width: 24,
        height: 24,
        colonies: 2,
        ants_per_colony: 6,
        food_sources: 2,
        epochs: 60,
        ..ColonyKnobs::default()
    }
}

#[test]
fn a_colony_runs_and_stays_in_its_grid() {
    let knobs = small_colony();
    let mut machine = Machine::default();
    let (colony, epochs) = run_colony(&mut machine, &knobs).unwrap();
    assert_eq!(epochs, 60);
    let ants = observe_ants(&mut machine, &colony);
    assert_eq!(ants.len(), 12);
    assert!(ants.iter().all(|ant| ant.alive));
    assert!(ants.iter().all(|ant| ant.x < 24 && ant.y < 24));
    assert!(ants.iter().all(|ant| ant.run_class < WORLD_STEP));
    let handle = colony.colonies[0].ants[0];
    let ant: AntFrame = read_frame(&mut machine, handle.process, handle.continuation).unwrap();
    assert_eq!((ant.x, ant.y), (ants[0].x, ants[0].y));
    let world: WorldFrame =
        read_frame(&mut machine, colony.world, colony.world_continuation).unwrap();
    assert_eq!((world.width, world.height), (24, 24));
    assert_eq!(world.summaries.len(), 2);
    let nest = &colony.colonies[1];
    let nest: ColonyFrame = read_frame(&mut machine, nest.process, nest.continuation).unwrap();
    assert_eq!(nest.deposits.len(), 6);
    let gone: Option<AntFrame> = read_frame(&mut machine, handle.process, Ref64 { raw: 0 });
    assert_eq!(gone, None);
    let (food, home) = field_totals(&mut machine, &colony, epochs);
    assert!(food + home > 0);
    assert_eq!(machine.failures(), 0);
}

#[test]
fn two_runs_of_one_colony_simulate_one_world() {
    let knobs = small_colony();
    let mut first = Machine::default();
    let mut second = Machine {
        recording: true,
        ..Machine::default()
    };
    let comparison = ColonyComparison {
        fifo: run_mode(&mut first, &knobs, SchedulingMode::PersistentFifo, 32).unwrap(),
        cohorted: run_mode(&mut second, &knobs, SchedulingMode::RunClassBins, 32).unwrap(),
    };
    assert!(comparison.simulated_identical_world());
    let mut other = Machine::default();
    let moved = ColonyKnobs { seed: 3, ..knobs };
    let elsewhere = run_mode(&mut other, &moved, SchedulingMode::RunClassBins, 32).unwrap();
    assert_ne!(elsewhere.population, comparison.cohorted.population);
}

#[test]
fn a_predator_takes_ants_of_one_colony_alone() {
    let knobs = small_colony();
    let mut machine = Machine::default();
    let colony = build_colony(&mut machine, &knobs).unwrap();
    for _ in 0..10 {
        machine.run_epoch();
    }
    let before = population_digest(&observe_ants(&mut machine, &colony));
    let struck = inject_predator(
        &mut machine,
        &colony,
        PredatorStrike {
            colony: 1,
            victims: 4,
        },
    );
    assert_eq!(struck.len(), 4);
    machine.run_epoch();
    let ants = observe_ants(&mut machine, &colony);
    assert_eq!(ants.iter().filter(|ant| !ant.alive).count(), 4);
    // The struck frames are zeroed, so their owners no longer say where they belong.
    assert_eq!(ants.iter().filter(|ant| ant.alive && ant.colony == 1).count(), 2);
    assert_eq!(ants.iter().filter(|ant| ant.alive && ant.colony == 0).count(), 6);
    assert_ne!(before, population_digest(&ants));
}

#[test]
fn a_faulting_worker_is_its_branch_s_notice() {
    let mut machine = Machine::default();
    let run = supervision_tree::run(&mut machine, &TreeKnobs::default()).unwrap();
    assert_eq!(run.outcome.left_worker, ProcessState::Failed);
    assert_eq!(run.outcome.right_worker, ProcessState::Completed);
    assert_eq!(run.outcome.left_branch, ProcessState::Active);
    assert_eq!(run.outcome.left_branch_notices, 1);
    assert_eq!(run.outcome.right_branch_notices, 0);
    assert_eq!(run.outcome.root_notices, 0);
    assert_eq!(run.outcome.restarts, 0);
    assert_eq!(run.trace.len(), 1);
    assert_eq!(run.trace[0].event.kind, EventKind::ProcessFailed);
    assert!(run.legal);

    let mut control = Machine::default();
    let knobs = TreeKnobs {
        inject_left_failure: false,
        worker_policy: SupervisionPolicy::Restart,
    };
    let run = supervision_tree::run(&mut control, &knobs).unwrap();
    assert_eq!(run.outcome.left_worker, ProcessState::Completed);
    assert_eq!(run.outcome.left_branch_notices, 0);
}

#[test]
fn restarts_are_counted_in_the_trace() {
    let event = |kind| TraceEvent {
        kind,
        run_class: 0,
        auxiliary: 0,
    };
    let mut machine = Machine::default();
    for kind in [
        EventKind::ProcessRestarted,
        EventKind::Other,
        EventKind::ProcessRestarted,
    ] {
        machine.trace.push(TraceSnapshotRow {
            epoch: 0,
            event: event(kind),
            process: Ref64 { raw: 0 },
        });
    }
    assert_eq!(
        count_events(&machine.trace_events(), EventKind::ProcessRestarted),
        2
    );
    let knobs = TreeKnobs {
        inject_left_failure: false,
        ..TreeKnobs::default()
    };
    let run = supervision_tree::run(&mut machine, &knobs).unwrap();
    assert_eq!(run.outcome.restarts, 2);
    assert_eq!(run.trace.len(), 3);
}

#[test]
fn a_tree_report_has_a_line_for_each_case() {
    let cases = supervision_tree::report_cases();
    assert!(!cases[0].inject_left_failure);
    assert_eq!(cases[1], TreeKnobs::default());
    assert_eq!(cases[3].worker_policy, SupervisionPolicy::Restart);
    let control = supervision_tree::run(&mut Machine::default(), &cases[0]).unwrap();
    let notify = supervision_tree::run(&mut Machine::default(), &cases[1]).unwrap();
    let text = supervision_tree::report(&[
        control.outcome,
        notify.outcome,
        control.outcome,
        notify.outcome,
    ]);
    let lines: Vec<&str> = text.lines().collect();
    assert_eq!(
        lines,
        vec![
            "case       left-worker left-branch right-worker right-branch root root-notices restarts",
            "control    Completed Active Completed Active Active 0 0",
            "notify     Failed Active Completed Active Active 0 0",
            "escalate   Completed Active Completed Active Active 0 0",
            "restart    Failed Active Completed Active Active 0 0",
        ]
    );
}

#[test]
fn both_schedules_are_compared_over_one_search() {
    let knobs = ControlKnobs {
        process_count: 2,
        depth: 3,
        class_count: 4,
        ..ControlKnobs::default()
    };
    let mut fifo = Machine::default();
    let mut cohorted = Machine::default();
    let comparison = cohort_study::compare(&mut fifo, &mut cohorted, &knobs, 8).unwrap();
    assert_eq!(
        fifo.schedule,
        Some((SchedulingMode::PersistentFifo, 8, PartialCohortPolicy::RunPartial))
    );
    assert_eq!(
        cohorted.schedule,
        Some((SchedulingMode::RunClassBins, 8, PartialCohortPolicy::RunPartial))
    );
    assert_eq!(
        comparison.fifo.dispatches(),
        bulk_frontier::run(&knobs, 8, false).dispatches()
    );
    assert_eq!(
        comparison.cohorted.dispatches(),
        bulk_frontier::run(&knobs, 8, true).dispatches()
    );
    assert!(comparison.cohorted.dispatches() < comparison.fifo.dispatches());
    assert_eq!(comparison.fifo.mode, SchedulingMode::PersistentFifo);
    assert_eq!(comparison.cohorted.mode, SchedulingMode::RunClassBins);
    assert_eq!(comparison.fifo.cohort_width, 8);
    assert_eq!(comparison.fifo.dispatches(), comparison.fifo.accounting.cohorts);
    assert!(cohort_study::compare(
        &mut DetachedKernel::new(0),
        &mut Machine::default(),
        &knobs,
        8
    )
    .is_err());
}

#[test]
fn both_schedules_are_compared_over_one_colony() {
    let mut fifo = Machine::default();
    let mut cohorted = Machine::default();
    let comparison = compare_colony(&mut fifo, &mut cohorted, &small_colony(), 8).unwrap();
    assert!(comparison.simulated_identical_world());
    assert_eq!(
        fifo.schedule,
        Some((SchedulingMode::PersistentFifo, 8, PartialCohortPolicy::RunPartial))
    );
    assert_eq!(
        cohorted.schedule,
        Some((SchedulingMode::RunClassBins, 8, PartialCohortPolicy::RunPartial))
    );
    assert!(cohorted.spent[0] < fifo.spent[0]);
    assert_eq!(cohorted.spent[2], fifo.spent[2]);
    assert_eq!(comparison.fifo.mode, SchedulingMode::PersistentFifo);
    assert_eq!(comparison.cohorted.mode, SchedulingMode::RunClassBins);
}

#[test]
fn a_detached_kernel_refuses_a_tree() {
    let mut kernel = DetachedKernel::new(0);
    assert_eq!(
        supervision_tree::run(&mut kernel, &TreeKnobs::default()),
        Err(RuntimeError::Unavailable)
    );
}

#[test]
fn cohorts_are_evaluated_one_by_one_as_they_are_together() {
    let program = synthetic_program(21_001, 2, 16);
    let shape = CohortShape {
        evaluator: 21_001,
        element_count: 6,
        element_stride: program.stride(),
    };
    let content = synthetic_inputs(6, program.stride());
    let mut outputs = Vec::new();
    for batched in [false, true] {
        let mut machine = Machine::default();
        let owner = machine
            .create_process(Ref64 { raw: 0 }, ProcessMode::Serial)
            .unwrap();
        let collectives = prepare_cohorts(&mut machine, owner, shape, &content, 3).unwrap();
        assert_eq!(collectives.len(), 3);
        let mut accelerator = CpuReferenceBackend::with(&[&program]);
        let mut cpu = CpuReferenceBackend::with(&[&program]);
        let mut stats = PlacementStats::new();
        let published = if batched {
            execute_epoch_with_spill(
                &mut machine,
                owner,
                &collectives,
                u32::MAX,
                &mut accelerator,
                &mut cpu,
                &mut stats,
            )
            .unwrap()
        } else {
            let mut published = Vec::new();
            for collective in &collectives {
                published.push(
                    execute_with_spill(
                        &mut machine,
                        owner,
                        *collective,
                        u32::MAX,
                        &mut accelerator,
                        &mut cpu,
                        &mut stats,
                    )
                    .unwrap(),
                );
            }
            published
        };
        assert_eq!(stats.cpu_executions, 3);
        outputs.push(gather_outputs(&mut machine, owner, &published).unwrap());
    }
    let mut reference = CpuReferenceBackend::with(&[&program]);
    let alone = reference
        .evaluate(21_001, &content, 6, program.stride())
        .unwrap();
    assert_eq!(outputs[0], outputs[1]);
    assert_eq!(outputs[0], [alone.clone(), alone.clone(), alone].concat());
}

#[test]
fn a_refused_batch_is_passed_on() {
    let mut kernel = DetachedKernel::new(0);
    let shape = CohortShape {
        evaluator: 1,
        element_count: 1,
        element_stride: 1,
    };
    assert_eq!(
        prepare_cohorts(&mut kernel, Ref64 { raw: 1 }, shape, &vec![0], 1),
        Err(BackendError::Runtime(RuntimeError::Unavailable))
    );
    assert_eq!(
        gather_outputs(&mut kernel, Ref64 { raw: 1 }, &vec![Ref64 { raw: 2 }]),
        Err(BackendError::Runtime(RuntimeError::Unavailable))
    );
}

#[test]
fn a_stream_runs_in_a_kernel() {
    let mut machine = Machine::default();
    let report = streaming_graph::run(&mut machine, StreamingGraphConfig::default()).unwrap();
    assert_eq!(report.committed_records, 32);
    assert_eq!(report.backpressure_events, 28);
    assert!(report.ordered());
    assert!(!report.source_failed);
    assert_eq!(machine.processes.len(), 3);
    assert_eq!(machine.channels.len(), 1);
    assert_eq!(machine.failures(), 0);

    let mut failing = Machine::default();
    let report = streaming_graph::run(
        &mut failing,
        StreamingGraphConfig {
            fail_source_after: Some(7),
            ..StreamingGraphConfig::default()
        },
    )
    .unwrap();
    assert_eq!(report.committed_records, 7);
    assert!(report.ordered());
    assert!(report.source_failed);
    assert_eq!(failing.failures(), 1);
    assert!(failing.channels.values().all(|channel| channel.closed));
}

#[test]
fn a_stream_without_processes_is_refused() {
    let mut machine = Machine {
        process_limit: Some(2),
        ..Machine::default()
    };
    assert_eq!(
        streaming_graph::run(&mut machine, StreamingGraphConfig::default()).err(),
        Some(RuntimeError::Unavailable)
    );
    assert!(machine.channels.is_empty());
}

#[test]
fn a_join_runs_in_a_kernel() {
    let mut machine = Machine::default();
    let report = multi_input_graph::run(&mut machine, MultiInputConfig::default()).unwrap();
    let pairs: Vec<(u64, u64)> = (0..16).map(|i| (i, i)).collect();
    assert_eq!(report.joined, pairs);
    assert!(report.ordered);
    assert!(report.left_backpressure > 0);
    assert_eq!(report.left_state, ProcessState::Active);
    assert_eq!(report.right_state, ProcessState::Active);
    assert!(report.legal);

    let mut failing = Machine::default();
    let config = MultiInputConfig {
        fail_left_after: Some(7),
        ..MultiInputConfig::default()
    };
    let report = multi_input_graph::run(&mut failing, config).unwrap();
    assert_eq!(report.joined, pairs[..7]);
    assert!(report.committed_prefix_preserved);
    assert_eq!(report.left_state, ProcessState::Failed);
    assert_eq!(report.right_state, ProcessState::Active);
    assert!(failing.channels.values().all(|channel| channel.closed));
}

#[test]
fn a_join_of_nothing_asks_the_kernel_for_nothing() {
    let mut machine = Machine::default();
    let config = MultiInputConfig {
        records: 0,
        ..MultiInputConfig::default()
    };
    assert_eq!(
        multi_input_graph::run(&mut machine, config).err(),
        Some(RuntimeError::InvalidMultiInput)
    );
    assert_eq!(machine.next, 0);
    let mut small = Machine {
        process_limit: Some(1),
        ..Machine::default()
    };
    assert_eq!(
        multi_input_graph::run(&mut small, MultiInputConfig::default()).err(),
        Some(RuntimeError::Unavailable)
    );
    assert!(small.channels.is_empty());
}

fn name_of(action: ExportAction) -> String {
    match action {
        ExportAction::WriteSummary(summary) => format!("summary {}", summary.epochs),
        ExportAction::Strike(strike) => format!("strike {}", strike.victims),
        other => format!("{other:?}"),
    }
}

/// Drives an export over a colony, and says what it did and what it wrote.
fn export(knobs: &ColonyKnobs, options: ExportOptions) -> (Vec<String>, Vec<String>, ExportRun) {
    let mut machine = Machine::default();
    let colony = build_for(&mut machine, knobs, &options).unwrap();
    assert_eq!(
        machine.schedule,
        Some((
            options.mode,
            options.cohort_width,
            PartialCohortPolicy::RunPartial
        ))
    );
    let mut run = ExportRun::new(knobs, options);
    let mut done = Vec::new();
    let mut lines = Vec::new();
    loop {
        let action = run.next();
        done.push(name_of(action));
        let event = match action {
            ExportAction::WriteHeader => {
                let terrain = machine.object_bytes(colony.world, colony.terrain).unwrap();
                lines.push(colony_header(&colony, &options, &terrain).unwrap());
                ExportEvent::HeaderWritten
            }
            ExportAction::DropRecords => {
                machine.keep_epoch_records();
                machine.take_trace_events();
                ExportEvent::Dropped
            }
            ExportAction::AskPending => ExportEvent::Pending(machine.total_pending()),
            ExportAction::Strike(strike) => {
                ExportEvent::Struck(inject_predator(&mut machine, &colony, strike).len() as u64)
            }
            ExportAction::DrainStrike | ExportAction::DrainObserved => {
                ExportEvent::Drained(machine.take_trace_events().len() as u64)
            }
            ExportAction::RunEpoch => {
                machine.run_epoch();
                ExportEvent::Ran
            }
            ExportAction::WriteEpoch(_) => {
                let ants = observe_ants(&mut machine, &colony);
                let events = machine.take_trace_events();
                let now = machine.accounting();
                let bins = vec![vec![]];
                lines.push(run.epoch_text(&ants, &bins, &events, &now).unwrap());
                ExportEvent::EpochWritten(now)
            }
            ExportAction::WriteField(_) => ExportEvent::FieldWritten(true),
            ExportAction::ReadEnd => {
                let ants = observe_ants(&mut machine, &colony);
                let (food_trail, home_trail) = field_totals(&mut machine, &colony, run.epochs);
                let census = machine.trace_census();
                ExportEvent::Read(Closing {
                    ants,
                    food_trail,
                    home_trail,
                    accounting: machine.accounting(),
                    taken: census.taken,
                    dropped: census.dropped,
                })
            }
            ExportAction::WriteSummary(_) => ExportEvent::SummaryWritten,
            ExportAction::Done => return (done, lines, run),
        };
        run.advance(event);
    }
}

#[test]
fn an_export_writes_its_stream_in_order() {
    let knobs = ColonyKnobs {
        epochs: 3,
        ..small_colony()
    };
    let options = ExportOptions {
        field_stride: 2,
        predator: Some((
            1,
            PredatorStrike {
                colony: 1,
                victims: 2,
            },
        )),
        ..ExportOptions::default()
    };
    let (done, lines, run) = export(&knobs, options);
    assert_eq!(
        done,
        vec![
            "WriteHeader",
            "DropRecords",
            "AskPending",
            "RunEpoch",
            "WriteEpoch(0)",
            "WriteField(0)",
            "DrainObserved",
            "AskPending",
            "strike 2",
            "DrainStrike",
            "RunEpoch",
            "WriteEpoch(1)",
            "DrainObserved",
            "AskPending",
            "RunEpoch",
            "WriteEpoch(2)",
            "WriteField(2)",
            "DrainObserved",
            "ReadEnd",
            "summary 3",
            "Done",
        ]
    );
    assert_eq!(run.epochs, 3);
    assert_eq!(run.struck, 2);
    assert_eq!(lines.len(), 4);
    assert!(lines[0].starts_with("{\"kind\":\"header\""));
    for (epoch, line) in lines[1..].iter().enumerate() {
        assert!(line.starts_with(&format!("{{\"kind\":\"epoch\",\"epoch\":{epoch}")));
    }
}

#[test]
fn an_export_ends_where_nothing_is_pending() {
    let options = ExportOptions::default();
    let mut run = ExportRun::new(&small_colony(), options);
    run.advance(ExportEvent::HeaderWritten);
    // An event that answers another action changes nothing.
    run.advance(ExportEvent::Ran);
    assert_eq!(run.next(), ExportAction::DropRecords);
    run.advance(ExportEvent::Dropped);
    run.advance(ExportEvent::Pending(0));
    assert_eq!(run.next(), ExportAction::ReadEnd);
    let spent = Machine::default().accounting();
    run.advance(ExportEvent::Read(Closing {
        ants: vec![],
        food_trail: 5,
        home_trail: 6,
        accounting: spent,
        taken: 9,
        dropped: 2,
    }));
    match run.next() {
        ExportAction::WriteSummary(summary) => {
            assert_eq!(summary.epochs, 0);
            assert_eq!((summary.food_trail, summary.home_trail), (5, 6));
            assert_eq!(summary.trace_events_streamed, 9);
            assert_eq!(summary.trace_events_dropped, 2);
        }
        other => panic!("{other:?}"),
    }
}
