use soma::compiler::body::{ElementLayout, EvaluatorProgram, FieldWidth, Op, Store};
use soma::executives::batch::{
    check_agreement, decline_bound, evaluate_elementwise, shares, AuxArray, BackendError,
    BackendKind, BatchBackend, BatchRequest, CpuReferenceBackend, Disagreement, Note, ServedLog,
};
use soma::executives::metal_scheduler::MetalDeviceScheduler;
use soma::executives::native::NativeCpuBackend;
use soma::experiments::ant_colony::read_slot;
use soma::experiments::irregular_arrival::{
    bulk_policy, checked_trace, soma_policy, trace, wait_percentile, IrregularKnobs,
};
use soma::experiments::territories::{
    routing_name, territory_policy, Routing, TerritoryConfig,
};
use soma::kernel::RuntimeError;
use soma::samples::percentile;
use soma::scheduler::{dispatch_cost, distinct_classes, lane_width};

fn program(id: u32, ops: Vec<Op>) -> EvaluatorProgram {
    let last = ops.len() as u32 - 1;
    EvaluatorProgram::new(
        id,
        "body".to_string(),
        ElementLayout::new(vec![FieldWidth::U32]),
        ops,
        vec![Store {
            field: 0,
            value: last,
        }],
    )
    .unwrap()
}

/// A backend that has not been taught the second array.
struct Untaught;

impl BatchBackend for Untaught {
    fn served(&self) -> ServedLog {
        unreachable!()
    }
    fn backend_kind(&self) -> BackendKind {
        unreachable!()
    }
    fn well_formed(&self) -> bool {
        unreachable!()
    }
    fn kind(&self) -> BackendKind {
        BackendKind::Remote
    }
    fn install(&mut self, _: &EvaluatorProgram) -> Result<(), BackendError> {
        Ok(())
    }
    fn note(&mut self, _: Note) {}
    fn evaluate(&mut self, _: u32, _: &[u8], _: u32, _: u32) -> Result<Vec<u8>, BackendError> {
        Err(BackendError::NodeLost)
    }
    fn evaluate_epoch(
        &mut self,
        _: &Vec<BatchRequest<'_>>,
    ) -> Result<Vec<Vec<u8>>, BackendError> {
        Err(BackendError::NodeLost)
    }
}

#[test]
fn a_backend_declines_a_second_array_by_default() {
    let bound = BatchRequest {
        evaluator_id: 1,
        inputs: &[0; 4],
        aux: AuxArray::new(&[0; 4], 1, 4),
        element_count: 1,
        element_stride: 4,
    };
    assert_eq!(
        Untaught.evaluate_with_aux(bound),
        Err(BackendError::UnsupportedEvaluator)
    );
    let unbound = BatchRequest {
        aux: AuxArray::new(&[], 0, 0),
        ..bound
    };
    assert_eq!(
        Untaught.evaluate_with_aux(unbound),
        Err(BackendError::NodeLost)
    );
    assert_eq!(
        Untaught.evaluate_payload(bound),
        Err(BackendError::UnsupportedEvaluator)
    );
    assert_eq!(
        Untaught.evaluate_payload(unbound),
        Err(BackendError::NodeLost)
    );
    let doubling = program(1, vec![Op::Load(0), Op::Add(0, 0)]);
    let mut reference = CpuReferenceBackend::with(&[&doubling]);
    let three = BatchRequest {
        inputs: &[3, 0, 0, 0],
        ..unbound
    };
    assert_eq!(reference.evaluate_payload(three), Ok(vec![6, 0, 0, 0]));
}

#[test]
fn two_equal_calls_answer_alike() {
    let doubling = program(1, vec![Op::Load(0), Op::Add(0, 0)]);
    let mut reference = CpuReferenceBackend::with(&[&doubling]);
    let mut native = NativeCpuBackend::with(&[&doubling]).unwrap();
    let first = reference.evaluate(1, &[7, 0, 0, 0], 1, 4);
    assert_eq!(first, Ok(vec![14, 0, 0, 0]));
    assert_eq!(reference.evaluate(1, &[7, 0, 0, 0], 1, 4), first);
    assert_eq!(native.evaluate(1, &[7, 0, 0, 0], 1, 4), first);
    assert_eq!(native.evaluate(1, &[7, 0, 0, 0], 1, 4), first);
}

#[test]
fn shares_joined_are_the_whole() {
    let inputs: Vec<u8> = (0..30).collect();
    let turn = |index: u32, mut element: Vec<u8>| {
        element[0] = element[0].wrapping_add(index as u8);
        element
    };
    let whole = evaluate_elementwise(&inputs, 10, 3, turn).unwrap();
    let mut joined = Vec::new();
    for (start, end) in shares(10, 4) {
        for index in start..end {
            let at = index as usize * 3;
            joined.extend(turn(index, inputs[at..at + 3].to_vec()));
        }
    }
    assert_eq!(joined, whole);
}

#[test]
fn a_workload_is_traced_wherever_its_ticks_are_reached() {
    let alone = IrregularKnobs {
        roots: 1,
        arrival_span: u32::MAX,
        depth: 1,
        branching_factor: 2,
        ..IrregularKnobs::default()
    };
    assert_eq!(trace(&alone).len(), 3);
    let late = IrregularKnobs {
        roots: 4,
        arrival_span: u32::MAX,
        depth: 0,
        ..alone
    };
    assert_eq!(checked_trace(&late).unwrap().horizon(), 3_221_225_471);
    let beyond = IrregularKnobs {
        depth: 3,
        jitter: u32::MAX,
        ..late
    };
    assert!(checked_trace(&beyond).is_none());
}

#[test]
fn a_backend_may_decline_but_not_differ() {
    let doubling = program(1, vec![Op::Load(0), Op::Add(0, 0)]);
    let squaring = program(1, vec![Op::Load(0), Op::Mul(0, 0)]);
    // Both bodies take two to four, so that the first difference is in the
    // second element.
    let inputs = [2u8, 0, 0, 0, 3, 0, 0, 0];
    let mut backends: Vec<Box<dyn BatchBackend>> = vec![
        Box::new(CpuReferenceBackend::with(&[&doubling])),
        Box::new(CpuReferenceBackend::with(&[&squaring])),
        Box::new(CpuReferenceBackend::new()),
        Box::new(CpuReferenceBackend::with(&[&doubling]).with_threads(2)),
        Box::new(NativeCpuBackend::with(&[&doubling]).unwrap()),
        Box::new(Untaught),
    ];
    let found = check_agreement(&doubling, &inputs, 2, &mut backends);
    assert_eq!(found.len(), 2);
    assert_eq!(
        found[1].detail,
        Disagreement::Failed(BackendKind::Remote, BackendError::NodeLost)
    );
    assert_eq!(found[0].evaluator, 1);
    assert_eq!(
        found[0].detail,
        Disagreement::DiffersAt(BackendKind::Cpu, 4)
    );

    assert_eq!(
        found[0].to_text(),
        "evaluator 1: Cpu backend differs from the definition at byte 4"
    );
    assert_eq!(
        found[1].to_text(),
        "evaluator 1: Remote backend failed: NodeLost"
    );

    let mut none: Vec<Box<dyn BatchBackend>> = vec![];
    assert!(check_agreement(&doubling, &inputs, 2, &mut none).is_empty());
    let mut undefined: Vec<Box<dyn BatchBackend>> = vec![Box::new(CpuReferenceBackend::new())];
    assert_eq!(
        check_agreement(&doubling, &inputs, 2, &mut undefined)[0].to_text(),
        "evaluator 1: the defining backend could not evaluate it: UnsupportedEvaluator"
    );
    assert_eq!(
        check_agreement(&doubling, &inputs, 2, &mut undefined)[0].detail,
        Disagreement::NoDefinition(BackendError::UnsupportedEvaluator)
    );
}

#[test]
fn malformed_requests_are_refused_alike() {
    let doubling = program(1, vec![Op::Load(0), Op::Add(0, 0)]);
    let mut backend = CpuReferenceBackend::with(&[&doubling]);
    assert_eq!(
        backend.evaluate(2, &[0; 4], 1, 4),
        Err(BackendError::UnsupportedEvaluator)
    );
    assert_eq!(
        backend.evaluate(1, &[0; 4], 1, 8),
        Err(BackendError::InvalidInput)
    );
    assert_eq!(
        backend.evaluate(1, &[0; 4], 2, 4),
        Err(BackendError::InvalidInput)
    );
    assert_eq!(backend.evaluate(1, &[0; 4], 0, 4), Ok(vec![]));
    assert_eq!(
        backend.evaluate(1, &[5, 0, 0, 0, 9], 1, 4),
        Ok(vec![10, 0, 0, 0])
    );
    assert_eq!(
        evaluate_elementwise(&[1, 2, 3, 4], 2, 2, |index, mut element| {
            element[0] = element[0].wrapping_add(index as u8 + 1);
            element
        }),
        Ok(vec![2, 2, 5, 4])
    );
    assert_eq!(
        evaluate_elementwise(&[1], 1, 0, |_, element| element),
        Err(BackendError::InvalidInput)
    );
    assert_eq!(
        decline_bound(&AuxArray::new(&[0; 4], 1, 4)),
        Err(BackendError::UnsupportedEvaluator)
    );
    assert_eq!(decline_bound(&AuxArray::new(&[], 0, 0)), Ok(()));
    assert_eq!(
        BackendError::from(RuntimeError::MailboxFull),
        BackendError::Runtime(RuntimeError::MailboxFull)
    );
}

#[test]
fn a_batch_is_shared_out_in_runs() {
    assert_eq!(shares(10, 3), vec![(0, 4), (4, 8), (8, 10)]);
    assert_eq!(shares(10, 1), vec![(0, 10)]);
    assert_eq!(shares(10, 0), vec![(0, 10)]);
    assert_eq!(shares(2, 8), vec![(0, 1), (1, 2)]);
    let doubling = program(1, vec![Op::Load(0), Op::Add(0, 0)]);
    let inputs: Vec<u8> = (0..4_000u32).flat_map(|n| n.to_le_bytes()).collect();
    let alone = CpuReferenceBackend::with(&[&doubling]).evaluate(1, &inputs, 4_000, 4);
    let mut threaded = CpuReferenceBackend::with(&[&doubling]).with_threads(7);
    assert_eq!(threaded.threads(), 7);
    assert_eq!(threaded.evaluate(1, &inputs, 4_000, 4), alone);
}

#[test]
fn lane_groups_are_charged_for_their_classes() {
    assert_eq!(lane_width(0), 1);
    assert_eq!(distinct_classes(&vec![3, 1, 3, 2, 1]), vec![1, 2, 3]);
    // Two full groups of one class and a third that holds two classes.
    let cost = dispatch_cost(&vec![1, 1, 1, 1, 2, 3], 2);
    assert_eq!(cost.dispatches, 4);
    assert_eq!(cost.lane_slots, 8);
    assert_eq!(cost.useful_lane_slots, 6);
    assert_eq!(cost.full_dispatches, 2);
    for single in [dispatch_cost(&vec![3, 1, 2, 1], 1), dispatch_cost(&vec![1, 1, 2, 3], 0)] {
        assert_eq!((single.dispatches, single.lane_slots), (4, 4));
        assert_eq!((single.useful_lane_slots, single.full_dispatches), (4, 4));
    }
    let uniform = dispatch_cost(&vec![7; 9], 4);
    assert_eq!((uniform.dispatches, uniform.full_dispatches), (3, 2));
    assert_eq!((uniform.lane_slots, uniform.useful_lane_slots), (12, 9));
}

#[test]
fn a_percentile_is_the_nearest_sample() {
    let waits = vec![9, 1, 7, 3, 5];
    assert_eq!(wait_percentile(&waits, 0), 1);
    assert_eq!(wait_percentile(&waits, 50), 5);
    assert_eq!(wait_percentile(&waits, 99), 9);
    assert_eq!(wait_percentile(&vec![], 50), 0);
    // Halves are rounded up.
    assert_eq!(percentile(&vec![10, 20], 50), 20);
    assert_eq!(percentile(&vec![10, 20], 49), 10);
}

#[test]
fn arrivals_come_in_order_and_each_once() {
    let knobs = IrregularKnobs {
        roots: 4,
        depth: 2,
        branching_factor: 2,
        ..IrregularKnobs::default()
    };
    let made = trace(&knobs);
    assert_eq!(made.len(), 4 * (1 + 2 + 4));
    let mut ids: Vec<u64> = made.events.iter().map(|e| e.id).collect();
    for pair in made.events.windows(2) {
        assert!((pair[0].tick, pair[0].id) < (pair[1].tick, pair[1].id));
    }
    ids.sort();
    ids.dedup();
    assert_eq!(ids.len(), made.len());
    assert!(made.distinct_classes() <= knobs.class_count as usize);
    assert_eq!(
        made.horizon(),
        made.events.iter().map(|e| e.tick).max().unwrap()
    );
}

#[test]
fn small_names_and_slots() {
    assert_eq!((read_slot(0), read_slot(1), read_slot(2)), (1, 0, 1));
    assert_eq!(routing_name(Routing::Local), "local");
    assert_eq!(
        routing_name(Routing::ClassAffinityBalanced { cap: 3 }),
        "affinity+spill"
    );
    let mut scheduler = MetalDeviceScheduler::new();
    assert_eq!(scheduler.journal_resident_capacity(), (0, 0));
    assert!(scheduler.journal_buffers(5, 3).is_some());
    assert_eq!(scheduler.journal_resident_capacity(), (8, 4));
    assert!(scheduler.journal_buffers(8, 4).is_none());
    assert!(scheduler.operation_buffers(3, 2).is_some());
    assert!(scheduler.operation_buffers(4, 2).is_none());
}

#[test]
fn no_item_waits_longer_than_it_may() {
    let made = trace(&IrregularKnobs::default());
    assert!(made.len() > 100);
    for bound in [0u32, 1, 4, 9] {
        let ours = soma_policy(&made, 8, bound);
        assert!(ours.waits.iter().all(|wait| *wait <= bound));
        assert_eq!(ours.cost.useful_lane_slots, made.len() as u64);
        let theirs = bulk_policy(&made, 8, bound);
        assert!(theirs.waits.iter().all(|wait| *wait < bound.max(1)));
        for routing in [Routing::Local, Routing::ProportionalAffinity] {
            let config = TerritoryConfig {
                territories: 4,
                width: 8,
                routing,
                max_defer: bound,
            };
            let routed = territory_policy(&made, &config);
            assert!(routed.waits.iter().all(|wait| *wait <= bound));
        }
    }
}

#[test]
fn shares_joined_equal_the_single_run() {
    let stride = 3usize;
    let inputs: Vec<u8> = (0..30).map(|i| (i * 7) as u8).collect();
    let element = |index: u32, mut bytes: Vec<u8>| {
        for byte in bytes.iter_mut() {
            *byte = byte.wrapping_mul(5).wrapping_add(index as u8);
        }
        bytes
    };
    let whole = evaluate_elementwise(&inputs, 10, stride as u32, element).unwrap();
    assert_ne!(whole, inputs);
    for threads in [0usize, 1, 3, 10, 64] {
        let mut joined: Vec<u8> = Vec::new();
        for (start, end) in shares(10, threads) {
            let part = evaluate_elementwise(
                &inputs[start as usize * stride..],
                end - start,
                stride as u32,
                |index, bytes| element(index + start, bytes),
            );
            joined.extend(part.unwrap());
        }
        assert_eq!(joined, whole);
    }
}
