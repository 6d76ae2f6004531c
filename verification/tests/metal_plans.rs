use soma::compiler::body::{ElementLayout, EvaluatorProgram, FieldWidth, Op, Store};
use soma::device::{
    DeviceLaneAccess, DeviceLaneOperation, DeviceOperationJournal, DEVICE_ACCESS_READ,
    DEVICE_ACCESS_WRITE,
};
use soma::executives::batch::{AuxArray, BackendError, BatchRequest};
use soma::executives::metal::{finish_epoch, stage, MetalBatchBackend, MetalTuning, Staging};
use soma::executives::metal_scheduler::{
    capacity_for, epoch_verdict, finish_installed, finish_lane_journals,
    finish_operation_journals, finish_search_lanes, has_journal_per_lane,
    lane_validation_error, plan_lane_journals, plan_operation_journals, plan_schedule, policy_code,
    reference_journal_is_sound, reference_lane_conflicts, sort_passes, DeviceEvaluatorLane,
    LanePlan, LaneValidationError, MetalDeviceScheduler, PartialCohortPolicy,
};
use soma::executives::metal_search::{
    finish_search, finish_search_with_trace, plan_search, MetalResidentSearch,
    ResidentFrameGraphConfig, ResidentFrameTraceEvent, ResidentSearchConfig, ResidentTraceEvent,
};

fn doubling(id: u32) -> EvaluatorProgram {
    EvaluatorProgram::new(
        id,
        "doubling".to_string(),
        ElementLayout::new(vec![FieldWidth::U32]),
        vec![Op::Load(0), Op::Add(0, 0)],
        vec![Store { field: 0, value: 1 }],
    )
    .unwrap()
}

fn placed(id: u32) -> EvaluatorProgram {
    EvaluatorProgram::new(
        id,
        "placed".to_string(),
        ElementLayout::new(vec![FieldWidth::U32]),
        vec![Op::Index],
        vec![Store { field: 0, value: 0 }],
    )
    .unwrap()
}

fn request(id: u32, inputs: &[u8], count: u32) -> BatchRequest<'_> {
    BatchRequest {
        evaluator_id: id,
        inputs,
        aux: AuxArray::new(&[], 0, 0),
        element_count: count,
        element_stride: 4,
    }
}

#[test]
fn an_epoch_is_staged_at_aligned_offsets() {
    let first = doubling(1);
    let second = placed(2);
    let backend = MetalBatchBackend::with(&[&first, &second]);
    let long: Vec<u8> = (0..=255u8).chain(0..=43).collect();
    let requests = vec![
        request(1, &long, 75),
        request(2, &[], 0),
        request(2, &[9, 8, 7, 6, 5], 1),
    ];
    let plan = backend.plan_epoch(&requests).unwrap();
    assert_eq!(plan.offsets, vec![0, 512, 512]);
    assert_eq!(plan.staged, 768);
    let required: Vec<usize> = plan.dispatches.iter().map(|d| d.required).collect();
    assert_eq!(required, vec![300, 0, 4]);
    let buffer = stage(&plan, &requests);
    assert_eq!(buffer.len(), 768);
    assert_eq!(buffer[..300], long[..]);
    assert_eq!(buffer[512..516], [9, 8, 7, 6]);

    let outputs = vec![vec![1u8; 300], vec![5, 5], vec![2, 0, 0, 0]];
    assert_eq!(
        finish_epoch(&plan, true, outputs.clone()),
        Ok(vec![vec![1u8; 300], vec![], vec![2, 0, 0, 0]])
    );
    let mut short = outputs.clone();
    short[0].pop();
    assert_eq!(
        finish_epoch(&plan, true, short),
        Err(BackendError::ExecutionFailed)
    );
    assert_eq!(
        finish_epoch(&plan, true, outputs[..2].to_vec()),
        Err(BackendError::ExecutionFailed)
    );
    assert_eq!(
        finish_epoch(&plan, false, outputs),
        Err(BackendError::ExecutionFailed)
    );
}

#[test]
fn requests_that_do_not_fit_their_pipeline_are_refused() {
    let program = doubling(1);
    let backend = MetalBatchBackend::with(&[&program]);
    let inputs = [0u8; 8];
    assert_eq!(
        backend.plan(&request(3, &inputs, 2)),
        Err(BackendError::UnsupportedEvaluator)
    );
    assert_eq!(
        backend.plan(&request(1, &inputs, 3)),
        Err(BackendError::InvalidInput)
    );
    let mut wide = request(1, &inputs, 1);
    wide.element_stride = 8;
    assert_eq!(backend.plan(&wide), Err(BackendError::InvalidInput));
    assert_eq!(backend.plan(&request(1, &inputs, 0)), Ok(None));
    assert_eq!(
        backend.plan(&request(1, &inputs, 2)).unwrap().unwrap().required,
        8
    );
    let refused = vec![request(1, &inputs, 2), request(3, &inputs, 2)];
    assert_eq!(
        backend.plan_epoch(&refused).err(),
        Some(BackendError::UnsupportedEvaluator)
    );
}

#[test]
fn a_threadgroup_is_as_wide_as_tuning_device_and_work_allow() {
    let own = MetalBatchBackend::new();
    assert_eq!(own.tuning(), MetalTuning::default());
    assert_eq!(own.threadgroup_width(32, 1024, 5), 5);
    assert_eq!(own.threadgroup_width(32, 1024, 500), 32);
    assert_eq!(own.threadgroup_width(32, 16, 500), 16);
    assert_eq!(own.threadgroup_width(0, 16, 0), 1);
    let mut tuned = MetalBatchBackend::new_with_tuning(MetalTuning {
        threadgroup_width: Some(256),
        reuse_scratch_buffers: false,
    });
    assert_eq!(tuned.threadgroup_width(32, 1024, 500), 256);
    assert_eq!(tuned.scratch_for(100), Staging::Fresh(100));
    tuned.set_tuning(MetalTuning::default());
    assert_eq!(tuned.scratch_for(100), Staging::Grow(100));
    assert_eq!(tuned.scratch_for(64), Staging::Keep);
    assert_eq!(tuned.scratch_for(101), Staging::Grow(101));
}

#[test]
fn lanes_that_touch_what_another_wrote_clash() {
    let accesses = vec![
        DeviceLaneAccess::new(2, 1, 7, DEVICE_ACCESS_READ, 0),
        DeviceLaneAccess::new(0, 1, 7, DEVICE_ACCESS_WRITE, 0),
        DeviceLaneAccess::new(1, 1, 8, DEVICE_ACCESS_READ, 0),
        DeviceLaneAccess::new(3, 1, 8, DEVICE_ACCESS_READ, 0),
        DeviceLaneAccess::new(3, 2, 7, DEVICE_ACCESS_WRITE, 1),
    ];
    let conflicts = reference_lane_conflicts(&accesses, 4);
    let others: Vec<(u32, u32)> = conflicts
        .iter()
        .map(|c| (c.conflicts, c.first_other_lane))
        .collect();
    assert_eq!(
        others,
        vec![(1, 2), (0, u32::MAX), (1, 0), (0, u32::MAX)]
    );
    let plan = plan_lane_journals(&accesses, 4).unwrap().unwrap();
    assert_eq!(plan.sorted.len(), 5);
    let groups: Vec<(u32, u32)> = plan.groups.iter().map(|g| (g.offset, g.count)).collect();
    assert_eq!(groups.len(), 3);
    assert_eq!(groups[0].0, 0);
    assert_eq!(groups.iter().map(|g| g.1).sum::<u32>(), 5);
    assert_eq!(
        plan_lane_journals(&accesses, 3).err(),
        Some(BackendError::InvalidInput)
    );
    assert!(plan_lane_journals(&vec![], 0).unwrap().is_none());
    assert_eq!(finish_lane_journals(true, 4, conflicts.clone()), Ok(conflicts.clone()));
    assert_eq!(
        finish_lane_journals(true, 3, conflicts.clone()),
        Err(BackendError::ExecutionFailed)
    );
    assert_eq!(
        finish_lane_journals(false, 4, conflicts.clone()),
        Err(BackendError::ExecutionFailed)
    );
    let journal = DeviceOperationJournal::new();
    let journals = [&journal, &journal, &journal, &journal];
    assert!(has_journal_per_lane(&journals, 4));
    assert_eq!(
        epoch_verdict(&journals, 4, Ok(()), Ok(conflicts.clone())).unwrap(),
        conflicts
    );
    assert!(matches!(
        epoch_verdict(&journals[1..], 4, Ok(()), Ok(conflicts.clone())),
        Err(LaneValidationError::InvalidInput)
    ));
    assert!(matches!(
        epoch_verdict(&journals, 4, Err(BackendError::Unavailable), Ok(conflicts)),
        Err(LaneValidationError::Unavailable)
    ));
    assert!(matches!(
        epoch_verdict(&journals, 4, Ok(()), Err(BackendError::ExecutionFailed)),
        Err(LaneValidationError::ExecutionFailed)
    ));
}

#[test]
fn operation_journals_are_laid_out_one_after_the_other() {
    let mut first = DeviceOperationJournal::new();
    assert_eq!(first.append_payload(&[1, 2, 3]), Some((0, 3)));
    assert_eq!(first.append_payload(&[4]), Some((3, 1)));
    for ordinal in 0..2 {
        first.operations.push(DeviceLaneOperation {
            lane: 5,
            ordinal,
            opcode: 2,
            payload_offset: 3,
            payload_len: 1,
            ..DeviceLaneOperation::default()
        });
    }
    let empty = DeviceOperationJournal::new();
    assert!(plan_operation_journals(&[]).unwrap().is_none());
    let plan = plan_operation_journals(&[&first, &empty, &first]).unwrap().unwrap();
    assert_eq!(plan.operations.len(), 4);
    let slices: Vec<(u32, u32, u32, u32)> = plan
        .slices
        .iter()
        .map(|s| {
            (
                s.operation_offset,
                s.operation_count,
                s.payload_len,
                s.expected_lane,
            )
        })
        .collect();
    assert_eq!(
        slices,
        vec![(0, 2, 4, 5), (2, 0, 0, u32::MAX), (2, 2, 4, 5)]
    );

    assert!(reference_journal_is_sound(&first));
    assert!(reference_journal_is_sound(&empty));
    for damage in 0..4 {
        let mut bad = first.clone();
        match damage {
            0 => bad.operations[1].ordinal = 3,
            1 => bad.operations[1].lane = 4,
            2 => bad.operations[0].opcode = 12,
            _ => bad.operations[0].payload_len = 2,
        }
        assert!(!reference_journal_is_sound(&bad));
    }
    assert_eq!(finish_operation_journals(true, &vec![1, 1]), Ok(()));
    assert_eq!(
        finish_operation_journals(true, &vec![1, 0]),
        Err(BackendError::InvalidInput)
    );
    assert_eq!(
        finish_operation_journals(false, &vec![1, 1]),
        Err(BackendError::ExecutionFailed)
    );
}

#[test]
fn a_schedule_is_padded_clamped_and_sorted() {
    let plan = plan_schedule(5, 127, 0, PartialCohortPolicy::SendToCpu)
        .unwrap()
        .unwrap();
    assert_eq!((plan.count, plan.padded, plan.width), (5, 8, 1));
    assert_eq!((plan.policy, plan.sorted_admission), (1, false));
    let plan = plan_schedule(8, 128, 1000, PartialCohortPolicy::MergeWithGenericClass)
        .unwrap()
        .unwrap();
    assert_eq!((plan.padded, plan.width, plan.policy), (8, 64, 3));
    assert!(plan.sorted_admission);
    assert!(plan_schedule(0, 0, 8, PartialCohortPolicy::Defer)
        .unwrap()
        .is_none());
    assert_eq!(
        plan_schedule(1 << 32, 0, 8, PartialCohortPolicy::Defer),
        Err(BackendError::InvalidInput)
    );
    assert_eq!(policy_code(PartialCohortPolicy::Defer), 0);
    assert_eq!(policy_code(PartialCohortPolicy::RunPartial), 2);
    assert_eq!(
        sort_passes(8),
        vec![(2, 1), (4, 2), (4, 1), (8, 4), (8, 2), (8, 1)]
    );
    assert_eq!(sort_passes(1), vec![]);
}

#[test]
fn buffers_grow_to_powers_of_two_and_stay() {
    assert_eq!(capacity_for(0), 1);
    assert_eq!(capacity_for(64), 64);
    assert_eq!(capacity_for(65), 128);
    let mut scheduler = MetalDeviceScheduler::new();
    assert_eq!(scheduler.resident_capacity(), 0);
    assert_eq!(scheduler.buffers(5), Some(8));
    assert_eq!(scheduler.buffers(8), None);
    assert_eq!(scheduler.resident_capacity(), 8);
    assert_eq!(scheduler.buffers(9), Some(16));
}

fn lane(index: u32, run_class: u32) -> DeviceEvaluatorLane {
    DeviceEvaluatorLane {
        continuation: u64::from(index) + 100,
        process: u64::from(index) + 200,
        frame: u64::from(index) + 300,
        lane: index,
        run_class,
        frame_offset: 4 * index,
        frame_len: 4,
    }
}

#[test]
fn lanes_of_an_installed_class_are_evaluated_together_unless_they_read_their_place() {
    let mut scheduler = MetalDeviceScheduler::new();
    assert_eq!(
        scheduler.install_frame_evaluator(3, &doubling(1)),
        Err(BackendError::InvalidInput)
    );
    scheduler.install_frame_evaluator(2000, &doubling(1)).unwrap();
    scheduler.install_frame_evaluator(2001, &placed(2)).unwrap();
    let together = vec![lane(0, 2000), lane(1, 2000)];
    match scheduler.plan_lanes(&together, 8).unwrap() {
        LanePlan::Installed {
            stride,
            count,
            offsets,
        } => assert_eq!((stride, count, offsets), (4, 2, vec![0])),
        other => panic!("{other:?}"),
    }
    match scheduler
        .plan_lanes(&vec![lane(0, 2001), lane(1, 2001)], 8)
        .unwrap()
    {
        LanePlan::Installed { count, offsets, .. } => {
            assert_eq!((count, offsets), (1, vec![0, 4]))
        }
        other => panic!("{other:?}"),
    }
    assert!(matches!(
        scheduler.plan_lanes(&vec![lane(0, 5)], 4),
        Ok(LanePlan::Search)
    ));
    assert!(matches!(
        scheduler.plan_lanes(&vec![], 4),
        Ok(LanePlan::Nothing)
    ));
    assert!(matches!(
        scheduler.plan_lanes(&together, 9),
        Err(LaneValidationError::InvalidInput)
    ));
    let evaluation = finish_installed(&together, 8, true, vec![7; 8]).unwrap();
    assert_eq!(evaluation.frames, vec![7; 8]);
    assert_eq!(evaluation.results[1].frame_offset, 4);
    assert_eq!(evaluation.results[1].status, 1);
    assert!(matches!(
        finish_installed(&together, 8, false, vec![7; 8]),
        Err(LaneValidationError::ExecutionFailed)
    ));
    assert!(matches!(
        finish_installed(&together, 8, true, vec![7; 7]),
        Err(LaneValidationError::ExecutionFailed)
    ));
    let mut results = evaluation.results.clone();
    results[0].status = 0;
    assert!(matches!(
        finish_search_lanes(2, 0, true, results, vec![]),
        Err(LaneValidationError::InvalidInput)
    ));
    assert!(matches!(
        finish_search_lanes(3, 0, true, evaluation.results.clone(), vec![]),
        Err(LaneValidationError::ExecutionFailed)
    ));
    assert!(finish_search_lanes(2, 0, true, evaluation.results, vec![]).is_ok());
    assert_eq!(
        lane_validation_error(BackendError::Unavailable),
        LaneValidationError::Unavailable
    );
}

const SEARCH: ResidentSearchConfig = ResidentSearchConfig {
    roots: 3,
    depth: 2,
    branching: 4,
    work_iters: 9,
    class_count: 2,
    cohort_width: 0,
};

#[test]
fn a_search_s_trace_starts_behind_the_levels_above() {
    assert_eq!(SEARCH.node_count(), Some(63));
    let plan = plan_search(SEARCH).unwrap();
    assert_eq!(plan.constants.capacity, 63);
    assert_eq!(plan.constants.cohort_width, 1);
    assert_eq!(plan.roots.len(), 3);
    assert_eq!(plan.roots[2].value, 3);
    assert_eq!(plan.roots[2].depth, 2);
    let offsets: Vec<u32> = plan.epochs.iter().map(|e| e.trace_offset).collect();
    assert_eq!(offsets, vec![0, 3, 15]);
    let huge = ResidentSearchConfig {
        depth: 40,
        ..SEARCH
    };
    assert_eq!(huge.node_count(), None);
    assert_eq!(plan_search(huge).err(), Some(BackendError::InvalidInput));

    let words: Vec<u32> = (0..11).collect();
    let found = finish_search(true, &words).unwrap();
    assert_eq!(
        (found.nodes, found.epochs, found.useful_lane_slots),
        (3, 4, 10)
    );
    assert_eq!(
        finish_search(false, &words).err(),
        Some(BackendError::ExecutionFailed)
    );
    let event = |value: u64| ResidentTraceEvent {
        value,
        epoch: 0,
        lane: 0,
        lane_sequence: 0,
        run_class: 0,
        word: 0,
        reserved: 0,
    };
    let buffer: Vec<ResidentTraceEvent> = (0..5).map(event).collect();
    let (same, events) = finish_search_with_trace(true, &words, buffer.clone()).unwrap();
    assert_eq!(same, found);
    assert_eq!(events, buffer[..3]);
    assert_eq!(
        finish_search_with_trace(true, &words, buffer[..2].to_vec()).err(),
        Some(BackendError::ExecutionFailed)
    );
}

#[test]
fn a_frame_graph_needs_its_handler_and_whole_frames() {
    let mut search = MetalResidentSearch::new();
    let config = ResidentFrameGraphConfig {
        run_class: 2000,
        epochs: 3,
        cohort_width: 32,
    };
    assert_eq!(
        search.plan_frame_graph(config, 2, 8).err(),
        Some(BackendError::UnsupportedEvaluator)
    );
    search.install_frame_handler(2000, &doubling(1)).unwrap();
    let plan = search.plan_frame_graph(config, 2, 8).unwrap().unwrap();
    assert_eq!((plan.stride, plan.count, plan.trace_count), (4, 2, 6));
    assert_eq!(plan.final_buffer, 1);
    assert!(search.plan_frame_graph(config, 0, 0).unwrap().is_none());
    assert_eq!(
        search.plan_frame_graph(config, 2, 7).err(),
        Some(BackendError::InvalidInput)
    );
    assert_eq!(
        search.set_frame_cohort_width(0),
        Err(BackendError::InvalidInput)
    );
    search.set_frame_cohort_width(16).unwrap();
    let graph = search
        .plan_lanes(&vec![lane(1, 2000), lane(0, 2000)], &vec![1, 1, 1, 1, 2, 2, 2, 2])
        .unwrap()
        .unwrap();
    assert_eq!(graph.config.cohort_width, 16);
    assert_eq!(graph.config.epochs, 1);
    assert_eq!(graph.packed, vec![2, 2, 2, 2, 1, 1, 1, 1]);
    assert_eq!(graph.bindings[0].continuation, 101);
    assert_eq!(graph.bindings[0].actor, 201);
}

#[test]
fn an_epoch_is_validated_against_the_graph_that_it_came_from() {
    let mut search = MetalResidentSearch::new();
    search.install_frame_handler(2000, &doubling(1)).unwrap();
    assert!(matches!(
        search.validate_epoch(&vec![], 0, &[]),
        Err(LaneValidationError::InvalidInput)
    ));
    let lanes = vec![lane(0, 2000), lane(1, 2000)];
    let accesses = vec![
        DeviceLaneAccess::new(0, 1, 7, DEVICE_ACCESS_WRITE, 0),
        DeviceLaneAccess::new(0, 1, 9, DEVICE_ACCESS_READ, 1),
        DeviceLaneAccess::new(1, 1, 7, DEVICE_ACCESS_WRITE, 0),
        DeviceLaneAccess::new(1, 1, 10, DEVICE_ACCESS_READ, 1),
    ];
    let operations: Vec<DeviceLaneOperation> = (0..4)
        .map(|k| DeviceLaneOperation {
            lane: k / 2,
            ordinal: k % 2,
            opcode: 2,
            ..DeviceLaneOperation::default()
        })
        .collect();
    let event = |lane: u32| ResidentFrameTraceEvent {
        epoch: 0,
        lane,
        run_class: 2000,
        word: 5,
    };
    let trace = vec![event(0), event(1)];
    let config = ResidentFrameGraphConfig {
        run_class: 2000,
        epochs: 1,
        cohort_width: 32,
    };
    let plan = search.plan_frame_graph(config, 2, 8).unwrap().unwrap();
    for genuine in [true, false] {
        let graph = search
            .finish_frame_graph(
                &plan,
                true,
                vec![0; 8],
                accesses.clone(),
                &operations,
                trace.clone(),
            )
            .unwrap();
        let journals = graph.operations.clone();
        assert_eq!(journals.len(), 2);
        assert_eq!(journals[1].operations[0].lane, 1);
        let evaluation = search.finish_lanes(&lanes, 4, graph);
        assert_eq!(evaluation.results[1].frame_offset, 4);
        assert_eq!(search.last_frame_trace().len(), 2);
        if genuine {
            let conflicts = search
                .validate_epoch(&accesses, 2, &[&journals[0], &journals[1]])
                .unwrap();
            assert_eq!(conflicts[0].first_other_lane, 1);
            assert_eq!(conflicts[1].first_other_lane, 0);
        } else {
            assert!(matches!(
                search.validate_epoch(&accesses, 2, &[&journals[1], &journals[0]]),
                Err(LaneValidationError::ProtocolError)
            ));
        }
    }
    assert!(matches!(
        search.validate_epoch(&accesses, 2, &[]),
        Err(LaneValidationError::InvalidInput)
    ));
    let graph = search
        .finish_frame_graph(&plan, true, vec![0; 8], accesses.clone(), &operations, trace.clone())
        .unwrap();
    let journals = graph.operations.clone();
    let conflicts = search
        .validate_epoch(&accesses, 2, &[&journals[0], &journals[1]])
        .unwrap();
    assert_eq!(conflicts[0].first_other_lane, 1);
    assert_eq!(conflicts[0].reserved, 0);
    for (completed, bytes) in [(false, 8), (true, 7)] {
        assert_eq!(
            search
                .finish_frame_graph(
                    &plan,
                    completed,
                    vec![0; bytes],
                    accesses.clone(),
                    &operations,
                    trace.clone(),
                )
                .err(),
            Some(BackendError::ExecutionFailed)
        );
    }
}
