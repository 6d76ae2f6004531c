use soma::compiler::body::{ElementLayout, EvaluatorProgram, FieldWidth, Op, Store};
use soma::discovery::{DiscoveryError, DiscoveryEvent, DiscoveryNode, ObjectDigest};
use soma::executives::batch::{
    AuxArray, BackendError, BatchBackend, BatchRequest, CpuReferenceBackend,
};
use soma::executives::native::{compile, NativeCpuBackend};
use soma::experiments::ant_observe::AntView;
use soma::experiments::ant_scoring::{
    expected_direction, pack, pack_sensors, program, sample_batch, sensing_program,
    sensing_source, source, unpack, unpack_sensors, Neighbourhood, Sensor,
};
use soma::experiments::ant_trace::{
    base64, epoch_line, field_line, header_line, mode_name, since, streamed, summary_line,
    tally_events, EventKind, ExportOptions, ExportSummary, TraceEvent,
};
use soma::experiments::ant_colony::{ColonyKnobs, PredatorStrike};
use soma::experiments::cohort_study::{Comparison, StudyRun};
use soma::experiments::discovery_search::{evaluator_programs, generate_trace, DiscoveryKnobs};
use soma::experiments::irregular_arrival::{
    bulk_policy, soma_policy, Arrival, ArrivalTrace, IrregularKnobs,
};
use soma::experiments::multi_input_graph;
use soma::experiments::multi_input_graph::{JoinAction, JoinEvent, JoinRun, MultiInputConfig};
use soma::experiments::self_tuning::{
    capture_schedule, capture_with, cpu_configurations, hardware_configurations, rankings,
    trace_from_capture, validate_capture, ExecutionConfig, PhysicalMeasurement, Placement,
    TuningStudy, TuningWorkload,
};
use soma::experiments::streaming_graph::{
    StreamAction, StreamEvent, StreamRun, StreamingGraphConfig, StreamingGraphReport,
};
use soma::experiments::territories::{
    global_sort_reference, territory_policy, Routing, TerritoryConfig,
};
use soma::experiments::tuning_replay::replay_program;
use soma::kernel::{ProcessState, Ref64, RuntimeError};
use soma::scheduler::{Accounting, SchedulingMode};
use std::collections::VecDeque;

fn gathering_program() -> EvaluatorProgram {
    EvaluatorProgram::with_aux(
        40,
        "gathering".to_string(),
        ElementLayout::new(vec![FieldWidth::U64, FieldWidth::U16]),
        ElementLayout::new(vec![FieldWidth::U8, FieldWidth::U32]),
        vec![
            Op::Load(0),
            Op::Index,
            Op::Gather(1, 0),
            Op::GatherAux(0, 1),
            Op::Const(70),
            Op::Shl(3, 4),
            Op::Shr(2, 4),
            Op::Xor(5, 6),
            Op::CmpLt(0, 2),
            Op::CmpEq(0, 2),
            Op::Select(9, 7, 3),
            Op::Put(0, 10),
            Op::Get(0),
            Op::Sub(12, 8),
            Op::Or(13, 1),
            Op::And(14, 0),
            Op::Add(14, 15),
            Op::Mul(16, 4),
        ],
        vec![
            Store { field: 1, value: 17 },
            Store { field: 0, value: 16 },
        ],
    )
    .unwrap()
}

#[test]
fn native_code_answers_as_the_interpreter_does() {
    let program = gathering_program();
    let inputs: Vec<u8> = (0..100u32).map(|i| (i * 37 + 11) as u8).collect();
    let aux: Vec<u8> = (0..35u32).map(|i| (i * 91 + 5) as u8).collect();
    let mut reference = CpuReferenceBackend::with(&[&program]);
    for threads in [1, 3, 64] {
        let mut native = NativeCpuBackend::with(&[&program]).unwrap().with_threads(threads);
        assert_eq!(native.threads(), threads);
        for aux_count in [0, 1, 7] {
            let request = BatchRequest {
                evaluator_id: 40,
                inputs: &inputs,
                aux: AuxArray::new(&aux, aux_count, 5),
                element_count: 10,
                element_stride: 10,
            };
            let expected = reference.evaluate_with_aux(request).unwrap();
            assert_eq!(native.evaluate_with_aux(request).unwrap(), expected);
            assert_ne!(expected, inputs);
        }
    }
}

#[test]
fn native_code_declines_loops_and_refuses_bad_requests() {
    let looping = EvaluatorProgram::new(
        41,
        "looping".to_string(),
        ElementLayout::new(vec![FieldWidth::U32]),
        vec![Op::Load(0), Op::Repeat(3), Op::Put(0, 0), Op::EndRepeat],
        vec![],
    )
    .unwrap();
    assert_eq!(
        compile(&looping).err(),
        Some(BackendError::UnsupportedEvaluator)
    );
    let program = gathering_program();
    let mut native = NativeCpuBackend::with(&[&program]).unwrap();
    native.set_threads(0);
    assert_eq!(native.threads(), 1);
    assert_eq!(
        native.install(&looping),
        Err(BackendError::UnsupportedEvaluator)
    );
    let inputs = vec![0u8; 20];
    assert_eq!(
        native.evaluate(41, &inputs, 2, 10),
        Err(BackendError::UnsupportedEvaluator)
    );
    assert_eq!(
        native.evaluate(40, &inputs, 2, 10),
        Err(BackendError::InvalidInput)
    );
    let short = BatchRequest {
        evaluator_id: 40,
        inputs: &inputs,
        aux: AuxArray::new(&inputs, 1, 5),
        element_count: 3,
        element_stride: 10,
    };
    assert_eq!(
        native.evaluate_with_aux(short),
        Err(BackendError::InvalidInput)
    );
}

#[test]
fn the_scoring_body_decides_as_expected_on_every_sample() {
    let body = program();
    assert_eq!(body.ops.len(), 37);
    let batch = sample_batch();
    assert_eq!(batch.len(), 36);
    let inputs = pack(&batch);
    let mut backend = CpuReferenceBackend::with(&[&body]);
    let outputs = backend.evaluate(11, &inputs, 36, 36).unwrap();
    let chosen = unpack(&outputs, 36);
    let mut native = NativeCpuBackend::with(&[&body]).unwrap();
    assert_eq!(native.evaluate(11, &inputs, 36, 36).unwrap(), outputs);
    for (direction, item) in chosen.iter().zip(&batch) {
        assert_eq!(*direction, item.expected());
    }
    assert_eq!(chosen[0], 0);
    assert_eq!(chosen[1], 0);
    assert_eq!(chosen[3], 7);
    assert_eq!(chosen[4 + 5], 5);
    assert_eq!(batch[4 + 6].direction(), (-1, 0));
    assert_eq!(unpack(&outputs, 37)[36], 0);
    let tied = Neighbourhood { readings: [1, 5, 5, 0, 0, 0, 0, 0] };
    assert_eq!(tied.expected(), 1);
}

#[test]
fn the_sensing_body_decides_as_expected_on_every_cell() {
    let (width, height) = (5u32, 4u32);
    let grid: Vec<u8> = (0..80u32).map(|i| (i * 53 % 251) as u8).collect();
    let mut sensors = Vec::new();
    for channel in 0..2 {
        for y in 0..height {
            for x in 0..width {
                sensors.push(Sensor { x, y, width, height, channel });
            }
        }
    }
    let body = sensing_program();
    assert_eq!(body.ops.len(), 132);
    let inputs = pack_sensors(&sensors);
    let request = BatchRequest {
        evaluator_id: 16,
        inputs: &inputs,
        aux: AuxArray::new(&grid, 40, 2),
        element_count: 40,
        element_stride: 24,
    };
    let mut backend = CpuReferenceBackend::with(&[&body]);
    let outputs = backend.evaluate_with_aux(request).unwrap();
    let mut native = NativeCpuBackend::with(&[&body]).unwrap();
    assert_eq!(native.evaluate_with_aux(request).unwrap(), outputs);
    let chosen = unpack_sensors(&outputs, 40);
    for (direction, sensor) in chosen.iter().zip(&sensors) {
        assert_eq!(*direction, expected_direction(sensor, &grid));
    }
    assert!(chosen.iter().any(|direction| *direction != chosen[0]));
}

#[test]
fn the_bodies_are_written_in_the_module_language() {
    let text = source();
    assert!(text.starts_with(
        "module soma.ants\nevaluator 11 ant_movement_score 36 110 111 ro 112 113 ro\n  field u32\n"
    ));
    assert!(text.contains("  op 2 load 1\n  op 3 cmplt 0 2\n  op 4 select 3 2 0\n  op 5 const 1\n  op 6 select 3 5 1\n"));
    assert!(text.contains("  op 7 load 2\n  op 8 cmplt 4 7\n  op 9 select 8 7 4\n"));
    assert!(text.ends_with("  store 8 36\n"));
    let text = sensing_source();
    assert!(text.contains("  aux u16\n  op 0 load 0\n"));
    assert!(text.contains("  op 8 const 0\n  op 9 const 18446744073709551615\n  op 10 add 0 8\n"));
    assert!(text.contains("  op 18 gatheraux 17 0\n  op 19 select 14 18 7\n"));
    assert!(text.ends_with("  op 131 select 128 130 127\n  store 5 131\n"));
}

#[test]
fn base64_is_the_standard_one() {
    assert_eq!(base64(b""), "");
    assert_eq!(base64(b"f"), "Zg==");
    assert_eq!(base64(b"fo"), "Zm8=");
    assert_eq!(base64(b"foo"), "Zm9v");
    assert_eq!(base64(b"foobar"), "Zm9vYmFy");
    assert_eq!(base64(&[0xff, 0xef, 0xbe]), "/+++");
}

#[test]
fn lines_of_a_stream_read_as_they_should() {
    let knobs = ColonyKnobs { seed: 9, ..ColonyKnobs::default() };
    let options = ExportOptions::default();
    let header = header_line(
        &knobs,
        &options,
        256,
        &vec![vec![1, 2, 64], vec![3, 4, 64]],
        &vec![vec![5, 6, 7]],
        &[1, 2, 3],
    );
    assert!(header.starts_with(
        "{\"kind\":\"header\",\"width\":96,\"height\":96,\"colonies\":4,\"ants\":256,\"epochs\":400,\"seed\":9,\"mode\":\"run-class\",\"lane_width\":32,\"field_stride\":4,\"ant_sample\":0,\"nests\":[[1,2,64],[3,4,64]],\"food\":[[5,6,7]],\"obstacles\":\"AQID\",\"run_classes\":{\"20\":\"explore\",\"21\":\"follow-trail\","
    ));
    assert!(header.ends_with("\"27\":\"world-step\"}}\n"));
    assert_eq!(mode_name(SchedulingMode::PersistentFifo), "persistent-fifo");

    let zero = Accounting {
        cohorts: 0,
        lane_slots: 0,
        useful_lane_slots: 0,
        full_cohorts: 0,
        steps: 0,
        deferred_lanes: 0,
    };
    let later = Accounting { cohorts: 3, lane_slots: 96, useful_lane_slots: 40, steps: 40, ..zero };
    let events = vec![
        TraceEvent { kind: EventKind::CohortCreated, run_class: 20, auxiliary: 32 },
        TraceEvent { kind: EventKind::ProcessFailed, run_class: 0, auxiliary: 0 },
        TraceEvent { kind: EventKind::Other, run_class: 0, auxiliary: 0 },
        TraceEvent { kind: EventKind::CohortCreated, run_class: 21, auxiliary: 8 },
    ];
    let tally = tally_events(&events);
    assert_eq!(tally.cohorts, vec![vec![20, 32], vec![21, 8]]);
    let ant = |id, alive| AntView {
        id,
        colony: 0,
        x: 4,
        y: 5,
        carrying: true,
        delivered: 1,
        run_class: 22,
        alive,
    };
    let ants = vec![ant(1, true), ant(2, true), ant(3, false), ant(4, true)];
    let line = epoch_line(7, &ants, 2, &vec![vec![22, 3]], &tally, &since(&later, &zero));
    assert_eq!(
        line,
        "{\"kind\":\"epoch\",\"epoch\":7,\"ants\":[[1,4,5,1,22]],\"ants_shown\":1,\"ants_alive\":3,\"bins\":[[22,3]],\"cohorts\":[[20,32],[21,8]],\"metrics\":{\"dispatches\":3,\"lane_slots\":96,\"useful_lane_slots\":40,\"full_cohorts\":0,\"steps\":40,\"deferred\":0,\"failures\":1,\"notices\":0,\"restarts\":0,\"host_launches\":0}}\n"
    );

    // Two cells: food 10 and 20, no way home.
    let field = [10, 0, 20, 0, 0, 0, 0, 0];
    assert_eq!(
        field_line(8, &field, 2),
        "{\"kind\":\"field\",\"epoch\":8,\"food_max\":20,\"home_max\":1,\"food\":\"f/8=\",\"home\":\"AAA=\"}\n"
    );

    let summary = ExportSummary {
        epochs: 9,
        ants_alive: 3,
        delivered: 4,
        dispatches: 5,
        lane_slots: 96,
        useful_lane_slots: 40,
        food_trail: 30,
        home_trail: 0,
        struck: 1,
        trace_events_streamed: streamed(12, 5),
        trace_events_observed: 5,
        trace_events_dropped: 0,
    };
    assert!(summary.is_complete());
    assert_eq!(streamed(1, 5), 0);
    assert_eq!(
        summary_line(&summary, "0.416667"),
        "{\"kind\":\"summary\",\"epochs\":9,\"ants_alive\":3,\"delivered\":4,\"dispatches\":5,\"lane_occupancy\":0.416667,\"food_trail\":30,\"home_trail\":0,\"struck\":1,\"trace_events_streamed\":7,\"trace_events_observed\":5,\"trace_events_dropped\":0}\n"
    );
}

#[test]
fn an_export_knows_when_to_strike_and_when_to_write_the_field() {
    let strike = PredatorStrike { colony: 1, victims: 2 };
    let options = ExportOptions { predator: Some((3, strike)), ..ExportOptions::default() };
    assert!(options.writes_field(0));
    assert!(!options.writes_field(3));
    assert!(options.writes_field(4));
    assert!(options.strike_at(3).is_some());
    assert!(options.strike_at(4).is_none());
    let never = ExportOptions { field_stride: 0, ..options };
    assert!(!never.writes_field(0));
}

fn accounting(lane_slots: u64, useful_lane_slots: u64, steps: u64) -> Accounting {
    Accounting {
        cohorts: lane_slots / 32,
        lane_slots,
        useful_lane_slots,
        full_cohorts: 0,
        steps,
        deferred_lanes: 0,
    }
}

#[test]
fn the_occupancy_criterion_is_one_and_a_half() {
    let run = |mode, accounting| StudyRun { mode, cohort_width: 32, epochs: 1, accounting };
    let compare = |fifo, cohorted| Comparison {
        fifo: run(SchedulingMode::PersistentFifo, fifo),
        cohorted: run(SchedulingMode::RunClassBins, cohorted),
    };
    let met = compare(accounting(96, 32, 32), accounting(64, 32, 32));
    assert!(met.meets_occupancy_criterion());
    assert!(met.executed_identical_work());
    let missed = compare(accounting(95, 32, 32), accounting(64, 32, 33));
    assert!(!missed.meets_occupancy_criterion());
    assert!(!missed.executed_identical_work());
    let none = compare(accounting(0, 0, 0), accounting(64, 32, 32));
    assert!(!none.meets_occupancy_criterion());
}

#[test]
fn discovery_traces_ask_for_what_there_is_an_evaluator_for() {
    let knobs = DiscoveryKnobs { branching_factor: 2, depth: 2, ..DiscoveryKnobs::default() };
    let trace = generate_trace(&knobs);
    let created: Vec<_> = trace
        .events
        .iter()
        .filter_map(|event| match event {
            DiscoveryEvent::HypothesisCreated { id, parent } => Some((*id, *parent)),
            _ => None,
        })
        .collect();
    assert_eq!(
        created,
        vec![
            (1, None),
            (2, Some(1)),
            (3, Some(1)),
            (4, Some(2)),
            (5, Some(2)),
            (6, Some(3)),
            (7, Some(3)),
        ]
    );
    let programs = evaluator_programs(knobs.evaluator_classes);
    assert_eq!(programs.len(), 4);
    let mut requests = 0;
    let mut backend = CpuReferenceBackend::with(&programs.iter().collect::<Vec<_>>());
    for event in &trace.events {
        if let DiscoveryEvent::NodeRequested { request, node, .. } = event {
            requests += 1;
            assert_eq!(*request, requests);
            let spec = match node {
                DiscoveryNode::Derivation(spec)
                | DiscoveryNode::Aggregate(spec)
                | DiscoveryNode::Decision(spec) => spec,
                DiscoveryNode::Observation { evaluation, .. } => evaluation,
            };
            let outputs = backend
                .evaluate(spec.evaluator, &spec.inputs, spec.element_count, spec.element_stride)
                .unwrap();
            assert_eq!(outputs.len(), spec.inputs.len());
        }
    }
    assert_eq!(requests, 21);
    let accepted = trace
        .events
        .iter()
        .filter(|event| matches!(event, DiscoveryEvent::HypothesisAccepted { .. }))
        .count();
    assert!(accepted >= 1);
    assert!(trace
        .events
        .iter()
        .any(|event| matches!(event, DiscoveryEvent::HypothesisAccepted { id: 1 })));
}

#[test]
fn everything_but_the_root_is_rejected_at_a_rate_of_one() {
    let knobs = DiscoveryKnobs {
        branching_factor: 2,
        depth: 1,
        rejection_rate: 0x100_0000,
        ..DiscoveryKnobs::default()
    };
    let trace = generate_trace(&knobs);
    let count = |wanted: fn(&DiscoveryEvent) -> bool| trace.events.iter().filter(|e| wanted(e)).count();
    assert_eq!(count(|e| matches!(e, DiscoveryEvent::HypothesisRejected { .. })), 2);
    assert_eq!(count(|e| matches!(e, DiscoveryEvent::HypothesisAccepted { .. })), 1);
    // One after every second level, and one at the end.
    assert_eq!(count(|e| matches!(e, DiscoveryEvent::EvidencePublished)), 2);
}

fn sample(nanos: u64, mark: u8) -> Result<PhysicalMeasurement, BackendError> {
    Ok(PhysicalMeasurement {
        elapsed_nanos: nanos,
        output_digest: ObjectDigest { bytes: [mark; 32] },
    })
}

fn small_study() -> (TuningStudy, Vec<ExecutionConfig>) {
    let study = TuningStudy {
        workloads: vec![
            TuningWorkload { id: 1, alu_ops: 8, cohorts: 1, elements_per_cohort: 4 },
            TuningWorkload { id: 2, alu_ops: 8, cohorts: 2, elements_per_cohort: 4 },
        ],
        trials: 3,
    };
    (study, cpu_configurations(&[4, 1, 4, 0]))
}

#[test]
fn configurations_are_named_and_numbered() {
    let configs = cpu_configurations(&[4, 1, 4, 0]);
    let labels: Vec<_> = configs.iter().map(|config| config.label()).collect();
    assert_eq!(
        labels,
        vec![
            "cpu-reference/1t/single",
            "cpu-reference/1t/epoch",
            "cpu-reference/4t/single",
            "cpu-reference/4t/epoch",
        ]
    );
    let all = hardware_configurations(&[2]);
    assert_eq!(all.len(), 2 + 2 + 7);
    assert!(all.iter().enumerate().all(|(i, config)| config.id == i as u32 + 1));
    assert_eq!(all[2].label(), "cpu-native/2t/single");
    assert_eq!(all[4].label(), "metal/tg-auto/warm-buffers/single");
    assert_eq!(all[5].label(), "metal/tg-auto/fresh-buffers/epoch");
    assert_eq!(all[10].label(), "metal/tg-256/warm-buffers/epoch");
    assert_eq!(all[10].placement, Placement::Metal);
    assert_eq!(TuningStudy::default().trials, 15);
}

#[test]
fn a_capture_rotates_its_candidates_and_can_be_ranked() {
    let (study, configs) = small_study();
    let schedule = capture_schedule(&study, &configs).unwrap();
    assert_eq!(schedule.len(), 2 * (4 + 3 * 4));
    let second: Vec<_> = schedule[8..12].iter().map(|slot| slot.config).collect();
    assert_eq!(second, vec![1, 2, 3, 0]);
    let measured: Vec<_> = schedule
        .iter()
        .map(|slot| {
            let nanos = match slot.config {
                0 => 40,
                1 => 10,
                2 => 10,
                _ => 30,
            } + slot.trial.unwrap_or(100) as u64;
            sample(nanos, slot.workload as u8)
        })
        .collect();
    let captured = capture_with(&study, &configs, &measured).unwrap();
    assert_eq!(captured.observations.len(), 24);
    assert!(validate_capture(&captured).is_ok());
    let ranked = rankings(&captured);
    assert_eq!(ranked.len(), 2);
    let order: Vec<_> = ranked[0].configs.iter().map(|score| score.config_id).collect();
    assert_eq!(order, vec![2, 3, 4, 1]);
    assert_eq!(ranked[0].configs[0].minimum_nanos, 10);
    assert_eq!(ranked[0].configs[0].median_nanos, 11);
    assert_eq!(ranked[0].configs[0].maximum_nanos, 12);

    let trace = trace_from_capture(&captured, true);
    // Four hypotheses; in each workload eight preparations, and three events
    // for each of its twelve samples; evidence; four acceptances.
    assert_eq!(trace.events.len(), 4 + 2 * (8 + 36 + 1) + 4);
    match &trace.events[12] {
        DiscoveryEvent::NodeRequested { request, hypothesis, node } => {
            assert_eq!((*request, *hypothesis), (9, 1));
            match node {
                DiscoveryNode::Observation { sample, evaluation } => {
                    assert_eq!(*sample, 9);
                    assert_eq!(evaluation.operation, "wall-clock-observation");
                    let label = "cpu-reference/1t/single".as_bytes();
                    assert_eq!(&evaluation.contract[..label.len()], label);
                    assert_eq!(evaluation.contract.len(), label.len() + 32);
                    assert_eq!(evaluation.inputs.len(), 32);
                    // Replay gives back what was observed.
                    let body = replay_program();
                    let mut backend = CpuReferenceBackend::with(&[&body]);
                    let outputs = backend.evaluate(20_000, &evaluation.inputs, 1, 32).unwrap();
                    assert_eq!(outputs, evaluation.inputs);
                }
                _ => panic!("not an observation"),
            }
        }
        _ => panic!("not a request"),
    }
    let unshared = trace_from_capture(&captured, false);
    assert_eq!(unshared.events.len(), trace.events.len());
}

#[test]
fn a_capture_that_lacks_something_is_refused() {
    let (study, configs) = small_study();
    let empty = TuningStudy { workloads: vec![], trials: 3 };
    assert_eq!(
        capture_schedule(&empty, &configs).err(),
        Some(BackendError::InvalidInput)
    );
    assert_eq!(
        capture_with(&study, &configs, &vec![sample(1, 0), Err(BackendError::Unavailable)]).err(),
        Some(BackendError::Unavailable)
    );
    let schedule = capture_schedule(&study, &configs).unwrap();
    let measured: Vec<_> = schedule.iter().map(|_| sample(1, 0)).collect();
    let captured = capture_with(&study, &configs, &measured).unwrap();
    let text = |result: Result<(), DiscoveryError>| match result {
        Err(DiscoveryError::InvalidTrace(text)) => text,
        _ => "",
    };
    let mut none = captured.clone();
    none.configs.clear();
    assert_eq!(text(validate_capture(&none)), "empty self-tuning study");
    let mut short = captured.clone();
    short.observations.pop();
    assert_eq!(text(validate_capture(&short)), "self-tuning observation count mismatch");
    let mut twice = captured.clone();
    twice.configs[1].id = 1;
    assert_eq!(text(validate_capture(&twice)), "duplicate self-tuning identity");
    let mut unseen = captured.clone();
    unseen.observations.iter_mut().for_each(|sample| sample.workload_id = 1);
    assert_eq!(text(validate_capture(&unseen)), "self-tuning observation identity mismatch");
    unseen.study.workloads[0].id = 7;
    assert_eq!(text(validate_capture(&unseen)), "self-tuning workload has no observations");
    let mut other = captured.clone();
    other.observations[5].output_digest = ObjectDigest { bytes: [1; 32] };
    assert_eq!(text(validate_capture(&other)), "self-tuning configuration output mismatch");
}

fn arrivals(count: u64) -> ArrivalTrace {
    ArrivalTrace {
        events: (0..count)
            .map(|id| Arrival {
                id,
                tick: (id / 8) as u32,
                run_class: 10 + (id % 3) as u32,
                parent: if id % 4 == 0 { None } else { Some(id / 2) },
            })
            .collect(),
    }
}

#[test]
fn every_item_is_dispatched_once_by_every_policy() {
    let trace = arrivals(100);
    let soma = soma_policy(&trace, 8, 3);
    let bulk = bulk_policy(&trace, 8, 4);
    assert_eq!(soma.items(), 100);
    assert_eq!(bulk.items(), 100);
    assert_eq!(soma.cost.useful_lane_slots, 100);
    assert_eq!(global_sort_reference(&trace, 8, 4), bulk.cost);
    for routing in [
        Routing::Local,
        Routing::RoundRobin,
        Routing::ClassAffinity,
        Routing::ClassAffinityBalanced { cap: 2 },
        Routing::ProportionalAffinity,
    ] {
        let config = TerritoryConfig { territories: 5, width: 8, routing, max_defer: 3 };
        let out = territory_policy(&trace, &config);
        assert_eq!(out.items(), 100);
        assert_eq!(out.cost.useful_lane_slots, 100);
        assert_eq!(out.per_territory.iter().sum::<u64>(), out.dispatches());
        assert!(out.p50_wait() <= out.p99_wait());
        match routing {
            // Three classes take three territories.
            Routing::ClassAffinity => assert_eq!(out.idle_territories(), 2),
            Routing::RoundRobin | Routing::ProportionalAffinity => {
                assert_eq!(out.idle_territories(), 0)
            }
            _ => {}
        }
    }
    let one = TerritoryConfig {
        territories: 1,
        width: 8,
        routing: Routing::RoundRobin,
        max_defer: 3,
    };
    let alone = territory_policy(&trace, &one);
    assert_eq!(alone.cost, soma.cost);
    assert_eq!(alone.waits, soma.waits);
}

#[test]
fn an_empty_trace_costs_nothing() {
    let trace = ArrivalTrace { events: vec![] };
    let config = TerritoryConfig {
        territories: 3,
        width: 8,
        routing: Routing::Local,
        max_defer: 1,
    };
    let out = territory_policy(&trace, &config);
    assert_eq!(out.dispatches(), 0);
    assert_eq!(out.idle_territories(), 3);
    assert_eq!(out.p99_wait(), 0);
    assert_eq!(soma_policy(&trace, 8, 1).dispatches(), 0);
}

#[test]
fn generated_arrivals_do_not_change() {
    let knobs = IrregularKnobs::default();
    let first = soma::experiments::irregular_arrival::trace(&knobs);
    let second = soma::experiments::irregular_arrival::trace(&knobs);
    assert_eq!(first.events, second.events);
    assert!(!first.is_empty());
}

/// Drives a streaming run over a channel in memory.
fn stream(config: StreamingGraphConfig) -> Result<StreamingGraphReport, RuntimeError> {
    let mut run = StreamRun::new(config);
    let mut channel: VecDeque<u64> = VecDeque::new();
    let mut payloads: Vec<Vec<u8>> = vec![vec![]];
    loop {
        let event = match run.next() {
            StreamAction::MakePayload { sequence } => {
                payloads.push((sequence as u64).to_le_bytes().to_vec());
                StreamEvent::Made(Ref64 { raw: payloads.len() as u64 - 1 })
            }
            StreamAction::Send { payload } => {
                if channel.len() >= config.channel_capacity as usize {
                    StreamEvent::Sent(Err(RuntimeError::MailboxFull))
                } else {
                    channel.push_back(payload.raw);
                    StreamEvent::Sent(Ok(()))
                }
            }
            StreamAction::Receive => {
                StreamEvent::Received(Ok(channel.pop_front().map(|raw| Ref64 { raw })))
            }
            StreamAction::Read { payload } => {
                StreamEvent::Read(Ok(payloads[payload.raw as usize].clone()))
            }
            StreamAction::FailSource => StreamEvent::SourceFailed(Ok(true)),
            StreamAction::CloseChannel => StreamEvent::Closed(Ok(())),
            StreamAction::Measure => StreamEvent::Measured(Ok(channel.len() as u64)),
            StreamAction::Done => return Ok(run.into_report()),
        };
        run.advance(event)?;
    }
}

#[test]
fn a_stream_delivers_what_was_committed_in_order() {
    let report = stream(StreamingGraphConfig::default()).unwrap();
    assert_eq!(report.committed_records, 32);
    assert_eq!(report.backpressure_events, 28);
    assert!(report.ordered());
    assert!(!report.source_failed);
    let failed = stream(StreamingGraphConfig {
        fail_source_after: Some(7),
        ..StreamingGraphConfig::default()
    })
    .unwrap();
    assert_eq!(failed.attempted_records, 32);
    assert_eq!(failed.committed_records, 7);
    assert_eq!(failed.delivered, vec![0, 1, 2, 3, 4, 5, 6]);
    assert!(failed.source_failed);
    assert!(failed.ordered());
    let gap = StreamingGraphReport { delivered: vec![0, 2], ..failed };
    assert!(!gap.ordered());
}

#[test]
fn a_stream_without_room_ends_in_a_missing_payload() {
    let config = StreamingGraphConfig {
        channel_capacity: 0,
        ..StreamingGraphConfig::default()
    };
    assert_eq!(stream(config).err(), Some(RuntimeError::MissingPayload));
    let mut run = StreamRun::new(StreamingGraphConfig::default());
    run.advance(StreamEvent::Made(Ref64 { raw: 1 })).unwrap();
    assert_eq!(
        run.advance(StreamEvent::Sent(Err(RuntimeError::Unavailable))),
        Err(RuntimeError::Unavailable)
    );
    run.advance(StreamEvent::Sent(Err(RuntimeError::MailboxFull))).unwrap();
    run.advance(StreamEvent::Received(Ok(Some(Ref64 { raw: 1 })))).unwrap();
    assert_eq!(
        run.advance(StreamEvent::Read(Ok(vec![1, 2]))),
        Err(RuntimeError::MissingPayload)
    );
}

/// Drives a join over two channels in memory.
fn join(config: MultiInputConfig) -> Result<JoinRun, RuntimeError> {
    let mut run = JoinRun::new(config)?;
    let mut left: VecDeque<u64> = VecDeque::new();
    let mut right: VecDeque<u64> = VecDeque::new();
    let room = config.capacity as usize;
    loop {
        let event = match run.next() {
            JoinAction::SendLeft { record } => JoinEvent::Sent(if left.len() < room {
                left.push_back(record as u64);
                Ok(())
            } else {
                Err(RuntimeError::MailboxFull)
            }),
            JoinAction::SendRight { record } => JoinEvent::Sent(if right.len() < room {
                right.push_back(record as u64);
                Ok(())
            } else {
                Err(RuntimeError::MailboxFull)
            }),
            JoinAction::Receive => JoinEvent::Received(Ok(
                if left.is_empty() || right.is_empty() {
                    None
                } else {
                    Some((
                        Ref64 { raw: left.pop_front().unwrap() },
                        Ref64 { raw: right.pop_front().unwrap() },
                    ))
                },
            )),
            JoinAction::Read { left, right } => JoinEvent::Read(Ok((left.raw, right.raw))),
            JoinAction::FailLeft => JoinEvent::Failed(Ok(())),
            JoinAction::Done => return Ok(run),
        };
        run.advance(event)?;
    }
}

#[test]
fn a_join_keeps_both_streams_in_order() {
    let report = join(MultiInputConfig::default())
        .unwrap()
        .into_report(ProcessState::Active, ProcessState::Active, true)
        .unwrap();
    assert_eq!(report.joined.len(), 16);
    assert!(report.ordered);
    assert!(report.committed_prefix_preserved);
    assert_eq!(report.left_backpressure, 3);
    assert_eq!(report.right_backpressure, 0);
    let failed = join(MultiInputConfig {
        fail_left_after: Some(7),
        ..MultiInputConfig::default()
    })
    .unwrap()
    .into_report(ProcessState::Failed, ProcessState::Active, true)
    .unwrap();
    assert_eq!(failed.joined.len(), 7);
    assert!(failed.committed_prefix_preserved);
    assert_eq!(
        multi_input_graph::report(&report, &failed),
        "complete joined=16 ordered=true left_backpressure=3 right_backpressure=0\n\
         failed   joined=7 prefix_preserved=true left=Failed right=Active\n"
    );
}

#[test]
fn a_join_with_nothing_to_join_is_refused() {
    let config = MultiInputConfig::default();
    for bad in [
        MultiInputConfig { records: 0, ..config },
        MultiInputConfig { capacity: 0, ..config },
        MultiInputConfig { fail_left_after: Some(17), ..config },
    ] {
        assert_eq!(
            JoinRun::new(bad).err(),
            Some(RuntimeError::InvalidMultiInput)
        );
    }
    let unfinished = JoinRun::new(config).unwrap();
    assert_eq!(
        unfinished
            .into_report(ProcessState::Active, ProcessState::Active, true)
            .err(),
        Some(RuntimeError::InvalidMultiInput)
    );
}
