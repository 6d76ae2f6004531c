use soma::executives::batch::{BatchBackend, CpuReferenceBackend};
use soma::experiments::backend_bench::{
    synthetic_inputs, synthetic_program, SampleAction, SampleRun, Timing,
};
use soma::discovery::DiscoveryError;
use soma::experiments::discovery_bench::{
    backend_crossovers, policy_crossovers, same_regime, BenchmarkProtocol,
    DiscoveryBenchmarkPoint, DiscoveryBenchmarkSweep, TimingDistribution,
};
use soma::experiments::discovery_search::{regimes, DiscoveryKnobs};

#[test]
fn a_synthetic_body_computes_the_same_thing_on_both_lowerings_of_its_own_interpreter() {
    let program = synthetic_program(900, 2, 32);
    let inputs = synthetic_inputs(4, program.stride());
    let mut backend = CpuReferenceBackend::with(&[&program]);
    let first = backend
        .evaluate(program.id(), &inputs, 4, program.stride())
        .unwrap();
    let second = backend
        .evaluate(program.id(), &inputs, 4, program.stride())
        .unwrap();
    assert_eq!(first, second);
    assert_ne!(first, inputs, "the body did not change its input");
}

#[test]
fn op_count_scales_the_body() {
    let small = synthetic_program(901, 2, 8);
    let large = synthetic_program(902, 2, 512);
    assert!(large.ops.len() > small.ops.len() + 400);
    assert_eq!(small.stride(), 8);
    assert_eq!(small.name, "synthetic_2f_8alu");
    assert_eq!(small.ops.len(), 14);
}

#[test]
fn percentile_selects_an_observed_sample() {
    let distribution = TimingDistribution { samples: vec![9, 1, 7, 3, 5] };
    assert_eq!(distribution.p10(), 1);
    assert_eq!(distribution.median(), 5);
    assert_eq!(distribution.p90(), 9);
}

#[test]
fn no_samples_have_zero_percentiles() {
    let distribution = TimingDistribution { samples: Vec::new() };
    assert_eq!(distribution.p10(), 0);
    assert_eq!(distribution.p90(), 0);
}

#[test]
fn a_protocol_without_repetitions_is_refused() {
    assert!(BenchmarkProtocol { warmups: 2, repetitions: 0 }.validate().is_err());
    let protocol = BenchmarkProtocol::default().validate().unwrap();
    assert_eq!(protocol, BenchmarkProtocol { warmups: 2, repetitions: 9 });
    assert!(!protocol.optimized_first(0));
    assert!(protocol.optimized_first(1));
    assert!(!protocol.is_measured(1));
    assert!(protocol.is_measured(2));
}

#[test]
fn a_timing_knows_its_middle_and_its_fastest_sample() {
    let timing = Timing { element_count: 8, samples: vec![40, 10, 30, 20] };
    assert_eq!(timing.median(), 30);
    assert_eq!(timing.min(), 10);
}

#[test]
fn samples_are_taken_after_the_warmups() {
    let mut run = SampleRun::of_evaluations(2_000_000);
    let mut warm = 0;
    let mut measured = 0;
    loop {
        match run.next() {
            SampleAction::Warm => warm += 1,
            SampleAction::Measure => measured += 1,
            SampleAction::Done => break,
        }
        run.record(5);
    }
    assert_eq!((warm, measured), (3, 7));
    assert_eq!(run.into_timing().samples.len(), 7);
    assert_eq!(SampleRun::of_epochs(4, 100).measurements, 30);
    assert_eq!(SampleRun::of_evaluations(1_024).measurements, 201);
    assert_eq!(SampleRun::of_evaluations(65_536).measurements, 51);
    assert_eq!(SampleRun::of_evaluations(65_537).measurements, 21);
}

#[test]
fn synthetic_inputs_do_not_change() {
    let inputs = synthetic_inputs(2, 4);
    assert_eq!(inputs.len(), 8);
    assert_eq!(inputs, synthetic_inputs(4, 2));
    let mut state = 0x2545_F491_4F6C_DD1Du64;
    state ^= state << 13;
    state ^= state >> 7;
    state ^= state << 17;
    assert_eq!(inputs[0], (state >> 33) as u8);
}

fn point(elements: u32, naive: u64, optimized: u64) -> DiscoveryBenchmarkPoint {
    DiscoveryBenchmarkPoint {
        knobs: DiscoveryKnobs {
            duplicate_rate: 0,
            rejection_rate: 0,
            evaluator_classes: 1,
            elements_per_experiment: elements,
            ..Default::default()
        },
        naive: TimingDistribution {
            samples: vec![naive],
        },
        optimized: TimingDistribution {
            samples: vec![optimized],
        },
    }
}

fn sweep_of(points: Vec<DiscoveryBenchmarkPoint>) -> DiscoveryBenchmarkSweep {
    DiscoveryBenchmarkSweep {
        backend: "test".to_string(),
        protocol: BenchmarkProtocol {
            warmups: 0,
            repetitions: 1,
        },
        points,
    }
}

/// Where the optimized replay takes at most this share less than the literal one.
fn cleared(sweep: &DiscoveryBenchmarkSweep, margin: f64) -> Vec<bool> {
    sweep
        .points
        .iter()
        .map(|p| p.optimized.median() as f64 <= p.naive.median() as f64 * (1.0 - margin))
        .collect()
}

#[test]
fn crossover_is_a_measured_size_and_respects_the_margin() {
    let mut points = vec![point(1, 100, 95), point(64, 100, 84), point(1_024, 100, 70)];
    points.sort_by_key(|point| point.knobs.elements_per_experiment);
    let sweep = sweep_of(points);
    assert_eq!(
        policy_crossovers(&sweep, &cleared(&sweep, 0.15))[0].elements_per_experiment,
        Some(64)
    );
}

#[test]
fn a_group_that_was_not_measured_has_no_crossover() {
    let sweep = sweep_of(vec![point(1, 100, 95), point(64, 100, 84)]);
    let found = policy_crossovers(&sweep, &cleared(&sweep, 0.5));
    assert_eq!(found.len(), 36);
    assert!(found.iter().all(|c| c.elements_per_experiment.is_none()));
    assert_eq!(found[0].duplicate_rate, 0);
    assert_eq!(found[35].duplicate_rate, 0xc0_0000);
    assert_eq!(found[35].rejection_rate, 0x80_0000);
    assert_eq!(found[35].evaluator_classes, 16);
    assert_eq!(found[3].rejection_rate, 0x40_0000);
}

#[test]
fn backends_are_compared_over_the_same_regimes_alone() {
    let baseline = sweep_of(vec![point(1, 100, 95), point(64, 100, 84)]);
    let candidate = sweep_of(vec![point(1, 100, 99), point(64, 100, 40)]);
    let found = backend_crossovers(&baseline, &candidate, &vec![false, true]).unwrap();
    assert_eq!(found[0].elements_per_experiment, Some(64));
    let other = sweep_of(vec![point(1, 100, 99), point(65, 100, 40)]);
    let shorter = sweep_of(vec![point(1, 100, 99)]);
    for bad in [&other, &shorter] {
        assert!(matches!(
            backend_crossovers(&baseline, bad, &vec![false, true]),
            Err(DiscoveryError::InvalidTrace(
                "backend crossover sweeps use different regime grids"
            ))
        ));
    }
}

#[test]
fn a_map_has_every_regime_once() {
    let base = DiscoveryKnobs::default();
    let grid = regimes(base);
    assert_eq!(grid.len(), 108);
    for (i, a) in grid.iter().enumerate() {
        assert_eq!(a.depth, base.depth);
        assert!(grid[..i].iter().all(|b| !same_regime(a, b)));
    }
    assert_eq!(grid[1].elements_per_experiment, 64);
    assert_eq!(grid[3].evaluator_classes, 4);
    assert_eq!(grid[9].rejection_rate, 0x40_0000);
    assert_eq!(grid[27].duplicate_rate, 0x40_0000);
}

#[test]
fn a_synthetic_body_writes_what_its_accumulators_fold_to() {
    let one = |field_count: u32, alu_ops: u32, words: &[u32]| {
        let program = synthetic_program(903, field_count, alu_ops);
        let inputs: Vec<u8> = words.iter().flat_map(|word| word.to_le_bytes()).collect();
        let outputs = CpuReferenceBackend::with(&[&program])
            .evaluate(903, &inputs, 1, program.stride())
            .unwrap();
        outputs
            .chunks(4)
            .map(|word| u32::from_le_bytes([word[0], word[1], word[2], word[3]]))
            .collect::<Vec<u32>>()
    };
    let k = 0x9E37_79B9u32;
    assert_eq!(one(1, 0, &[5]), vec![k.wrapping_mul(3).wrapping_add(5)]);
    let first = 5u32.wrapping_mul(k);
    let second = 6 ^ k;
    let third = k.wrapping_add(k);
    let fourth = k.wrapping_mul(k);
    assert_eq!(
        one(2, 4, &[5, 6]),
        vec![
            first
                .wrapping_add(second)
                .wrapping_add(third)
                .wrapping_add(fourth),
            6
        ]
    );
    // The first field already holds the fold.
    assert_eq!(one(4, 0, &[7, 0, 0, 0]), vec![7, 0, 0, 0]);
}
