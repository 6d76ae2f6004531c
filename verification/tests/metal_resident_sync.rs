use soma::device::{
    DEVICE_ACCESS_READ, OP_AWAIT_FUTURE, OP_ENQUEUE_MESSAGE, OP_OBSERVE_FUTURE, OP_READ_OBJECT,
    OP_RECEIVE_MESSAGE, OP_RESOLVE_FUTURE, OP_WRITE_OBJECT,
};
use soma::executives::batch::BackendError;
use soma::executives::metal_resident_sync::{
    accept_status, decode, evaluation_counts, prepare, DeviceLimits, GpuContinuation, GpuEffectRecord, GpuFuture,
    GpuMailEntry, GpuMailbox, GpuStatus, MetalResidentSync, Readback,
};
use soma::executives::resident_sync::{
    run_resident_sync, InitialFuture, ResidentCapability, ResidentContinuation, ResidentEffect,
    ResidentHandlerProgram, ResidentInstruction, ResidentObject, ResidentObjectCapability,
    ResidentOutcome, ResidentSyncConfig, ResidentSyncResult, HANDLER_COMPLETE,
    HANDLER_EFFECT_FUTURE_AWAIT, HANDLER_EFFECT_FUTURE_OBSERVE, HANDLER_EFFECT_FUTURE_RESOLVE,
    HANDLER_EFFECT_MAILBOX_RECEIVE, HANDLER_EFFECT_MAILBOX_SEND, HANDLER_EFFECT_OBJECT_READ,
    HANDLER_EFFECT_OBJECT_WRITE, HANDLER_IF_PREVIOUS_VALUE_NE_SKIP,
    HANDLER_STORE_PREVIOUS_VALUE_U64, HANDLER_YIELD, MAX_RESIDENT_OBJECTS,
    MAX_RESIDENT_OBJECT_ARENA_BYTES, MAX_RESIDENT_OBJECT_CAPABILITIES, RESOURCE_FUTURE,
    RESOURCE_MAILBOX, RIGHT_READ, RIGHT_WRITE,
};
use std::collections::BTreeMap;

const LIMITS: DeviceLimits = DeviceLimits {
    max_threads_per_threadgroup: 1024,
    max_buffer_length: 1 << 30,
};

/// A device in software: the records that it leaves behind are those of the
/// host's own run, in the layout in which a device reports them.
fn leave_behind(
    config: &ResidentSyncConfig,
    specs: &[ResidentContinuation],
    host: &ResidentSyncResult,
) -> Readback {
    let stride = config.max_frame_bytes as usize;
    let mut continuations = Vec::new();
    let mut frames = vec![0u8; stride * specs.len()];
    for (row, left) in host.final_continuations.iter().enumerate() {
        let frame = &host.frames[&left.id];
        frames[row * stride..row * stride + frame.len()].copy_from_slice(frame);
        let mut record = GpuContinuation {
            id: left.id,
            run_class: left.run_class,
            frame_len: frame.len() as u32,
            state: if left.completed { 3 } else { 0 },
            ..GpuContinuation::default()
        };
        if let Some(pending) = left.pending {
            record.reserved = left.waiter_order;
            match pending {
                ResidentEffect::FutureAwait { target } => {
                    record.pending_opcode = 1;
                    record.pending_target = target;
                }
                ResidentEffect::MailboxSend { target, value } => {
                    record.pending_opcode = 3;
                    record.pending_target = target;
                    record.pending_value = value;
                }
                ResidentEffect::MailboxReceive { target } => {
                    record.pending_opcode = 4;
                    record.pending_target = target;
                }
                _ => unreachable!(),
            }
        }
        continuations.push(record);
    }
    let mut object_bytes = vec![0u8; stride * config.objects.len()];
    for (row, bytes) in host.object_values.iter().enumerate() {
        object_bytes[row * stride..row * stride + bytes.len()].copy_from_slice(bytes);
    }
    let ring = config.max_continuations as usize;
    let mut mailboxes = Vec::new();
    let mut mailbox_entries = vec![GpuMailEntry::default(); ring * host.mailboxes.len()];
    for (row, messages) in host.mailboxes.iter().enumerate() {
        // Start each ring one slot in, so that reading it has to wrap.
        let first = 1 % ring;
        for (k, (sender, value)) in messages.iter().enumerate() {
            mailbox_entries[row * ring + (first + k) % ring] = GpuMailEntry {
                sender: *sender,
                value: *value,
            };
        }
        mailboxes.push(GpuMailbox {
            capacity: config.mailbox_capacities[row],
            head: first as u32,
            count: messages.len() as u32,
            reserved: 0,
        });
    }
    let effects = host
        .effects
        .iter()
        .map(|record| {
            let mut raw = GpuEffectRecord {
                epoch: record.epoch,
                lane: record.lane,
                ordinal: record.ordinal,
                continuation: record.continuation,
                ..GpuEffectRecord::default()
            };
            let (opcode, target, offset, value) = match record.effect {
                ResidentEffect::ObjectRead { target, offset } => (OP_READ_OBJECT, target, offset, 0),
                ResidentEffect::ObjectWrite {
                    target,
                    offset,
                    value,
                } => (OP_WRITE_OBJECT, target, offset, value),
                ResidentEffect::FutureObserve { target } => (OP_OBSERVE_FUTURE, target, 0, 0),
                ResidentEffect::FutureAwait { target } => (OP_AWAIT_FUTURE, target, 0, 0),
                ResidentEffect::FutureResolve { target, value } => {
                    (OP_RESOLVE_FUTURE, target, 0, value)
                }
                ResidentEffect::MailboxSend { target, value } => {
                    (OP_ENQUEUE_MESSAGE, target, 0, value)
                }
                ResidentEffect::MailboxReceive { target } => (OP_RECEIVE_MESSAGE, target, 0, 0),
            };
            raw.opcode = opcode;
            raw.target = target;
            raw.reserved = offset;
            raw.value = value;
            let (outcome, result, sender) = match record.outcome {
                ResidentOutcome::Resolved(value) => (1, value, 0),
                ResidentOutcome::Registered => (2, 0, 0),
                ResidentOutcome::Sent => (3, 0, 0),
                ResidentOutcome::Received { value, sender } => (4, value, sender),
                ResidentOutcome::CapabilityDenied => (5, 0, 0),
                ResidentOutcome::InvalidTarget => (6, 0, 0),
                ResidentOutcome::Full => (7, 0, 0),
                ResidentOutcome::Empty => (8, 0, 0),
                ResidentOutcome::DoubleResolve => (9, 0, 0),
                ResidentOutcome::Pending => (10, 0, 0),
                ResidentOutcome::ObjectRead(value) => (11, value, 0),
                ResidentOutcome::ObjectWritten => (12, 0, 0),
            };
            raw.outcome = outcome;
            raw.result_value = result;
            raw.result_sender = sender;
            raw
        })
        .collect::<Vec<_>>();
    Readback {
        continuations,
        frames,
        object_bytes,
        futures: host
            .future_values
            .iter()
            .map(|value| GpuFuture {
                resolved: value.is_some() as u32,
                reserved: 0,
                value: value.unwrap_or(0),
            })
            .collect(),
        mailboxes,
        mailbox_entries,
        status: GpuStatus {
            effect_count: effects.len() as u32,
            trace_count: host.trace.len() as u32,
            completed_count: host.completed.len() as u32,
            epochs: host.epochs,
            quiescent: host.quiescent as u32,
            invocation_count: host.invocations.len() as u32,
            wake_count: host.wakes.len() as u32,
            epoch_count: host.epoch_records.len() as u32,
            ..GpuStatus::default()
        },
        effects,
        trace: host.trace.clone(),
        completed: host.completed.clone(),
        invocations: host.invocations.clone(),
        wakes: host.wakes.clone(),
        epoch_records: host.epoch_records.clone(),
    }
}

fn run_device(
    config: &ResidentSyncConfig,
    continuations: Vec<ResidentContinuation>,
    programs: &BTreeMap<u32, ResidentHandlerProgram>,
) -> Result<ResidentSyncResult, BackendError> {
    let executive = MetalResidentSync::new(LIMITS);
    let plan = executive.plan(config, &continuations, programs)?;
    let host = match run_resident_sync(config, continuations.clone(), programs) {
        Some(host) => host,
        None => {
            let failed = GpuStatus {
                error: 1,
                ..GpuStatus::default()
            };
            accept_status(&plan, &failed)?;
            unreachable!()
        }
    };
    let back = leave_behind(config, &continuations, &host);
    executive.finish(&plan, config, &continuations, back)
}

#[test]
fn a_readback_beyond_its_buffers_is_a_failed_execution() {
    let (config, continuations, programs) = future_input(2);
    let executive = MetalResidentSync::new(LIMITS);
    let plan = executive.plan(&config, &continuations, &programs).unwrap();
    let host = run_resident_sync(&config, continuations.clone(), &programs).unwrap();

    let mut short = leave_behind(&config, &continuations, &host);
    short.frames.truncate(4);
    assert_eq!(
        executive.finish(&plan, &config, &continuations, short).err(),
        Some(BackendError::ExecutionFailed)
    );

    let mut unknown = leave_behind(&config, &continuations, &host);
    unknown.effects[0].outcome = 99;
    assert_eq!(
        executive.finish(&plan, &config, &continuations, unknown).err(),
        Some(BackendError::ExecutionFailed)
    );

    let mut narrow = MetalResidentSync::new(LIMITS);
    narrow.limits.max_threads_per_threadgroup = 1;
    assert_eq!(
        narrow.plan(&config, &continuations, &programs).err(),
        Some(BackendError::InvalidInput)
    );
    assert!(decode(
        &config,
        &continuations,
        leave_behind(&config, &continuations, &host)
    )
    .is_ok());
    assert!(prepare(&config, &continuations, &programs, LIMITS).is_ok());
}

/// The same, with how many lanes each thread of a cohort evaluated.
fn run_device_with_counts(
    config: &ResidentSyncConfig,
    continuations: Vec<ResidentContinuation>,
    programs: &BTreeMap<u32, ResidentHandlerProgram>,
) -> Result<(ResidentSyncResult, Vec<u32>), BackendError> {
    let result = run_device(config, continuations, programs)?;
    let counts = evaluation_counts(&result.invocations, config.cohort_width);
    Ok((result, counts))
}

fn cap(actor: u64, kind: u32, target: u32, rights: u32) -> ResidentCapability {
    ResidentCapability {
        actor,
        resource_kind: kind,
        target,
        rights,
    }
}

fn instruction(opcode: u32, argument: u32, target: u32, value: u64) -> ResidentInstruction {
    ResidentInstruction {
        opcode,
        argument,
        target,
        reserved: 0,
        value,
    }
}

fn future_input(
    width: u32,
) -> (
    ResidentSyncConfig,
    Vec<ResidentContinuation>,
    BTreeMap<u32, ResidentHandlerProgram>,
) {
    let config = ResidentSyncConfig {
        max_epochs: 8,
        max_effects_per_step: 2,
        max_frame_bytes: 8,
        max_continuations: 2,
        cohort_width: width,
        initial_epoch: 0,
        objects: vec![],
        object_capabilities: vec![],
        futures: vec![InitialFuture::Pending],
        mailbox_capacities: vec![],
        mailbox_messages: vec![],
        capabilities: vec![
            cap(10, RESOURCE_FUTURE, 0, RIGHT_READ),
            cap(20, RESOURCE_FUTURE, 0, RIGHT_WRITE),
        ],
    };
    let continuations = vec![
        ResidentContinuation {
            id: 1,
            actor: 10,
            run_class: 100,
            mutable_access: false,
            waiting_since: 0,
            frame: vec![0; 8],
        },
        ResidentContinuation {
            id: 2,
            actor: 20,
            run_class: 200,
            mutable_access: false,
            waiting_since: 0,
            frame: vec![],
        },
    ];
    let mut programs = BTreeMap::new();
    programs.insert(
        100,
        ResidentHandlerProgram {
            run_class: 100,
            instructions: vec![
                ResidentInstruction {
                    opcode: HANDLER_IF_PREVIOUS_VALUE_NE_SKIP,
                    argument: 2,
                    target: 0,
                    reserved: 0,
                    value: 77,
                },
                ResidentInstruction {
                    opcode: HANDLER_STORE_PREVIOUS_VALUE_U64,
                    argument: 0,
                    target: 0,
                    reserved: 0,
                    value: 0,
                },
                ResidentInstruction {
                    opcode: HANDLER_COMPLETE,
                    argument: 0,
                    target: 0,
                    reserved: 0,
                    value: 0,
                },
                ResidentInstruction {
                    opcode: HANDLER_EFFECT_FUTURE_AWAIT,
                    argument: 0,
                    target: 0,
                    reserved: 0,
                    value: 0,
                },
                ResidentInstruction {
                    opcode: HANDLER_YIELD,
                    argument: 100,
                    target: 0,
                    reserved: 0,
                    value: 0,
                },
            ],
        },
    );
    programs.insert(
        200,
        ResidentHandlerProgram {
            run_class: 200,
            instructions: vec![
                ResidentInstruction {
                    opcode: HANDLER_EFFECT_FUTURE_RESOLVE,
                    argument: 0,
                    target: 0,
                    reserved: 0,
                    value: 77,
                },
                ResidentInstruction {
                    opcode: HANDLER_COMPLETE,
                    argument: 0,
                    target: 0,
                    reserved: 0,
                    value: 0,
                },
            ],
        },
    );
    (config, continuations, programs)
}

fn observe_input(
    width: u32,
) -> (
    ResidentSyncConfig,
    Vec<ResidentContinuation>,
    BTreeMap<u32, ResidentHandlerProgram>,
) {
    let config = ResidentSyncConfig {
        max_epochs: 1,
        max_effects_per_step: 1,
        max_frame_bytes: 8,
        max_continuations: 4,
        cohort_width: width,
        initial_epoch: 0,
        objects: vec![],
        object_capabilities: vec![],
        futures: vec![InitialFuture::Pending, InitialFuture::Resolved(44)],
        mailbox_capacities: vec![],
        mailbox_messages: vec![],
        capabilities: vec![
            cap(7, RESOURCE_FUTURE, 0, RIGHT_READ),
            cap(7, RESOURCE_FUTURE, 1, RIGHT_READ),
            cap(7, RESOURCE_FUTURE, 9, RIGHT_READ),
        ],
    };
    let continuations = [(1, 7, 10, 0), (2, 7, 11, 1), (3, 8, 12, 0), (4, 7, 13, 9)]
        .into_iter()
        .map(|(id, actor, run_class, _)| ResidentContinuation {
            id,
            actor,
            run_class,
            mutable_access: false,
            waiting_since: 0,
            frame: vec![],
        })
        .collect();
    let programs = [(10, 0), (11, 1), (12, 0), (13, 9)]
        .into_iter()
        .map(|(run_class, target)| {
            (
                run_class,
                ResidentHandlerProgram {
                    run_class,
                    instructions: vec![
                        ResidentInstruction {
                            opcode: HANDLER_EFFECT_FUTURE_OBSERVE,
                            argument: target,
                            target: 0,
                            reserved: 0,
                            value: 0,
                        },
                        ResidentInstruction {
                            opcode: HANDLER_COMPLETE,
                            argument: 0,
                            target: 0,
                            reserved: 0,
                            value: 0,
                        },
                    ],
                },
            )
        })
        .collect();
    (config, continuations, programs)
}

#[test]
fn observe_pending_resolved_denied_invalid_width_1_32_match_cpu_exactly() {
    let mut results = Vec::new();
    for width in [1, 32] {
        let (config, continuations, programs) = observe_input(width);
        let cpu = run_resident_sync(&config, continuations.clone(), &programs).unwrap();
        let gpu = run_device(&config, continuations, &programs).unwrap();
        assert_eq!(gpu, cpu);
        assert_eq!(
            gpu.effects
                .iter()
                .map(|effect| effect.outcome)
                .collect::<Vec<_>>(),
            vec![
                ResidentOutcome::Pending,
                ResidentOutcome::Resolved(44),
                ResidentOutcome::CapabilityDenied,
                ResidentOutcome::InvalidTarget,
            ]
        );
        assert!(gpu
            .accesses
            .iter()
            .all(|access| { access.mode == DEVICE_ACCESS_READ }));
        assert!(gpu
            .operations
            .iter()
            .flat_map(|journal| &journal.operations)
            .all(
                |operation| operation.opcode == OP_OBSERVE_FUTURE
            ));
        results.push(gpu);
    }
    assert_eq!(results[0], results[1]);
}

#[test]
fn width_1_and_32_match_cpu_oracle_exactly() {
    let mut results = Vec::new();
    for width in [1, 32] {
        let (config, continuations, programs) = future_input(width);
        let cpu = run_resident_sync(&config, continuations.clone(), &programs).unwrap();
        let gpu = run_device(&config, continuations, &programs).unwrap();
        assert_eq!(gpu, cpu);
        assert_eq!(
            gpu.wakes
                .iter()
                .map(|wake| {
                    (
                        wake.epoch,
                        wake.lane,
                        wake.cause_continuation,
                        wake.continuation,
                        wake.ticket,
                    )
                })
                .collect::<Vec<_>>(),
            vec![(0, 1, 2, 1, 1)]
        );
        results.push(gpu);
    }
    assert_eq!(results[0], results[1]);
}

#[test]
fn mailbox_wake_delivery_and_authority_errors_match_cpu() {
    let config = ResidentSyncConfig {
        max_epochs: 8,
        max_effects_per_step: 2,
        max_frame_bytes: 8,
        max_continuations: 3,
        cohort_width: 32,
        initial_epoch: 0,
        objects: vec![],
        object_capabilities: vec![],
        futures: vec![],
        mailbox_capacities: vec![1],
        mailbox_messages: vec![vec![]],
        capabilities: vec![
            cap(10, RESOURCE_MAILBOX, 0, RIGHT_READ),
            cap(20, RESOURCE_MAILBOX, 0, RIGHT_WRITE),
        ],
    };
    let continuations = vec![
        ResidentContinuation {
            id: 1,
            actor: 10,
            run_class: 100,
            mutable_access: false,
            waiting_since: 0,
            frame: vec![0; 8],
        },
        ResidentContinuation {
            id: 2,
            actor: 20,
            run_class: 200,
            mutable_access: false,
            waiting_since: 0,
            frame: vec![],
        },
        ResidentContinuation {
            id: 3,
            actor: 30,
            run_class: 300,
            mutable_access: false,
            waiting_since: 0,
            frame: vec![],
        },
    ];
    let mut programs = BTreeMap::new();
    programs.insert(
        100,
        ResidentHandlerProgram {
            run_class: 100,
            instructions: vec![
                ResidentInstruction {
                    opcode: HANDLER_IF_PREVIOUS_VALUE_NE_SKIP,
                    argument: 2,
                    target: 0,
                    reserved: 0,
                    value: 55,
                },
                ResidentInstruction {
                    opcode: HANDLER_STORE_PREVIOUS_VALUE_U64,
                    argument: 0,
                    target: 0,
                    reserved: 0,
                    value: 0,
                },
                ResidentInstruction {
                    opcode: HANDLER_COMPLETE,
                    argument: 0,
                    target: 0,
                    reserved: 0,
                    value: 0,
                },
                ResidentInstruction {
                    opcode: HANDLER_EFFECT_MAILBOX_RECEIVE,
                    argument: 0,
                    target: 0,
                    reserved: 0,
                    value: 0,
                },
                ResidentInstruction {
                    opcode: HANDLER_YIELD,
                    argument: 100,
                    target: 0,
                    reserved: 0,
                    value: 0,
                },
            ],
        },
    );
    programs.insert(
        200,
        ResidentHandlerProgram {
            run_class: 200,
            instructions: vec![
                ResidentInstruction {
                    opcode: HANDLER_EFFECT_MAILBOX_SEND,
                    argument: 0,
                    target: 0,
                    reserved: 0,
                    value: 55,
                },
                ResidentInstruction {
                    opcode: HANDLER_COMPLETE,
                    argument: 0,
                    target: 0,
                    reserved: 0,
                    value: 0,
                },
            ],
        },
    );
    programs.insert(
        300,
        ResidentHandlerProgram {
            run_class: 300,
            instructions: vec![
                ResidentInstruction {
                    opcode: HANDLER_EFFECT_MAILBOX_SEND,
                    argument: 0,
                    target: 0,
                    reserved: 0,
                    value: 99,
                },
                ResidentInstruction {
                    opcode: HANDLER_COMPLETE,
                    argument: 0,
                    target: 0,
                    reserved: 0,
                    value: 0,
                },
            ],
        },
    );
    let cpu = run_resident_sync(&config, continuations.clone(), &programs).unwrap();
    let gpu = run_device(&config, continuations, &programs).unwrap();
    assert_eq!(gpu, cpu);
    assert!(gpu.effects.iter().any(|e| e.outcome
        == ResidentOutcome::Received {
            value: 55,
            sender: 20
        }));
    assert!(gpu
        .effects
        .iter()
        .any(|e| e.outcome == ResidentOutcome::CapabilityDenied));
}

#[test]
fn mailbox_waiters_wake_in_registration_not_identity_order() {
    let config = ResidentSyncConfig {
        max_epochs: 2,
        max_effects_per_step: 1,
        max_frame_bytes: 8,
        max_continuations: 3,
        cohort_width: 32,
        initial_epoch: 0,
        objects: vec![],
        object_capabilities: vec![],
        futures: vec![],
        mailbox_capacities: vec![2],
        mailbox_messages: vec![vec![]],
        capabilities: vec![
            cap(10, RESOURCE_MAILBOX, 0, RIGHT_READ),
            cap(20, RESOURCE_MAILBOX, 0, RIGHT_READ),
            cap(30, RESOURCE_MAILBOX, 0, RIGHT_WRITE),
        ],
    };
    let continuations = vec![
        ResidentContinuation {
            id: 2,
            actor: 20,
            run_class: 100,
            mutable_access: false,
            waiting_since: 0,
            frame: vec![],
        },
        ResidentContinuation {
            id: 1,
            actor: 10,
            run_class: 200,
            mutable_access: false,
            waiting_since: 0,
            frame: vec![],
        },
        ResidentContinuation {
            id: 3,
            actor: 30,
            run_class: 300,
            mutable_access: false,
            waiting_since: 0,
            frame: vec![],
        },
    ];
    let mut programs = BTreeMap::new();
    for run_class in [100, 200] {
        programs.insert(
            run_class,
            ResidentHandlerProgram {
                run_class,
                instructions: vec![
                    ResidentInstruction {
                        opcode: HANDLER_EFFECT_MAILBOX_RECEIVE,
                        argument: 0,
                        target: 0,
                        reserved: 0,
                        value: 0,
                    },
                    ResidentInstruction {
                        opcode: HANDLER_YIELD,
                        argument: run_class,
                        target: 0,
                        reserved: 0,
                        value: 0,
                    },
                ],
            },
        );
    }
    programs.insert(
        300,
        ResidentHandlerProgram {
            run_class: 300,
            instructions: vec![
                ResidentInstruction {
                    opcode: HANDLER_EFFECT_MAILBOX_SEND,
                    argument: 0,
                    target: 0,
                    reserved: 0,
                    value: 31,
                },
                ResidentInstruction {
                    opcode: HANDLER_COMPLETE,
                    argument: 0,
                    target: 0,
                    reserved: 0,
                    value: 0,
                },
            ],
        },
    );
    let cpu = run_resident_sync(&config, continuations.clone(), &programs).unwrap();
    let gpu = run_device(&config, continuations, &programs).unwrap();
    assert_eq!(gpu, cpu);
    let deliveries = gpu
        .effects
        .iter()
        .filter_map(|effect| match effect.outcome {
            ResidentOutcome::Received { value, .. } => Some((effect.continuation, value)),
            _ => None,
        })
        .collect::<Vec<_>>();
    assert_eq!(deliveries, vec![(2, 31)]);
    assert!(!gpu.completed.contains(&1));
}

#[test]
fn value_bearing_previous_survives_later_denial() {
    let config = ResidentSyncConfig {
        max_epochs: 4,
        max_effects_per_step: 2,
        max_frame_bytes: 8,
        max_continuations: 1,
        cohort_width: 1,
        initial_epoch: 0,
        objects: vec![],
        object_capabilities: vec![],
        futures: vec![InitialFuture::Pending],
        mailbox_capacities: vec![1],
        mailbox_messages: vec![vec![]],
        capabilities: vec![cap(7, RESOURCE_FUTURE, 0, RIGHT_WRITE)],
    };
    let continuations = vec![ResidentContinuation {
        id: 1,
        actor: 7,
        run_class: 1,
        mutable_access: false,
        waiting_since: 0,
        frame: vec![0; 8],
    }];
    let mut programs = BTreeMap::new();
    programs.insert(
        1,
        ResidentHandlerProgram {
            run_class: 1,
            instructions: vec![
                ResidentInstruction {
                    opcode: HANDLER_EFFECT_FUTURE_RESOLVE,
                    argument: 0,
                    target: 0,
                    reserved: 0,
                    value: 5,
                },
                ResidentInstruction {
                    opcode: HANDLER_EFFECT_MAILBOX_SEND,
                    argument: 0,
                    target: 0,
                    reserved: 0,
                    value: 9,
                },
                ResidentInstruction {
                    opcode: HANDLER_YIELD,
                    argument: 2,
                    target: 0,
                    reserved: 0,
                    value: 0,
                },
            ],
        },
    );
    programs.insert(
        2,
        ResidentHandlerProgram {
            run_class: 2,
            instructions: vec![
                ResidentInstruction {
                    opcode: HANDLER_IF_PREVIOUS_VALUE_NE_SKIP,
                    argument: 2,
                    target: 0,
                    reserved: 0,
                    value: 5,
                },
                ResidentInstruction {
                    opcode: HANDLER_STORE_PREVIOUS_VALUE_U64,
                    argument: 0,
                    target: 0,
                    reserved: 0,
                    value: 0,
                },
                ResidentInstruction {
                    opcode: HANDLER_COMPLETE,
                    argument: 0,
                    target: 0,
                    reserved: 0,
                    value: 0,
                },
                ResidentInstruction {
                    opcode: HANDLER_COMPLETE,
                    argument: 0,
                    target: 0,
                    reserved: 0,
                    value: 0,
                },
            ],
        },
    );
    let cpu = run_resident_sync(&config, continuations.clone(), &programs).unwrap();
    let gpu = run_device(&config, continuations, &programs).unwrap();
    assert_eq!(gpu, cpu);
    assert_eq!(gpu.frames[&1], 5u64.to_le_bytes());
    assert_eq!(gpu.effects[1].outcome, ResidentOutcome::CapabilityDenied);
}

#[test]
fn class_zero_and_invalid_target_match_oracle() {
    let config = ResidentSyncConfig {
        max_epochs: 1,
        max_effects_per_step: 1,
        max_frame_bytes: 8,
        max_continuations: 1,
        cohort_width: 1,
        initial_epoch: 0,
        objects: vec![],
        object_capabilities: vec![],
        futures: vec![],
        mailbox_capacities: vec![],
        mailbox_messages: vec![],
        capabilities: vec![cap(7, RESOURCE_FUTURE, 9, RIGHT_WRITE)],
    };
    let continuations = vec![ResidentContinuation {
        id: 1,
        actor: 7,
        run_class: 0,
        mutable_access: false,
        waiting_since: 0,
        frame: vec![],
    }];
    let programs = BTreeMap::from([(
        0,
        ResidentHandlerProgram {
            run_class: 0,
            instructions: vec![
                ResidentInstruction {
                    opcode: HANDLER_EFFECT_FUTURE_RESOLVE,
                    argument: 9,
                    target: 0,
                    reserved: 0,
                    value: 1,
                },
                ResidentInstruction {
                    opcode: HANDLER_COMPLETE,
                    argument: 0,
                    target: 0,
                    reserved: 0,
                    value: 0,
                },
            ],
        },
    )]);
    let cpu = run_resident_sync(&config, continuations.clone(), &programs).unwrap();
    let gpu = run_device(&config, continuations, &programs).unwrap();
    assert_eq!(gpu, cpu);
    assert_eq!(gpu.effects[0].outcome, ResidentOutcome::InvalidTarget);
}

#[test]
fn absent_previous_store_fails_boundedly() {
    let config = ResidentSyncConfig {
        max_epochs: 1,
        max_effects_per_step: 1,
        max_frame_bytes: 8,
        max_continuations: 1,
        cohort_width: 1,
        initial_epoch: 0,
        objects: vec![],
        object_capabilities: vec![],
        futures: vec![],
        mailbox_capacities: vec![],
        mailbox_messages: vec![],
        capabilities: vec![],
    };
    let continuations = vec![ResidentContinuation {
        id: 1,
        actor: 1,
        run_class: 1,
        mutable_access: false,
        waiting_since: 0,
        frame: vec![0; 8],
    }];
    let programs = BTreeMap::from([(
        1,
        ResidentHandlerProgram {
            run_class: 1,
            instructions: vec![
                ResidentInstruction {
                    opcode: HANDLER_STORE_PREVIOUS_VALUE_U64,
                    argument: 0,
                    target: 0,
                    reserved: 0,
                    value: 0,
                },
                ResidentInstruction {
                    opcode: HANDLER_COMPLETE,
                    argument: 0,
                    target: 0,
                    reserved: 0,
                    value: 0,
                },
            ],
        },
    )]);
    assert!(run_resident_sync(&config, continuations.clone(), &programs).is_none());
    assert!(matches!(
        run_device(&config, continuations, &programs),
        Err(BackendError::ExecutionFailed)
    ));
}

#[test]
fn rejects_unbounded_frames_effects_and_control_flow() {
    let (mut config, continuations, mut programs) = future_input(1);
    config.max_frame_bytes = 4;
    assert!(matches!(
        run_device(&config, continuations.clone(), &programs),
        Err(BackendError::InvalidInput)
    ));
    config.max_frame_bytes = 8;
    programs.get_mut(&100).unwrap().instructions[0].argument = u32::MAX;
    assert!(matches!(
        run_device(&config, continuations, &programs),
        Err(BackendError::InvalidInput)
    ));
}
#[test]
fn bounded_object_read_write_width_1_32_match_cpu_and_exact_journals() {
    fn case(width: u32) -> (ResidentSyncResult, ResidentSyncResult) {
        let config = ResidentSyncConfig {
            max_epochs: 1,
            max_effects_per_step: 2,
            max_frame_bytes: 16,
            max_continuations: 1,
            cohort_width: width,
            initial_epoch: 7,
            objects: vec![ResidentObject {
                version: 3,
                bytes: (0u8..16).collect(),
            }],
            object_capabilities: vec![ResidentObjectCapability {
                actor: 41,
                target: 0,
                offset: 0,
                length: 16,
                rights: RIGHT_READ | RIGHT_WRITE,
                object_version: 3,
                valid_until_epoch: 8,
            }],
            futures: vec![],
            mailbox_capacities: vec![],
            mailbox_messages: vec![],
            capabilities: vec![],
        };
        let continuations = vec![ResidentContinuation {
            id: 9,
            actor: 41,
            run_class: 1200,
            mutable_access: false,
            waiting_since: 0,
            frame: vec![0; 8],
        }];
        let programs = BTreeMap::from([(
            1200,
            ResidentHandlerProgram {
                run_class: 1200,
                instructions: vec![
                    ResidentInstruction {
                        opcode: HANDLER_EFFECT_OBJECT_READ,
                        argument: 4,
                        target: 0,
                        reserved: 0,
                        value: 0,
                    },
                    ResidentInstruction {
                        opcode: HANDLER_EFFECT_OBJECT_WRITE,
                        argument: 8,
                        target: 0,
                        reserved: 0,
                        value: 0x8877665544332211,
                    },
                    ResidentInstruction {
                        opcode: HANDLER_COMPLETE,
                        argument: 0,
                        target: 0,
                        reserved: 0,
                        value: 0,
                    },
                ],
            },
        )]);
        let cpu = run_resident_sync(&config, continuations.clone(), &programs).unwrap();
        let gpu = run_device(&config, continuations, &programs).unwrap();
        (cpu, gpu)
    }
    let (cpu1, gpu1) = case(1);
    let (cpu32, gpu32) = case(32);
    assert_eq!(gpu1, cpu1);
    assert_eq!(gpu32, cpu32);
    assert_eq!(gpu1, gpu32);
    assert_eq!(
        gpu1.effects[0].outcome,
        ResidentOutcome::ObjectRead(0x0b0a090807060504)
    );
    assert_eq!(
        &gpu1.object_values[0][8..16],
        &0x8877665544332211u64.to_le_bytes()
    );
    let journal = &gpu1.operations[0];
    assert_eq!(
        journal
            .operations
            .iter()
            .map(|op| (op.opcode, op.auxiliary, op.payload_len, op.result_ref))
            .collect::<Vec<_>>(),
        vec![
            (
                OP_READ_OBJECT,
                4,
                8,
                0x0b0a090807060504
            ),
            (OP_WRITE_OBJECT, 8, 8, 0)
        ]
    );
    assert_eq!(
        journal.payload,
        [
            0x0b0a090807060504u64.to_le_bytes(),
            0x8877665544332211u64.to_le_bytes()
        ]
        .concat()
    );
}

#[test]
fn refuses_explicit_object_count_capability_and_arena_bounds_before_allocation() {
    let base = |objects, object_capabilities, max_frame_bytes| ResidentSyncConfig {
        max_epochs: 1,
        max_effects_per_step: 1,
        max_frame_bytes,
        max_continuations: 1,
        cohort_width: 1,
        initial_epoch: 0,
        objects,
        object_capabilities,
        futures: vec![],
        mailbox_capacities: vec![],
        mailbox_messages: vec![],
        capabilities: vec![],
    };
    let assert_refused = |config: ResidentSyncConfig| {
        let programs = BTreeMap::new();
        assert!(run_resident_sync(&config, vec![], &programs).is_none());
        assert!(matches!(
            run_device(&config, vec![], &programs),
            Err(BackendError::InvalidInput)
        ));
    };
    assert_refused(base(
        vec![
            ResidentObject {
                version: 1,
                bytes: vec![]
            };
            MAX_RESIDENT_OBJECTS + 1
        ],
        vec![],
        1,
    ));
    assert_refused(base(
        vec![ResidentObject {
            version: 1,
            bytes: vec![0],
        }],
        vec![
            ResidentObjectCapability {
                actor: 1,
                target: 0,
                offset: 0,
                length: 1,
                rights: RIGHT_READ,
                object_version: 1,
                valid_until_epoch: 1,
            };
            MAX_RESIDENT_OBJECT_CAPABILITIES + 1
        ],
        1,
    ));
    let half = MAX_RESIDENT_OBJECT_ARENA_BYTES / 2 + 1;
    assert_refused(base(
        vec![
            ResidentObject {
                version: 1,
                bytes: vec![0; half],
            },
            ResidentObject {
                version: 1,
                bytes: vec![0; half],
            },
        ],
        vec![],
        half as u32,
    ));
}
#[test]
fn same_step_await_then_resolve_publishes_park_before_self_wake() {
    let config = ResidentSyncConfig {
        max_epochs: 2,
        max_effects_per_step: 2,
        max_frame_bytes: 8,
        max_continuations: 1,
        cohort_width: 32,
        initial_epoch: 0,
        objects: vec![],
        object_capabilities: vec![],
        futures: vec![InitialFuture::Pending],
        mailbox_capacities: vec![],
        mailbox_messages: vec![],
        capabilities: vec![cap(7, RESOURCE_FUTURE, 0, RIGHT_READ | RIGHT_WRITE)],
    };
    let continuations = vec![ResidentContinuation {
        id: 11,
        actor: 7,
        run_class: 1,
        mutable_access: false,
        waiting_since: 0,
        frame: vec![],
    }];
    let programs = BTreeMap::from([(
        1,
        ResidentHandlerProgram {
            run_class: 1,
            instructions: vec![
                instruction(HANDLER_EFFECT_FUTURE_AWAIT, 0, 0, 0),
                instruction(HANDLER_EFFECT_FUTURE_RESOLVE, 0, 0, 73),
                instruction(HANDLER_COMPLETE, 0, 0, 0),
            ],
        },
    )]);
    let cpu = run_resident_sync(&config, continuations.clone(), &programs).unwrap();
    let gpu = run_device(&config, continuations, &programs).unwrap();
    assert_eq!(gpu, cpu);
    assert_eq!(
        gpu.effects
            .iter()
            .map(|record| record.outcome)
            .collect::<Vec<_>>(),
        vec![
            ResidentOutcome::Registered,
            ResidentOutcome::Resolved(73),
            ResidentOutcome::Resolved(73),
            ResidentOutcome::DoubleResolve,
        ]
    );
    assert_eq!(
        gpu.wakes
            .iter()
            .map(|wake| (wake.continuation, wake.ticket, wake.ordinal))
            .collect::<Vec<_>>(),
        vec![(11, 1, 1)]
    );
    assert_eq!(gpu.completed, vec![11]);
}

#[test]
fn later_lane_resolve_wakes_waiters_in_ticket_then_id_order() {
    let config = ResidentSyncConfig {
        max_epochs: 2,
        max_effects_per_step: 1,
        max_frame_bytes: 8,
        max_continuations: 3,
        cohort_width: 32,
        initial_epoch: 0,
        objects: vec![],
        object_capabilities: vec![],
        futures: vec![InitialFuture::Pending],
        mailbox_capacities: vec![],
        mailbox_messages: vec![],
        capabilities: vec![
            cap(1, RESOURCE_FUTURE, 0, RIGHT_READ),
            cap(2, RESOURCE_FUTURE, 0, RIGHT_READ),
            cap(3, RESOURCE_FUTURE, 0, RIGHT_WRITE),
        ],
    };
    // Identity order is 1, 9, but class order registers 9 before 1.
    let continuations = vec![
        ResidentContinuation {
            id: 1,
            actor: 1,
            run_class: 200,
            mutable_access: false,
            waiting_since: 0,
            frame: vec![],
        },
        ResidentContinuation {
            id: 9,
            actor: 2,
            run_class: 100,
            mutable_access: false,
            waiting_since: 0,
            frame: vec![],
        },
        ResidentContinuation {
            id: 5,
            actor: 3,
            run_class: 50,
            mutable_access: false,
            waiting_since: 0,
            frame: vec![],
        },
    ];
    let mut programs = BTreeMap::new();
    programs.insert(
        50,
        ResidentHandlerProgram {
            run_class: 50,
            instructions: vec![instruction(HANDLER_YIELD, 300, 0, 0)],
        },
    );
    for run_class in [100, 200] {
        programs.insert(
            run_class,
            ResidentHandlerProgram {
                run_class,
                instructions: vec![
                    instruction(HANDLER_EFFECT_FUTURE_AWAIT, 0, 0, 0),
                    instruction(HANDLER_YIELD, run_class, 0, 0),
                ],
            },
        );
    }
    programs.insert(
        300,
        ResidentHandlerProgram {
            run_class: 300,
            instructions: vec![
                instruction(HANDLER_EFFECT_FUTURE_RESOLVE, 0, 0, 88),
                instruction(HANDLER_COMPLETE, 0, 0, 0),
            ],
        },
    );
    let cpu = run_resident_sync(&config, continuations.clone(), &programs).unwrap();
    let gpu = run_device(&config, continuations, &programs).unwrap();
    assert_eq!(gpu, cpu);
    assert_eq!(
        gpu.wakes
            .iter()
            .map(|wake| (wake.continuation, wake.ticket))
            .collect::<Vec<_>>(),
        vec![(9, 1), (1, 2)]
    );
    assert_eq!(gpu.wakes[0].cause_continuation, 5);
    assert_eq!(gpu.wakes[0].epoch, 1);
}

#[test]
fn full_epoch_parallel_evaluation_is_physical_and_compacts_irregular_effects_exactly() {
    let make_input = |width| {
        let config = ResidentSyncConfig {
            max_epochs: 4,
            max_effects_per_step: 2,
            max_frame_bytes: 16,
            max_continuations: 256,
            cohort_width: width,
            initial_epoch: 4,
            objects: vec![ResidentObject {
                version: 2,
                bytes: 0x8877665544332211u64.to_le_bytes().to_vec(),
            }],
            object_capabilities: vec![ResidentObjectCapability {
                actor: 1,
                target: 0,
                offset: 0,
                length: 8,
                rights: RIGHT_READ,
                object_version: 2,
                valid_until_epoch: 8,
            }],
            futures: vec![InitialFuture::Resolved(19), InitialFuture::Pending],
            mailbox_capacities: vec![5],
            mailbox_messages: vec![vec![]],
            capabilities: vec![
                cap(1, RESOURCE_MAILBOX, 0, RIGHT_WRITE),
                cap(1, RESOURCE_FUTURE, 1, RIGHT_READ),
                cap(2, RESOURCE_FUTURE, 1, RIGHT_READ),
            ],
        };
        let continuations = (1..=256u64)
            .rev()
            .map(|id| ResidentContinuation {
                id,
                actor: if id % 3 == 0 { 1 } else { 2 },
                run_class: if id % 2 == 0 { 10 } else { 20 },
                mutable_access: false,
                waiting_since: 0,
                frame: vec![id as u8; (id as usize % 13) + 1],
            })
            .collect::<Vec<_>>();
        let programs = BTreeMap::from([
            (
                10,
                ResidentHandlerProgram {
                    run_class: 10,
                    instructions: vec![
                        instruction(HANDLER_EFFECT_MAILBOX_SEND, 0, 0, 100),
                        instruction(HANDLER_YIELD, 20, 0, 0),
                    ],
                },
            ),
            (
                20,
                ResidentHandlerProgram {
                    run_class: 20,
                    instructions: vec![
                        instruction(HANDLER_EFFECT_OBJECT_READ, 0, 0, 0),
                        instruction(HANDLER_EFFECT_FUTURE_AWAIT, 1, 0, 0),
                        instruction(HANDLER_COMPLETE, 0, 0, 0),
                    ],
                },
            ),
        ]);
        (config, continuations, programs)
    };

    let (config1, continuations1, programs1) = make_input(1);
    let cpu1 = run_resident_sync(&config1, continuations1.clone(), &programs1).unwrap();
    let (gpu1, counts1) = run_device_with_counts(&config1, continuations1, &programs1)
        .unwrap();
    assert_eq!(gpu1, cpu1);
    assert_eq!(counts1.len(), 1);
    assert!(counts1[0] > 256);
    assert_eq!(counts1.iter().sum::<u32>() as usize, gpu1.invocations.len());

    let (config32, continuations32, programs32) = make_input(32);
    let cpu32 = run_resident_sync(&config32, continuations32.clone(), &programs32).unwrap();
    let (gpu32, counts32) = run_device_with_counts(&config32, continuations32, &programs32)
        .unwrap();
    assert_eq!(gpu32, cpu32);
    assert_eq!(gpu32, gpu1);
    assert_eq!(counts32.iter().filter(|&&count| count != 0).count(), 32);
    assert!(counts32.iter().all(|&count| count > 0));
    assert_eq!(
        counts32.iter().sum::<u32>() as usize,
        gpu32.invocations.len()
    );
    assert!(gpu32
        .effects
        .iter()
        .any(|record| record.outcome == ResidentOutcome::Full));
    assert!(gpu32
        .effects
        .iter()
        .any(|record| record.outcome == ResidentOutcome::CapabilityDenied));
    assert!(gpu32
        .effects
        .iter()
        .any(|record| { record.outcome == ResidentOutcome::ObjectRead(0x8877665544332211) }));
    assert!(gpu32
        .final_continuations
        .iter()
        .any(|continuation| continuation.pending.is_some()));
    assert!(gpu32
        .invocations
        .windows(2)
        .all(|pair| pair[0].epoch <= pair[1].epoch));
}
