use soma::device::{DEVICE_ACCESS_READ, OP_AWAIT_FUTURE, OP_ENQUEUE_MESSAGE, OP_OBSERVE_FUTURE, OP_RECEIVE_MESSAGE, OP_RESOLVE_FUTURE};
use soma::executives::resident_sync::{
    HANDLER_COMPLETE, HANDLER_EFFECT_FUTURE_AWAIT, HANDLER_EFFECT_FUTURE_OBSERVE, HANDLER_EFFECT_FUTURE_RESOLVE, HANDLER_EFFECT_MAILBOX_RECEIVE, HANDLER_EFFECT_MAILBOX_SEND, HANDLER_IF_PREVIOUS_VALUE_NE_SKIP, HANDLER_STORE_IMMEDIATE_U64, HANDLER_STORE_PREVIOUS_VALUE_U64, HANDLER_YIELD, InitialFuture, RESOURCE_FUTURE, RESOURCE_MAILBOX, RIGHT_READ, RIGHT_WRITE, ResidentCapability, ResidentContinuation, ResidentEffect, ResidentHandlerProgram, ResidentInstruction, ResidentOutcome, ResidentSyncConfig, ResidentSyncResult, run_resident_sync, validate_handler_program,
};
use std::collections::BTreeMap;

fn cap(actor: u64, kind: u32, target: u32, rights: u32) -> ResidentCapability {
    ResidentCapability {
        actor,
        resource_kind: kind,
        target,
        rights,
    }
}
fn future_case(width: u32) -> ResidentSyncResult {
    let cfg = ResidentSyncConfig {
        max_epochs: 8,
        max_effects_per_step: 2,
        max_frame_bytes: 8,
        max_continuations: 2,
        cohort_width: width,
        initial_epoch: 0,
        objects: vec![],
        object_capabilities: vec![],
        futures: vec![InitialFuture::Pending],
        mailbox_capacities: vec![],
        mailbox_messages: vec![],
        capabilities: vec![
            cap(10, RESOURCE_FUTURE, 0, RIGHT_READ),
            cap(20, RESOURCE_FUTURE, 0, RIGHT_WRITE),
        ],
    };
    let mut hs: BTreeMap<u32, ResidentHandlerProgram> = BTreeMap::new();
    hs.insert(
        100,
        ResidentHandlerProgram {
            run_class: 100,
            instructions: vec![
                ResidentInstruction {
                    opcode: HANDLER_IF_PREVIOUS_VALUE_NE_SKIP,
                    argument: 2,
                    target: 0,
                    reserved: 0,
                    value: 77,
                },
                ResidentInstruction {
                    opcode: HANDLER_STORE_PREVIOUS_VALUE_U64,
                    argument: 0,
                    target: 0,
                    reserved: 0,
                    value: 0,
                },
                ResidentInstruction {
                    opcode: HANDLER_COMPLETE,
                    argument: 0,
                    target: 0,
                    reserved: 0,
                    value: 0,
                },
                ResidentInstruction {
                    opcode: HANDLER_EFFECT_FUTURE_AWAIT,
                    argument: 0,
                    target: 0,
                    reserved: 0,
                    value: 0,
                },
                ResidentInstruction {
                    opcode: HANDLER_YIELD,
                    argument: 100,
                    target: 0,
                    reserved: 0,
                    value: 0,
                },
            ],
        },
    );
    hs.insert(
        200,
        ResidentHandlerProgram {
            run_class: 200,
            instructions: vec![
                ResidentInstruction {
                    opcode: HANDLER_EFFECT_FUTURE_RESOLVE,
                    argument: 0,
                    target: 0,
                    reserved: 0,
                    value: 77,
                },
                ResidentInstruction {
                    opcode: HANDLER_COMPLETE,
                    argument: 0,
                    target: 0,
                    reserved: 0,
                    value: 0,
                },
            ],
        },
    );
    run_resident_sync(
        &cfg,
        vec![
            ResidentContinuation {
                id: 1,
                actor: 10,
                run_class: 100,
                mutable_access: false,
                waiting_since: 0,
                frame: vec![0; 8],
            },
            ResidentContinuation {
                id: 2,
                actor: 20,
                run_class: 200,
                mutable_access: false,
                waiting_since: 0,
                frame: vec![],
            },
        ],
        &hs,
    )
    .unwrap()
}
#[test]
fn width_1_and_32_are_i19_identical() {
    let a = future_case(1);
    let b = future_case(32);
    assert_eq!(a, b);
    assert_eq!(a.future_values, vec![Some(77)]);
    assert_eq!(a.completed, vec![2, 1]);
    assert_eq!(
        a.effects.iter().map(|e| e.outcome).collect::<Vec<_>>(),
        vec![ResidentOutcome::Registered, ResidentOutcome::Resolved(77)]
    );
}
#[test]
fn successful_mailbox_send_wakes_and_delivers_to_parked_receiver() {
    let cfg = ResidentSyncConfig {
        max_epochs: 8,
        max_effects_per_step: 1,
        max_frame_bytes: 8,
        max_continuations: 2,
        cohort_width: 32,
        initial_epoch: 0,
        objects: vec![],
        object_capabilities: vec![],
        futures: vec![],
        mailbox_capacities: vec![1],
        mailbox_messages: vec![vec![]],
        capabilities: vec![
            cap(10, RESOURCE_MAILBOX, 0, RIGHT_READ),
            cap(20, RESOURCE_MAILBOX, 0, RIGHT_WRITE),
        ],
    };
    let mut programs = BTreeMap::new();
    programs.insert(
        100,
        ResidentHandlerProgram {
            run_class: 100,
            instructions: vec![
                ResidentInstruction {
                    opcode: HANDLER_IF_PREVIOUS_VALUE_NE_SKIP,
                    argument: 2,
                    target: 0,
                    reserved: 0,
                    value: 55,
                },
                ResidentInstruction {
                    opcode: HANDLER_STORE_PREVIOUS_VALUE_U64,
                    argument: 0,
                    target: 0,
                    reserved: 0,
                    value: 0,
                },
                ResidentInstruction {
                    opcode: HANDLER_COMPLETE,
                    argument: 0,
                    target: 0,
                    reserved: 0,
                    value: 0,
                },
                ResidentInstruction {
                    opcode: HANDLER_EFFECT_MAILBOX_RECEIVE,
                    argument: 0,
                    target: 0,
                    reserved: 0,
                    value: 0,
                },
                ResidentInstruction {
                    opcode: HANDLER_YIELD,
                    argument: 100,
                    target: 0,
                    reserved: 0,
                    value: 0,
                },
            ],
        },
    );
    programs.insert(
        200,
        ResidentHandlerProgram {
            run_class: 200,
            instructions: vec![
                ResidentInstruction {
                    opcode: HANDLER_EFFECT_MAILBOX_SEND,
                    argument: 0,
                    target: 0,
                    reserved: 0,
                    value: 55,
                },
                ResidentInstruction {
                    opcode: HANDLER_COMPLETE,
                    argument: 0,
                    target: 0,
                    reserved: 0,
                    value: 0,
                },
            ],
        },
    );
    let result = run_resident_sync(
        &cfg,
        vec![
            ResidentContinuation {
                id: 1,
                actor: 10,
                run_class: 100,
                mutable_access: false,
                waiting_since: 0,
                frame: vec![0; 8],
            },
            ResidentContinuation {
                id: 2,
                actor: 20,
                run_class: 200,
                mutable_access: false,
                waiting_since: 0,
                frame: vec![],
            },
        ],
        &programs,
    )
    .unwrap();
    assert_eq!(result.completed, vec![2, 1]);
    assert_eq!(result.frames[&1], 55u64.to_le_bytes());
    assert!(result.mailboxes[0].is_empty());
    assert_eq!(
        result
            .effects
            .iter()
            .map(|record| record.outcome)
            .collect::<Vec<_>>(),
        vec![
            ResidentOutcome::Empty,
            ResidentOutcome::Sent,
            ResidentOutcome::Received {
                value: 55,
                sender: 20
            },
        ]
    );
}

#[test]
fn handler_previous_is_immutable_during_step_and_cleared_after_consumption() {
    let cfg = ResidentSyncConfig {
        max_epochs: 6,
        max_effects_per_step: 1,
        max_frame_bytes: 8,
        max_continuations: 1,
        cohort_width: 1,
        initial_epoch: 0,
        objects: vec![],
        object_capabilities: vec![],
        futures: vec![InitialFuture::Pending],
        mailbox_capacities: vec![],
        mailbox_messages: vec![],
        capabilities: vec![cap(7, RESOURCE_FUTURE, 0, RIGHT_WRITE)],
    };
    let mut programs = BTreeMap::new();
    // The resolve emitted here must not make the following IF true in the
    // same invocation. Its outcome only becomes class 2's next input.
    programs.insert(
        1,
        ResidentHandlerProgram {
            run_class: 1,
            instructions: vec![
                ResidentInstruction {
                    opcode: HANDLER_EFFECT_FUTURE_RESOLVE,
                    argument: 0,
                    target: 0,
                    reserved: 0,
                    value: 9,
                },
                ResidentInstruction {
                    opcode: HANDLER_IF_PREVIOUS_VALUE_NE_SKIP,
                    argument: 2,
                    target: 0,
                    reserved: 0,
                    value: 9,
                },
                ResidentInstruction {
                    opcode: HANDLER_STORE_IMMEDIATE_U64,
                    argument: 0,
                    target: 0,
                    reserved: 0,
                    value: 99,
                },
                ResidentInstruction {
                    opcode: HANDLER_COMPLETE,
                    argument: 0,
                    target: 0,
                    reserved: 0,
                    value: 0,
                },
                ResidentInstruction {
                    opcode: HANDLER_YIELD,
                    argument: 2,
                    target: 0,
                    reserved: 0,
                    value: 0,
                },
            ],
        },
    );
    // Consume value 9 once, then yield. The following invocation must see
    // an empty previous list and take the COMPLETE branch.
    programs.insert(
        2,
        ResidentHandlerProgram {
            run_class: 2,
            instructions: vec![
                ResidentInstruction {
                    opcode: HANDLER_IF_PREVIOUS_VALUE_NE_SKIP,
                    argument: 2,
                    target: 0,
                    reserved: 0,
                    value: 9,
                },
                ResidentInstruction {
                    opcode: HANDLER_STORE_IMMEDIATE_U64,
                    argument: 0,
                    target: 0,
                    reserved: 0,
                    value: 9,
                },
                ResidentInstruction {
                    opcode: HANDLER_YIELD,
                    argument: 2,
                    target: 0,
                    reserved: 0,
                    value: 0,
                },
                ResidentInstruction {
                    opcode: HANDLER_COMPLETE,
                    argument: 0,
                    target: 0,
                    reserved: 0,
                    value: 0,
                },
            ],
        },
    );
    let result = run_resident_sync(
        &cfg,
        vec![ResidentContinuation {
            id: 1,
            actor: 7,
            run_class: 1,
            mutable_access: false,
            waiting_since: 0,
            frame: vec![0; 8],
        }],
        &programs,
    )
    .unwrap();
    assert_eq!(result.epochs, 3);
    assert_eq!(result.completed, vec![1]);
    assert_eq!(result.frames[&1], 9u64.to_le_bytes());
    assert_eq!(result.effects.len(), 1);
}

#[test]
fn rejects_programs_with_multiple_potential_parks() {
    let program = ResidentHandlerProgram {
        run_class: 1,
        instructions: vec![
            ResidentInstruction {
                opcode: HANDLER_EFFECT_FUTURE_AWAIT,
                argument: 0,
                target: 0,
                reserved: 0,
                value: 0,
            },
            ResidentInstruction {
                opcode: HANDLER_EFFECT_MAILBOX_RECEIVE,
                argument: 0,
                target: 0,
                reserved: 0,
                value: 0,
            },
            ResidentInstruction {
                opcode: HANDLER_COMPLETE,
                argument: 0,
                target: 0,
                reserved: 0,
                value: 0,
            },
        ],
    };
    assert!(!validate_handler_program(&program, 2, 8));
}

fn observe_case(width: u32) -> ResidentSyncResult {
    let config = ResidentSyncConfig {
        max_epochs: 1,
        max_effects_per_step: 1,
        max_frame_bytes: 8,
        max_continuations: 4,
        cohort_width: width,
        initial_epoch: 0,
        objects: vec![],
        object_capabilities: vec![],
        futures: vec![InitialFuture::Pending, InitialFuture::Resolved(44)],
        mailbox_capacities: vec![],
        mailbox_messages: vec![],
        capabilities: vec![
            cap(7, RESOURCE_FUTURE, 0, RIGHT_READ),
            cap(7, RESOURCE_FUTURE, 1, RIGHT_READ),
            // Authority is checked before bounds, making target 9 an
            // explicit governed invalid-target outcome rather than denial.
            cap(7, RESOURCE_FUTURE, 9, RIGHT_READ),
        ],
    };
    let mut programs = BTreeMap::new();
    for (run_class, target) in [(10, 0), (11, 1), (12, 0), (13, 9)] {
        programs.insert(
            run_class,
            ResidentHandlerProgram {
                run_class,
                instructions: vec![
                    ResidentInstruction {
                        opcode: HANDLER_EFFECT_FUTURE_OBSERVE,
                        argument: target,
                        target: 0,
                        reserved: 0,
                        value: 0,
                    },
                    ResidentInstruction {
                        opcode: HANDLER_COMPLETE,
                        argument: 0,
                        target: 0,
                        reserved: 0,
                        value: 0,
                    },
                ],
            },
        );
    }
    run_resident_sync(
        &config,
        vec![
            ResidentContinuation {
                id: 1,
                actor: 7,
                run_class: 10,
                mutable_access: false,
                waiting_since: 0,
                frame: vec![],
            },
            ResidentContinuation {
                id: 2,
                actor: 7,
                run_class: 11,
                mutable_access: false,
                waiting_since: 0,
                frame: vec![],
            },
            ResidentContinuation {
                id: 3,
                actor: 8,
                run_class: 12,
                mutable_access: false,
                waiting_since: 0,
                frame: vec![],
            },
            ResidentContinuation {
                id: 4,
                actor: 7,
                run_class: 13,
                mutable_access: false,
                waiting_since: 0,
                frame: vec![],
            },
        ],
        &programs,
    )
    .unwrap()
}

#[test]
fn observe_is_bounded_governed_and_has_exact_read_journals_width_1_32() {
    let narrow = observe_case(1);
    let wide = observe_case(32);
    assert_eq!(narrow, wide);
    assert_eq!(
        narrow
            .effects
            .iter()
            .map(|effect| effect.outcome)
            .collect::<Vec<_>>(),
        vec![
            ResidentOutcome::Pending,
            ResidentOutcome::Resolved(44),
            ResidentOutcome::CapabilityDenied,
            ResidentOutcome::InvalidTarget,
        ]
    );
    assert!(narrow
        .effects
        .iter()
        .all(|effect| { matches!(effect.effect, ResidentEffect::FutureObserve { .. }) }));
    assert!(narrow.accesses.iter().all(|access| {
        access.resource_kind == RESOURCE_FUTURE
            && access.mode == DEVICE_ACCESS_READ
    }));
    let operations = narrow
        .operations
        .iter()
        .flat_map(|journal| &journal.operations)
        .collect::<Vec<_>>();
    assert_eq!(operations.len(), 4);
    assert!(operations.iter().all(|operation| {
        operation.opcode == OP_OBSERVE_FUTURE
    }));
    assert_eq!(
        operations
            .iter()
            .map(|operation| operation.result_code)
            .collect::<Vec<_>>(),
        vec![1, 2, 0x104, 0x101]
    );
    assert_eq!(
        narrow
            .trace
            .iter()
            .map(|entry| (entry.event, entry.word))
            .collect::<Vec<_>>(),
        vec![
            (0, 2_166_136_261),
            (0, 2_166_136_261),
            (0, 2_166_136_261),
            (0, 2_166_136_261),
            (OP_OBSERVE_FUTURE, 1),
            (OP_OBSERVE_FUTURE, 2),
            (OP_OBSERVE_FUTURE, 0x104),
            (OP_OBSERVE_FUTURE, 0x101),
        ]
    );
    assert!(narrow
        .final_continuations
        .iter()
        .all(|continuation| { continuation.completed && continuation.pending.is_none() }));
}

#[test]
fn independently_expected_error_outcomes_and_exact_journals() {
    let cfg = ResidentSyncConfig {
        max_epochs: 2,
        max_effects_per_step: 3,
        max_frame_bytes: 8,
        max_continuations: 3,
        cohort_width: 1,
        initial_epoch: 0,
        objects: vec![],
        object_capabilities: vec![],
        futures: vec![InitialFuture::Resolved(1)],
        mailbox_capacities: vec![0],
        mailbox_messages: vec![vec![]],
        capabilities: vec![
            cap(7, RESOURCE_FUTURE, 0, RIGHT_WRITE),
            cap(7, RESOURCE_FUTURE, 9, RIGHT_WRITE),
            cap(7, RESOURCE_MAILBOX, 0, RIGHT_READ | RIGHT_WRITE),
        ],
    };
    let mut programs = BTreeMap::new();
    programs.insert(
        9,
        ResidentHandlerProgram {
            run_class: 9,
            instructions: vec![
                ResidentInstruction {
                    opcode: HANDLER_EFFECT_FUTURE_RESOLVE,
                    argument: 0,
                    target: 0,
                    reserved: 0,
                    value: 2,
                },
                ResidentInstruction {
                    opcode: HANDLER_EFFECT_FUTURE_RESOLVE,
                    argument: 9,
                    target: 0,
                    reserved: 0,
                    value: 2,
                },
                ResidentInstruction {
                    opcode: HANDLER_EFFECT_FUTURE_AWAIT,
                    argument: 0,
                    target: 0,
                    reserved: 0,
                    value: 0,
                },
                ResidentInstruction {
                    opcode: HANDLER_COMPLETE,
                    argument: 0,
                    target: 0,
                    reserved: 0,
                    value: 0,
                },
            ],
        },
    );
    programs.insert(
        10,
        ResidentHandlerProgram {
            run_class: 10,
            instructions: vec![
                ResidentInstruction {
                    opcode: HANDLER_EFFECT_MAILBOX_RECEIVE,
                    argument: 0,
                    target: 0,
                    reserved: 0,
                    value: 0,
                },
                ResidentInstruction {
                    opcode: HANDLER_COMPLETE,
                    argument: 0,
                    target: 0,
                    reserved: 0,
                    value: 0,
                },
            ],
        },
    );
    programs.insert(
        11,
        ResidentHandlerProgram {
            run_class: 11,
            instructions: vec![
                ResidentInstruction {
                    opcode: HANDLER_EFFECT_MAILBOX_SEND,
                    argument: 0,
                    target: 0,
                    reserved: 0,
                    value: 3,
                },
                ResidentInstruction {
                    opcode: HANDLER_COMPLETE,
                    argument: 0,
                    target: 0,
                    reserved: 0,
                    value: 0,
                },
            ],
        },
    );
    let result = run_resident_sync(
        &cfg,
        vec![
            ResidentContinuation {
                id: 4,
                actor: 7,
                run_class: 9,
                mutable_access: false,
                waiting_since: 0,
                frame: vec![1],
            },
            ResidentContinuation {
                id: 5,
                actor: 7,
                run_class: 10,
                mutable_access: false,
                waiting_since: 0,
                frame: vec![],
            },
            ResidentContinuation {
                id: 6,
                actor: 7,
                run_class: 11,
                mutable_access: false,
                waiting_since: 0,
                frame: vec![],
            },
        ],
        &programs,
    )
    .unwrap();
    assert_eq!(
        result.effects.iter().map(|e| e.outcome).collect::<Vec<_>>(),
        vec![
            ResidentOutcome::DoubleResolve,
            ResidentOutcome::InvalidTarget,
            ResidentOutcome::CapabilityDenied,
            ResidentOutcome::Empty,
            ResidentOutcome::Full,
        ]
    );
    assert_eq!(
        result
            .operations
            .iter()
            .flat_map(|j| j.operations.iter().map(|o| o.opcode))
            .collect::<Vec<_>>(),
        vec![
            OP_RESOLVE_FUTURE,
            OP_RESOLVE_FUTURE,
            OP_AWAIT_FUTURE,
            OP_RECEIVE_MESSAGE,
            OP_ENQUEUE_MESSAGE,
        ]
    );
    assert_eq!(
        result
            .accesses
            .iter()
            .map(|access| access.ordinal)
            .collect::<Vec<_>>(),
        vec![0, 1, 2, 0, 0]
    );
    assert_eq!(
        result
            .trace
            .iter()
            .take(3)
            .map(|entry| entry.event)
            .collect::<Vec<_>>(),
        vec![0, 0, 0]
    );
}
