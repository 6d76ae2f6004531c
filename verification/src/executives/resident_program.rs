//! Resident handler programs: pointer-free, bounded state machines that read
//! the results of their previous effects and emit new ones.
//!
//! A program is checked once, by [`validate_handler_program`], before any
//! continuation that it serves is admitted; [`execute_program`] then runs one
//! step of it on a private copy of the continuation's frame.

use crate::bytes;
use vstd::prelude::*;

verus! {

#[derive(Clone, Copy, Debug, PartialEq, Eq, Structural)]
pub enum ResidentEffect {
    /// Exact bounded 8-byte little-endian object range read.
    ObjectRead { target: u32, offset: u32 },
    /// Exact bounded 8-byte little-endian in-place object range mutation.
    ObjectWrite { target: u32, offset: u32, value: u64 },
    /// Non-blocking governed observation of a future.
    FutureObserve { target: u32 },
    FutureAwait { target: u32 },
    FutureResolve { target: u32, value: u64 },
    MailboxSend { target: u32, value: u64 },
    MailboxReceive { target: u32 },
}

#[derive(Clone, Copy, Debug, PartialEq, Eq, Structural)]
pub enum ResidentOutcome {
    ObjectRead(u64),
    ObjectWritten,
    Resolved(u64),
    /// A non-blocking future observation found the cell pending.
    Pending,
    Registered,
    Sent,
    Received { value: u64, sender: u64 },
    CapabilityDenied,
    InvalidTarget,
    Full,
    Empty,
    DoubleResolve,
}

#[derive(Clone, Copy, Debug, PartialEq, Eq, Structural)]
pub enum ResidentDisposition {
    Yield(u32),
    Complete,
}

/// Fixed-width, pointer-free resident handler instruction.
#[derive(Clone, Copy, Debug, Default, PartialEq, Eq, Structural)]
pub struct ResidentInstruction {
    pub opcode: u32,
    /// Frame offset/skip/run class, or byte offset for object effects.
    pub argument: u32,
    /// Dense resource index for effects.
    pub target: u32,
    pub reserved: u32,
    pub value: u64,
}

pub const HANDLER_EFFECT_FUTURE_AWAIT: u32 = 1;

pub const HANDLER_EFFECT_FUTURE_RESOLVE: u32 = 2;

pub const HANDLER_EFFECT_MAILBOX_SEND: u32 = 3;

pub const HANDLER_EFFECT_MAILBOX_RECEIVE: u32 = 4;

pub const HANDLER_STORE_IMMEDIATE_U64: u32 = 5;

pub const HANDLER_STORE_PREVIOUS_VALUE_U64: u32 = 6;

/// Skip `argument` instructions when the most recent value-bearing previous
/// outcome is absent or is not equal to `value`.
pub const HANDLER_IF_PREVIOUS_VALUE_NE_SKIP: u32 = 7;

pub const HANDLER_YIELD: u32 = 8;

pub const HANDLER_COMPLETE: u32 = 9;

/// Emit the explicit non-blocking observation of a future.
pub const HANDLER_EFFECT_FUTURE_OBSERVE: u32 = 10;

pub const HANDLER_EFFECT_OBJECT_READ: u32 = 11;

pub const HANDLER_EFFECT_OBJECT_WRITE: u32 = 12;

/// Wrapping little-endian `u64` add in the continuation's private frame.
pub const HANDLER_ADD_FRAME_IMMEDIATE_U64: u32 = 13;

/// Complete when the little-endian frame word at `argument` equals `value`.
pub const HANDLER_COMPLETE_IF_FRAME_U64_EQ: u32 = 14;

/// The longest program that is accepted.
pub const MAX_HANDLER_INSTRUCTIONS: usize = 256;

#[derive(Clone, Debug, PartialEq, Eq)]
pub struct ResidentHandlerProgram {
    pub run_class: u32,
    pub instructions: Vec<ResidentInstruction>,
}

#[derive(Clone, Debug, PartialEq, Eq)]
pub struct HandlerOutput {
    pub frame: Vec<u8>,
    pub effects: Vec<ResidentEffect>,
    pub disposition: ResidentDisposition,
}

/// What one step of a program leaves: the new frame, the effects in the order
/// in which they were emitted, and the disposition.
#[verifier::ext_equal]
pub struct StepView {
    pub frame: Seq<u8>,
    pub effects: Seq<ResidentEffect>,
    pub disposition: ResidentDisposition,
}

impl View for HandlerOutput {
    type V = StepView;

    open spec fn view(&self) -> StepView {
        StepView {
            frame: self.frame@,
            effects: self.effects@,
            disposition: self.disposition,
        }
    }
}

/// The value that an outcome carries, if it carries one.
pub open spec fn carried(outcome: ResidentOutcome) -> Option<u64> {
    match outcome {
        ResidentOutcome::Resolved(value) => Some(value),
        ResidentOutcome::ObjectRead(value) => Some(value),
        ResidentOutcome::Received { value, .. } => Some(value),
        _ => None,
    }
}

/// The value of the last outcome that carries one.
pub open spec fn last_carried(previous: Seq<ResidentOutcome>) -> Option<u64>
    decreases previous.len(),
{
    if previous.len() == 0 {
        None
    } else if carried(previous.last()) is Some {
        carried(previous.last())
    } else {
        last_carried(previous.drop_last())
    }
}

/// Whether `opcode` may park the continuation that executes it.
pub open spec fn is_blocking(opcode: u32) -> bool {
    opcode == HANDLER_EFFECT_FUTURE_AWAIT || opcode == HANDLER_EFFECT_MAILBOX_SEND || opcode
        == HANDLER_EFFECT_MAILBOX_RECEIVE
}

/// Whether `opcode` reads or writes the frame word at its argument.
pub open spec fn is_frame_access(opcode: u32) -> bool {
    opcode == HANDLER_STORE_IMMEDIATE_U64 || opcode == HANDLER_STORE_PREVIOUS_VALUE_U64 || opcode
        == HANDLER_ADD_FRAME_IMMEDIATE_U64 || opcode == HANDLER_COMPLETE_IF_FRAME_U64_EQ
}

/// The effect that an instruction emits, if it is an effect instruction.
pub open spec fn emitted(instruction: ResidentInstruction) -> Option<ResidentEffect> {
    if instruction.opcode == HANDLER_EFFECT_OBJECT_READ {
        Some(
            ResidentEffect::ObjectRead {
                target: instruction.target,
                offset: instruction.argument,
            },
        )
    } else if instruction.opcode == HANDLER_EFFECT_OBJECT_WRITE {
        Some(
            ResidentEffect::ObjectWrite {
                target: instruction.target,
                offset: instruction.argument,
                value: instruction.value,
            },
        )
    } else if instruction.opcode == HANDLER_EFFECT_FUTURE_OBSERVE {
        Some(ResidentEffect::FutureObserve { target: instruction.argument })
    } else if instruction.opcode == HANDLER_EFFECT_FUTURE_AWAIT {
        Some(ResidentEffect::FutureAwait { target: instruction.argument })
    } else if instruction.opcode == HANDLER_EFFECT_FUTURE_RESOLVE {
        Some(
            ResidentEffect::FutureResolve {
                target: instruction.argument,
                value: instruction.value,
            },
        )
    } else if instruction.opcode == HANDLER_EFFECT_MAILBOX_SEND {
        Some(
            ResidentEffect::MailboxSend {
                target: instruction.argument,
                value: instruction.value,
            },
        )
    } else if instruction.opcode == HANDLER_EFFECT_MAILBOX_RECEIVE {
        Some(ResidentEffect::MailboxReceive { target: instruction.argument })
    } else {
        None
    }
}

/// Whether every path of `program` from `pc`, entered with `effects` effects
/// emitted, ends in a yield or a completion, stays within `max_effects`, and
/// touches only the first `max_frame` bytes of a frame.
pub open spec fn paths_are_bounded(
    program: Seq<ResidentInstruction>,
    pc: int,
    effects: int,
    max_effects: int,
    max_frame: int,
) -> bool
    decreases program.len() - pc,
{
    if pc < 0 || pc >= program.len() {
        false
    } else {
        let instruction = program[pc];
        if emitted(instruction) is Some {
            effects + 1 <= max_effects && paths_are_bounded(
                program,
                pc + 1,
                effects + 1,
                max_effects,
                max_frame,
            )
        } else if is_frame_access(instruction.opcode) {
            instruction.argument + 8 <= max_frame && paths_are_bounded(
                program,
                pc + 1,
                effects,
                max_effects,
                max_frame,
            )
        } else if instruction.opcode == HANDLER_IF_PREVIOUS_VALUE_NE_SKIP {
            let skipped = pc + 1 + instruction.argument;
            skipped <= program.len() && paths_are_bounded(
                program,
                pc + 1,
                effects,
                max_effects,
                max_frame,
            ) && paths_are_bounded(program, skipped, effects, max_effects, max_frame)
        } else {
            instruction.opcode == HANDLER_YIELD || instruction.opcode == HANDLER_COMPLETE
        }
    }
}

/// Whether `program` is an acceptable handler: short, with at most one
/// instruction that can park, and bounded on every path.
pub open spec fn program_is_valid(
    program: Seq<ResidentInstruction>,
    max_effects: int,
    max_frame: int,
) -> bool {
    &&& 0 < program.len() <= MAX_HANDLER_INSTRUCTIONS
    &&& forall|i: int, j: int|
        0 <= i < program.len() && 0 <= j < program.len() && is_blocking(
            #[trigger] program[i].opcode,
        ) && is_blocking(#[trigger] program[j].opcode) ==> i == j
    &&& paths_are_bounded(program, 0, 0, max_effects, max_frame)
}

/// One step of `program` from `pc`, with the frame and the effects so far.
/// `None` where an access leaves the frame, a needed previous value is
/// missing, a bound is passed, or the program runs off its end.
pub open spec fn step_from(
    program: Seq<ResidentInstruction>,
    pc: int,
    frame: Seq<u8>,
    effects: Seq<ResidentEffect>,
    previous: Seq<ResidentOutcome>,
    max_effects: int,
    max_frame: int,
) -> Option<StepView>
    decreases program.len() - pc,
{
    if pc < 0 || pc >= program.len() {
        None
    } else {
        let instruction = program[pc];
        let at = instruction.argument as int;
        if emitted(instruction) is Some {
            if effects.len() + 1 > max_effects {
                None
            } else {
                step_from(
                    program,
                    pc + 1,
                    frame,
                    effects.push(emitted(instruction)->0),
                    previous,
                    max_effects,
                    max_frame,
                )
            }
        } else if instruction.opcode == HANDLER_STORE_IMMEDIATE_U64 || instruction.opcode
            == HANDLER_STORE_PREVIOUS_VALUE_U64 {
            let value = if instruction.opcode == HANDLER_STORE_IMMEDIATE_U64 {
                Some(instruction.value)
            } else {
                last_carried(previous)
            };
            if at + 8 > frame.len() || at + 8 > max_frame || value is None {
                None
            } else {
                step_from(
                    program,
                    pc + 1,
                    bytes::spliced(frame, at, bytes::le_bytes(value->0 as nat, 8)),
                    effects,
                    previous,
                    max_effects,
                    max_frame,
                )
            }
        } else if instruction.opcode == HANDLER_ADD_FRAME_IMMEDIATE_U64 {
            if at + 8 > frame.len() {
                None
            } else {
                let sum = (bytes::word_at(frame, at, 8) + instruction.value as nat)
                    % 0x1_0000_0000_0000_0000nat;
                step_from(
                    program,
                    pc + 1,
                    bytes::spliced(frame, at, bytes::le_bytes(sum, 8)),
                    effects,
                    previous,
                    max_effects,
                    max_frame,
                )
            }
        } else if instruction.opcode == HANDLER_COMPLETE_IF_FRAME_U64_EQ {
            if at + 8 > frame.len() {
                None
            } else if bytes::word_at(frame, at, 8) == instruction.value {
                Some(
                    StepView { frame, effects, disposition: ResidentDisposition::Complete },
                )
            } else {
                step_from(program, pc + 1, frame, effects, previous, max_effects, max_frame)
            }
        } else if instruction.opcode == HANDLER_IF_PREVIOUS_VALUE_NE_SKIP {
            if last_carried(previous) == Some(instruction.value) {
                step_from(program, pc + 1, frame, effects, previous, max_effects, max_frame)
            } else if pc + 1 + at > program.len() {
                None
            } else {
                step_from(program, pc + 1 + at, frame, effects, previous, max_effects, max_frame)
            }
        } else if instruction.opcode == HANDLER_YIELD {
            Some(
                StepView {
                    frame,
                    effects,
                    disposition: ResidentDisposition::Yield(instruction.argument),
                },
            )
        } else if instruction.opcode == HANDLER_COMPLETE {
            Some(StepView { frame, effects, disposition: ResidentDisposition::Complete })
        } else {
            None
        }
    }
}

/// One step of `program` on `frame` after `previous`.
pub open spec fn program_step(
    program: Seq<ResidentInstruction>,
    frame: Seq<u8>,
    previous: Seq<ResidentOutcome>,
    max_effects: int,
    max_frame: int,
) -> Option<StepView> {
    if program.len() > MAX_HANDLER_INSTRUCTIONS {
        None
    } else {
        step_from(program, 0, frame, Seq::empty(), previous, max_effects, max_frame)
    }
}

/// The most effects that any path from `pc` emits, or `None` where some path
/// is not bounded by the program and the frame.
spec fn most_effects(program: Seq<ResidentInstruction>, pc: int, max_frame: int) -> Option<nat>
    decreases program.len() - pc,
{
    if pc < 0 || pc >= program.len() {
        None
    } else {
        let instruction = program[pc];
        if emitted(instruction) is Some {
            match most_effects(program, pc + 1, max_frame) {
                Some(n) => Some(n + 1),
                None => None,
            }
        } else if is_frame_access(instruction.opcode) {
            if instruction.argument + 8 <= max_frame {
                most_effects(program, pc + 1, max_frame)
            } else {
                None
            }
        } else if instruction.opcode == HANDLER_IF_PREVIOUS_VALUE_NE_SKIP {
            let skipped = pc + 1 + instruction.argument;
            if skipped > program.len() {
                None
            } else {
                match (
                    most_effects(program, pc + 1, max_frame),
                    most_effects(program, skipped, max_frame),
                ) {
                    (Some(a), Some(b)) => Some(if a >= b {
                        a
                    } else {
                        b
                    }),
                    _ => None,
                }
            }
        } else if instruction.opcode == HANDLER_YIELD || instruction.opcode == HANDLER_COMPLETE {
            Some(0)
        } else {
            None
        }
    }
}

proof fn lemma_most_effects(
    program: Seq<ResidentInstruction>,
    pc: int,
    effects: int,
    max_effects: int,
    max_frame: int,
)
    ensures
        paths_are_bounded(program, pc, effects, max_effects, max_frame) <==> (most_effects(
            program,
            pc,
            max_frame,
        ) matches Some(n) && (n == 0 || effects + n <= max_effects)),
        most_effects(program, pc, max_frame) matches Some(n) ==> n <= program.len() - pc,
    decreases program.len() - pc,
{
    if 0 <= pc < program.len() {
        let instruction = program[pc];
        if emitted(instruction) is Some {
            lemma_most_effects(program, pc + 1, effects + 1, max_effects, max_frame);
        } else if is_frame_access(instruction.opcode) {
            lemma_most_effects(program, pc + 1, effects, max_effects, max_frame);
        } else if instruction.opcode == HANDLER_IF_PREVIOUS_VALUE_NE_SKIP {
            lemma_most_effects(program, pc + 1, effects, max_effects, max_frame);
            if pc + 1 + instruction.argument <= program.len() {
                lemma_most_effects(
                    program,
                    pc + 1 + instruction.argument,
                    effects,
                    max_effects,
                    max_frame,
                );
            }
        }
    }
}

/// The effect that `instruction` emits, if it is an effect instruction.
pub fn emitted_effect(instruction: ResidentInstruction) -> (effect: Option<ResidentEffect>)
    ensures
        effect == emitted(instruction),
{
    let ResidentInstruction { opcode, argument, target, value, .. } = instruction;
    if opcode == HANDLER_EFFECT_OBJECT_READ {
        Some(ResidentEffect::ObjectRead { target, offset: argument })
    } else if opcode == HANDLER_EFFECT_OBJECT_WRITE {
        Some(ResidentEffect::ObjectWrite { target, offset: argument, value })
    } else if opcode == HANDLER_EFFECT_FUTURE_OBSERVE {
        Some(ResidentEffect::FutureObserve { target: argument })
    } else if opcode == HANDLER_EFFECT_FUTURE_AWAIT {
        Some(ResidentEffect::FutureAwait { target: argument })
    } else if opcode == HANDLER_EFFECT_FUTURE_RESOLVE {
        Some(ResidentEffect::FutureResolve { target: argument, value })
    } else if opcode == HANDLER_EFFECT_MAILBOX_SEND {
        Some(ResidentEffect::MailboxSend { target: argument, value })
    } else if opcode == HANDLER_EFFECT_MAILBOX_RECEIVE {
        Some(ResidentEffect::MailboxReceive { target: argument })
    } else {
        None
    }
}

/// The value of the most recent outcome that carries one.
pub fn previous_value(previous: &[ResidentOutcome]) -> (value: Option<u64>)
    ensures
        value == last_carried(previous@),
{
    let mut i: usize = previous.len();
    assert(previous@.take(i as int) =~= previous@);
    while i > 0
        invariant
            i <= previous@.len(),
            last_carried(previous@) == last_carried(previous@.take(i as int)),
        decreases i,
    {
        i = i - 1;
        assert(previous@.take(i + 1).drop_last() =~= previous@.take(i as int));
        match previous[i] {
            ResidentOutcome::Resolved(value) => {
                return Some(value);
            },
            ResidentOutcome::ObjectRead(value) => {
                return Some(value);
            },
            ResidentOutcome::Received { value, .. } => {
                return Some(value);
            },
            _ => {},
        }
    }
    None
}

fn count_of_blocking_is_at_most_one(instructions: &Vec<ResidentInstruction>) -> (ok: bool)
    ensures
        ok <==> forall|i: int, j: int|
            0 <= i < instructions@.len() && 0 <= j < instructions@.len() && is_blocking(
                #[trigger] instructions@[i].opcode,
            ) && is_blocking(#[trigger] instructions@[j].opcode) ==> i == j,
{
    let mut found: Option<usize> = None;
    let mut i: usize = 0;
    while i < instructions.len()
        invariant
            i <= instructions@.len(),
            found matches Some(k) ==> k < i && is_blocking(instructions@[k as int].opcode),
            forall|k: int|
                0 <= k < i && is_blocking(#[trigger] instructions@[k].opcode) ==> found == Some(
                    k as usize,
                ),
        decreases instructions@.len() - i,
    {
        let opcode: u32 = instructions[i].opcode;
        if opcode == HANDLER_EFFECT_FUTURE_AWAIT || opcode == HANDLER_EFFECT_MAILBOX_SEND || opcode
            == HANDLER_EFFECT_MAILBOX_RECEIVE {
            match found {
                Some(k) => {
                    assert(is_blocking(instructions@[k as int].opcode) && is_blocking(
                        instructions@[i as int].opcode,
                    ));
                    return false;
                },
                None => {
                    found = Some(i);
                },
            }
        }
        i = i + 1;
    }
    true
}

/// Whether `program` may be installed under these bounds.
pub fn validate_handler_program(
    program: &ResidentHandlerProgram,
    max_effects: u32,
    max_frame_bytes: u32,
) -> (valid: bool)
    ensures
        valid == program_is_valid(
            program.instructions@,
            max_effects as int,
            max_frame_bytes as int,
        ),
{
    let len: usize = program.instructions.len();
    if len == 0 || len > MAX_HANDLER_INSTRUCTIONS {
        return false;
    }
    if !count_of_blocking_is_at_most_one(&program.instructions) {
        return false;
    }
    let ghost code = program.instructions@;
    let ghost limit = max_frame_bytes as int;
    // Entry `k` belongs to the instruction `len - 1 - k`.
    let mut most: Vec<Option<u32>> = Vec::new();
    let mut pc: usize = len;
    while pc > 0
        invariant
            pc <= len <= MAX_HANDLER_INSTRUCTIONS,
            len == code.len(),
            code == program.instructions@,
            limit == max_frame_bytes as int,
            most@.len() == len - pc,
            forall|k: int|
                pc <= k < len ==> match (#[trigger] most@[len - 1 - k], most_effects(
                    code,
                    k,
                    limit,
                )) {
                    (Some(a), Some(b)) => a == b && b <= len - k,
                    (None, None) => true,
                    _ => false,
                },
        decreases pc,
    {
        let ghost before = most@;
        pc = pc - 1;
        let instruction = program.instructions[pc];
        let next: Option<u32> = if pc + 1 < len {
            most[len - 2 - pc]
        } else {
            None
        };
        proof {
            if pc + 1 < len {
                assert(len - 2 - pc == len - 1 - (pc + 1));
                assert(before[len - 1 - (pc + 1)] == next);
            }
            lemma_most_effects(code, pc + 1, 0, 0, limit);
        }
        let opcode: u32 = instruction.opcode;
        let entry: Option<u32> = if emitted_effect(instruction).is_some() {
            match next {
                Some(n) => Some(n + 1),
                None => None,
            }
        } else if opcode == HANDLER_STORE_IMMEDIATE_U64 || opcode
            == HANDLER_STORE_PREVIOUS_VALUE_U64 || opcode == HANDLER_ADD_FRAME_IMMEDIATE_U64
            || opcode == HANDLER_COMPLETE_IF_FRAME_U64_EQ {
            if max_frame_bytes >= 8 && instruction.argument <= max_frame_bytes - 8 {
                next
            } else {
                None
            }
        } else if opcode == HANDLER_IF_PREVIOUS_VALUE_NE_SKIP {
            let skip: u64 = instruction.argument as u64;
            if pc as u64 + 1 + skip < len as u64 {
                let skipped: usize = pc + 1 + skip as usize;
                let other: Option<u32> = most[len - 1 - skipped];
                match (next, other) {
                    (Some(a), Some(b)) => Some(if a >= b {
                        a
                    } else {
                        b
                    }),
                    _ => None,
                }
            } else {
                None
            }
        } else if opcode == HANDLER_YIELD || opcode == HANDLER_COMPLETE {
            Some(0)
        } else {
            None
        };
        most.push(entry);
        assert forall|k: int| pc <= k < len implies match (
            #[trigger] most@[len - 1 - k],
            most_effects(code, k, limit),
        ) {
            (Some(a), Some(b)) => a == b && b <= len - k,
            (None, None) => true,
            _ => false,
        } by {
            if k > pc {
                assert(most@[len - 1 - k] == before[len - 1 - k]);
            } else {
                lemma_most_effects(code, k, 0, 0, limit);
            }
        }
    }
    proof {
        lemma_most_effects(code, 0, 0, max_effects as int, limit);
        assert(most@[len - 1 - 0] == most@[len - 1]);
    }
    match most[len - 1] {
        Some(n) => n <= max_effects,
        None => false,
    }
}

/// Runs one step of `program` on a copy of `frame`.
pub fn execute_program(
    program: &ResidentHandlerProgram,
    frame: &[u8],
    previous: &[ResidentOutcome],
    max_effects: usize,
    max_frame_bytes: usize,
) -> (output: Option<HandlerOutput>)
    ensures
        output is Some <==> program_step(
            program.instructions@,
            frame@,
            previous@,
            max_effects as int,
            max_frame_bytes as int,
        ) is Some,
        output matches Some(out) ==> Some(out@) == program_step(
            program.instructions@,
            frame@,
            previous@,
            max_effects as int,
            max_frame_bytes as int,
        ),
{
    let len: usize = program.instructions.len();
    if len == 0 || len > MAX_HANDLER_INSTRUCTIONS {
        return None;
    }
    let ghost code = program.instructions@;
    let ghost goal = program_step(
        code,
        frame@,
        previous@,
        max_effects as int,
        max_frame_bytes as int,
    );
    let mut body: Vec<u8> = vstd::slice::slice_to_vec(frame);
    let mut effects: Vec<ResidentEffect> = Vec::new();
    let mut pc: usize = 0;
    let carried_value: Option<u64> = previous_value(previous);
    while pc < len
        invariant
            pc <= len <= MAX_HANDLER_INSTRUCTIONS,
            len == code.len(),
            code == program.instructions@,
            carried_value == last_carried(previous@),
            effects@.len() <= max_effects,
            goal == program_step(
                code,
                frame@,
                previous@,
                max_effects as int,
                max_frame_bytes as int,
            ),
            goal == step_from(
                code,
                pc as int,
                body@,
                effects@,
                previous@,
                max_effects as int,
                max_frame_bytes as int,
            ),
        decreases len - pc,
    {
        let instruction = program.instructions[pc];
        let opcode: u32 = instruction.opcode;
        let at: usize = instruction.argument as usize;
        let in_frame: bool = body.len() >= 8 && at <= body.len() - 8;
        match emitted_effect(instruction) {
            Some(effect) => {
                if effects.len() >= max_effects {
                    return None;
                }
                effects.push(effect);
                pc = pc + 1;
            },
            None => {
                if opcode == HANDLER_STORE_IMMEDIATE_U64 || opcode
                    == HANDLER_STORE_PREVIOUS_VALUE_U64 {
                    if !in_frame || max_frame_bytes < 8 || at > max_frame_bytes - 8 {
                        return None;
                    }
                    let value: u64 = if opcode == HANDLER_STORE_IMMEDIATE_U64 {
                        instruction.value
                    } else {
                        match carried_value {
                            Some(value) => value,
                            None => {
                                return None;
                            },
                        }
                    };
                    bytes::set_le(body.as_mut_slice(), at, value, 8);
                    pc = pc + 1;
                } else if opcode == HANDLER_ADD_FRAME_IMMEDIATE_U64 {
                    if !in_frame {
                        return None;
                    }
                    let word: u64 = bytes::get_le(body.as_slice(), at, 8);
                    let sum: u64 = word.wrapping_add(instruction.value);
                    assert(sum == (word as nat + instruction.value as nat)
                        % 0x1_0000_0000_0000_0000nat);
                    bytes::set_le(body.as_mut_slice(), at, sum, 8);
                    pc = pc + 1;
                } else if opcode == HANDLER_COMPLETE_IF_FRAME_U64_EQ {
                    if !in_frame {
                        return None;
                    }
                    if bytes::get_le(body.as_slice(), at, 8) == instruction.value {
                        let disposition = ResidentDisposition::Complete;
                        return Some(HandlerOutput { frame: body, effects, disposition });
                    }
                    pc = pc + 1;
                } else if opcode == HANDLER_IF_PREVIOUS_VALUE_NE_SKIP {
                    let equal: bool = match carried_value {
                        Some(value) => value == instruction.value,
                        None => false,
                    };
                    if equal {
                        pc = pc + 1;
                    } else {
                        if at >= len - pc {
                            return None;
                        }
                        pc = pc + 1 + at;
                    }
                } else if opcode == HANDLER_YIELD {
                    let disposition = ResidentDisposition::Yield(instruction.argument);
                    return Some(HandlerOutput { frame: body, effects, disposition });
                } else if opcode == HANDLER_COMPLETE {
                    let disposition = ResidentDisposition::Complete;
                    return Some(HandlerOutput { frame: body, effects, disposition });
                } else {
                    return None;
                }
            },
        }
    }
    None
}

} // verus!
