//! What each instruction of a resident handler does.
//!
//! Instructions are named by their opcode numbers, which are part of the format.

use crate::bytes;
use crate::executives::resident_program;
use crate::executives::resident_program::{
    ResidentDisposition, ResidentEffect, ResidentInstruction, ResidentOutcome, StepView,
};
use vstd::prelude::*;

verus! {

/// `after` is `before` but for the word of eight bytes at `at`, which is `value`.
pub open spec fn word_replaced(before: Seq<u8>, after: Seq<u8>, at: int, value: nat) -> bool {
    &&& after.len() == before.len()
    &&& bytes::word_at(after, at, 8) == value
    &&& forall|i: int|
        0 <= i < before.len() && !(at <= i < at + 8) ==> #[trigger] after[i] == before[i]
}

proof fn lemma_word_replaced(before: Seq<u8>, at: int, value: u64)
    requires
        0 <= at,
        at + 8 <= before.len(),
    ensures
        word_replaced(
            before,
            bytes::spliced(before, at, bytes::le_bytes(value as nat, 8)),
            at,
            value as nat,
        ),
{
    bytes::lemma_splice_then_read(before, at, value);
    bytes::lemma_le_bytes_len(value as nat, 8);
}

/// Eight bytes are one word: frames whose words agree, and that agree elsewhere,
/// are the same.
proof fn lemma_replaced_alike(before: Seq<u8>, a: Seq<u8>, b: Seq<u8>, at: int, value: nat)
    requires
        0 <= at,
        at + 8 <= before.len(),
        word_replaced(before, a, at, value),
        word_replaced(before, b, at, value),
    ensures
        a == b,
{
    let x = a.subrange(at, at + 8);
    let y = b.subrange(at, at + 8);
    bytes::lemma_le_bytes_of_value(x);
    bytes::lemma_le_bytes_of_value(y);
    assert(x =~= y);
    assert forall|i: int| 0 <= i < a.len() implies a[i] == b[i] by {
        if at <= i < at + 8 {
            assert(x[i - at] == a[i]);
            assert(y[i - at] == b[i]);
        }
    }
    assert(a =~= b);
}

/// A step starts at the first instruction, with the continuation's frame and no
/// effects. A program of more than 256 instructions takes none.
pub proof fn law_a_step_starts_at_the_first_instruction(
    program: Seq<ResidentInstruction>,
    frame: Seq<u8>,
    previous: Seq<ResidentOutcome>,
    max_effects: int,
    max_frame: int,
)
    ensures
        program.len() <= 256 ==> resident_program::program_step(
            program,
            frame,
            previous,
            max_effects,
            max_frame,
        ) == resident_program::step_from(
            program,
            0,
            frame,
            Seq::empty(),
            previous,
            max_effects,
            max_frame,
        ),
        program.len() == 0 || program.len() > 256 ==> resident_program::program_step(
            program,
            frame,
            previous,
            max_effects,
            max_frame,
        ) is None,
{
}

/// A program that runs off its end, or that meets an opcode outside 1 to 14, has no
/// step.
pub proof fn law_a_step_needs_an_end(
    program: Seq<ResidentInstruction>,
    pc: int,
    frame: Seq<u8>,
    effects: Seq<ResidentEffect>,
    previous: Seq<ResidentOutcome>,
    max_effects: int,
    max_frame: int,
)
    requires
        pc >= program.len() || (0 <= pc && !(1 <= program[pc].opcode <= 14)),
    ensures
        resident_program::step_from(
            program,
            pc,
            frame,
            effects,
            previous,
            max_effects,
            max_frame,
        ) is None,
{
}

/// Opcode 14 completes the step, with the frame as it is, exactly where the word at
/// its argument equals its value. Otherwise the next instruction decides.
pub proof fn law_complete_if_completes_where_the_word_is_equal(
    program: Seq<ResidentInstruction>,
    pc: int,
    frame: Seq<u8>,
    effects: Seq<ResidentEffect>,
    previous: Seq<ResidentOutcome>,
    max_effects: int,
    max_frame: int,
)
    requires
        0 <= pc < program.len(),
        program[pc].opcode == 14,
    ensures
        ({
            let at = program[pc].argument as int;
            let step = resident_program::step_from(
                program,
                pc,
                frame,
                effects,
                previous,
                max_effects,
                max_frame,
            );
            if at + 8 > frame.len() {
                step is None
            } else if bytes::word_at(frame, at, 8) == program[pc].value as nat {
                step == Some(
                    StepView { frame, effects, disposition: ResidentDisposition::Complete },
                )
            } else {
                step == resident_program::step_from(
                    program,
                    pc + 1,
                    frame,
                    effects,
                    previous,
                    max_effects,
                    max_frame,
                )
            }
        }),
{
}

/// Opcode 13 adds its value to the word at its argument, around 2^64, and changes no
/// other byte. The step goes on with that frame.
pub proof fn law_add_adds_to_the_word(
    program: Seq<ResidentInstruction>,
    pc: int,
    frame: Seq<u8>,
    added: Seq<u8>,
    effects: Seq<ResidentEffect>,
    previous: Seq<ResidentOutcome>,
    max_effects: int,
    max_frame: int,
)
    requires
        0 <= pc < program.len(),
        program[pc].opcode == 13,
        program[pc].argument + 8 <= frame.len(),
        word_replaced(
            frame,
            added,
            program[pc].argument as int,
            (bytes::word_at(frame, program[pc].argument as int, 8) + program[pc].value as nat)
                % 0x1_0000_0000_0000_0000nat,
        ),
    ensures
        resident_program::step_from(
            program,
            pc,
            frame,
            effects,
            previous,
            max_effects,
            max_frame,
        ) == resident_program::step_from(
            program,
            pc + 1,
            added,
            effects,
            previous,
            max_effects,
            max_frame,
        ),
{
    let at = program[pc].argument as int;
    let sum = (bytes::word_at(frame, at, 8) + program[pc].value as nat)
        % 0x1_0000_0000_0000_0000nat;
    let made = bytes::spliced(frame, at, bytes::le_bytes(sum, 8));
    lemma_word_replaced(frame, at, sum as u64);
    lemma_replaced_alike(frame, made, added, at, sum);
}

/// Opcode 5 puts its value in the word at its argument, and changes no other byte.
/// The step goes on with that frame.
pub proof fn law_store_immediate_replaces_the_word(
    program: Seq<ResidentInstruction>,
    pc: int,
    frame: Seq<u8>,
    stored: Seq<u8>,
    effects: Seq<ResidentEffect>,
    previous: Seq<ResidentOutcome>,
    max_effects: int,
    max_frame: int,
)
    requires
        0 <= pc < program.len(),
        program[pc].opcode == 5,
        program[pc].argument + 8 <= frame.len(),
        program[pc].argument + 8 <= max_frame,
        word_replaced(frame, stored, program[pc].argument as int, program[pc].value as nat),
    ensures
        resident_program::step_from(
            program,
            pc,
            frame,
            effects,
            previous,
            max_effects,
            max_frame,
        ) == resident_program::step_from(
            program,
            pc + 1,
            stored,
            effects,
            previous,
            max_effects,
            max_frame,
        ),
{
    let at = program[pc].argument as int;
    let value = program[pc].value;
    let made = bytes::spliced(frame, at, bytes::le_bytes(value as nat, 8));
    lemma_word_replaced(frame, at, value);
    lemma_replaced_alike(frame, made, stored, at, value as nat);
}

/// Outcome `k` carries `value`, and no later one carries any: it is what the last
/// value-bearing effect brought.
pub open spec fn is_last_value(previous: Seq<ResidentOutcome>, k: int, value: u64) -> bool {
    &&& 0 <= k < previous.len()
    &&& (previous[k] == ResidentOutcome::Resolved(value) || previous[k]
        == ResidentOutcome::ObjectRead(value) || (previous[k] matches ResidentOutcome::Received {
        value: brought,
        ..
    } && brought == value))
    &&& forall|j: int|
        k < j < previous.len() ==> !((#[trigger] previous[j]) is Resolved || previous[j] is ObjectRead
            || previous[j] is Received)
}

/// No outcome carries a value.
pub open spec fn has_no_value(previous: Seq<ResidentOutcome>) -> bool {
    forall|j: int|
        0 <= j < previous.len() ==> !((#[trigger] previous[j]) is Resolved || previous[j] is ObjectRead
            || previous[j] is Received)
}

/// The previous value is that of the last outcome which carries one.
pub proof fn law_the_previous_value_is_the_last_one(
    previous: Seq<ResidentOutcome>,
    k: int,
    value: u64,
)
    ensures
        is_last_value(previous, k, value) ==> resident_program::last_carried(previous) == Some(
            value,
        ),
        has_no_value(previous) ==> resident_program::last_carried(previous) is None,
    decreases previous.len(),
{
    if previous.len() > 0 {
        let shorter = previous.drop_last();
        assert(previous.last() == previous[previous.len() - 1]);
        if is_last_value(previous, k, value) && k < previous.len() - 1 {
            assert forall|j: int| k < j < shorter.len() implies !((#[trigger] shorter[j]) is Resolved
                || shorter[j] is ObjectRead || shorter[j] is Received) by {
                assert(shorter[j] == previous[j]);
            }
            assert(shorter[k] == previous[k]);
            assert(is_last_value(shorter, k, value));
        }
        if has_no_value(previous) {
            assert forall|j: int| 0 <= j < shorter.len() implies !((#[trigger] shorter[j]) is Resolved
                || shorter[j] is ObjectRead || shorter[j] is Received) by {
                assert(shorter[j] == previous[j]);
            }
            assert(has_no_value(shorter));
        }
        law_the_previous_value_is_the_last_one(shorter, k, value);
    }
}

/// Opcode 6 puts the previous value in the word at its argument, and changes no other
/// byte. Without a previous value there is no step.
pub proof fn law_store_previous_replaces_the_word(
    program: Seq<ResidentInstruction>,
    pc: int,
    frame: Seq<u8>,
    stored: Seq<u8>,
    effects: Seq<ResidentEffect>,
    previous: Seq<ResidentOutcome>,
    k: int,
    value: u64,
    max_effects: int,
    max_frame: int,
)
    requires
        0 <= pc < program.len(),
        program[pc].opcode == 6,
        program[pc].argument + 8 <= frame.len(),
        program[pc].argument + 8 <= max_frame,
    ensures
        is_last_value(previous, k, value) && word_replaced(
            frame,
            stored,
            program[pc].argument as int,
            value as nat,
        ) ==> resident_program::step_from(
            program,
            pc,
            frame,
            effects,
            previous,
            max_effects,
            max_frame,
        ) == resident_program::step_from(
            program,
            pc + 1,
            stored,
            effects,
            previous,
            max_effects,
            max_frame,
        ),
        has_no_value(previous) ==> resident_program::step_from(
            program,
            pc,
            frame,
            effects,
            previous,
            max_effects,
            max_frame,
        ) is None,
{
    law_the_previous_value_is_the_last_one(previous, k, value);
    let at = program[pc].argument as int;
    if is_last_value(previous, k, value) && word_replaced(frame, stored, at, value as nat) {
        let made = bytes::spliced(frame, at, bytes::le_bytes(value as nat, 8));
        lemma_word_replaced(frame, at, value);
        lemma_replaced_alike(frame, made, stored, at, value as nat);
    }
}

/// A frame access that leaves the frame has no step, and a store that leaves the
/// largest frame has none either.
pub proof fn law_frame_accesses_stay_in_the_frame(
    program: Seq<ResidentInstruction>,
    pc: int,
    frame: Seq<u8>,
    effects: Seq<ResidentEffect>,
    previous: Seq<ResidentOutcome>,
    max_effects: int,
    max_frame: int,
)
    requires
        0 <= pc < program.len(),
        ({
            let opcode = program[pc].opcode;
            let end = program[pc].argument + 8;
            ||| (opcode == 5 || opcode == 6 || opcode == 13 || opcode == 14) && end > frame.len()
            ||| (opcode == 5 || opcode == 6) && end > max_frame
        }),
    ensures
        resident_program::step_from(
            program,
            pc,
            frame,
            effects,
            previous,
            max_effects,
            max_frame,
        ) is None,
{
}

/// Opcode 7 goes on where the previous value equals its own value, and otherwise
/// passes over as many instructions as its argument says.
pub proof fn law_skip_passes_over_where_the_value_differs(
    program: Seq<ResidentInstruction>,
    pc: int,
    frame: Seq<u8>,
    effects: Seq<ResidentEffect>,
    previous: Seq<ResidentOutcome>,
    k: int,
    value: u64,
    max_effects: int,
    max_frame: int,
)
    requires
        0 <= pc < program.len(),
        program[pc].opcode == 7,
        is_last_value(previous, k, value) || has_no_value(previous),
    ensures
        ({
            let step = resident_program::step_from(
                program,
                pc,
                frame,
                effects,
                previous,
                max_effects,
                max_frame,
            );
            let to = if is_last_value(previous, k, value) && value == program[pc].value {
                pc + 1
            } else {
                pc + 1 + program[pc].argument
            };
            step == resident_program::step_from(
                program,
                to,
                frame,
                effects,
                previous,
                max_effects,
                max_frame,
            )
        }),
{
    law_the_previous_value_is_the_last_one(previous, k, value);
}

/// Opcode 8 ends the step in a yield to the run class that is its argument, and
/// opcode 9 in completion. Frame and effects are what they were.
pub proof fn law_yield_and_complete_end_the_step(
    program: Seq<ResidentInstruction>,
    pc: int,
    frame: Seq<u8>,
    effects: Seq<ResidentEffect>,
    previous: Seq<ResidentOutcome>,
    max_effects: int,
    max_frame: int,
)
    requires
        0 <= pc < program.len(),
        program[pc].opcode == 8 || program[pc].opcode == 9,
    ensures
        resident_program::step_from(
            program,
            pc,
            frame,
            effects,
            previous,
            max_effects,
            max_frame,
        ) == Some(
            StepView {
                frame,
                effects,
                disposition: if program[pc].opcode == 8 {
                    ResidentDisposition::Yield(program[pc].argument)
                } else {
                    ResidentDisposition::Complete
                },
            },
        ),
{
}

/// An effect instruction emits its one effect behind the earlier ones, where the step
/// may have another, and the frame stays as it is.
pub proof fn law_effect_instructions_emit_their_effect(
    program: Seq<ResidentInstruction>,
    pc: int,
    frame: Seq<u8>,
    effects: Seq<ResidentEffect>,
    previous: Seq<ResidentOutcome>,
    max_effects: int,
    max_frame: int,
)
    requires
        0 <= pc < program.len(),
        ({
            let opcode = program[pc].opcode;
            1 <= opcode <= 4 || 10 <= opcode <= 12
        }),
    ensures
        ({
            let i = program[pc];
            let step = resident_program::step_from(
                program,
                pc,
                frame,
                effects,
                previous,
                max_effects,
                max_frame,
            );
            let effect = if i.opcode == 1 {
                ResidentEffect::FutureAwait { target: i.argument }
            } else if i.opcode == 2 {
                ResidentEffect::FutureResolve { target: i.argument, value: i.value }
            } else if i.opcode == 3 {
                ResidentEffect::MailboxSend { target: i.argument, value: i.value }
            } else if i.opcode == 4 {
                ResidentEffect::MailboxReceive { target: i.argument }
            } else if i.opcode == 10 {
                ResidentEffect::FutureObserve { target: i.argument }
            } else if i.opcode == 11 {
                ResidentEffect::ObjectRead { target: i.target, offset: i.argument }
            } else {
                ResidentEffect::ObjectWrite {
                    target: i.target,
                    offset: i.argument,
                    value: i.value,
                }
            };
            if effects.len() >= max_effects {
                step is None
            } else {
                step == resident_program::step_from(
                    program,
                    pc + 1,
                    frame,
                    effects.push(effect),
                    previous,
                    max_effects,
                    max_frame,
                )
            }
        }),
{
}

/// A counting handler: it adds to its counter, completes where the counter has
/// arrived, and yields otherwise.
pub open spec fn is_counter(program: Seq<ResidentInstruction>, at: u32, by: u64, end: u64, class: u32) -> bool {
    &&& program.len() == 3
    &&& program[0].opcode == 13 && program[0].argument == at && program[0].value == by
    &&& program[1].opcode == 14 && program[1].argument == at && program[1].value == end
    &&& program[2].opcode == 8 && program[2].argument == class
}

/// One step of a counting handler counts once, emits nothing, completes exactly
/// where the counter has arrived, and otherwise yields.
pub proof fn law_a_counter_counts_and_stops(
    program: Seq<ResidentInstruction>,
    at: u32,
    by: u64,
    end: u64,
    class: u32,
    frame: Seq<u8>,
    previous: Seq<ResidentOutcome>,
    max_effects: int,
    max_frame: int,
)
    requires
        is_counter(program, at, by, end, class),
        at + 8 <= frame.len(),
    ensures
        ({
            let counted = (bytes::word_at(frame, at as int, 8) + by as nat)
                % 0x1_0000_0000_0000_0000nat;
            &&& resident_program::program_step(
                program,
                frame,
                previous,
                max_effects,
                max_frame,
            ) matches Some(step)
            &&& step.effects.len() == 0
            &&& word_replaced(frame, step.frame, at as int, counted)
            &&& counted == end as nat ==> step.disposition == ResidentDisposition::Complete
            &&& counted != end as nat ==> step.disposition == ResidentDisposition::Yield(class)
        }),
{
    let counted = (bytes::word_at(frame, at as int, 8) + by as nat) % 0x1_0000_0000_0000_0000nat;
    let after = bytes::spliced(frame, at as int, bytes::le_bytes(counted, 8));
    lemma_word_replaced(frame, at as int, counted as u64);
    law_a_step_starts_at_the_first_instruction(program, frame, previous, max_effects, max_frame);
    law_add_adds_to_the_word(
        program,
        0,
        frame,
        after,
        Seq::empty(),
        previous,
        max_effects,
        max_frame,
    );
    law_complete_if_completes_where_the_word_is_equal(
        program,
        1,
        after,
        Seq::empty(),
        previous,
        max_effects,
        max_frame,
    );
    law_yield_and_complete_end_the_step(
        program,
        2,
        after,
        Seq::empty(),
        previous,
        max_effects,
        max_frame,
    );
}

/// A handler that is accepted has at most 256 instructions, parks in at most one
/// place, and starts with an instruction that stays within the plan's bounds.
pub proof fn law_an_accepted_handler_is_bounded(
    program: Seq<ResidentInstruction>,
    max_effects: int,
    max_frame: int,
    i: int,
    j: int,
)
    requires
        resident_program::program_is_valid(program, max_effects, max_frame),
        0 <= i < j < program.len(),
    ensures
        2 <= program.len() <= 256,
        ({
            let a = program[i].opcode;
            let b = program[j].opcode;
            !((a == 1 || a == 3 || a == 4) && (b == 1 || b == 3 || b == 4))
        }),
{
    let a = program[i].opcode;
    let b = program[j].opcode;
    if (a == 1 || a == 3 || a == 4) && (b == 1 || b == 3 || b == 4) {
        assert(resident_program::is_blocking(a) && resident_program::is_blocking(b));
    }
}

/// Which handlers are accepted, instruction by instruction: an effect needs room for
/// it, a frame access needs the largest frame to reach, a skip needs both ways to be
/// bounded, a yield and a completion end the path, and nothing else may stand there.
pub proof fn law_paths_are_bounded_by_their_instructions(
    program: Seq<ResidentInstruction>,
    pc: int,
    effects: int,
    max_effects: int,
    max_frame: int,
)
    ensures
        ({
            let ok = resident_program::paths_are_bounded(
                program,
                pc,
                effects,
                max_effects,
                max_frame,
            );
            if !(0 <= pc < program.len()) {
                !ok
            } else {
                let i = program[pc];
                if 1 <= i.opcode <= 4 || 10 <= i.opcode <= 12 {
                    ok == (effects < max_effects && resident_program::paths_are_bounded(
                        program,
                        pc + 1,
                        effects + 1,
                        max_effects,
                        max_frame,
                    ))
                } else if i.opcode == 5 || i.opcode == 6 || i.opcode == 13 || i.opcode == 14 {
                    ok == (i.argument + 8 <= max_frame && resident_program::paths_are_bounded(
                        program,
                        pc + 1,
                        effects,
                        max_effects,
                        max_frame,
                    ))
                } else if i.opcode == 7 {
                    ok == (resident_program::paths_are_bounded(
                        program,
                        pc + 1,
                        effects,
                        max_effects,
                        max_frame,
                    ) && resident_program::paths_are_bounded(
                        program,
                        pc + 1 + i.argument,
                        effects,
                        max_effects,
                        max_frame,
                    ))
                } else {
                    ok == (i.opcode == 8 || i.opcode == 9)
                }
            }
        }),
{
}

} // verus!
