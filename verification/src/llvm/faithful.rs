//! The blocks that a program is lowered to do what the interpreter does:
//! whenever the interpreter comes to rest on a program, the function of
//! basic blocks comes to rest in the same state.

use vstd::prelude::*;
use vstd::arithmetic::div_mod::{lemma_add_mod_noop_right, lemma_mod_bound};
use crate::interpreter::machine::{Machine, Session};
use crate::parser::instruction::Instruction;
use crate::parser::nesting::{
    lemma_head_pairs,
    lemma_open_heads,
    lemma_tail_pairs,
    loops_well_nested,
};
use super::blocks::{lower_program, offset_on, BlockView};
use super::placing::{
    first_block,
    is_op,
    lemma_placed_end,
    lemma_placed_head,
    lemma_placed_op,
    lemma_placed_scan,
    lemma_placed_tail,
    lowering_fits,
    place,
};
use super::running::{lemma_frame_step_then_run, Frame};

verus! {

/// The frame has the tape, the pointer and the streams of the session.
pub open spec fn same_state(s: Session, f: Frame) -> bool {
    &&& f.tape == s.machine.tape
    &&& f.pointer == s.machine.pointer
    &&& f.consumed == s.consumed
    &&& f.output == s.output
}

/// The frame is where the lowering put the instruction under the cursor of
/// the session, or behind the move in the body of the loop that a
/// `MoveUntilZero` under the cursor was lowered to, and has the same tape,
/// pointer and streams.
pub open spec fn linked(ir: Seq<Instruction>, length: u64, s: Session, f: Frame) -> bool {
    let i = s.machine.cursor;
    &&& 0 <= i <= ir.len()
    &&& same_state(s, f)
    &&& 0 <= f.pointer < f.tape.len()
    &&& f.tape.len() == length
    &&& ((f.block, f.at) == place(ir, i, length) || (i < ir.len() && ir[i] is MoveUntilZero && (
    f.block,
    f.at,
    ) == (first_block(ir, i, length) + 1, 1int)))
}

/// Session and frame are at rest for the same reason in the same state.
pub open spec fn alike(
    ir: Seq<Instruction>,
    blocks: Seq<BlockView>,
    input: Seq<u8>,
    s: Session,
    f: Frame,
) -> bool {
    &&& s.at_rest(ir, input)
    &&& f.at_rest(blocks, input)
    &&& same_state(s, f)
    &&& s.stop(ir, input) == f.stop(blocks, input)
}

/// An offset reduced to the tape leads to the same cell.
proof fn lemma_offset_on(pointer: int, delta: isize, length: u64)
    requires
        0 < length,
        0 <= pointer < length,
    ensures
        (pointer + offset_on(delta, length)) % (length as int) == (pointer + delta) % (
        length as int),
        0 <= (pointer + delta) % (length as int) < length,
{
    lemma_mod_bound(delta as int, length as int);
    lemma_add_mod_noop_right(pointer, delta as int, length as int);
    lemma_mod_bound(pointer + delta, length as int);
}

/// From linked states: if the interpreter comes to rest within `steps`
/// steps, the function comes to rest within the number of steps returned,
/// in the same state.
pub(crate) proof fn lemma_blocks_follow(
    ir: Seq<Instruction>,
    length: u64,
    input: Seq<u8>,
    s: Session,
    f: Frame,
    steps: nat,
) -> (matching: nat)
    requires
        loops_well_nested(ir),
        lowering_fits(ir, length),
        0 < length,
        linked(ir, length, s, f),
        s.run(ir, input, steps).at_rest(ir, input),
    ensures
        alike(
            ir,
            lower_program(ir, length),
            input,
            s.run(ir, input, steps),
            f.run(lower_program(ir, length), input, matching),
        ),
    decreases steps,
{
    let blocks = lower_program(ir, length);
    let i = s.machine.cursor;
    if i == ir.len() {
        lemma_placed_end(ir, length);
        return 0;
    }
    let instruction = ir[i];
    if is_op(instruction) {
        lemma_placed_op(ir, i, length);
        if s.at_rest(ir, input) {
            return 0;
        }
        let s1 = s.step(ir, input);
        let f1 = f.step(blocks, input);
        match instruction {
            Instruction::Move(delta) => {
                lemma_offset_on(s.machine.pointer, delta, length);
            },
            Instruction::Multiply(offset, _) => {
                lemma_offset_on(s.machine.pointer, offset, length);
            },
            _ => {},
        }
        assert(linked(ir, length, s1, f1));
        let more = lemma_blocks_follow(ir, length, input, s1, f1, (steps - 1) as nat);
        lemma_frame_step_then_run(f, blocks, input, more);
        more + 1
    } else {
        let s1 = s.step(ir, input);
        let f1 = f.step(blocks, input);
        let f2 = f1.step(blocks, input);
        match instruction {
            Instruction::JumpIfZero(target) => {
                lemma_placed_head(ir, i, length);
                lemma_head_pairs(ir, i);
                if s.machine.cell() == 0 {
                    lemma_open_heads(ir, target as int);
                    lemma_placed_tail(ir, target as int, length);
                }
                assert(linked(ir, length, s1, f2));
                let more = lemma_blocks_follow(ir, length, input, s1, f2, (steps - 1) as nat);
                lemma_frame_step_then_run(f1, blocks, input, more);
                lemma_frame_step_then_run(f, blocks, input, more + 1);
                more + 2
            },
            Instruction::JumpIfNotZero(head) => {
                lemma_open_heads(ir, i);
                lemma_placed_tail(ir, i, length);
                lemma_tail_pairs(ir, i);
                lemma_placed_head(ir, head as int, length);
                assert(linked(ir, length, s1, f2));
                let more = lemma_blocks_follow(ir, length, input, s1, f2, (steps - 1) as nat);
                lemma_frame_step_then_run(f1, blocks, input, more);
                lemma_frame_step_then_run(f, blocks, input, more + 1);
                more + 2
            },
            _ => {
                let stride = instruction->MoveUntilZero_0;
                lemma_placed_scan(ir, i, length);
                if s.machine.cell() == 0 {
                    assert(linked(ir, length, s1, f2));
                    let more = lemma_blocks_follow(ir, length, input, s1, f2, (steps - 1) as nat);
                    lemma_frame_step_then_run(f1, blocks, input, more);
                    lemma_frame_step_then_run(f, blocks, input, more + 1);
                    more + 2
                } else {
                    let f3 = f2.step(blocks, input);
                    lemma_offset_on(s.machine.pointer, stride, length);
                    assert(linked(ir, length, s1, f3));
                    let more = lemma_blocks_follow(ir, length, input, s1, f3, (steps - 1) as nat);
                    lemma_frame_step_then_run(f2, blocks, input, more);
                    lemma_frame_step_then_run(f1, blocks, input, more + 1);
                    lemma_frame_step_then_run(f, blocks, input, more + 2);
                    more + 3
                }
            },
        }
    }
}

/// The frame at the entry of a function, on a tape, with nothing read and
/// nothing written.
pub open spec fn entry_frame(tape: Seq<u8>, pointer: int) -> Frame {
    Frame { tape, pointer, block: 0, at: 0, consumed: 0, output: Seq::empty() }
}

/// The lowering is faithful. Take a program whose loops are well nested,
/// as every parsed program is, a tape of the length that the program was
/// lowered for with the pointer on it, and an input. If the interpreter
/// comes to rest within `steps` steps, because the program has ended or
/// because it asks for input that is not there, then the function of basic
/// blocks, run from its entry, comes to rest within the number of steps
/// returned, for the same reason, with the same tape, the same pointer, the
/// same output, and as much input read.
pub proof fn lemma_lowering_is_faithful(
    ir: Seq<Instruction>,
    length: u64,
    input: Seq<u8>,
    tape: Seq<u8>,
    pointer: int,
    steps: nat,
) -> (matching: nat)
    requires
        loops_well_nested(ir),
        lowering_fits(ir, length),
        0 < length,
        tape.len() == length,
        0 <= pointer < length,
        (Session {
            machine: Machine { tape, pointer, cursor: 0 },
            consumed: 0,
            output: Seq::empty(),
        }).run(ir, input, steps).at_rest(ir, input),
    ensures
        ({
            let blocks = lower_program(ir, length);
            let session = (Session {
                machine: Machine { tape, pointer, cursor: 0 },
                consumed: 0,
                output: Seq::empty(),
            }).run(ir, input, steps);
            let frame = entry_frame(tape, pointer).run(blocks, input, matching);
            &&& frame.at_rest(blocks, input)
            &&& frame.stop(blocks, input) == session.stop(ir, input)
            &&& frame.tape == session.machine.tape
            &&& frame.pointer == session.machine.pointer
            &&& frame.output == session.output
            &&& frame.consumed == session.consumed
        }),
{
    let session = Session {
        machine: Machine { tape, pointer, cursor: 0 },
        consumed: 0,
        output: Seq::empty(),
    };
    lemma_blocks_follow(ir, length, input, session, entry_frame(tape, pointer), steps)
}

/// A frame that is not at rest but comes to rest takes its next step
/// first.
proof fn lemma_frame_take_step(f: Frame, blocks: Seq<BlockView>, input: Seq<u8>, steps: nat)
    requires
        !f.at_rest(blocks, input),
        f.run(blocks, input, steps).at_rest(blocks, input),
    ensures
        steps >= 1,
        f.run(blocks, input, steps) == f.step(blocks, input).run(
            blocks,
            input,
            (steps - 1) as nat,
        ),
{
}

/// From linked states: if the function comes to rest within `steps` steps,
/// the interpreter comes to rest within the number of steps returned, in
/// the same state.
pub(crate) proof fn lemma_blocks_lead(
    ir: Seq<Instruction>,
    length: u64,
    input: Seq<u8>,
    s: Session,
    f: Frame,
    steps: nat,
) -> (matching: nat)
    requires
        loops_well_nested(ir),
        lowering_fits(ir, length),
        0 < length,
        linked(ir, length, s, f),
        f.run(lower_program(ir, length), input, steps).at_rest(lower_program(ir, length), input),
    ensures
        alike(
            ir,
            lower_program(ir, length),
            input,
            s.run(ir, input, matching),
            f.run(lower_program(ir, length), input, steps),
        ),
    decreases steps,
{
    let blocks = lower_program(ir, length);
    let i = s.machine.cursor;
    if i == ir.len() {
        lemma_placed_end(ir, length);
        return 0;
    }
    let instruction = ir[i];
    let s1 = s.step(ir, input);
    if is_op(instruction) {
        lemma_placed_op(ir, i, length);
        if s.at_rest(ir, input) {
            return 0;
        }
        lemma_frame_take_step(f, blocks, input, steps);
        let f1 = f.step(blocks, input);
        match instruction {
            Instruction::Move(delta) => {
                lemma_offset_on(s.machine.pointer, delta, length);
            },
            Instruction::Multiply(offset, _) => {
                lemma_offset_on(s.machine.pointer, offset, length);
            },
            _ => {},
        }
        assert(linked(ir, length, s1, f1));
        let more = lemma_blocks_lead(ir, length, input, s1, f1, (steps - 1) as nat);
        more + 1
    } else {
        match instruction {
            Instruction::JumpIfZero(target) => {
                lemma_placed_head(ir, i, length);
                lemma_head_pairs(ir, i);
                if s.machine.cell() == 0 {
                    lemma_open_heads(ir, target as int);
                    lemma_placed_tail(ir, target as int, length);
                }
            },
            Instruction::JumpIfNotZero(head) => {
                lemma_open_heads(ir, i);
                lemma_placed_tail(ir, i, length);
                lemma_tail_pairs(ir, i);
                lemma_placed_head(ir, head as int, length);
            },
            _ => {
                lemma_placed_scan(ir, i, length);
            },
        }
        lemma_frame_take_step(f, blocks, input, steps);
        let f1 = f.step(blocks, input);
        lemma_frame_take_step(f1, blocks, input, (steps - 1) as nat);
        let f2 = f1.step(blocks, input);
        if instruction is MoveUntilZero && s.machine.cell() != 0 {
            lemma_frame_take_step(f2, blocks, input, (steps - 2) as nat);
            let f3 = f2.step(blocks, input);
            lemma_offset_on(s.machine.pointer, instruction->MoveUntilZero_0, length);
            assert(linked(ir, length, s1, f3));
            let more = lemma_blocks_lead(ir, length, input, s1, f3, (steps - 3) as nat);
            more + 1
        } else {
            assert(linked(ir, length, s1, f2));
            let more = lemma_blocks_lead(ir, length, input, s1, f2, (steps - 2) as nat);
            more + 1
        }
    }
}

/// The lowering adds no behaviour. Take a program whose loops are well
/// nested, a tape of the length that the program was lowered for with the
/// pointer on it, and an input. If the function of basic blocks, run from
/// its entry, comes to rest within `steps` steps, then the interpreter comes
/// to rest within the number of steps returned, for the same reason, with
/// the same tape, the same pointer, the same output, and as much input
/// read.
pub proof fn lemma_lowering_adds_nothing(
    ir: Seq<Instruction>,
    length: u64,
    input: Seq<u8>,
    tape: Seq<u8>,
    pointer: int,
    steps: nat,
) -> (matching: nat)
    requires
        loops_well_nested(ir),
        lowering_fits(ir, length),
        0 < length,
        tape.len() == length,
        0 <= pointer < length,
        entry_frame(tape, pointer).run(lower_program(ir, length), input, steps).at_rest(
            lower_program(ir, length),
            input,
        ),
    ensures
        ({
            let blocks = lower_program(ir, length);
            let session = (Session {
                machine: Machine { tape, pointer, cursor: 0 },
                consumed: 0,
                output: Seq::empty(),
            }).run(ir, input, matching);
            let frame = entry_frame(tape, pointer).run(blocks, input, steps);
            &&& session.at_rest(ir, input)
            &&& frame.stop(blocks, input) == session.stop(ir, input)
            &&& frame.tape == session.machine.tape
            &&& frame.pointer == session.machine.pointer
            &&& frame.output == session.output
            &&& frame.consumed == session.consumed
        }),
{
    let session = Session {
        machine: Machine { tape, pointer, cursor: 0 },
        consumed: 0,
        output: Seq::empty(),
    };
    lemma_blocks_lead(ir, length, input, session, entry_frame(tape, pointer), steps)
}

} // verus!
