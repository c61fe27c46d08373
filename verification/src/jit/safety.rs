//! The listing that a program is lowered to keeps to the tape on every run,
//! whether the run comes to rest or not.

use vstd::prelude::*;
use crate::interpreter::machine::{Machine, Session};
use crate::parser::instruction::Instruction;
use crate::parser::nesting::{
    lemma_head_pairs, lemma_open_heads, lemma_tail_pairs, loops_well_nested,
};
use super::cpu::{lemma_reduce, lemma_wrap_sequence};
use super::faithful::{lemma_scaled, lemma_then_step, lemma_wrap_on_registers, linked};
use super::listing::{assemble_program, listing_fits, reduce, wrap_sequence, Asm, Reg};
use super::placing::{
    is_single, lemma_placed_frame, lemma_placed_head, lemma_placed_move, lemma_placed_scan,
    lemma_placed_single, lemma_placed_tail, lemma_placed_transfer, lemma_placed_within,
};
use super::running::{
    lemma_core_run_split, lemma_run_registers, lemma_sound_join, Core, Noise,
};

verus! {

/// A state at rest that is sound stays sound however long it is run.
proof fn lemma_rest_is_sound(c: Core, listing: Seq<Asm>, input: Seq<u8>, noise: Noise, steps: nat)
    requires
        c.at_rest(listing, input),
        c.sound(listing),
    ensures
        c.sound_for(listing, input, noise, steps),
{
    assert forall|j: nat| j < steps implies (#[trigger] c.run(listing, input, noise, j)).sound(
        listing,
    ) by {
        assert(c.run(listing, input, noise, j) == c);
    }
}

/// A run that is sound for some steps, and sound from the state reached
/// then for the steps that are left, is sound for all of them.
proof fn lemma_sound_on(
    c: Core,
    listing: Seq<Asm>,
    input: Seq<u8>,
    noise: Noise,
    done: nat,
    rest: nat,
    steps: nat,
)
    requires
        c.sound_for(listing, input, noise, done),
        c.run(listing, input, noise, done).sound_for(listing, input, noise, rest),
        steps <= done + rest,
    ensures
        c.sound_for(listing, input, noise, steps),
{
    lemma_sound_join(c, listing, input, noise, done, rest);
}

/// From linked states the listing is sound for every number of steps.
#[verifier::rlimit(40)]
pub(crate) proof fn lemma_listing_keeps(
    ir: Seq<Instruction>,
    length: u32,
    input: Seq<u8>,
    noise: Noise,
    s: Session,
    c: Core,
    steps: nat,
)
    requires
        loops_well_nested(ir),
        listing_fits(ir, length),
        0 < length <= 0x4000_0000,
        linked(ir, length, s, c),
    ensures
        c.sound_for(assemble_program(ir, length), input, noise, steps),
    decreases steps, ir.len() - s.machine.cursor,
{
    let listing = assemble_program(ir, length);
    let i = s.machine.cursor;
    lemma_placed_frame(ir, length);
    lemma_placed_within(ir, i, length);
    if steps == 0 {
        return ;
    }
    if i == ir.len() {
        lemma_rest_is_sound(c, listing, input, noise, steps);
        return ;
    }
    lemma_placed_within(ir, i + 1, length);
    let instruction = ir[i];
    let pointer = s.machine.pointer;
    let s1 = s.step(ir, input);
    if is_single(instruction) {
        lemma_placed_single(ir, i, length);
        if s.at_rest(ir, input) {
            lemma_rest_is_sound(c, listing, input, noise, steps);
            return ;
        }
        lemma_then_step(c, listing, input, noise, 0);
        let c1 = c.run(listing, input, noise, 1);
        assert(linked(ir, length, s1, c1));
        lemma_listing_keeps(ir, length, input, noise, s1, c1, (steps - 1) as nat);
        lemma_sound_on(c, listing, input, noise, 1, (steps - 1) as nat, steps);
    } else {
        match instruction {
            Instruction::Move(delta) => {
                let reduced = reduce(delta, length);
                let entries = wrap_sequence(Reg::Pointer, Reg::Eax, reduced, length);
                let w = entries.len();
                lemma_placed_move(ir, i, length);
                lemma_wrap_on_registers(Reg::Pointer, Reg::Eax, reduced, length);
                lemma_run_registers(c, listing, input, noise, entries, w as int);
                lemma_reduce(pointer, delta, length);
                lemma_wrap_sequence(c.cpu, Reg::Pointer, Reg::Eax, reduced, length);
                let c1 = c.run(listing, input, noise, w);
                assert(linked(ir, length, s1, c1));
                let rest = if steps >= w {
                    (steps - w) as nat
                } else {
                    0
                };
                lemma_listing_keeps(ir, length, input, noise, s1, c1, rest);
                lemma_sound_on(c, listing, input, noise, w, rest, steps);
            },
            Instruction::Multiply(offset, factor) => {
                let reduced = reduce(offset, length);
                let entries = wrap_sequence(Reg::Eax, Reg::Ecx, reduced, length);
                let w = entries.len();
                lemma_placed_transfer(ir, i, length);
                lemma_wrap_on_registers(Reg::Eax, Reg::Ecx, reduced, length);
                lemma_run_registers(c, listing, input, noise, entries, w as int);
                lemma_reduce(pointer, offset, length);
                lemma_wrap_sequence(c.cpu, Reg::Eax, Reg::Ecx, reduced, length);
                lemma_scaled(s.machine.cell(), factor);
                lemma_then_step(c, listing, input, noise, w);
                lemma_then_step(c, listing, input, noise, w + 1);
                lemma_then_step(c, listing, input, noise, w + 2);
                lemma_then_step(c, listing, input, noise, w + 3);
                let c1 = c.run(listing, input, noise, w + 4);
                assert(linked(ir, length, s1, c1));
                let rest = if steps >= w + 4 {
                    (steps - w - 4) as nat
                } else {
                    0
                };
                lemma_listing_keeps(ir, length, input, noise, s1, c1, rest);
                lemma_sound_on(c, listing, input, noise, w + 4, rest, steps);
            },
            Instruction::JumpIfZero(_) | Instruction::JumpIfNotZero(_) => {
                if instruction is JumpIfZero {
                    let target = instruction->JumpIfZero_0;
                    lemma_placed_head(ir, i, length);
                    lemma_head_pairs(ir, i);
                    lemma_open_heads(ir, target as int);
                    lemma_placed_tail(ir, target as int, length);
                    lemma_placed_within(ir, target as int + 1, length);
                } else {
                    let head = instruction->JumpIfNotZero_0;
                    lemma_open_heads(ir, i);
                    lemma_placed_tail(ir, i, length);
                    lemma_tail_pairs(ir, i);
                    lemma_placed_head(ir, head as int, length);
                    lemma_placed_within(ir, head as int + 1, length);
                }
                lemma_then_step(c, listing, input, noise, 0);
                lemma_then_step(c, listing, input, noise, 1);
                let c1 = c.run(listing, input, noise, 2);
                assert(linked(ir, length, s1, c1));
                let rest = if steps >= 2 {
                    (steps - 2) as nat
                } else {
                    0
                };
                lemma_listing_keeps(ir, length, input, noise, s1, c1, rest);
                lemma_sound_on(c, listing, input, noise, 2, rest, steps);
            },
            _ => {
                let stride = instruction->MoveUntilZero_0;
                let reduced = reduce(stride, length);
                let entries = wrap_sequence(Reg::Pointer, Reg::Eax, reduced, length);
                let w = entries.len();
                lemma_placed_scan(ir, i, length);
                lemma_then_step(c, listing, input, noise, 0);
                lemma_then_step(c, listing, input, noise, 1);
                let c2 = c.run(listing, input, noise, 2);
                if s.machine.cell() == 0 {
                    lemma_then_step(c, listing, input, noise, 2);
                    let c1 = c.run(listing, input, noise, 3);
                    assert(linked(ir, length, s1, c1));
                    let rest = if steps >= 3 {
                        (steps - 3) as nat
                    } else {
                        0
                    };
                    lemma_listing_keeps(ir, length, input, noise, s1, c1, rest);
                    lemma_sound_on(c, listing, input, noise, 3, rest, steps);
                } else {
                    lemma_wrap_on_registers(Reg::Pointer, Reg::Eax, reduced, length);
                    lemma_run_registers(c2, listing, input, noise, entries, w as int);
                    lemma_reduce(pointer, stride, length);
                    lemma_wrap_sequence(c2.cpu, Reg::Pointer, Reg::Eax, reduced, length);
                    lemma_core_run_split(c, listing, input, noise, 2, w);
                    lemma_sound_join(c, listing, input, noise, 2, w);
                    lemma_then_step(c, listing, input, noise, 2 + w);
                    let c1 = c.run(listing, input, noise, 2 + w + 1);
                    assert(linked(ir, length, s1, c1));
                    let rest = if steps >= 3 + w {
                        (steps - 3 - w) as nat
                    } else {
                        0
                    };
                    lemma_listing_keeps(ir, length, input, noise, s1, c1, rest);
                    lemma_sound_on(c, listing, input, noise, 3 + w, rest, steps);
                }
            },
        }
    }
}

/// The listing keeps to the tape. Take a program whose loops are well
/// nested, as every parsed program is, a tape of the length that the program
/// was lowered for, any input, and any values of the scratch registers and
/// flags. However many steps the listing is run from its first entry, and
/// whether it ever comes to rest or not, every entry that it executes is one
/// of the listing, and every cell that it reads or writes is one of the
/// tape.
pub proof fn lemma_listing_keeps_to_tape(
    ir: Seq<Instruction>,
    length: u32,
    input: Seq<u8>,
    noise: Noise,
    start: Core,
    steps: nat,
)
    requires
        loops_well_nested(ir),
        listing_fits(ir, length),
        0 < length <= 0x4000_0000,
        start.tape.len() == length,
        start.at == 0,
    ensures
        start.sound_for(assemble_program(ir, length), input, noise, steps),
{
    let listing = assemble_program(ir, length);
    lemma_placed_frame(ir, length);
    if steps > 0 {
        let session = Session {
            machine: Machine { tape: start.tape, pointer: 0, cursor: 0 },
            consumed: start.consumed,
            output: start.output,
        };
        assert forall|j: nat| j < 0 implies (#[trigger] start.run(listing, input, noise, j)).sound(
            listing,
        ) by {}
        lemma_then_step(start, listing, input, noise, 0);
        let entered = start.run(listing, input, noise, 1);
        assert(linked(ir, length, session, entered));
        lemma_listing_keeps(ir, length, input, noise, session, entered, (steps - 1) as nat);
        lemma_sound_on(start, listing, input, noise, 1, (steps - 1) as nat, steps);
    }
}

} // verus!
