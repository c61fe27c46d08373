//! The listing that a program is lowered to does what the interpreter
//! does, and touches no cell outside the tape: whenever the interpreter
//! comes to rest on a program, the listing comes to rest in the same state.

use vstd::prelude::*;
use vstd::arithmetic::div_mod::lemma_mod_bound;
use crate::interpreter::machine::{Machine, Session};
use crate::parser::instruction::Instruction;
use crate::parser::nesting::{
    lemma_head_pairs,
    lemma_open_heads,
    lemma_tail_pairs,
    loops_well_nested,
};
use super::cpu::{lemma_low32, lemma_reduce, lemma_wrap_sequence, low32};
use super::listing::{assemble_program, listing_fits, reduce, wrap_sequence, Asm, Reg};
use super::placing::{
    is_single,
    lemma_placed_frame,
    lemma_placed_head,
    lemma_placed_move,
    lemma_placed_scan,
    lemma_placed_single,
    lemma_placed_tail,
    lemma_placed_transfer,
    lemma_placed_within,
    starts_at,
};
use super::running::{
    lemma_core_one_step, lemma_core_run_split, lemma_core_run_through, lemma_core_take_step,
    lemma_run_registers, lemma_sound_join, low8, on_registers, Core, Noise,
};

verus! {

/// The core has the tape, the pointer and the streams of the session.
pub open spec fn same_state(s: Session, c: Core) -> bool {
    &&& c.tape == s.machine.tape
    &&& c.cpu.pointer == s.machine.pointer
    &&& c.consumed == s.consumed
    &&& c.output == s.output
}

/// The core is at the first entry made for the instruction under the
/// cursor of the session, and has the same tape, pointer and streams. The
/// scratch registers and the flags may hold anything.
pub open spec fn linked(ir: Seq<Instruction>, length: u32, s: Session, c: Core) -> bool {
    &&& 0 <= s.machine.cursor <= ir.len()
    &&& same_state(s, c)
    &&& 0 <= c.cpu.pointer < c.tape.len()
    &&& c.tape.len() == length
    &&& c.at == starts_at(ir, s.machine.cursor, length)
}

/// Session and core are at rest for the same reason in the same state.
pub open spec fn alike(
    ir: Seq<Instruction>,
    listing: Seq<Asm>,
    input: Seq<u8>,
    s: Session,
    c: Core,
) -> bool {
    &&& s.at_rest(ir, input)
    &&& c.at_rest(listing, input)
    &&& c.sound(listing)
    &&& same_state(s, c)
    &&& s.stop(ir, input) == c.stop(listing, input)
}

/// The sequence that displaces a pointer only uses registers.
pub(crate) proof fn lemma_wrap_on_registers(dst: Reg, probe: Reg, delta: i32, length: u32)
    ensures
        forall|j: int|
            0 <= j < wrap_sequence(dst, probe, delta, length).len() ==> on_registers(
                #[trigger] wrap_sequence(dst, probe, delta, length)[j],
            ),
        wrap_sequence(dst, probe, delta, length).len() <= 4,
{
}

/// The lowest byte of a scaled cell is the product modulo 256.
pub(crate) proof fn lemma_scaled(cell: u8, factor: u8)
    ensures
        low8(low32(cell * factor)) == cell.wrapping_mul(factor),
{
    let product = (cell as int) * (factor as int);
    assert(0 <= product <= 255 * 255) by (nonlinear_arith)
        requires
            product == (cell as int) * (factor as int),
            0 <= cell as int <= 255,
            0 <= factor as int <= 255,
    ;
    lemma_low32(product);
    lemma_mod_bound(product, 256);
}

/// One more step at the end of a run that is sound so far.
pub(crate) proof fn lemma_then_step(c: Core, listing: Seq<Asm>, input: Seq<u8>, noise: Noise, steps: nat)
    requires
        c.sound_for(listing, input, noise, steps),
        c.run(listing, input, noise, steps).sound(listing),
        !c.run(listing, input, noise, steps).at_rest(listing, input),
    ensures
        c.run(listing, input, noise, steps + 1) == c.run(listing, input, noise, steps).step(
            listing,
            input,
            noise,
        ),
        c.sound_for(listing, input, noise, steps + 1),
{
    let mid = c.run(listing, input, noise, steps);
    lemma_core_one_step(mid, listing, input, noise);
    lemma_core_run_split(c, listing, input, noise, steps, 1);
    lemma_sound_join(c, listing, input, noise, steps, 1);
}

/// A run to a state, and a run from that state that ends alike with a
/// session, make one run that ends alike with it.
proof fn lemma_then_run(
    ir: Seq<Instruction>,
    c: Core,
    listing: Seq<Asm>,
    input: Seq<u8>,
    noise: Noise,
    steps: nat,
    more: nat,
    end: Session,
)
    requires
        c.sound_for(listing, input, noise, steps),
        c.run(listing, input, noise, steps).sound_for(listing, input, noise, more),
        alike(
            ir,
            listing,
            input,
            end,
            c.run(listing, input, noise, steps).run(listing, input, noise, more),
        ),
    ensures
        c.sound_for(listing, input, noise, steps + more),
        alike(ir, listing, input, end, c.run(listing, input, noise, steps + more)),
{
    lemma_core_run_split(c, listing, input, noise, steps, more);
    lemma_sound_join(c, listing, input, noise, steps, more);
}

/// From linked states: if the interpreter comes to rest within `steps`
/// steps, the listing comes to rest within the number of steps returned,
/// in the same state, and every step on the way touches only cells of the
/// tape.
#[verifier::rlimit(40)]
pub(crate) proof fn lemma_listing_follows(
    ir: Seq<Instruction>,
    length: u32,
    input: Seq<u8>,
    noise: Noise,
    s: Session,
    c: Core,
    steps: nat,
) -> (matching: nat)
    requires
        loops_well_nested(ir),
        listing_fits(ir, length),
        0 < length <= 0x4000_0000,
        linked(ir, length, s, c),
        s.run(ir, input, steps).at_rest(ir, input),
    ensures
        alike(
            ir,
            assemble_program(ir, length),
            input,
            s.run(ir, input, steps),
            c.run(assemble_program(ir, length), input, noise, matching),
        ),
        c.sound_for(assemble_program(ir, length), input, noise, matching),
    decreases steps,
{
    let listing = assemble_program(ir, length);
    let i = s.machine.cursor;
    let from = starts_at(ir, i, length);
    lemma_placed_frame(ir, length);
    lemma_placed_within(ir, i, length);
    if i == ir.len() {
        return 0;
    }
    lemma_placed_within(ir, i + 1, length);
    let instruction = ir[i];
    let pointer = s.machine.pointer;
    let end = s.run(ir, input, steps);
    if is_single(instruction) {
        lemma_placed_single(ir, i, length);
        if s.at_rest(ir, input) {
            return 0;
        }
        let s1 = s.step(ir, input);
        lemma_then_step(c, listing, input, noise, 0);
        let c1 = c.step(listing, input, noise);
        assert(linked(ir, length, s1, c1));
        let more = lemma_listing_follows(ir, length, input, noise, s1, c1, (steps - 1) as nat);
        lemma_then_run(ir, c, listing, input, noise, 1, more, end);
        1 + more
    } else {
        let s1 = s.step(ir, input);
        match instruction {
            Instruction::Move(delta) => {
                let reduced = reduce(delta, length);
                let entries = wrap_sequence(Reg::Pointer, Reg::Eax, reduced, length);
                let w = entries.len();
                lemma_placed_move(ir, i, length);
                lemma_wrap_on_registers(Reg::Pointer, Reg::Eax, reduced, length);
                lemma_run_registers(c, listing, input, noise, entries, w as int);
                lemma_reduce(pointer, delta, length);
                lemma_wrap_sequence(c.cpu, Reg::Pointer, Reg::Eax, reduced, length);
                let c1 = c.run(listing, input, noise, w);
                assert(linked(ir, length, s1, c1));
                let more = lemma_listing_follows(
                    ir,
                    length,
                    input,
                    noise,
                    s1,
                    c1,
                    (steps - 1) as nat,
                );
                lemma_then_run(ir, c, listing, input, noise, w, more, end);
                w + more
            },
            Instruction::Multiply(offset, factor) => {
                let reduced = reduce(offset, length);
                let entries = wrap_sequence(Reg::Eax, Reg::Ecx, reduced, length);
                let w = entries.len();
                lemma_placed_transfer(ir, i, length);
                lemma_wrap_on_registers(Reg::Eax, Reg::Ecx, reduced, length);
                lemma_run_registers(c, listing, input, noise, entries, w as int);
                lemma_reduce(pointer, offset, length);
                lemma_wrap_sequence(c.cpu, Reg::Eax, Reg::Ecx, reduced, length);
                lemma_scaled(s.machine.cell(), factor);
                lemma_then_step(c, listing, input, noise, w);
                lemma_then_step(c, listing, input, noise, w + 1);
                lemma_then_step(c, listing, input, noise, w + 2);
                lemma_then_step(c, listing, input, noise, w + 3);
                let c1 = c.run(listing, input, noise, w + 4);
                assert(linked(ir, length, s1, c1));
                let more = lemma_listing_follows(
                    ir,
                    length,
                    input,
                    noise,
                    s1,
                    c1,
                    (steps - 1) as nat,
                );
                lemma_then_run(ir, c, listing, input, noise, w + 4, more, end);
                w + 4 + more
            },
            Instruction::JumpIfZero(target) => {
                lemma_placed_head(ir, i, length);
                lemma_head_pairs(ir, i);
                lemma_open_heads(ir, target as int);
                lemma_placed_tail(ir, target as int, length);
                lemma_placed_within(ir, target as int + 1, length);
                lemma_then_step(c, listing, input, noise, 0);
                lemma_then_step(c, listing, input, noise, 1);
                let c1 = c.run(listing, input, noise, 2);
                assert(linked(ir, length, s1, c1));
                let more = lemma_listing_follows(
                    ir,
                    length,
                    input,
                    noise,
                    s1,
                    c1,
                    (steps - 1) as nat,
                );
                lemma_then_run(ir, c, listing, input, noise, 2, more, end);
                2 + more
            },
            Instruction::JumpIfNotZero(head) => {
                lemma_open_heads(ir, i);
                lemma_placed_tail(ir, i, length);
                lemma_tail_pairs(ir, i);
                lemma_placed_head(ir, head as int, length);
                lemma_placed_within(ir, head as int + 1, length);
                lemma_then_step(c, listing, input, noise, 0);
                lemma_then_step(c, listing, input, noise, 1);
                let c1 = c.run(listing, input, noise, 2);
                assert(linked(ir, length, s1, c1));
                let more = lemma_listing_follows(
                    ir,
                    length,
                    input,
                    noise,
                    s1,
                    c1,
                    (steps - 1) as nat,
                );
                lemma_then_run(ir, c, listing, input, noise, 2, more, end);
                2 + more
            },
            _ => {
                let stride = instruction->MoveUntilZero_0;
                let reduced = reduce(stride, length);
                let entries = wrap_sequence(Reg::Pointer, Reg::Eax, reduced, length);
                let w = entries.len();
                lemma_placed_scan(ir, i, length);
                lemma_then_step(c, listing, input, noise, 0);
                lemma_then_step(c, listing, input, noise, 1);
                let c2 = c.run(listing, input, noise, 2);
                if s.machine.cell() == 0 {
                    lemma_then_step(c, listing, input, noise, 2);
                    let c1 = c.run(listing, input, noise, 3);
                    assert(linked(ir, length, s1, c1));
                    let more = lemma_listing_follows(
                        ir,
                        length,
                        input,
                        noise,
                        s1,
                        c1,
                        (steps - 1) as nat,
                    );
                    lemma_then_run(ir, c, listing, input, noise, 3, more, end);
                    3 + more
                } else {
                    lemma_wrap_on_registers(Reg::Pointer, Reg::Eax, reduced, length);
                    lemma_run_registers(c2, listing, input, noise, entries, w as int);
                    lemma_reduce(pointer, stride, length);
                    lemma_wrap_sequence(c2.cpu, Reg::Pointer, Reg::Eax, reduced, length);
                    lemma_core_run_split(c, listing, input, noise, 2, w);
                    lemma_sound_join(c, listing, input, noise, 2, w);
                    lemma_then_step(c, listing, input, noise, 2 + w);
                    let c1 = c.run(listing, input, noise, 2 + w + 1);
                    assert(linked(ir, length, s1, c1));
                    let more = lemma_listing_follows(
                        ir,
                        length,
                        input,
                        noise,
                        s1,
                        c1,
                        (steps - 1) as nat,
                    );
                    lemma_then_run(ir, c, listing, input, noise, 2 + w + 1, more, end);
                    2 + w + 1 + more
                }
            },
        }
    }
}

/// The lowering is faithful and keeps to the tape. Take a program whose
/// loops are well nested, as every parsed program is, a tape of the length
/// that the program was lowered for, an input, and any values of the scratch
/// registers and flags. If the interpreter, started with the pointer on the
/// first cell, comes to rest within `steps` steps, because the program has
/// ended or because it asks for input that is not there, then the listing,
/// run from its first entry, comes to rest within the number of steps
/// returned, for the same reason, with the same tape, the same pointer, the
/// same output, and as much input read. No step on the way reads or writes
/// a cell outside the tape.
pub proof fn lemma_lowering_is_faithful(
    ir: Seq<Instruction>,
    length: u32,
    input: Seq<u8>,
    noise: Noise,
    start: Core,
    steps: nat,
) -> (matching: nat)
    requires
        loops_well_nested(ir),
        listing_fits(ir, length),
        0 < length <= 0x4000_0000,
        start.tape.len() == length,
        start.at == 0,
        start.consumed == 0,
        start.output == Seq::<u8>::empty(),
        (Session {
            machine: Machine { tape: start.tape, pointer: 0, cursor: 0 },
            consumed: 0,
            output: Seq::empty(),
        }).run(ir, input, steps).at_rest(ir, input),
    ensures
        ({
            let listing = assemble_program(ir, length);
            let session = (Session {
                machine: Machine { tape: start.tape, pointer: 0, cursor: 0 },
                consumed: 0,
                output: Seq::empty(),
            }).run(ir, input, steps);
            let core = start.run(listing, input, noise, matching);
            &&& core.at_rest(listing, input)
            &&& core.stop(listing, input) == session.stop(ir, input)
            &&& core.tape == session.machine.tape
            &&& core.cpu.pointer == session.machine.pointer
            &&& core.output == session.output
            &&& core.consumed == session.consumed
            &&& start.sound_for(listing, input, noise, matching)
            &&& core.sound(listing)
        }),
{
    let listing = assemble_program(ir, length);
    let session = Session {
        machine: Machine { tape: start.tape, pointer: 0, cursor: 0 },
        consumed: 0,
        output: Seq::empty(),
    };
    lemma_placed_frame(ir, length);
    lemma_core_one_step(start, listing, input, noise);
    let entered = start.step(listing, input, noise);
    let more = lemma_listing_follows(ir, length, input, noise, session, entered, steps);
    lemma_then_run(ir, start, listing, input, noise, 1, more, session.run(ir, input, steps));
    1 + more
}

/// From linked states: if the listing comes to rest within `steps` steps,
/// the interpreter comes to rest within the number of steps returned, in
/// the same state.
#[verifier::rlimit(40)]
pub(crate) proof fn lemma_listing_leads(
    ir: Seq<Instruction>,
    length: u32,
    input: Seq<u8>,
    noise: Noise,
    s: Session,
    c: Core,
    steps: nat,
) -> (matching: nat)
    requires
        loops_well_nested(ir),
        listing_fits(ir, length),
        0 < length <= 0x4000_0000,
        linked(ir, length, s, c),
        c.run(assemble_program(ir, length), input, noise, steps).at_rest(
            assemble_program(ir, length),
            input,
        ),
    ensures
        alike(
            ir,
            assemble_program(ir, length),
            input,
            s.run(ir, input, matching),
            c.run(assemble_program(ir, length), input, noise, steps),
        ),
    decreases steps, ir.len() - s.machine.cursor,
{
    let listing = assemble_program(ir, length);
    let i = s.machine.cursor;
    let from = starts_at(ir, i, length);
    lemma_placed_frame(ir, length);
    lemma_placed_within(ir, i, length);
    if i == ir.len() {
        return 0;
    }
    lemma_placed_within(ir, i + 1, length);
    let instruction = ir[i];
    let pointer = s.machine.pointer;
    let s1 = s.step(ir, input);
    if is_single(instruction) {
        lemma_placed_single(ir, i, length);
        if s.at_rest(ir, input) {
            return 0;
        }
        lemma_core_take_step(c, listing, input, noise, steps);
        let c1 = c.step(listing, input, noise);
        assert(linked(ir, length, s1, c1));
        let more = lemma_listing_leads(ir, length, input, noise, s1, c1, (steps - 1) as nat);
        more + 1
    } else {
        match instruction {
            Instruction::Move(delta) => {
                let reduced = reduce(delta, length);
                let entries = wrap_sequence(Reg::Pointer, Reg::Eax, reduced, length);
                let w = entries.len();
                lemma_placed_move(ir, i, length);
                lemma_wrap_on_registers(Reg::Pointer, Reg::Eax, reduced, length);
                lemma_run_registers(c, listing, input, noise, entries, w as int);
                lemma_core_run_through(c, listing, input, noise, w, steps);
                lemma_reduce(pointer, delta, length);
                lemma_wrap_sequence(c.cpu, Reg::Pointer, Reg::Eax, reduced, length);
                let c1 = c.run(listing, input, noise, w);
                assert(linked(ir, length, s1, c1));
                let more = lemma_listing_leads(
                    ir,
                    length,
                    input,
                    noise,
                    s1,
                    c1,
                    (steps - w) as nat,
                );
                more + 1
            },
            Instruction::Multiply(offset, factor) => {
                let reduced = reduce(offset, length);
                let entries = wrap_sequence(Reg::Eax, Reg::Ecx, reduced, length);
                let w = entries.len();
                lemma_placed_transfer(ir, i, length);
                lemma_wrap_on_registers(Reg::Eax, Reg::Ecx, reduced, length);
                lemma_run_registers(c, listing, input, noise, entries, w as int);
                lemma_core_run_through(c, listing, input, noise, w, steps);
                lemma_reduce(pointer, offset, length);
                lemma_wrap_sequence(c.cpu, Reg::Eax, Reg::Ecx, reduced, length);
                lemma_scaled(s.machine.cell(), factor);
                let ca = c.run(listing, input, noise, w);
                lemma_core_take_step(ca, listing, input, noise, (steps - w) as nat);
                let cb = ca.step(listing, input, noise);
                lemma_core_take_step(cb, listing, input, noise, (steps - w - 1) as nat);
                let cc = cb.step(listing, input, noise);
                lemma_core_take_step(cc, listing, input, noise, (steps - w - 2) as nat);
                let cd = cc.step(listing, input, noise);
                lemma_core_take_step(cd, listing, input, noise, (steps - w - 3) as nat);
                let c1 = cd.step(listing, input, noise);
                assert(linked(ir, length, s1, c1));
                let more = lemma_listing_leads(
                    ir,
                    length,
                    input,
                    noise,
                    s1,
                    c1,
                    (steps - w - 4) as nat,
                );
                more + 1
            },
            Instruction::JumpIfZero(_) | Instruction::JumpIfNotZero(_) => {
                if instruction is JumpIfZero {
                    let target = instruction->JumpIfZero_0;
                    lemma_placed_head(ir, i, length);
                    lemma_head_pairs(ir, i);
                    lemma_open_heads(ir, target as int);
                    lemma_placed_tail(ir, target as int, length);
                    lemma_placed_within(ir, target as int + 1, length);
                } else {
                    let head = instruction->JumpIfNotZero_0;
                    lemma_open_heads(ir, i);
                    lemma_placed_tail(ir, i, length);
                    lemma_tail_pairs(ir, i);
                    lemma_placed_head(ir, head as int, length);
                    lemma_placed_within(ir, head as int + 1, length);
                }
                lemma_core_take_step(c, listing, input, noise, steps);
                let ca = c.step(listing, input, noise);
                lemma_core_take_step(ca, listing, input, noise, (steps - 1) as nat);
                let c1 = ca.step(listing, input, noise);
                assert(linked(ir, length, s1, c1));
                let more = lemma_listing_leads(
                    ir,
                    length,
                    input,
                    noise,
                    s1,
                    c1,
                    (steps - 2) as nat,
                );
                more + 1
            },
            _ => {
                let stride = instruction->MoveUntilZero_0;
                let reduced = reduce(stride, length);
                let entries = wrap_sequence(Reg::Pointer, Reg::Eax, reduced, length);
                let w = entries.len();
                lemma_placed_scan(ir, i, length);
                lemma_core_take_step(c, listing, input, noise, steps);
                let ca = c.step(listing, input, noise);
                lemma_core_take_step(ca, listing, input, noise, (steps - 1) as nat);
                let cb = ca.step(listing, input, noise);
                if s.machine.cell() == 0 {
                    lemma_core_take_step(cb, listing, input, noise, (steps - 2) as nat);
                    let c1 = cb.step(listing, input, noise);
                    assert(linked(ir, length, s1, c1));
                    let more = lemma_listing_leads(
                        ir,
                        length,
                        input,
                        noise,
                        s1,
                        c1,
                        (steps - 3) as nat,
                    );
                    more + 1
                } else {
                    lemma_wrap_on_registers(Reg::Pointer, Reg::Eax, reduced, length);
                    lemma_run_registers(cb, listing, input, noise, entries, w as int);
                    lemma_core_run_through(cb, listing, input, noise, w, (steps - 2) as nat);
                    lemma_reduce(pointer, stride, length);
                    lemma_wrap_sequence(cb.cpu, Reg::Pointer, Reg::Eax, reduced, length);
                    let cc = cb.run(listing, input, noise, w);
                    lemma_core_take_step(cc, listing, input, noise, (steps - 2 - w) as nat);
                    let c1 = cc.step(listing, input, noise);
                    assert(linked(ir, length, s1, c1));
                    let more = lemma_listing_leads(
                        ir,
                        length,
                        input,
                        noise,
                        s1,
                        c1,
                        (steps - 3 - w) as nat,
                    );
                    more + 1
                }
            },
        }
    }
}

/// The lowering adds no behaviour. Take a program whose loops are well
/// nested, a tape of the length that the program was lowered for, an input,
/// and any values of the scratch registers and flags. If the listing, run
/// from its first entry, comes to rest within `steps` steps, then the
/// interpreter, started with the pointer on the first cell, comes to rest
/// within the number of steps returned, for the same reason, with the same
/// tape, the same pointer, the same output, and as much input read.
pub proof fn lemma_lowering_adds_nothing(
    ir: Seq<Instruction>,
    length: u32,
    input: Seq<u8>,
    noise: Noise,
    start: Core,
    steps: nat,
) -> (matching: nat)
    requires
        loops_well_nested(ir),
        listing_fits(ir, length),
        0 < length <= 0x4000_0000,
        start.tape.len() == length,
        start.at == 0,
        start.consumed == 0,
        start.output == Seq::<u8>::empty(),
        start.run(assemble_program(ir, length), input, noise, steps).at_rest(
            assemble_program(ir, length),
            input,
        ),
    ensures
        ({
            let listing = assemble_program(ir, length);
            let session = (Session {
                machine: Machine { tape: start.tape, pointer: 0, cursor: 0 },
                consumed: 0,
                output: Seq::empty(),
            }).run(ir, input, matching);
            let core = start.run(listing, input, noise, steps);
            &&& session.at_rest(ir, input)
            &&& core.stop(listing, input) == session.stop(ir, input)
            &&& core.tape == session.machine.tape
            &&& core.cpu.pointer == session.machine.pointer
            &&& core.output == session.output
            &&& core.consumed == session.consumed
        }),
{
    let listing = assemble_program(ir, length);
    let session = Session {
        machine: Machine { tape: start.tape, pointer: 0, cursor: 0 },
        consumed: 0,
        output: Seq::empty(),
    };
    lemma_placed_frame(ir, length);
    lemma_core_take_step(start, listing, input, noise, steps);
    let entered = start.step(listing, input, noise);
    lemma_listing_leads(ir, length, input, noise, session, entered, (steps - 1) as nat)
}

} // verus!
