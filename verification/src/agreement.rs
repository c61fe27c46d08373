//! The backends agree: what the interpreter does on a program, the listing
//! of machine instructions and the function of basic blocks do as well.
//!
//! This speaks of the listing and of the blocks as `jit::running` and
//! `llvm::running` give them meaning, not of the machine code and the object
//! code that are made from them.

use vstd::prelude::*;
use crate::interpreter::machine::{Machine, Session};
use crate::jit::listing::{assemble_program, listing_fits};
use crate::jit::running::{Core, Noise};
use crate::llvm::blocks::lower_program;
use crate::llvm::faithful::entry_frame;
use crate::llvm::placing::lowering_fits;
use crate::parser::instruction::Instruction;
use crate::parser::nesting::loops_well_nested;

verus! {

/// Take a program whose loops are well nested, as every parsed program is,
/// a tape, and an input. If the interpreter, started with the pointer on
/// the first cell, comes to rest within `steps` steps, then the listing and
/// the function of basic blocks that the program is lowered to for this
/// tape come to rest, within the numbers of steps returned, for the same
/// reason as the interpreter, with its tape, its pointer, its output, and as
/// much input read.
pub proof fn lemma_backends_agree(
    ir: Seq<Instruction>,
    length: u32,
    input: Seq<u8>,
    noise: Noise,
    start: Core,
    steps: nat,
) -> (matching: (nat, nat))
    requires
        loops_well_nested(ir),
        listing_fits(ir, length),
        lowering_fits(ir, length as u64),
        0 < length <= 0x4000_0000,
        start.tape.len() == length,
        start.at == 0,
        start.consumed == 0,
        start.output == Seq::<u8>::empty(),
        (Session {
            machine: Machine { tape: start.tape, pointer: 0, cursor: 0 },
            consumed: 0,
            output: Seq::empty(),
        }).run(ir, input, steps).at_rest(ir, input),
    ensures
        ({
            let listing = assemble_program(ir, length);
            let blocks = lower_program(ir, length as u64);
            let session = (Session {
                machine: Machine { tape: start.tape, pointer: 0, cursor: 0 },
                consumed: 0,
                output: Seq::empty(),
            }).run(ir, input, steps);
            let core = start.run(listing, input, noise, matching.0);
            let frame = entry_frame(start.tape, 0).run(blocks, input, matching.1);
            &&& core.at_rest(listing, input)
            &&& frame.at_rest(blocks, input)
            &&& core.stop(listing, input) == session.stop(ir, input)
            &&& frame.stop(blocks, input) == session.stop(ir, input)
            &&& core.tape == session.machine.tape
            &&& frame.tape == session.machine.tape
            &&& core.cpu.pointer == session.machine.pointer
            &&& frame.pointer == session.machine.pointer
            &&& core.output == session.output
            &&& frame.output == session.output
            &&& core.consumed == session.consumed
            &&& frame.consumed == session.consumed
        }),
{
    let native = crate::jit::faithful::lemma_lowering_is_faithful(
        ir,
        length,
        input,
        noise,
        start,
        steps,
    );
    let blocks = crate::llvm::faithful::lemma_lowering_is_faithful(
        ir,
        length as u64,
        input,
        start.tape,
        0,
        steps,
    );
    (native, blocks)
}

} // verus!
