//! The just-in-time backend: lowers a program to a listing of machine
//! instructions.

pub mod cpu;
pub mod faithful;
pub mod listing;
pub mod placing;
pub mod running;
pub mod safety;

pub use listing::{Asm, Reg};

use vstd::prelude::*;
use vstd::arithmetic::div_mod::{lemma_add_mod_noop, lemma_mod_bound, lemma_small_mod};
use crate::parser::instruction::Instruction;
use crate::parser::pairing::{
    check_loops, first_end_without_head, heads_before, lemma_first_end_without_head,
    lemma_first_end_without_head_stays, tails_before, LoopError,
};
use listing::{
    assemble_prefix, assemble_program, listing_fits, wrap_sequence, Assembly, OpenLabel,
};

verus! {

/// The longest tape that the generated pointer arithmetic can serve: the
/// sum of two indices has to fit in 32 bits as a signed number.
pub const MAX_TAPE: u32 = 0x4000_0000;

/// A compiler to machine instructions for a tape of `N` cells.
#[derive(Debug, Clone)]
pub struct Compiler<const N: u32> {
    instructions: Vec<Instruction>,
}

/// The displacement reduced to less than one turn round a tape of
/// `length` cells, in the same direction.
pub fn reduce(delta: isize, length: u32) -> (reduced: i32)
    requires
        0 < length <= MAX_TAPE,
    ensures
        reduced == listing::reduce(delta, length),
        -(length as int) < reduced < length,
{
    if delta >= 0 {
        let rest = (delta as usize) % (length as usize);
        rest as i32
    } else {
        let back = (-(delta + 1)) as usize;
        let rest = ((back % (length as usize)) + 1) % (length as usize);
        proof {
            let l = length as int;
            lemma_add_mod_noop(back as int, 1, l);
            lemma_mod_bound(back as int, l);
            if l > 1 {
                lemma_small_mod(1, l as nat);
            } else {
                lemma_mod_bound(1, l);
            }
            lemma_mod_bound(-(delta as int), l);
        }
        -(rest as i32)
    }
}

fn emit_wrap(listing: &mut Vec<Asm>, dst: Reg, probe: Reg, delta: i32, length: u32)
    requires
        0 < length <= MAX_TAPE,
        -(length as int) < delta < length,
    ensures
        final(listing)@ == old(listing)@ + wrap_sequence(dst, probe, delta, length),
{
    if delta > 0 {
        listing.push(Asm::Lea(probe, delta));
        listing.push(Asm::Lea(dst, delta - length as i32));
        listing.push(Asm::Compare(probe, length as i32));
        listing.push(Asm::MoveIfLess(dst, probe));
    } else if delta < 0 {
        listing.push(Asm::Lea(probe, delta));
        listing.push(Asm::Lea(dst, length as i32 + delta));
        listing.push(Asm::Test(probe));
        listing.push(Asm::MoveIfNotNegative(dst, probe));
    } else {
        match dst {
            Reg::Pointer => {},
            _ => {
                listing.push(Asm::Lea(dst, 0));
            },
        }
    }
    assert(listing@ =~= old(listing)@ + wrap_sequence(dst, probe, delta, length));
}

impl<const N: u32> Compiler<N> {
    /// The program that the compiler lowers.
    pub closed spec fn program(&self) -> Seq<Instruction> {
        self.instructions@
    }

    /// A compiler for `instructions`.
    pub fn new(instructions: Vec<Instruction>) -> (compiler: Self)
        ensures
            compiler.program() == instructions@,
    {
        Self { instructions }
    }

    /// Lowers the program to a listing of machine instructions that starts
    /// with `Enter` and ends with `Leave`. Fails where the loops of the
    /// program do not nest.
    pub fn assemble(&self) -> (result: Result<Vec<Asm>, LoopError>)
        requires
            0 < N <= MAX_TAPE,
        ensures
            result matches Ok(listing) ==> {
                &&& check_loops(self.program()) is Ok
                &&& listing@ == assemble_program(self.program(), N)
                &&& listing_fits(self.program(), N)
            },
            result matches Err(error) ==> check_loops(self.program()) == Err::<(), LoopError>(
                error,
            ),
    {
        let ghost ir = self.instructions@;
        let mut listing: Vec<Asm> = Vec::new();
        listing.push(Asm::Enter);
        let mut open_loops: Vec<OpenLabel> = Vec::new();
        let mut i: usize = 0;
        assert(listing@ =~= Assembly::start().listing);
        assert(listing@.len() == listing.len());
        while i < self.instructions.len()
            invariant
                0 < N <= MAX_TAPE,
                ir == self.instructions@,
                i <= ir.len(),
                listing@ == assemble_prefix(ir, i as int, N).listing,
                open_loops@ == assemble_prefix(ir, i as int, N).open_loops,
                first_end_without_head(ir, i as int) is None,
                open_loops@.len() == heads_before(ir, i as int) - tails_before(ir, i as int),
                forall|j: int| 0 <= j < open_loops@.len() ==> (#[trigger] open_loops@[j]) < listing@.len(),
                forall|k: int|
                    0 <= k <= i ==> (#[trigger] assemble_prefix(ir, k, N)).listing.len()
                        <= usize::MAX,
            decreases ir.len() - i,
        {
            let ghost state = assemble_prefix(ir, i as int, N);
            let instruction = self.instructions[i];
            proof {
                lemma_first_end_without_head(ir, i as int);
                lemma_first_end_without_head(ir, i + 1);
            }
            match instruction {
                Instruction::Add(n) => {
                    listing.push(Asm::AddCell(n));
                    assert(listing@ =~= state.emit(seq![Asm::AddCell(n)]).listing);
                },
                Instruction::Move(delta) => {
                    emit_wrap(&mut listing, Reg::Pointer, Reg::Eax, reduce(delta, N), N);
                },
                Instruction::In => {
                    listing.push(Asm::CallRead);
                    assert(listing@ =~= state.emit(seq![Asm::CallRead]).listing);
                },
                Instruction::Out => {
                    listing.push(Asm::CallWrite);
                    assert(listing@ =~= state.emit(seq![Asm::CallWrite]).listing);
                },
                Instruction::JumpIfZero(_) => {
                    let head = listing.len();
                    listing.push(Asm::JumpIfZero(0));
                    listing.push(Asm::Label(0));
                    let start = listing.len() - 1;
                    listing.set(start, Asm::Label(start));
                    open_loops.push(head);
                    assert(listing@ =~= state.open_loop().listing);
                },
                Instruction::JumpIfNotZero(_) => {
                    match open_loops.pop() {
                        Some(head) => {
                            listing.push(Asm::JumpIfNotZero(head + 1));
                            listing.push(Asm::Label(0));
                            let end = listing.len() - 1;
                            listing.set(end, Asm::Label(end));
                            listing.set(head, Asm::JumpIfZero(end));
                            assert(listing@ =~= state.close_loop().listing);
                        },
                        None => {
                            proof {
                                assert(first_end_without_head(ir, i + 1) == Some(i as int));
                                lemma_first_end_without_head_stays(ir, i + 1, ir.len() as int);
                            }
                            return Err(LoopError::EndWithoutHead(i));
                        },
                    }
                },
                Instruction::Clear => {
                    listing.push(Asm::ClearCell);
                    assert(listing@ =~= state.emit(seq![Asm::ClearCell]).listing);
                },
                Instruction::Multiply(offset, factor) => {
                    emit_wrap(&mut listing, Reg::Eax, Reg::Ecx, reduce(offset, N), N);
                    listing.push(Asm::LoadCell);
                    listing.push(Asm::Scale(factor));
                    listing.push(Asm::AddToTarget);
                    listing.push(Asm::ClearCell);
                    assert(listing@ =~= state.lower(instruction, N).listing);
                },
                Instruction::MoveUntilZero(stride) => {
                    let start = listing.len();
                    listing.push(Asm::Label(start));
                    listing.push(Asm::JumpIfZero(0));
                    emit_wrap(&mut listing, Reg::Pointer, Reg::Eax, reduce(stride, N), N);
                    listing.push(Asm::Jump(start));
                    listing.push(Asm::Label(0));
                    let end = listing.len() - 1;
                    listing.set(end, Asm::Label(end));
                    listing.set(start + 1, Asm::JumpIfZero(end));
                    assert(listing@ =~= state.lower(instruction, N).listing);
                },
            }
            i += 1;
            assert(listing@.len() == listing.len());
        }
        proof {
            lemma_first_end_without_head(ir, ir.len() as int);
        }
        if open_loops.len() > 0 {
            return Err(LoopError::HeadWithoutEnd);
        }
        listing.push(Asm::Leave);
        Ok(listing)
    }
}

} // verus!
