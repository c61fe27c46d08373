//! The machine instructions that a program is lowered to, and what the
//! listing of a program is.
//!
//! The generated function receives the address of the tape as its only
//! argument. It keeps that address in `r12` and the pointer, as an index
//! into the tape, in `r13`. `eax` and `ecx` are scratch registers.

use vstd::prelude::*;
use crate::parser::instruction::Instruction;

verus! {

/// A 32-bit register of the generated code.
#[derive(Debug, Clone, Copy, PartialEq, Eq, Structural)]
pub enum Reg {
    /// `eax`.
    Eax,
    /// `ecx`.
    Ecx,
    /// `r13d`, the pointer.
    Pointer,
}

/// One entry of a listing.
#[derive(Debug, Clone, Copy, PartialEq, Eq, Structural)]
pub enum Asm {
    /// Save `rbp`, `r12` and `r13`, move the argument to `r12`, and set
    /// `r13` to zero.
    Enter,
    /// Set `rax` to zero; then, at the exit that failed transfers jump to,
    /// restore `r13`, `r12` and `rbp` and return.
    Leave,
    /// `add byte [r12 + r13], n`.
    AddCell(u8),
    /// `mov byte [r12 + r13], 0`.
    ClearCell,
    /// `lea dst, [r13 + disp]`, in 32 bits.
    Lea(Reg, i32),
    /// `cmp reg, imm`.
    Compare(Reg, i32),
    /// `test reg, reg`.
    Test(Reg),
    /// `cmovl dst, src`.
    MoveIfLess(Reg, Reg),
    /// `cmovns dst, src`.
    MoveIfNotNegative(Reg, Reg),
    /// `movzx ecx, byte [r12 + r13]`.
    LoadCell,
    /// `imul ecx, ecx, factor`.
    Scale(u8),
    /// `add byte [r12 + rax], cl`.
    AddToTarget,
    /// Call the read function with the address of the current cell, and
    /// jump to the exit if it returns an error.
    CallRead,
    /// Call the write function with the current cell, and jump to the exit
    /// if it returns an error.
    CallWrite,
    /// The place that jumps to this label go to. A label is named by its
    /// own index in the listing.
    Label(usize),
    /// `cmp byte [r12 + r13], 0` and `je` to the label.
    JumpIfZero(usize),
    /// `cmp byte [r12 + r13], 0` and `jne` to the label.
    JumpIfNotZero(usize),
    /// `jmp` to the label.
    Jump(usize),
}

/// A loop under construction: the index of the `JumpIfZero` entry at its
/// head, which is pointed behind the loop when the loop is closed.
pub type OpenLabel = usize;

/// The displacement reduced to less than one turn round a tape of
/// `length` cells, in the same direction.
pub open spec fn reduce(delta: isize, length: u32) -> i32 {
    if delta >= 0 {
        ((delta as int) % (length as int)) as i32
    } else {
        (-((-(delta as int)) % (length as int))) as i32
    }
}

/// The instructions that leave in `dst` the pointer displaced by `delta`
/// and wrapped into a tape of `length` cells, where `delta` is less than
/// one turn. They use `probe` for the sum before wrapping and hold no jump.
pub open spec fn wrap_sequence(dst: Reg, probe: Reg, delta: i32, length: u32) -> Seq<Asm> {
    if delta > 0 {
        seq![
            Asm::Lea(probe, delta),
            Asm::Lea(dst, (delta - length) as i32),
            Asm::Compare(probe, length as i32),
            Asm::MoveIfLess(dst, probe),
        ]
    } else if delta < 0 {
        seq![
            Asm::Lea(probe, delta),
            Asm::Lea(dst, (length + delta) as i32),
            Asm::Test(probe),
            Asm::MoveIfNotNegative(dst, probe),
        ]
    } else if dst == Reg::Pointer {
        Seq::empty()
    } else {
        seq![Asm::Lea(dst, 0)]
    }
}

/// A listing under construction.
pub struct Assembly {
    /// The entries so far.
    pub listing: Seq<Asm>,
    /// The loops that are open, the innermost last.
    pub open_loops: Seq<OpenLabel>,
}

impl Assembly {
    /// Only the entry sequence.
    pub open spec fn start() -> Assembly {
        Assembly { listing: seq![Asm::Enter], open_loops: Seq::empty() }
    }

    /// More entries at the end.
    pub open spec fn emit(self, entries: Seq<Asm>) -> Assembly {
        Assembly { listing: self.listing + entries, ..self }
    }

    /// A new loop: a jump that does not know yet where to, and the label
    /// that the end of the loop jumps back to.
    pub open spec fn open_loop(self) -> Assembly {
        let head = self.listing.len() as int;
        Assembly {
            listing: self.listing.push(Asm::JumpIfZero(0)).push(Asm::Label((head + 1) as usize)),
            open_loops: self.open_loops.push(head as usize),
        }
    }

    /// The innermost loop is closed: a jump back to the label behind its
    /// head, and a label that the head is now pointed at. Without an open
    /// loop nothing changes.
    pub open spec fn close_loop(self) -> Assembly {
        if self.open_loops.len() == 0 {
            self
        } else {
            let head = self.open_loops.last() as int;
            let end = self.listing.len() as int + 1;
            Assembly {
                listing: self.listing.update(head, Asm::JumpIfZero(end as usize)).push(
                    Asm::JumpIfNotZero((head + 1) as usize),
                ).push(Asm::Label(end as usize)),
                open_loops: self.open_loops.drop_last(),
            }
        }
    }

    /// A loop that displaces the pointer until it rests on a zero cell.
    pub open spec fn scan(self, delta: i32, length: u32) -> Assembly {
        let start = self.listing.len() as int;
        let body = wrap_sequence(Reg::Pointer, Reg::Eax, delta, length);
        let end = start + 3 + body.len();
        Assembly {
            listing: self.listing.push(Asm::Label(start as usize)).push(
                Asm::JumpIfZero(end as usize),
            ) + body + seq![Asm::Jump(start as usize), Asm::Label(end as usize)],
            ..self
        }
    }

    /// The listing after one more instruction, for a tape of `length`
    /// cells.
    pub open spec fn lower(self, instruction: Instruction, length: u32) -> Assembly {
        match instruction {
            Instruction::Add(n) => self.emit(seq![Asm::AddCell(n)]),
            Instruction::Move(delta) => self.emit(
                wrap_sequence(Reg::Pointer, Reg::Eax, reduce(delta, length), length),
            ),
            Instruction::In => self.emit(seq![Asm::CallRead]),
            Instruction::Out => self.emit(seq![Asm::CallWrite]),
            Instruction::JumpIfZero(_) => self.open_loop(),
            Instruction::JumpIfNotZero(_) => self.close_loop(),
            Instruction::Clear => self.emit(seq![Asm::ClearCell]),
            Instruction::Multiply(offset, factor) => self.emit(
                wrap_sequence(Reg::Eax, Reg::Ecx, reduce(offset, length), length),
            ).emit(seq![Asm::LoadCell, Asm::Scale(factor), Asm::AddToTarget, Asm::ClearCell]),
            Instruction::MoveUntilZero(stride) => self.scan(reduce(stride, length), length),
        }
    }
}

/// The listing under construction after the first `k` instructions of a
/// program.
pub open spec fn assemble_prefix(ir: Seq<Instruction>, k: int, length: u32) -> Assembly
    decreases k,
{
    if k <= 0 {
        Assembly::start()
    } else {
        assemble_prefix(ir, k - 1, length).lower(ir[k - 1], length)
    }
}

/// The listing of a whole program.
pub open spec fn assemble_program(ir: Seq<Instruction>, length: u32) -> Seq<Asm> {
    assemble_prefix(ir, ir.len() as int, length).listing.push(Asm::Leave)
}

/// No state of the lowering holds more entries than can be counted.
pub open spec fn listing_fits(ir: Seq<Instruction>, length: u32) -> bool {
    forall|k: int|
        0 <= k <= ir.len() ==> (#[trigger] assemble_prefix(ir, k, length)).listing.len()
            <= usize::MAX
}

} // verus!
