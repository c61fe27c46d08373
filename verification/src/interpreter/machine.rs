//! The meaning of a program: what one instruction does to the tape, the
//! pointer and the cursor, and what a run over an input stream comes to.

use vstd::prelude::*;
use crate::parser::instruction::Instruction;

verus! {

/// The state that a program acts on.
pub struct Machine {
    /// The cells.
    pub tape: Seq<u8>,
    /// The index of the current cell.
    pub pointer: int,
    /// The index of the instruction to execute next.
    pub cursor: int,
}

/// What the instruction under the cursor asks of the outside.
#[derive(Debug, Clone, Copy, PartialEq, Eq, Structural)]
pub enum Effect {
    /// The cursor is behind the last instruction.
    Halted,
    /// The instruction ran without any transfer.
    Stepped,
    /// The instruction ran, and this byte is to be written.
    Output(u8),
    /// The instruction needs a byte; nothing has changed.
    NeedsInput,
}

/// The pointer after a displacement, wrapped into the tape.
pub open spec fn wrap(pointer: int, delta: int, len: int) -> int {
    (pointer + delta) % len
}

/// The cursor after a jump: behind the target, and never further than
/// behind the last instruction.
pub open spec fn land(target: int, len: int) -> int {
    if target + 1 <= len {
        target + 1
    } else {
        len
    }
}

impl Machine {
    /// The pointer is on the tape and the cursor in or just behind the
    /// program.
    pub open spec fn valid(self, ir: Seq<Instruction>) -> bool {
        &&& 0 <= self.pointer < self.tape.len()
        &&& 0 <= self.cursor <= ir.len()
    }

    /// The current cell.
    pub open spec fn cell(self) -> u8 {
        self.tape[self.pointer]
    }

    /// The cursor is behind the last instruction.
    pub open spec fn halted(self, ir: Seq<Instruction>) -> bool {
        self.cursor >= ir.len()
    }

    /// The same state with the current cell set.
    pub open spec fn store(self, value: u8) -> Machine {
        Machine { tape: self.tape.update(self.pointer, value), ..self }
    }

    /// The same state with the cursor on the next instruction.
    pub open spec fn advance(self) -> Machine {
        Machine { cursor: self.cursor + 1, ..self }
    }

    /// What the instruction under the cursor asks of the outside.
    pub open spec fn effect(self, ir: Seq<Instruction>) -> Effect {
        if self.halted(ir) {
            Effect::Halted
        } else {
            match ir[self.cursor] {
                Instruction::In => Effect::NeedsInput,
                Instruction::Out => Effect::Output(self.cell()),
                _ => Effect::Stepped,
            }
        }
    }

    /// The state after the instruction under the cursor, where that is no
    /// `In`. A halted machine stays as it is, and so does one at an `In`.
    ///
    /// `MoveUntilZero` moves once and keeps the cursor while the cell is not
    /// zero, and passes on when it is.
    pub open spec fn step(self, ir: Seq<Instruction>) -> Machine {
        let len = self.tape.len() as int;
        if self.halted(ir) {
            self
        } else {
            match ir[self.cursor] {
                Instruction::Add(n) => self.store(self.cell().wrapping_add(n)).advance(),
                Instruction::Move(n) => Machine {
                    pointer: wrap(self.pointer, n as int, len),
                    ..self
                }.advance(),
                Instruction::In => self,
                Instruction::Out => self.advance(),
                Instruction::JumpIfZero(target) => if self.cell() == 0 {
                    Machine { cursor: land(target as int, ir.len() as int), ..self }
                } else {
                    self.advance()
                },
                Instruction::JumpIfNotZero(target) => if self.cell() != 0 {
                    Machine { cursor: land(target as int, ir.len() as int), ..self }
                } else {
                    self.advance()
                },
                Instruction::Clear => self.store(0).advance(),
                Instruction::Multiply(offset, factor) => {
                    let to = wrap(self.pointer, offset as int, len);
                    let sum = self.tape[to].wrapping_add(self.cell().wrapping_mul(factor));
                    Machine { tape: self.tape.update(to, sum), ..self }.store(0).advance()
                },
                Instruction::MoveUntilZero(stride) => if self.cell() == 0 {
                    self.advance()
                } else {
                    Machine { pointer: wrap(self.pointer, stride as int, len), ..self }
                },
            }
        }
    }

    /// The state after an `In` under the cursor has received `byte`. Where
    /// the cursor is not on an `In` nothing changes.
    pub open spec fn receive(self, ir: Seq<Instruction>, byte: u8) -> Machine {
        if !self.halted(ir) && ir[self.cursor] is In {
            self.store(byte).advance()
        } else {
            self
        }
    }
}

/// A machine together with its streams.
pub struct Session {
    /// The machine.
    pub machine: Machine,
    /// How many bytes of the input have been read.
    pub consumed: int,
    /// The bytes written so far.
    pub output: Seq<u8>,
}

/// Why a run has come to rest.
#[derive(Debug, Clone, Copy, PartialEq, Eq, Structural)]
pub enum Stop {
    /// The program has ended.
    Finished,
    /// An `In` found the input at its end.
    InputExhausted,
    /// The allowed number of steps is used up.
    StepLimit,
}

impl Session {
    /// The session can go no further: the program has ended, or it asks
    /// for a byte that the input does not have.
    pub open spec fn at_rest(self, ir: Seq<Instruction>, input: Seq<u8>) -> bool {
        match self.machine.effect(ir) {
            Effect::Halted => true,
            Effect::NeedsInput => self.consumed >= input.len(),
            _ => false,
        }
    }

    /// The session after the instruction under the cursor.
    pub open spec fn step(self, ir: Seq<Instruction>, input: Seq<u8>) -> Session {
        match self.machine.effect(ir) {
            Effect::Halted => self,
            Effect::NeedsInput => if self.consumed < input.len() {
                Session {
                    machine: self.machine.receive(ir, input[self.consumed]),
                    consumed: self.consumed + 1,
                    ..self
                }
            } else {
                self
            },
            Effect::Output(byte) => Session {
                machine: self.machine.step(ir),
                output: self.output.push(byte),
                ..self
            },
            Effect::Stepped => Session { machine: self.machine.step(ir), ..self },
        }
    }

    /// The session after at most `steps` instructions, fewer if it comes to
    /// rest before.
    pub open spec fn run(self, ir: Seq<Instruction>, input: Seq<u8>, steps: nat) -> Session
        decreases steps,
    {
        if steps == 0 || self.at_rest(ir, input) {
            self
        } else {
            self.step(ir, input).run(ir, input, (steps - 1) as nat)
        }
    }

    /// Why the session does not go on, given that it stopped after a run
    /// with a step limit.
    pub open spec fn stop(self, ir: Seq<Instruction>, input: Seq<u8>) -> Stop {
        match self.machine.effect(ir) {
            Effect::Halted => Stop::Finished,
            Effect::NeedsInput => if self.consumed >= input.len() {
                Stop::InputExhausted
            } else {
                Stop::StepLimit
            },
            _ => Stop::StepLimit,
        }
    }
}

/// A step keeps the pointer on the tape, the cursor in or just behind the
/// program, and the length of the tape.
pub proof fn lemma_step_valid(m: Machine, ir: Seq<Instruction>)
    requires
        m.valid(ir),
    ensures
        m.step(ir).valid(ir),
        m.step(ir).tape.len() == m.tape.len(),
{
}

/// Receiving a byte keeps the pointer on the tape, the cursor in or just
/// behind the program, and the length of the tape.
pub proof fn lemma_receive_valid(m: Machine, ir: Seq<Instruction>, byte: u8)
    requires
        m.valid(ir),
    ensures
        m.receive(ir, byte).valid(ir),
        m.receive(ir, byte).tape.len() == m.tape.len(),
{
}

/// An `Add` changes the current cell by its amount modulo 256 and nothing
/// else but the cursor.
pub proof fn lemma_add_wraps_modulo_256(m: Machine, ir: Seq<Instruction>, amount: u8)
    requires
        m.valid(ir),
        !m.halted(ir),
        ir[m.cursor] == Instruction::Add(amount),
    ensures
        m.step(ir).cell() == (m.cell() + amount) % 256,
        m.step(ir).pointer == m.pointer,
        m.step(ir).tape == m.tape.update(m.pointer, m.step(ir).cell()),
        m.step(ir).cursor == m.cursor + 1,
{
}

/// A `Move` displaces the pointer modulo the length of the tape, to the
/// right and to the left, and changes nothing else but the cursor. One step
/// left from the first cell is the last cell, and one step right from the
/// last cell is the first.
pub proof fn lemma_move_wraps_modulo_length(m: Machine, ir: Seq<Instruction>, delta: isize)
    requires
        m.valid(ir),
        !m.halted(ir),
        ir[m.cursor] == Instruction::Move(delta),
    ensures
        m.step(ir).pointer == (m.pointer + delta) % (m.tape.len() as int),
        0 <= m.step(ir).pointer < m.tape.len(),
        m.step(ir).tape == m.tape,
        m.step(ir).cursor == m.cursor + 1,
        m.pointer == 0 && delta == -1 ==> m.step(ir).pointer == m.tape.len() - 1,
        m.pointer == m.tape.len() - 1 && delta == 1 ==> m.step(ir).pointer == 0,
        0 <= m.pointer + delta < m.tape.len() ==> m.step(ir).pointer == m.pointer + delta,
{
    let len = m.tape.len() as int;
    if m.pointer == 0 && delta == -1 {
        vstd::arithmetic::div_mod::lemma_fundamental_div_mod_converse(-1, len, -1, len - 1);
    }
    if m.pointer == len - 1 && delta == 1 {
        vstd::arithmetic::div_mod::lemma_mod_self_0(len);
    }
    if 0 <= m.pointer + delta < len {
        vstd::arithmetic::div_mod::lemma_small_mod((m.pointer + delta) as nat, len as nat);
    }
}

} // verus!
