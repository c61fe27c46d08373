//! The reference interpreter: a tape, a pointer and a cursor over the
//! instructions.

pub mod machine;

use vstd::prelude::*;
use vstd::arithmetic::div_mod::{
    lemma_add_mod_noop,
    lemma_fundamental_div_mod,
    lemma_fundamental_div_mod_converse,
    lemma_small_mod,
};
use crate::parser::instruction::Instruction;
use machine::{wrap, Effect, Machine, Session, Stop};

verus! {

/// An interpreter over a tape of `N` cells.
#[derive(Debug)]
pub struct Interpreter<const N: usize> {
    memory: [u8; N],
    memptr: usize,
    instructions: Vec<Instruction>,
    instptr: usize,
}

/// What a run over an input held in memory came to.
#[derive(Debug, Clone, PartialEq, Eq)]
pub struct Report {
    /// The bytes written, in order.
    pub output: Vec<u8>,
    /// How many bytes of the input were read.
    pub consumed: usize,
    /// Why the run came to rest.
    pub stop: Stop,
}

/// The displacement `delta` as a number of cells to go right on a tape of
/// `len` cells.
pub fn wrap_offset(delta: isize, len: usize) -> (offset: usize)
    requires
        0 < len <= isize::MAX,
    ensures
        offset == (delta as int) % (len as int),
        offset < len,
{
    if delta >= 0 {
        let offset = (delta as usize) % len;
        offset
    } else {
        let back = (-(delta + 1)) as usize;
        let rest = back % len;
        proof {
            let l = len as int;
            let q = (back as int) / l;
            lemma_fundamental_div_mod(back as int, l);
            assert(delta as int == l * (-(q + 1)) + (l - 1 - rest)) by (nonlinear_arith)
                requires
                    back as int == l * q + rest,
                    delta as int == -(back as int) - 1,
            ;
            lemma_fundamental_div_mod_converse(delta as int, l, -(q + 1), l - 1 - rest);
        }
        len - 1 - rest
    }
}

impl<const N: usize> View for Interpreter<N> {
    type V = Machine;

    closed spec fn view(&self) -> Machine {
        Machine {
            tape: self.memory@,
            pointer: self.memptr as int,
            cursor: self.instptr as int,
        }
    }
}

impl<const N: usize> Clone for Interpreter<N> {
    fn clone(&self) -> (copy: Self)
        ensures
            copy@ == self@,
            copy.program() == self.program(),
    {
        proof {
            use_type_invariant(self);
        }
        let instructions = self.instructions.clone();
        assert(instructions@ =~= self.instructions@);
        Self { memory: self.memory, memptr: self.memptr, instructions, instptr: self.instptr }
    }
}

impl<const N: usize> Interpreter<N> {
    #[verifier::type_invariant]
    spec fn inv(&self) -> bool {
        &&& self.memptr < N
        &&& N <= isize::MAX
        &&& self.instptr <= self.instructions@.len()
    }

    /// The program that the interpreter runs.
    pub closed spec fn program(&self) -> Seq<Instruction> {
        self.instructions@
    }

    /// An interpreter at the start of `instructions`, on a tape of zeros
    /// with the pointer on the first cell.
    pub fn new(instructions: Vec<Instruction>) -> (interpreter: Self)
        requires
            0 < N <= isize::MAX,
        ensures
            interpreter.program() == instructions@,
            interpreter@ == (Machine { tape: Seq::new(N as nat, |i: int| 0u8), pointer: 0, cursor: 0 }),
            interpreter@.valid(interpreter.program()),
    {
        let interpreter = Self { memory: [0u8; N], memptr: 0, instructions, instptr: 0 };
        assert(interpreter.memory@ =~= Seq::new(N as nat, |i: int| 0u8));
        interpreter
    }

    /// The cells.
    pub fn memory(&self) -> (cells: &[u8; N])
        ensures
            cells@ == self@.tape,
            self@.valid(self.program()),
    {
        proof {
            use_type_invariant(self);
        }
        &self.memory
    }

    /// The index of the current cell.
    pub fn pointer(&self) -> (pointer: usize)
        ensures
            pointer == self@.pointer,
            pointer < N,
    {
        proof {
            use_type_invariant(self);
        }
        self.memptr
    }

    /// The index of the instruction to execute next.
    pub fn cursor(&self) -> (cursor: usize)
        ensures
            cursor == self@.cursor,
    {
        self.instptr
    }

    /// What the instruction under the cursor asks of the outside, without
    /// executing it.
    pub fn pending(&self) -> (effect: Effect)
        ensures
            effect == self@.effect(self.program()),
    {
        proof {
            use_type_invariant(self);
        }
        if self.instptr >= self.instructions.len() {
            Effect::Halted
        } else {
            match self.instructions[self.instptr] {
                Instruction::In => Effect::NeedsInput,
                Instruction::Out => Effect::Output(self.memory[self.memptr]),
                _ => Effect::Stepped,
            }
        }
    }

    fn jump(&mut self, target: usize)
        ensures
            final(self).program() == old(self).program(),
            final(self)@ == (Machine {
                cursor: machine::land(target as int, old(self).program().len() as int),
                ..old(self)@
            }),
    {
        proof {
            use_type_invariant(&*self);
        }
        if target < self.instructions.len() {
            self.instptr = target + 1;
        } else {
            self.instptr = self.instructions.len();
        }
    }

    fn shift(&mut self, delta: isize)
        ensures
            final(self).program() == old(self).program(),
            final(self)@ == (Machine {
                pointer: wrap(old(self)@.pointer, delta as int, N as int),
                ..old(self)@
            }),
    {
        let to = self.target(delta);
        proof {
            use_type_invariant(&*self);
        }
        self.memptr = to;
    }

    fn target(&self, delta: isize) -> (to: usize)
        ensures
            to == wrap(self@.pointer, delta as int, N as int),
            to < N,
    {
        proof {
            use_type_invariant(self);
        }
        let offset = wrap_offset(delta, N);
        let to = (self.memptr + offset) % N;
        proof {
            let n = N as int;
            lemma_add_mod_noop(self.memptr as int, delta as int, n);
            lemma_small_mod(self.memptr as nat, N as nat);
        }
        to
    }

    /// Executes the instruction under the cursor, unless it is an `In` or
    /// the program has ended, and says what it asks of the outside: a byte
    /// to write for an `Out`, a byte to `receive` for an `In`.
    pub fn step(&mut self) -> (effect: Effect)
        ensures
            final(self).program() == old(self).program(),
            effect == old(self)@.effect(old(self).program()),
            final(self)@ == old(self)@.step(old(self).program()),
    {
        proof {
            use_type_invariant(&*self);
        }
        if self.instptr >= self.instructions.len() {
            return Effect::Halted;
        }
        let instruction = self.instructions[self.instptr];
        let cell = self.memory[self.memptr];
        match instruction {
            Instruction::Add(n) => {
                self.memory[self.memptr] = cell.wrapping_add(n);
                self.instptr += 1;
                Effect::Stepped
            },
            Instruction::Move(n) => {
                self.shift(n);
                proof {
                    use_type_invariant(&*self);
                }
                self.instptr += 1;
                Effect::Stepped
            },
            Instruction::In => Effect::NeedsInput,
            Instruction::Out => {
                self.instptr += 1;
                Effect::Output(cell)
            },
            Instruction::JumpIfZero(to) => {
                if cell == 0 {
                    self.jump(to);
                } else {
                    self.instptr += 1;
                }
                Effect::Stepped
            },
            Instruction::JumpIfNotZero(to) => {
                if cell != 0 {
                    self.jump(to);
                } else {
                    self.instptr += 1;
                }
                Effect::Stepped
            },
            Instruction::Clear => {
                self.memory[self.memptr] = 0;
                self.instptr += 1;
                Effect::Stepped
            },
            Instruction::Multiply(offset, by) => {
                let to = self.target(offset);
                let imm = cell.wrapping_mul(by);
                self.memory[to] = self.memory[to].wrapping_add(imm);
                self.memory[self.memptr] = 0;
                self.instptr += 1;
                Effect::Stepped
            },
            Instruction::MoveUntilZero(n) => {
                if cell == 0 {
                    self.instptr += 1;
                } else {
                    self.shift(n);
                }
                Effect::Stepped
            },
        }
    }

    /// Hands `byte` to the `In` under the cursor, which stores it and
    /// passes on. Returns whether there was an `In` to take it.
    pub fn receive(&mut self, byte: u8) -> (taken: bool)
        ensures
            final(self).program() == old(self).program(),
            taken == (old(self)@.effect(old(self).program()) == Effect::NeedsInput),
            final(self)@ == old(self)@.receive(old(self).program(), byte),
    {
        proof {
            use_type_invariant(&*self);
        }
        if self.instptr >= self.instructions.len() {
            return false;
        }
        match self.instructions[self.instptr] {
            Instruction::In => {
                self.memory[self.memptr] = byte;
                self.instptr += 1;
                true
            },
            _ => false,
        }
    }

    /// Runs the program over `input` for at most `limit` steps, or until it
    /// ends or asks for a byte behind the end of `input`.
    pub fn run(&mut self, input: &[u8], limit: usize) -> (report: Report)
        ensures
            final(self).program() == old(self).program(),
            ({
                let start = Session { machine: old(self)@, consumed: 0, output: Seq::empty() };
                let end = start.run(old(self).program(), input@, limit as nat);
                &&& final(self)@ == end.machine
                &&& report.output@ == end.output
                &&& report.consumed == end.consumed
                &&& report.stop == end.stop(old(self).program(), input@)
            }),
    {
        let ghost ir = self.program();
        let ghost start = Session { machine: self@, consumed: 0, output: Seq::empty() };
        let mut output: Vec<u8> = Vec::new();
        let mut consumed: usize = 0;
        let mut left = limit;
        loop
            invariant
                self.program() == ir,
                consumed <= input@.len(),
                start.run(ir, input@, limit as nat) == (Session {
                    machine: self@,
                    consumed: consumed as int,
                    output: output@,
                }).run(ir, input@, left as nat),
            ensures
                self.program() == ir,
                consumed <= input@.len(),
                left == 0 || (Session {
                    machine: self@,
                    consumed: consumed as int,
                    output: output@,
                }).at_rest(ir, input@),
                start.run(ir, input@, limit as nat) == (Session {
                    machine: self@,
                    consumed: consumed as int,
                    output: output@,
                }),
            decreases left,
        {
            if left == 0 {
                break ;
            }
            match self.pending() {
                Effect::Halted => {
                    break ;
                },
                Effect::NeedsInput => {
                    if consumed >= input.len() {
                        break ;
                    }
                    self.receive(input[consumed]);
                    consumed += 1;
                },
                Effect::Output(byte) => {
                    self.step();
                    output.push(byte);
                },
                Effect::Stepped => {
                    self.step();
                },
            }
            left -= 1;
        }
        let stop = match self.pending() {
            Effect::Halted => Stop::Finished,
            Effect::NeedsInput => if consumed >= input.len() {
                Stop::InputExhausted
            } else {
                Stop::StepLimit
            },
            _ => Stop::StepLimit,
        };
        Report { output, consumed, stop }
    }
}

} // verus!
