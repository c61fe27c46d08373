//! How a function of basic blocks runs: the meaning of the operations and
//! terminators that a program is lowered to.
//!
//! What `getchar` hands back at the end of the input is not described: a
//! read that finds no byte left is where a run is taken to rest, as the
//! interpreter rests there.

use vstd::prelude::*;
use crate::interpreter::machine::Stop;
use super::blocks::{BlockView, Op, Terminator};

verus! {

/// The state of a running function.
pub struct Frame {
    /// The cells.
    pub tape: Seq<u8>,
    /// The index of the current cell.
    pub pointer: int,
    /// The index of the block that runs.
    pub block: int,
    /// The index in that block of the operation to execute next; the number
    /// of operations if the terminator is next.
    pub at: int,
    /// How many bytes of the input have been read.
    pub consumed: int,
    /// The bytes written so far.
    pub output: Seq<u8>,
}

impl Frame {
    /// The current cell.
    pub open spec fn cell(self) -> u8 {
        self.tape[self.pointer]
    }

    /// The frame in the same block, behind the operation just executed.
    pub open spec fn next(self) -> Frame {
        Frame { at: self.at + 1, ..self }
    }

    /// The frame at the start of another block.
    pub open spec fn enter(self, block: int) -> Frame {
        Frame { block, at: 0, ..self }
    }

    /// The function can go no further: it returns, or it reads where the
    /// input has no byte left.
    pub open spec fn at_rest(self, blocks: Seq<BlockView>, input: Seq<u8>) -> bool {
        let block = blocks[self.block];
        if self.at < block.ops.len() {
            block.ops[self.at] is ReadCell && self.consumed >= input.len()
        } else {
            block.terminator is Return
        }
    }

    /// The frame after the operation or the terminator that is next.
    pub open spec fn step(self, blocks: Seq<BlockView>, input: Seq<u8>) -> Frame {
        let block = blocks[self.block];
        let len = self.tape.len() as int;
        if self.at < block.ops.len() {
            match block.ops[self.at] {
                Op::AddCell(n) => Frame {
                    tape: self.tape.update(self.pointer, self.cell().wrapping_add(n)),
                    ..self
                }.next(),
                Op::MovePointer(by) => Frame { pointer: (self.pointer + by) % len, ..self }.next(),
                Op::ReadCell => if self.consumed < input.len() {
                    Frame {
                        tape: self.tape.update(self.pointer, input[self.consumed]),
                        consumed: self.consumed + 1,
                        ..self
                    }.next()
                } else {
                    self
                },
                Op::WriteCell => Frame { output: self.output.push(self.cell()), ..self }.next(),
                Op::ClearCell => Frame { tape: self.tape.update(self.pointer, 0), ..self }.next(),
                Op::MultiplyInto(by, factor) => {
                    let to = (self.pointer + by) % len;
                    let sum = self.tape[to].wrapping_add(self.cell().wrapping_mul(factor));
                    Frame {
                        tape: self.tape.update(to, sum).update(self.pointer, 0),
                        ..self
                    }.next()
                },
            }
        } else {
            match block.terminator {
                Terminator::Return => self,
                Terminator::Branch(to) => self.enter(to as int),
                Terminator::BranchOnCell(nonzero, zero) => if self.cell() != 0 {
                    self.enter(nonzero as int)
                } else {
                    self.enter(zero as int)
                },
            }
        }
    }

    /// The frame after at most `steps` steps, fewer if it comes to rest
    /// before.
    pub open spec fn run(self, blocks: Seq<BlockView>, input: Seq<u8>, steps: nat) -> Frame
        decreases steps,
    {
        if steps == 0 || self.at_rest(blocks, input) {
            self
        } else {
            self.step(blocks, input).run(blocks, input, (steps - 1) as nat)
        }
    }

    /// Why the frame does not go on, given that it stopped after a run with
    /// a step limit.
    pub open spec fn stop(self, blocks: Seq<BlockView>, input: Seq<u8>) -> Stop {
        let block = blocks[self.block];
        if self.at < block.ops.len() {
            if block.ops[self.at] is ReadCell && self.consumed >= input.len() {
                Stop::InputExhausted
            } else {
                Stop::StepLimit
            }
        } else if block.terminator is Return {
            Stop::Finished
        } else {
            Stop::StepLimit
        }
    }
}

/// A step before a run.
pub(crate) proof fn lemma_frame_step_then_run(
    f: Frame,
    blocks: Seq<BlockView>,
    input: Seq<u8>,
    steps: nat,
)
    requires
        !f.at_rest(blocks, input),
    ensures
        f.run(blocks, input, steps + 1) == f.step(blocks, input).run(blocks, input, steps),
{
}

} // verus!
