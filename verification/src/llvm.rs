//! The ahead-of-time backend: lowers a program to basic blocks for an
//! external code generator.

pub mod blocks;
pub mod cli;
pub mod faithful;
pub mod placing;
pub mod running;

pub use blocks::{Block, BlockKind, Op, Terminator};
pub use cli::{Cli, Delivery, Emit};

use vstd::prelude::*;
use vstd::arithmetic::div_mod::{lemma_fundamental_div_mod, lemma_fundamental_div_mod_converse};
use crate::parser::instruction::Instruction;
use crate::parser::pairing::{
    check_loops,
    first_end_without_head,
    heads_before,
    lemma_first_end_without_head,
    lemma_first_end_without_head_stays,
    tails_before,
    LoopError,
};
use placing::lowering_fits;
use blocks::{
    lemma_append_well_formed,
    lemma_close_well_formed,
    lemma_open_well_formed,
    lower_prefix,
    lower_program,
    offset_on,
    targets_in_range,
    views,
    Lowering,
    OpenBlocks,
};

verus! {

/// A compiler to basic blocks for a tape of `N` cells.
#[derive(Debug, Clone)]
pub struct Compiler<const N: u64> {
    instructions: Vec<Instruction>,
}

/// A program as one function of basic blocks, with what is to be done
/// with it.
#[derive(Debug, Clone)]
pub struct Module {
    /// The number of cells of the tape, which the function allocates.
    pub tape_length: u64,
    /// The blocks of the function. Block 0 is the entry.
    pub blocks: Vec<Block>,
    /// Whether the optimization passes are to run.
    pub optimize: bool,
    /// What becomes of the compiled function.
    pub delivery: Delivery,
}

/// The number of cells to go right for a displacement on a tape of
/// `length` cells.
pub fn offset(delta: isize, length: u64) -> (offset: u64)
    requires
        0 < length,
    ensures
        offset == offset_on(delta, length),
        offset < length,
{
    if delta >= 0 {
        (delta as u64) % length
    } else {
        let back = (-(delta + 1)) as u64;
        let rest = back % length;
        proof {
            let l = length as int;
            let q = (back as int) / l;
            lemma_fundamental_div_mod(back as int, l);
            assert(delta as int == l * (-(q + 1)) + (l - 1 - rest)) by (nonlinear_arith)
                requires
                    back as int == l * q + rest,
                    delta as int == -(back as int) - 1,
            ;
            lemma_fundamental_div_mod_converse(delta as int, l, -(q + 1), l - 1 - rest);
        }
        length - 1 - rest
    }
}

fn append(blocks: &mut Vec<Block>, current: usize, op: Op, Ghost(state): Ghost<Lowering>)
    requires
        state.well_formed(),
        views(old(blocks)@) == state.blocks,
        current == state.current,
    ensures
        views(final(blocks)@) == state.append(op).blocks,
{
    blocks[current].ops.push(op);
    assert(views(blocks@) =~= state.append(op).blocks);
}

fn terminate(
    blocks: &mut Vec<Block>,
    current: usize,
    terminator: Terminator,
    Ghost(state): Ghost<Lowering>,
)
    requires
        state.well_formed(),
        views(old(blocks)@) == state.blocks,
        current == state.current,
    ensures
        views(final(blocks)@) == state.terminate(terminator).blocks,
{
    blocks[current].terminator = terminator;
    assert(views(blocks@) =~= state.terminate(terminator).blocks);
}

fn open_loop(
    blocks: &mut Vec<Block>,
    current: usize,
    open_loops: &mut Vec<OpenBlocks>,
    Ghost(state): Ghost<Lowering>,
) -> (body: usize)
    requires
        state.well_formed(),
        views(old(blocks)@) == state.blocks,
        current == state.current,
        old(open_loops)@ == state.open_loops,
    ensures
        views(final(blocks)@) == state.open_loop().blocks,
        final(open_loops)@ == state.open_loop().open_loops,
        body == state.open_loop().current,
        state.open_loop().well_formed(),
{
    let ghost first = state.blocks.len() as int;
    blocks.push(
        Block { kind: BlockKind::LoopStart, ops: Vec::new(), terminator: Terminator::Return },
    );
    blocks.push(
        Block { kind: BlockKind::LoopBody, ops: Vec::new(), terminator: Terminator::Return },
    );
    blocks.push(
        Block { kind: BlockKind::LoopEnd, ops: Vec::new(), terminator: Terminator::Return },
    );
    let end = blocks.len() - 1;
    let body = end - 1;
    let start = end - 2;
    blocks[start].terminator = Terminator::BranchOnCell(body, end);
    blocks[current].terminator = Terminator::Branch(start);
    open_loops.push((start, end));
    proof {
        lemma_open_well_formed(state);
        assert(views(blocks@) =~= state.open_loop().blocks);
    }
    body
}

impl<const N: u64> Compiler<N> {
    /// The program that the compiler lowers.
    pub closed spec fn program(&self) -> Seq<Instruction> {
        self.instructions@
    }

    /// A compiler for `instructions`.
    pub fn new(instructions: Vec<Instruction>) -> (compiler: Self)
        ensures
            compiler.program() == instructions@,
    {
        Self { instructions }
    }

    /// Lowers the program to basic blocks, one start, body and end block
    /// for each loop, and says from `config` what is to be done with them.
    /// Fails where the loops of the program do not nest.
    pub fn compile(self, config: &Cli) -> (result: Result<Module, LoopError>)
        requires
            0 < N <= u32::MAX,
        ensures
            result matches Ok(module) ==> {
                &&& check_loops(self.program()) is Ok
                &&& module.tape_length == N
                &&& views(module.blocks@) == lower_program(self.program(), N)
                &&& targets_in_range(views(module.blocks@))
                &&& lowering_fits(self.program(), N)
                &&& module.optimize == config.optimize
                &&& module.delivery == config.delivery_spec()
            },
            result matches Err(error) ==> check_loops(self.program()) == Err::<(), LoopError>(
                error,
            ),
    {
        let ghost ir = self.instructions@;
        let mut blocks: Vec<Block> = Vec::new();
        blocks.push(Block { kind: BlockKind::Entry, ops: Vec::new(), terminator: Terminator::Return });
        let mut current: usize = 0;
        let mut open_loops: Vec<OpenBlocks> = Vec::new();
        let mut i: usize = 0;
        assert(views(blocks@) =~= Lowering::start().blocks);
        assert(blocks@.len() == blocks.len());
        while i < self.instructions.len()
            invariant
                0 < N,
                ir == self.instructions@,
                i <= ir.len(),
                views(blocks@) == lower_prefix(ir, i as int, N).blocks,
                current == lower_prefix(ir, i as int, N).current,
                open_loops@ == lower_prefix(ir, i as int, N).open_loops,
                lower_prefix(ir, i as int, N).well_formed(),
                first_end_without_head(ir, i as int) is None,
                open_loops@.len() == heads_before(ir, i as int) - tails_before(ir, i as int),
                forall|k: int|
                    0 <= k <= i ==> (#[trigger] lower_prefix(ir, k, N)).blocks.len() <= usize::MAX,
            decreases ir.len() - i,
        {
            let ghost state = lower_prefix(ir, i as int, N);
            let instruction = self.instructions[i];
            proof {
                lemma_first_end_without_head(ir, i as int);
                lemma_first_end_without_head(ir, i + 1);
            }
            match instruction {
                Instruction::Add(n) => {
                    append(&mut blocks, current, Op::AddCell(n), Ghost(state));
                    proof {
                        lemma_append_well_formed(state, Op::AddCell(n));
                    }
                },
                Instruction::Move(delta) => {
                    let op = Op::MovePointer(offset(delta, N));
                    append(&mut blocks, current, op, Ghost(state));
                    proof {
                        lemma_append_well_formed(state, op);
                    }
                },
                Instruction::In => {
                    append(&mut blocks, current, Op::ReadCell, Ghost(state));
                    proof {
                        lemma_append_well_formed(state, Op::ReadCell);
                    }
                },
                Instruction::Out => {
                    append(&mut blocks, current, Op::WriteCell, Ghost(state));
                    proof {
                        lemma_append_well_formed(state, Op::WriteCell);
                    }
                },
                Instruction::JumpIfZero(_) => {
                    current = open_loop(&mut blocks, current, &mut open_loops, Ghost(state));
                },
                Instruction::JumpIfNotZero(_) => {
                    match open_loops.pop() {
                        Some((start, end)) => {
                            terminate(
                                &mut blocks,
                                current,
                                Terminator::Branch(start),
                                Ghost(state),
                            );
                            current = end;
                            proof {
                                lemma_close_well_formed(state);
                            }
                        },
                        None => {
                            proof {
                                assert(first_end_without_head(ir, i + 1) == Some(i as int));
                                lemma_first_end_without_head_stays(ir, i + 1, ir.len() as int);
                            }
                            return Err(LoopError::EndWithoutHead(i));
                        },
                    }
                },
                Instruction::Clear => {
                    append(&mut blocks, current, Op::ClearCell, Ghost(state));
                    proof {
                        lemma_append_well_formed(state, Op::ClearCell);
                    }
                },
                Instruction::Multiply(to, factor) => {
                    let op = Op::MultiplyInto(offset(to, N), factor);
                    append(&mut blocks, current, op, Ghost(state));
                    proof {
                        lemma_append_well_formed(state, op);
                    }
                },
                Instruction::MoveUntilZero(stride) => {
                    let body = open_loop(&mut blocks, current, &mut open_loops, Ghost(state));
                    let op = Op::MovePointer(offset(stride, N));
                    let ghost opened = state.open_loop();
                    append(&mut blocks, body, op, Ghost(opened));
                    let ghost moved = opened.append(op);
                    proof {
                        lemma_append_well_formed(opened, op);
                    }
                    let popped = open_loops.pop();
                    let (start, end) = popped.unwrap();
                    terminate(&mut blocks, body, Terminator::Branch(start), Ghost(moved));
                    current = end;
                    proof {
                        lemma_close_well_formed(moved);
                        assert(open_loops@ =~= state.open_loops);
                    }
                },
            }
            i += 1;
            assert(views(blocks@).len() == blocks.len());
        }
        proof {
            lemma_first_end_without_head(ir, ir.len() as int);
        }
        if open_loops.len() > 0 {
            return Err(LoopError::HeadWithoutEnd);
        }
        Ok(Module { tape_length: N, blocks, optimize: config.optimize, delivery: config.delivery() })
    }
}

} // verus!
