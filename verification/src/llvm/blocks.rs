//! The block-structured form that a program is lowered to, and what the
//! lowering of a program is.
//!
//! A function is a list of basic blocks; block 0 is the entry. A block is a
//! list of operations on the tape followed by one terminator. Every loop of
//! the program becomes three blocks in a row: a start block that tests the
//! current cell, a body block, and an end block where execution goes on
//! after the loop.

use vstd::prelude::*;
use crate::parser::instruction::Instruction;

verus! {

/// One operation on the tape and the pointer.
#[derive(Debug, Clone, Copy, PartialEq, Eq, Structural)]
pub enum Op {
    /// Add to the current cell, modulo 256.
    AddCell(u8),
    /// Replace the pointer by the remainder of the pointer plus this
    /// offset by the tape length. The offset is less than the tape length.
    MovePointer(u64),
    /// Call `getchar` and store what it returns in the current cell.
    ReadCell,
    /// Call `putchar` with the current cell.
    WriteCell,
    /// Store zero in the current cell.
    ClearCell,
    /// Add the current cell times the factor to the cell at the remainder
    /// of the pointer plus the offset by the tape length, then store zero
    /// in the current cell. The offset is less than the tape length.
    MultiplyInto(u64, u8),
}

/// How a block ends.
#[derive(Debug, Clone, Copy, PartialEq, Eq, Structural)]
pub enum Terminator {
    /// Return zero from the function.
    Return,
    /// Go to the block with this index.
    Branch(usize),
    /// Go to the first block if the current cell is not zero, and to the
    /// second if it is.
    BranchOnCell(usize, usize),
}

/// The part that a block plays.
#[derive(Debug, Clone, Copy, PartialEq, Eq, Structural)]
pub enum BlockKind {
    /// Where the function starts.
    Entry,
    /// The test at the head of a loop.
    LoopStart,
    /// The inside of a loop.
    LoopBody,
    /// What follows a loop.
    LoopEnd,
}

/// A basic block.
#[derive(Debug, Clone, PartialEq, Eq)]
pub struct Block {
    /// The part that the block plays, which names it.
    pub kind: BlockKind,
    /// The operations, in order.
    pub ops: Vec<Op>,
    /// How the block ends.
    pub terminator: Terminator,
}

/// A basic block with its operations as a sequence.
pub struct BlockView {
    /// The part that the block plays.
    pub kind: BlockKind,
    /// The operations, in order.
    pub ops: Seq<Op>,
    /// How the block ends.
    pub terminator: Terminator,
}

impl View for Block {
    type V = BlockView;

    open spec fn view(&self) -> BlockView {
        BlockView { kind: self.kind, ops: self.ops@, terminator: self.terminator }
    }
}

/// The blocks of a list, each with its operations as a sequence.
pub open spec fn views(blocks: Seq<Block>) -> Seq<BlockView> {
    Seq::new(blocks.len(), |i: int| blocks[i]@)
}

/// A loop under construction: the indices of its start block and of its
/// end block.
pub type OpenBlocks = (usize, usize);

/// A function under construction.
pub struct Lowering {
    /// The blocks made so far.
    pub blocks: Seq<BlockView>,
    /// The block that operations are appended to.
    pub current: int,
    /// The loops that are open, the innermost last.
    pub open_loops: Seq<OpenBlocks>,
}

/// A block without operations that returns.
pub open spec fn empty_block(kind: BlockKind) -> BlockView {
    BlockView { kind, ops: Seq::empty(), terminator: Terminator::Return }
}

/// The number of cells to go right for a displacement on a tape of
/// `length` cells.
pub open spec fn offset_on(delta: isize, length: u64) -> u64 {
    ((delta as int) % (length as int)) as u64
}

impl Lowering {
    /// Only the entry block, which is empty.
    pub open spec fn start() -> Lowering {
        Lowering {
            blocks: seq![empty_block(BlockKind::Entry)],
            current: 0,
            open_loops: Seq::empty(),
        }
    }

    /// One more operation at the end of the current block.
    pub open spec fn append(self, op: Op) -> Lowering {
        let block = self.blocks[self.current];
        Lowering {
            blocks: self.blocks.update(
                self.current,
                BlockView { ops: block.ops.push(op), ..block },
            ),
            ..self
        }
    }

    /// The current block with another terminator.
    pub open spec fn terminate(self, terminator: Terminator) -> Lowering {
        let block = self.blocks[self.current];
        Lowering {
            blocks: self.blocks.update(self.current, BlockView { terminator, ..block }),
            ..self
        }
    }

    /// A new loop: the current block goes to the start block, which goes
    /// to the body if the cell is not zero and to the end block if it is.
    /// The body becomes the current block.
    pub open spec fn open_loop(self) -> Lowering {
        let first = self.blocks.len() as int;
        let start = BlockView {
            kind: BlockKind::LoopStart,
            ops: Seq::empty(),
            terminator: Terminator::BranchOnCell((first + 1) as usize, (first + 2) as usize),
        };
        let branched = self.terminate(Terminator::Branch(first as usize));
        Lowering {
            blocks: branched.blocks.push(start).push(empty_block(BlockKind::LoopBody)).push(
                empty_block(BlockKind::LoopEnd),
            ),
            current: first + 1,
            open_loops: self.open_loops.push((first as usize, (first + 2) as usize)),
        }
    }

    /// The innermost loop is closed: the current block goes back to its
    /// start block, and its end block becomes the current block. Without an
    /// open loop nothing changes.
    pub open spec fn close_loop(self) -> Lowering {
        if self.open_loops.len() == 0 {
            self
        } else {
            let (start, end) = self.open_loops.last();
            Lowering {
                blocks: self.terminate(Terminator::Branch(start)).blocks,
                current: end as int,
                open_loops: self.open_loops.drop_last(),
            }
        }
    }

    /// The function after one more instruction, for a tape of `length`
    /// cells.
    pub open spec fn lower(self, instruction: Instruction, length: u64) -> Lowering {
        match instruction {
            Instruction::Add(n) => self.append(Op::AddCell(n)),
            Instruction::Move(delta) => self.append(Op::MovePointer(offset_on(delta, length))),
            Instruction::In => self.append(Op::ReadCell),
            Instruction::Out => self.append(Op::WriteCell),
            Instruction::JumpIfZero(_) => self.open_loop(),
            Instruction::JumpIfNotZero(_) => self.close_loop(),
            Instruction::Clear => self.append(Op::ClearCell),
            Instruction::Multiply(offset, factor) => self.append(
                Op::MultiplyInto(offset_on(offset, length), factor),
            ),
            Instruction::MoveUntilZero(stride) => self.open_loop().append(
                Op::MovePointer(offset_on(stride, length)),
            ).close_loop(),
        }
    }

    /// Every index that the function under construction holds is that of a
    /// block, and the loops that are open have their start before their end.
    pub open spec fn well_formed(self) -> bool {
        &&& 0 <= self.current < self.blocks.len()
        &&& targets_in_range(self.blocks)
        &&& forall|j: int|
            0 <= j < self.open_loops.len() ==> (#[trigger] self.open_loops[j]).0
                < self.open_loops[j].1 < self.blocks.len()
    }
}

/// Every terminator names blocks of the function.
pub open spec fn targets_in_range(blocks: Seq<BlockView>) -> bool {
    forall|i: int|
        0 <= i < blocks.len() ==> match (#[trigger] blocks[i]).terminator {
            Terminator::Return => true,
            Terminator::Branch(to) => to < blocks.len(),
            Terminator::BranchOnCell(nonzero, zero) => nonzero < blocks.len() && zero
                < blocks.len(),
        }
}

/// The function after the first `k` instructions of a program.
pub open spec fn lower_prefix(ir: Seq<Instruction>, k: int, length: u64) -> Lowering
    decreases k,
{
    if k <= 0 {
        Lowering::start()
    } else {
        lower_prefix(ir, k - 1, length).lower(ir[k - 1], length)
    }
}

/// The blocks that a whole program is lowered to.
pub open spec fn lower_program(ir: Seq<Instruction>, length: u64) -> Seq<BlockView> {
    lower_prefix(ir, ir.len() as int, length).blocks
}

/// Appending an operation keeps the function well formed.
pub(crate) proof fn lemma_append_well_formed(state: Lowering, op: Op)
    requires
        state.well_formed(),
    ensures
        state.append(op).well_formed(),
        state.append(op).blocks.len() == state.blocks.len(),
{
    let after = state.append(op);
    assert forall|i: int| 0 <= i < after.blocks.len() implies match (
    #[trigger] after.blocks[i]).terminator {
        Terminator::Return => true,
        Terminator::Branch(to) => to < after.blocks.len(),
        Terminator::BranchOnCell(nonzero, zero) => nonzero < after.blocks.len() && zero
            < after.blocks.len(),
    } by {
        assert(after.blocks[i].terminator == state.blocks[i].terminator);
    }
}

/// Opening a loop keeps the function well formed and adds three blocks.
pub(crate) proof fn lemma_open_well_formed(state: Lowering)
    requires
        state.well_formed(),
        state.blocks.len() + 3 <= usize::MAX,
    ensures
        state.open_loop().well_formed(),
        state.open_loop().blocks.len() == state.blocks.len() + 3,
{
    let after = state.open_loop();
    let first = state.blocks.len() as int;
    assert forall|i: int| 0 <= i < after.blocks.len() implies match (
    #[trigger] after.blocks[i]).terminator {
        Terminator::Return => true,
        Terminator::Branch(to) => to < after.blocks.len(),
        Terminator::BranchOnCell(nonzero, zero) => nonzero < after.blocks.len() && zero
            < after.blocks.len(),
    } by {
        if i < first && i != state.current {
            assert(after.blocks[i] == state.blocks[i]);
        }
    }
    assert forall|j: int| 0 <= j < after.open_loops.len() implies (
    #[trigger] after.open_loops[j]).0 < after.open_loops[j].1 < after.blocks.len() by {
        if j < state.open_loops.len() {
            assert(after.open_loops[j] == state.open_loops[j]);
        }
    }
}

/// Closing a loop keeps the function well formed and the number of blocks.
pub(crate) proof fn lemma_close_well_formed(state: Lowering)
    requires
        state.well_formed(),
    ensures
        state.close_loop().well_formed(),
        state.close_loop().blocks.len() == state.blocks.len(),
{
    let after = state.close_loop();
    if state.open_loops.len() > 0 {
        let (start, end) = state.open_loops.last();
        assert(state.open_loops[state.open_loops.len() - 1].0 < state.open_loops[
            state.open_loops.len() - 1].1);
        assert forall|i: int| 0 <= i < after.blocks.len() implies match (
        #[trigger] after.blocks[i]).terminator {
            Terminator::Return => true,
            Terminator::Branch(to) => to < after.blocks.len(),
            Terminator::BranchOnCell(nonzero, zero) => nonzero < after.blocks.len() && zero
                < after.blocks.len(),
        } by {
            if i != state.current {
                assert(after.blocks[i] == state.blocks[i]);
            }
        }
        assert forall|j: int| 0 <= j < after.open_loops.len() implies (
        #[trigger] after.open_loops[j]).0 < after.open_loops[j].1 < after.blocks.len() by {
            assert(after.open_loops[j] == state.open_loops[j]);
        }
    }
}

} // verus!
