//! Where the lowering puts each instruction of a program: the block and
//! the place in it, and what the finished function holds there.

use vstd::prelude::*;
use crate::parser::instruction::Instruction;
use crate::parser::nesting::open_heads;
use super::blocks::{
    empty_block,
    lower_prefix,
    lower_program,
    offset_on,
    BlockKind,
    BlockView,
    Lowering,
    Op,
    Terminator,
};

verus! {

/// No state of the lowering holds more blocks than can be counted.
pub open spec fn lowering_fits(ir: Seq<Instruction>, length: u64) -> bool {
    forall|k: int|
        0 <= k <= ir.len() ==> (#[trigger] lower_prefix(ir, k, length)).blocks.len() <= usize::MAX
}

/// The block and the index in it where the lowering puts instruction `i`;
/// for the length of the program, where it puts the return.
pub open spec fn place(ir: Seq<Instruction>, i: int, length: u64) -> (int, int) {
    let state = lower_prefix(ir, i, length);
    (state.current, state.blocks[state.current].ops.len() as int)
}

/// The index of the first block that the lowering makes for instruction
/// `i`, if it makes any.
pub open spec fn first_block(ir: Seq<Instruction>, i: int, length: u64) -> int {
    lower_prefix(ir, i, length).blocks.len() as int
}

/// The operation that an instruction without a loop is lowered to.
pub open spec fn op_of(instruction: Instruction, length: u64) -> Op {
    match instruction {
        Instruction::Add(n) => Op::AddCell(n),
        Instruction::Move(delta) => Op::MovePointer(offset_on(delta, length)),
        Instruction::In => Op::ReadCell,
        Instruction::Out => Op::WriteCell,
        Instruction::Multiply(offset, factor) => Op::MultiplyInto(
            offset_on(offset, length),
            factor,
        ),
        _ => Op::ClearCell,
    }
}

/// The instruction is lowered to one operation.
pub open spec fn is_op(instruction: Instruction) -> bool {
    !(instruction is JumpIfZero) && !(instruction is JumpIfNotZero) && !(instruction
        is MoveUntilZero)
}

/// The blocks that are still worked on are the current one and the end
/// blocks of the open loops; they return, and the end blocks are empty.
pub open spec fn settled(state: Lowering) -> bool {
    &&& state.well_formed()
    &&& state.blocks[state.current].terminator == Terminator::Return
    &&& forall|j: int|
        0 <= j < state.open_loops.len() ==> {
            let (start, end) = #[trigger] state.open_loops[j];
            &&& end == start + 2
            &&& state.blocks[end as int] == empty_block(BlockKind::LoopEnd)
            &&& (state.current == start + 1 || state.current > end)
        }
    &&& forall|j: int, l: int|
        0 <= j < l < state.open_loops.len() ==> (#[trigger] state.open_loops[j]).1 < (
        #[trigger] state.open_loops[l]).0
}

/// Blocks are only added, operations only appended, and a block that
/// branches stays as it is.
pub open spec fn grows(before: Seq<BlockView>, after: Seq<BlockView>) -> bool {
    &&& before.len() <= after.len()
    &&& forall|b: int|
        0 <= b < before.len() ==> {
            &&& (#[trigger] before[b]).terminator != Terminator::Return ==> after[b] == before[b]
            &&& before[b].ops.len() <= after[b].ops.len()
            &&& forall|n: int|
                0 <= n < before[b].ops.len() ==> #[trigger] after[b].ops[n] == before[b].ops[n]
        }
}

/// Growing is transitive.
pub(crate) proof fn lemma_grows_on(a: Seq<BlockView>, b: Seq<BlockView>, c: Seq<BlockView>)
    requires
        grows(a, b),
        grows(b, c),
    ensures
        grows(a, c),
{
    assert forall|i: int| 0 <= i < a.len() implies {
        &&& (#[trigger] a[i]).terminator != Terminator::Return ==> c[i] == a[i]
        &&& a[i].ops.len() <= c[i].ops.len()
        &&& forall|n: int| 0 <= n < a[i].ops.len() ==> #[trigger] c[i].ops[n] == a[i].ops[n]
    } by {
        assert(b[i].ops.len() >= a[i].ops.len());
        assert forall|n: int| 0 <= n < a[i].ops.len() implies #[trigger] c[i].ops[n]
            == a[i].ops[n] by {
            assert(b[i].ops[n] == a[i].ops[n]);
        }
    }
}

/// Appending an operation to a settled state.
pub(crate) proof fn lemma_settled_append(state: Lowering, op: Op)
    requires
        settled(state),
    ensures
        settled(state.append(op)),
        grows(state.blocks, state.append(op).blocks),
        state.append(op).blocks.len() == state.blocks.len(),
        state.append(op).blocks[state.current].ops == state.blocks[state.current].ops.push(op),
{
    let after = state.append(op);
    assert forall|i: int| 0 <= i < after.blocks.len() implies match (
    #[trigger] after.blocks[i]).terminator {
        Terminator::Return => true,
        Terminator::Branch(to) => to < after.blocks.len(),
        Terminator::BranchOnCell(nonzero, zero) => nonzero < after.blocks.len() && zero
            < after.blocks.len(),
    } by {
        assert(after.blocks[i].terminator == state.blocks[i].terminator);
    }
    assert forall|j: int| 0 <= j < after.open_loops.len() implies {
        let (start, end) = #[trigger] after.open_loops[j];
        &&& end == start + 2
        &&& after.blocks[end as int] == empty_block(BlockKind::LoopEnd)
        &&& (after.current == start + 1 || after.current > end)
    } by {
        let (start, end) = state.open_loops[j];
        assert(end != state.current);
    }
}

/// Opening a loop in a settled state.
pub(crate) proof fn lemma_settled_open(state: Lowering)
    requires
        settled(state),
        state.blocks.len() + 3 <= usize::MAX,
    ensures
        settled(state.open_loop()),
        grows(state.blocks, state.open_loop().blocks),
        state.open_loop().blocks.len() == state.blocks.len() + 3,
        ({
            let first = state.blocks.len() as int;
            let after = state.open_loop();
            &&& after.blocks[state.current].ops == state.blocks[state.current].ops
            &&& after.blocks[state.current].terminator == Terminator::Branch(first as usize)
            &&& after.blocks[first].ops.len() == 0
            &&& after.blocks[first].terminator == Terminator::BranchOnCell(
                (first + 1) as usize,
                (first + 2) as usize,
            )
            &&& after.blocks[first + 1].ops.len() == 0
            &&& after.current == first + 1
            &&& after.open_loops == state.open_loops.push((first as usize, (first + 2) as usize))
        }),
{
    let after = state.open_loop();
    let first = state.blocks.len() as int;
    assert forall|i: int| 0 <= i < after.blocks.len() implies match (
    #[trigger] after.blocks[i]).terminator {
        Terminator::Return => true,
        Terminator::Branch(to) => to < after.blocks.len(),
        Terminator::BranchOnCell(nonzero, zero) => nonzero < after.blocks.len() && zero
            < after.blocks.len(),
    } by {
        if i < first && i != state.current {
            assert(after.blocks[i] == state.blocks[i]);
        }
    }
    assert forall|j: int| 0 <= j < after.open_loops.len() implies (
    #[trigger] after.open_loops[j]).0 < after.open_loops[j].1 < after.blocks.len() by {
        if j < state.open_loops.len() {
            assert(after.open_loops[j] == state.open_loops[j]);
        }
    }
    assert forall|j: int| 0 <= j < after.open_loops.len() implies {
        let (start, end) = #[trigger] after.open_loops[j];
        &&& end == start + 2
        &&& after.blocks[end as int] == empty_block(BlockKind::LoopEnd)
        &&& (after.current == start + 1 || after.current > end)
    } by {
        if j < state.open_loops.len() {
            assert(after.open_loops[j] == state.open_loops[j]);
            let (start, end) = state.open_loops[j];
            assert(end != state.current);
            assert(after.blocks[end as int] == state.blocks[end as int]);
        }
    }
    assert forall|j: int, l: int| 0 <= j < l < after.open_loops.len() implies (
    #[trigger] after.open_loops[j]).1 < (#[trigger] after.open_loops[l]).0 by {
        assert(after.open_loops[j] == state.open_loops[j]);
        if l < state.open_loops.len() {
            assert(after.open_loops[l] == state.open_loops[l]);
        }
    }
    assert forall|b: int| 0 <= b < state.blocks.len() implies {
        &&& (#[trigger] state.blocks[b]).terminator != Terminator::Return ==> after.blocks[b]
            == state.blocks[b]
        &&& state.blocks[b].ops.len() <= after.blocks[b].ops.len()
        &&& forall|n: int|
            0 <= n < state.blocks[b].ops.len() ==> #[trigger] after.blocks[b].ops[n]
                == state.blocks[b].ops[n]
    } by {
        if b != state.current {
            assert(after.blocks[b] == state.blocks[b]);
        }
    }
}

/// Closing the innermost loop in a settled state.
pub(crate) proof fn lemma_settled_close(state: Lowering)
    requires
        settled(state),
        state.open_loops.len() > 0,
    ensures
        settled(state.close_loop()),
        grows(state.blocks, state.close_loop().blocks),
        state.close_loop().blocks.len() == state.blocks.len(),
        ({
            let after = state.close_loop();
            &&& after.blocks[state.current].ops == state.blocks[state.current].ops
            &&& after.blocks[state.current].terminator == Terminator::Branch(
                state.open_loops.last().0,
            )
            &&& after.current == state.open_loops.last().0 + 2
            &&& after.blocks[after.current].ops.len() == 0
            &&& after.open_loops == state.open_loops.drop_last()
        }),
{
    let after = state.close_loop();
    let top = state.open_loops.len() - 1;
    let (start, end) = state.open_loops[top];
    assert(state.open_loops.last() == state.open_loops[top]);
    assert(end != state.current);
    assert forall|i: int| 0 <= i < after.blocks.len() implies match (
    #[trigger] after.blocks[i]).terminator {
        Terminator::Return => true,
        Terminator::Branch(to) => to < after.blocks.len(),
        Terminator::BranchOnCell(nonzero, zero) => nonzero < after.blocks.len() && zero
            < after.blocks.len(),
    } by {
        if i != state.current {
            assert(after.blocks[i] == state.blocks[i]);
        }
    }
    assert forall|j: int| 0 <= j < after.open_loops.len() implies (
    #[trigger] after.open_loops[j]).0 < after.open_loops[j].1 < after.blocks.len() by {
        assert(after.open_loops[j] == state.open_loops[j]);
    }
    assert forall|j: int| 0 <= j < after.open_loops.len() implies {
        let (s, e) = #[trigger] after.open_loops[j];
        &&& e == s + 2
        &&& after.blocks[e as int] == empty_block(BlockKind::LoopEnd)
        &&& (after.current == s + 1 || after.current > e)
    } by {
        assert(after.open_loops[j] == state.open_loops[j]);
        let (s, e) = state.open_loops[j];
        assert(e != state.current);
        assert(state.open_loops[j].1 < state.open_loops[top].0);
    }
    assert forall|j: int, l: int| 0 <= j < l < after.open_loops.len() implies (
    #[trigger] after.open_loops[j]).1 < (#[trigger] after.open_loops[l]).0 by {
        assert(after.open_loops[j] == state.open_loops[j]);
        assert(after.open_loops[l] == state.open_loops[l]);
    }
    assert forall|b: int| 0 <= b < state.blocks.len() implies {
        &&& (#[trigger] state.blocks[b]).terminator != Terminator::Return ==> after.blocks[b]
            == state.blocks[b]
        &&& state.blocks[b].ops.len() <= after.blocks[b].ops.len()
        &&& forall|n: int|
            0 <= n < state.blocks[b].ops.len() ==> #[trigger] after.blocks[b].ops[n]
                == state.blocks[b].ops[n]
    } by {
        if b != state.current {
            assert(after.blocks[b] == state.blocks[b]);
        }
    }
}

/// Lowering one more instruction from a settled state.
pub(crate) proof fn lemma_settled_lower(state: Lowering, instruction: Instruction, length: u64)
    requires
        settled(state),
        state.lower(instruction, length).blocks.len() <= usize::MAX,
    ensures
        settled(state.lower(instruction, length)),
        grows(state.blocks, state.lower(instruction, length).blocks),
{
    match instruction {
        Instruction::JumpIfZero(_) => {
            lemma_settled_open(state);
        },
        Instruction::JumpIfNotZero(_) => {
            if state.open_loops.len() > 0 {
                lemma_settled_close(state);
            }
        },
        Instruction::MoveUntilZero(stride) => {
            let op = Op::MovePointer(offset_on(stride, length));
            let opened = state.open_loop();
            assert(state.terminate(Terminator::Branch(state.blocks.len() as usize)).blocks.len()
                == state.blocks.len());
            lemma_settled_open(state);
            lemma_settled_append(opened, op);
            let moved = opened.append(op);
            assert(moved.open_loops.len() > 0);
            lemma_settled_close(moved);
            lemma_grows_on(state.blocks, opened.blocks, moved.blocks);
            lemma_grows_on(state.blocks, moved.blocks, moved.close_loop().blocks);
        },
        _ => {
            lemma_settled_append(state, op_of(instruction, length));
        },
    }
}

/// Every state of the lowering is settled.
pub(crate) proof fn lemma_settled_prefix(ir: Seq<Instruction>, k: int, length: u64)
    requires
        lowering_fits(ir, length),
        0 <= k <= ir.len(),
    ensures
        settled(lower_prefix(ir, k, length)),
    decreases k,
{
    if k > 0 {
        lemma_settled_prefix(ir, k - 1, length);
        assert(lower_prefix(ir, k, length).blocks.len() <= usize::MAX);
        lemma_settled_lower(lower_prefix(ir, k - 1, length), ir[k - 1], length);
    }
}

/// What the lowering has made after `k` instructions is still there after
/// more.
pub(crate) proof fn lemma_grows_prefix(ir: Seq<Instruction>, k: int, more: int, length: u64)
    requires
        lowering_fits(ir, length),
        0 <= k <= more <= ir.len(),
    ensures
        grows(lower_prefix(ir, k, length).blocks, lower_prefix(ir, more, length).blocks),
    decreases more - k,
{
    if k < more {
        lemma_grows_prefix(ir, k, more - 1, length);
        lemma_settled_prefix(ir, more - 1, length);
        assert(lower_prefix(ir, more, length).blocks.len() <= usize::MAX);
        lemma_settled_lower(lower_prefix(ir, more - 1, length), ir[more - 1], length);
        lemma_grows_on(
            lower_prefix(ir, k, length).blocks,
            lower_prefix(ir, more - 1, length).blocks,
            lower_prefix(ir, more, length).blocks,
        );
    }
}

/// The open loops of the lowering are those of a stack of loop heads, and
/// each has as its start block the first block made for its head.
pub(crate) proof fn lemma_open_loops_follow(ir: Seq<Instruction>, k: int, length: u64)
    requires
        lowering_fits(ir, length),
        0 <= k <= ir.len(),
    ensures
        lower_prefix(ir, k, length).open_loops.len() == open_heads(ir, k).len(),
        forall|j: int|
            0 <= j < open_heads(ir, k).len() ==> (#[trigger] lower_prefix(
                ir,
                k,
                length,
            ).open_loops[j]).0 == first_block(ir, open_heads(ir, k)[j], length),
    decreases k,
{
    if k > 0 {
        lemma_open_loops_follow(ir, k - 1, length);
        lemma_settled_prefix(ir, k - 1, length);
        let before = lower_prefix(ir, k - 1, length);
        let after = lower_prefix(ir, k, length);
        assert(after.blocks.len() <= usize::MAX);
        match ir[k - 1] {
            Instruction::JumpIfZero(_) => {
                lemma_settled_open(before);
                assert forall|j: int| 0 <= j < open_heads(ir, k).len() implies (
                #[trigger] after.open_loops[j]).0 == first_block(
                    ir,
                    open_heads(ir, k)[j],
                    length,
                ) by {
                    if j < before.open_loops.len() {
                        assert(after.open_loops[j] == before.open_loops[j]);
                    }
                }
            },
            Instruction::JumpIfNotZero(_) => {
                if before.open_loops.len() > 0 {
                    lemma_settled_close(before);
                    assert forall|j: int| 0 <= j < open_heads(ir, k).len() implies (
                    #[trigger] after.open_loops[j]).0 == first_block(
                        ir,
                        open_heads(ir, k)[j],
                        length,
                    ) by {
                        assert(after.open_loops[j] == before.open_loops[j]);
                    }
                }
            },
            Instruction::MoveUntilZero(stride) => {
                let op = Op::MovePointer(offset_on(stride, length));
                let opened = before.open_loop();
                assert(before.terminate(
                    Terminator::Branch(before.blocks.len() as usize),
                ).blocks.len() == before.blocks.len());
                lemma_settled_open(before);
                lemma_settled_append(opened, op);
                lemma_settled_close(opened.append(op));
                assert(after.open_loops =~= before.open_loops);
            },
            _ => {},
        }
    }
}

/// Where an instruction that is lowered to one operation is put, the
/// finished function holds that operation, and the next instruction is put
/// behind it.
pub(crate) proof fn lemma_placed_op(ir: Seq<Instruction>, i: int, length: u64)
    requires
        lowering_fits(ir, length),
        0 <= i < ir.len(),
        is_op(ir[i]),
    ensures
        ({
            let (block, at) = place(ir, i, length);
            let blocks = lower_program(ir, length);
            &&& 0 <= block < blocks.len()
            &&& 0 <= at < blocks[block].ops.len()
            &&& blocks[block].ops[at] == op_of(ir[i], length)
            &&& place(ir, i + 1, length) == (block, at + 1)
        }),
{
    let before = lower_prefix(ir, i, length);
    let after = lower_prefix(ir, i + 1, length);
    lemma_settled_prefix(ir, i, length);
    lemma_settled_append(before, op_of(ir[i], length));
    lemma_grows_prefix(ir, i + 1, ir.len() as int, length);
    let (block, at) = place(ir, i, length);
    assert(after.blocks[block].ops[at] == op_of(ir[i], length));
    let blocks = lower_program(ir, length);
    assert(blocks[block].ops[at] == after.blocks[block].ops[at]);
}

/// Where a loop head is put, the block of the finished function ends and
/// goes to the start block of the loop, which tests the cell; the next
/// instruction is put at the start of the body.
pub(crate) proof fn lemma_placed_head(ir: Seq<Instruction>, i: int, length: u64)
    requires
        lowering_fits(ir, length),
        0 <= i < ir.len(),
        ir[i] is JumpIfZero,
    ensures
        ({
            let (block, at) = place(ir, i, length);
            let blocks = lower_program(ir, length);
            let start = first_block(ir, i, length);
            &&& 0 <= block < blocks.len()
            &&& start + 2 < blocks.len() <= usize::MAX
            &&& blocks[block].ops.len() == at
            &&& blocks[block].terminator == Terminator::Branch(start as usize)
            &&& blocks[start].ops.len() == 0
            &&& blocks[start].terminator == Terminator::BranchOnCell(
                (start + 1) as usize,
                (start + 2) as usize,
            )
            &&& place(ir, i + 1, length) == (start + 1, 0int)
        }),
{
    let before = lower_prefix(ir, i, length);
    let after = lower_prefix(ir, i + 1, length);
    lemma_settled_prefix(ir, i, length);
    assert(after.blocks.len() <= usize::MAX);
    assert(before.terminate(Terminator::Branch(before.blocks.len() as usize)).blocks.len()
        == before.blocks.len());
    lemma_settled_open(before);
    lemma_grows_prefix(ir, i + 1, ir.len() as int, length);
    let blocks = lower_program(ir, length);
    let (block, at) = place(ir, i, length);
    let start = first_block(ir, i, length);
    assert(blocks[block] == after.blocks[block]);
    assert(blocks[start] == after.blocks[start]);
    assert(lower_prefix(ir, ir.len() as int, length).blocks.len() <= usize::MAX);
}

/// Where a loop end is put, the block of the finished function ends and
/// goes to the start block of the innermost open loop; the next instruction
/// is put at the start of the end block of that loop.
pub(crate) proof fn lemma_placed_tail(ir: Seq<Instruction>, i: int, length: u64)
    requires
        lowering_fits(ir, length),
        0 <= i < ir.len(),
        ir[i] is JumpIfNotZero,
        open_heads(ir, i).len() > 0,
    ensures
        ({
            let (block, at) = place(ir, i, length);
            let blocks = lower_program(ir, length);
            let start = first_block(ir, open_heads(ir, i).last(), length);
            &&& 0 <= block < blocks.len()
            &&& start + 2 < blocks.len() <= usize::MAX
            &&& blocks[block].ops.len() == at
            &&& blocks[block].terminator == Terminator::Branch(start as usize)
            &&& place(ir, i + 1, length) == (start + 2, 0int)
        }),
{
    let before = lower_prefix(ir, i, length);
    let after = lower_prefix(ir, i + 1, length);
    lemma_settled_prefix(ir, i, length);
    lemma_open_loops_follow(ir, i, length);
    let top = before.open_loops.len() - 1;
    assert(before.open_loops[top].0 == first_block(ir, open_heads(ir, i)[top], length));
    lemma_settled_close(before);
    lemma_grows_prefix(ir, i + 1, ir.len() as int, length);
    let blocks = lower_program(ir, length);
    let (block, at) = place(ir, i, length);
    assert(blocks[block] == after.blocks[block]);
    assert(lower_prefix(ir, ir.len() as int, length).blocks.len() <= usize::MAX);
}

/// Where a `MoveUntilZero` is put, the block of the finished function ends
/// and goes to the start block of a loop whose body moves the pointer once
/// and goes back; the next instruction is put at the start of the end
/// block.
pub(crate) proof fn lemma_placed_scan(ir: Seq<Instruction>, i: int, length: u64)
    requires
        lowering_fits(ir, length),
        0 <= i < ir.len(),
        ir[i] is MoveUntilZero,
    ensures
        ({
            let (block, at) = place(ir, i, length);
            let blocks = lower_program(ir, length);
            let start = first_block(ir, i, length);
            &&& 0 <= block < blocks.len()
            &&& start + 2 < blocks.len() <= usize::MAX
            &&& block < start
            &&& blocks[block].ops.len() == at
            &&& blocks[block].terminator == Terminator::Branch(start as usize)
            &&& blocks[start].ops.len() == 0
            &&& blocks[start].terminator == Terminator::BranchOnCell(
                (start + 1) as usize,
                (start + 2) as usize,
            )
            &&& blocks[start + 1].ops == seq![
                Op::MovePointer(offset_on(ir[i]->MoveUntilZero_0, length)),
            ]
            &&& blocks[start + 1].terminator == Terminator::Branch(start as usize)
            &&& place(ir, i + 1, length) == (start + 2, 0int)
        }),
{
    let before = lower_prefix(ir, i, length);
    let after = lower_prefix(ir, i + 1, length);
    let op = Op::MovePointer(offset_on(ir[i]->MoveUntilZero_0, length));
    lemma_settled_prefix(ir, i, length);
    assert(after.blocks.len() <= usize::MAX);
    assert(before.terminate(Terminator::Branch(before.blocks.len() as usize)).blocks.len()
        == before.blocks.len());
    let opened = before.open_loop();
    lemma_settled_open(before);
    lemma_settled_append(opened, op);
    let moved = opened.append(op);
    assert(moved.open_loops.last() == opened.open_loops[before.open_loops.len() as int]);
    lemma_settled_close(moved);
    lemma_grows_prefix(ir, i + 1, ir.len() as int, length);
    let blocks = lower_program(ir, length);
    let (block, at) = place(ir, i, length);
    let start = first_block(ir, i, length);
    assert(moved.blocks[block] == opened.blocks[block]);
    assert(after.blocks[block] == moved.blocks[block]);
    assert(after.blocks[start] == opened.blocks[start]);
    assert(moved.blocks[start + 1].ops =~= seq![op]);
    assert(blocks[block] == after.blocks[block]);
    assert(blocks[start] == after.blocks[start]);
    assert(blocks[start + 1] == after.blocks[start + 1]);
    assert(lower_prefix(ir, ir.len() as int, length).blocks.len() <= usize::MAX);
}

/// Where the end of the program is put, the block of the finished function
/// ends and returns.
pub(crate) proof fn lemma_placed_end(ir: Seq<Instruction>, length: u64)
    requires
        lowering_fits(ir, length),
    ensures
        ({
            let (block, at) = place(ir, ir.len() as int, length);
            let blocks = lower_program(ir, length);
            &&& 0 <= block < blocks.len()
            &&& blocks[block].ops.len() == at
            &&& blocks[block].terminator == Terminator::Return
        }),
{
    lemma_settled_prefix(ir, ir.len() as int, length);
}

} // verus!
