//! Where the lowering puts each instruction of a program in the listing,
//! and what the finished listing holds there.

use vstd::prelude::*;
use crate::parser::instruction::Instruction;
use crate::parser::nesting::open_heads;
use super::listing::{
    assemble_prefix, assemble_program, listing_fits, reduce, wrap_sequence, Asm, Assembly, Reg,
};

verus! {

/// The index in the listing of the first entry made for instruction `i`;
/// for the length of the program, the index of the `Leave`.
pub open spec fn starts_at(ir: Seq<Instruction>, i: int, length: u32) -> int {
    assemble_prefix(ir, i, length).listing.len() as int
}

/// The listing starts with the `Enter`, every open loop has its head and
/// its label in the listing, and a loop opened later has its head further
/// on.
pub open spec fn tidy(state: Assembly) -> bool {
    &&& 1 <= state.listing.len() <= usize::MAX
    &&& state.listing[0] == Asm::Enter
    &&& forall|j: int|
        0 <= j < state.open_loops.len() ==> 1 <= (#[trigger] state.open_loops[j])
            && state.open_loops[j] + 1 < state.listing.len()
    &&& forall|j: int, l: int|
        0 <= j < l < state.open_loops.len() ==> (#[trigger] state.open_loops[j]) < (
        #[trigger] state.open_loops[l])
}

/// The entries of `before` that are not the head of an open loop are
/// entries of `after`, at the same index.
pub open spec fn keeps(before: Assembly, after: Seq<Asm>) -> bool {
    &&& before.listing.len() <= after.len()
    &&& forall|x: int|
        0 <= x < before.listing.len() && !before.open_loops.contains(x as usize)
            ==> #[trigger] after[x] == before.listing[x]
}

/// The loops that are open in `after` were open in `before` or have their
/// head behind the listing of `before`.
pub open spec fn opens_behind(before: Assembly, after: Assembly) -> bool {
    forall|x: usize|
        #[trigger] after.open_loops.contains(x) ==> before.open_loops.contains(x) || x
            >= before.listing.len()
}

/// One more instruction keeps the listing tidy and the entries that are
/// final.
pub(crate) proof fn lemma_tidy_lower(state: Assembly, instruction: Instruction, length: u32)
    requires
        tidy(state),
        state.lower(instruction, length).listing.len() <= usize::MAX,
    ensures
        tidy(state.lower(instruction, length)),
        keeps(state, state.lower(instruction, length).listing),
        opens_behind(state, state.lower(instruction, length)),
{
    let after = state.lower(instruction, length);
    match instruction {
        Instruction::JumpIfZero(_) => {
            assert(after.listing[0] == state.listing[0]);
            assert forall|j: int| 0 <= j < after.open_loops.len() implies 1 <= (
            #[trigger] after.open_loops[j]) && after.open_loops[j] + 1
                < after.listing.len() by {
                if j < state.open_loops.len() {
                    assert(after.open_loops[j] == state.open_loops[j]);
                }
            }
            assert forall|j: int, l: int| 0 <= j < l < after.open_loops.len() implies (
            #[trigger] after.open_loops[j]) < (#[trigger] after.open_loops[l]) by {
                assert(after.open_loops[j] == state.open_loops[j]);
                if l < state.open_loops.len() {
                    assert(after.open_loops[l] == state.open_loops[l]);
                }
            }
            assert forall|x: usize| #[trigger] after.open_loops.contains(x) implies (
            state.open_loops.contains(x) || x >= state.listing.len()) by {
                let j = choose|j: int| 0 <= j < after.open_loops.len() && after.open_loops[j] == x;
                if j < state.open_loops.len() {
                    assert(state.open_loops[j] == x);
                }
            }
        },
        Instruction::JumpIfNotZero(_) => {
            if state.open_loops.len() > 0 {
                let top = state.open_loops.len() - 1;
                let head = state.open_loops[top];
                assert(state.open_loops.last() == head);
                assert(state.open_loops.contains(head));
                assert(after.listing[0] == state.listing[0]);
                assert forall|j: int| 0 <= j < after.open_loops.len() implies 1 <= (
                #[trigger] after.open_loops[j]) && after.open_loops[j] + 1
                    < after.listing.len() by {
                    assert(after.open_loops[j] == state.open_loops[j]);
                }
                assert forall|j: int, l: int| 0 <= j < l < after.open_loops.len() implies (
                #[trigger] after.open_loops[j]) < (#[trigger] after.open_loops[l]) by {
                    assert(after.open_loops[j] == state.open_loops[j]);
                    assert(after.open_loops[l] == state.open_loops[l]);
                }
                assert forall|x: usize| #[trigger] after.open_loops.contains(x) implies (
                state.open_loops.contains(x) || x >= state.listing.len()) by {
                    let j = choose|j: int|
                        0 <= j < after.open_loops.len() && after.open_loops[j] == x;
                    assert(state.open_loops[j] == x);
                }
            }
        },
        _ => {
            assert(after.listing[0] == state.listing[0]);
            assert forall|x: usize| #[trigger] after.open_loops.contains(x) implies (
            state.open_loops.contains(x) || x >= state.listing.len()) by {}
        },
    }
}

/// Every state of the lowering is tidy.
pub(crate) proof fn lemma_tidy_prefix(ir: Seq<Instruction>, k: int, length: u32)
    requires
        listing_fits(ir, length),
        0 <= k <= ir.len(),
    ensures
        tidy(assemble_prefix(ir, k, length)),
    decreases k,
{
    if k > 0 {
        lemma_tidy_prefix(ir, k - 1, length);
        assert(assemble_prefix(ir, k, length).listing.len() <= usize::MAX);
        lemma_tidy_lower(assemble_prefix(ir, k - 1, length), ir[k - 1], length);
    }
}

/// An entry that is in the listing after `k` instructions, and is not the
/// head of a loop open then, is in the listing after more instructions.
pub(crate) proof fn lemma_entry_stays(ir: Seq<Instruction>, k: int, more: int, x: int, length: u32)
    requires
        listing_fits(ir, length),
        0 <= k <= more <= ir.len(),
        0 <= x < starts_at(ir, k, length),
        !assemble_prefix(ir, k, length).open_loops.contains(x as usize),
    ensures
        x < starts_at(ir, more, length),
        assemble_prefix(ir, more, length).listing[x] == assemble_prefix(ir, k, length).listing[x],
        !assemble_prefix(ir, more, length).open_loops.contains(x as usize),
    decreases more - k,
{
    if k < more {
        lemma_entry_stays(ir, k, more - 1, x, length);
        lemma_tidy_prefix(ir, more - 1, length);
        assert(assemble_prefix(ir, more, length).listing.len() <= usize::MAX);
        lemma_tidy_lower(assemble_prefix(ir, more - 1, length), ir[more - 1], length);
    }
}

/// An entry that is in the listing after `k` instructions, and is not the
/// head of a loop open then, is in the finished listing.
pub(crate) proof fn lemma_entry_final(ir: Seq<Instruction>, k: int, x: int, length: u32)
    requires
        listing_fits(ir, length),
        0 <= k <= ir.len(),
        0 <= x < starts_at(ir, k, length),
        !assemble_prefix(ir, k, length).open_loops.contains(x as usize),
    ensures
        x < starts_at(ir, ir.len() as int, length),
        assemble_program(ir, length)[x] == assemble_prefix(ir, k, length).listing[x],
{
    lemma_entry_stays(ir, k, ir.len() as int, x, length);
}

/// An entry made for instruction `i` that is not the head of a loop is in
/// the finished listing.
pub(crate) proof fn lemma_made_final(ir: Seq<Instruction>, i: int, x: int, length: u32)
    requires
        listing_fits(ir, length),
        0 <= i < ir.len(),
        starts_at(ir, i, length) <= x < starts_at(ir, i + 1, length),
        !(ir[i] is JumpIfZero && x == starts_at(ir, i, length)),
    ensures
        x < starts_at(ir, ir.len() as int, length),
        assemble_program(ir, length)[x] == assemble_prefix(ir, i + 1, length).listing[x],
{
    let before = assemble_prefix(ir, i, length);
    let after = assemble_prefix(ir, i + 1, length);
    lemma_tidy_prefix(ir, i, length);
    assert(after.listing.len() <= usize::MAX);
    lemma_tidy_lower(before, ir[i], length);
    if after.open_loops.contains(x as usize) {
        if before.open_loops.contains(x as usize) {
            let j = choose|j: int|
                0 <= j < before.open_loops.len() && before.open_loops[j] == x as usize;
            assert(before.open_loops[j] + 1 < before.listing.len());
        } else {
            let j = choose|j: int|
                0 <= j < after.open_loops.len() && after.open_loops[j] == x as usize;
            if ir[i] is JumpIfZero {
                if j < before.open_loops.len() {
                    assert(before.open_loops[j] == x as usize);
                    assert(before.open_loops.contains(x as usize));
                }
            } else if ir[i] is JumpIfNotZero && before.open_loops.len() > 0 {
                assert(before.open_loops[j] == x as usize);
                assert(before.open_loops.contains(x as usize));
            } else {
                assert(before.open_loops.contains(x as usize));
            }
        }
    }
    lemma_entry_final(ir, i + 1, x, length);
}

/// The open loops of the lowering are those of a stack of loop heads, and
/// each has as its head the first entry made for its loop head.
pub(crate) proof fn lemma_labels_follow(ir: Seq<Instruction>, k: int, length: u32)
    requires
        listing_fits(ir, length),
        0 <= k <= ir.len(),
    ensures
        assemble_prefix(ir, k, length).open_loops.len() == open_heads(ir, k).len(),
        forall|j: int|
            0 <= j < open_heads(ir, k).len() ==> (#[trigger] assemble_prefix(
                ir,
                k,
                length,
            ).open_loops[j]) == starts_at(ir, open_heads(ir, k)[j], length),
    decreases k,
{
    if k > 0 {
        lemma_labels_follow(ir, k - 1, length);
        lemma_tidy_prefix(ir, k - 1, length);
        let before = assemble_prefix(ir, k - 1, length);
        let after = assemble_prefix(ir, k, length);
        match ir[k - 1] {
            Instruction::JumpIfZero(_) => {
                assert forall|j: int| 0 <= j < open_heads(ir, k).len() implies (
                #[trigger] after.open_loops[j]) == starts_at(
                    ir,
                    open_heads(ir, k)[j],
                    length,
                ) by {
                    if j < before.open_loops.len() {
                        assert(after.open_loops[j] == before.open_loops[j]);
                    }
                }
            },
            Instruction::JumpIfNotZero(_) => {
                if before.open_loops.len() > 0 {
                    assert forall|j: int| 0 <= j < open_heads(ir, k).len() implies (
                    #[trigger] after.open_loops[j]) == starts_at(
                        ir,
                        open_heads(ir, k)[j],
                        length,
                    ) by {
                        assert(after.open_loops[j] == before.open_loops[j]);
                    }
                }
            },
            _ => {},
        }
    }
}

/// The entry that an instruction is lowered to which needs one.
pub open spec fn entry_of(instruction: Instruction) -> Asm {
    match instruction {
        Instruction::Add(n) => Asm::AddCell(n),
        Instruction::In => Asm::CallRead,
        Instruction::Out => Asm::CallWrite,
        _ => Asm::ClearCell,
    }
}

/// The instruction is lowered to one entry.
pub open spec fn is_single(instruction: Instruction) -> bool {
    instruction is Add || instruction is In || instruction is Out || instruction is Clear
}

/// The finished listing starts with the `Enter` and ends with the `Leave`.
pub(crate) proof fn lemma_placed_frame(ir: Seq<Instruction>, length: u32)
    requires
        listing_fits(ir, length),
    ensures
        starts_at(ir, 0, length) == 1,
        assemble_program(ir, length)[0] == Asm::Enter,
        assemble_program(ir, length).len() == starts_at(ir, ir.len() as int, length) + 1,
        assemble_program(ir, length)[starts_at(ir, ir.len() as int, length)] == Asm::Leave,
        1 <= starts_at(ir, ir.len() as int, length) <= usize::MAX,
{
    lemma_tidy_prefix(ir, ir.len() as int, length);
}

/// The entries of one instruction lie in the finished listing, before the
/// `Leave`.
pub(crate) proof fn lemma_placed_within(ir: Seq<Instruction>, i: int, length: u32)
    requires
        listing_fits(ir, length),
        0 <= i <= ir.len(),
    ensures
        1 <= starts_at(ir, i, length) <= starts_at(ir, ir.len() as int, length),
    decreases ir.len() - i,
{
    lemma_tidy_prefix(ir, i, length);
    if i < ir.len() {
        lemma_placed_within(ir, i + 1, length);
        assert(assemble_prefix(ir, i + 1, length).listing.len() <= usize::MAX);
        lemma_tidy_lower(assemble_prefix(ir, i, length), ir[i], length);
    }
}

/// Where an instruction that is lowered to one entry is put, the finished
/// listing holds that entry.
pub(crate) proof fn lemma_placed_single(ir: Seq<Instruction>, i: int, length: u32)
    requires
        listing_fits(ir, length),
        0 <= i < ir.len(),
        is_single(ir[i]),
    ensures
        assemble_program(ir, length)[starts_at(ir, i, length)] == entry_of(ir[i]),
        starts_at(ir, i + 1, length) == starts_at(ir, i, length) + 1,
{
    lemma_made_final(ir, i, starts_at(ir, i, length), length);
}

/// Where a `Move` is put, the finished listing holds the sequence that
/// displaces the pointer.
pub(crate) proof fn lemma_placed_move(ir: Seq<Instruction>, i: int, length: u32)
    requires
        listing_fits(ir, length),
        0 <= i < ir.len(),
        ir[i] is Move,
    ensures
        ({
            let from = starts_at(ir, i, length);
            let entries = wrap_sequence(
                Reg::Pointer,
                Reg::Eax,
                reduce(ir[i]->Move_0, length),
                length,
            );
            &&& starts_at(ir, i + 1, length) == from + entries.len()
            &&& assemble_program(ir, length).subrange(from, from + entries.len()) == entries
        }),
{
    let from = starts_at(ir, i, length);
    let entries = wrap_sequence(Reg::Pointer, Reg::Eax, reduce(ir[i]->Move_0, length), length);
    lemma_placed_within(ir, i + 1, length);
    assert forall|x: int| from <= x < from + entries.len() implies assemble_program(
        ir,
        length,
    )[x] == entries[x - from] by {
        lemma_made_final(ir, i, x, length);
    }
    assert(assemble_program(ir, length).subrange(from, from + entries.len()) =~= entries);
}

/// Where a `Multiply` is put, the finished listing holds the sequence that
/// finds the target cell, and then the four entries of the transfer.
pub(crate) proof fn lemma_placed_transfer(ir: Seq<Instruction>, i: int, length: u32)
    requires
        listing_fits(ir, length),
        0 <= i < ir.len(),
        ir[i] is Multiply,
    ensures
        ({
            let from = starts_at(ir, i, length);
            let program = assemble_program(ir, length);
            let entries = wrap_sequence(
                Reg::Eax,
                Reg::Ecx,
                reduce(ir[i]->Multiply_0, length),
                length,
            );
            let then = from + entries.len();
            &&& starts_at(ir, i + 1, length) == then + 4
            &&& program.subrange(from, then) == entries
            &&& program[then] == Asm::LoadCell
            &&& program[then + 1] == Asm::Scale(ir[i]->Multiply_1)
            &&& program[then + 2] == Asm::AddToTarget
            &&& program[then + 3] == Asm::ClearCell
        }),
{
    let from = starts_at(ir, i, length);
    let entries = wrap_sequence(Reg::Eax, Reg::Ecx, reduce(ir[i]->Multiply_0, length), length);
    let then = from + entries.len();
    lemma_placed_within(ir, i + 1, length);
    assert forall|x: int| from <= x < then implies assemble_program(ir, length)[x] == entries[x
        - from] by {
        lemma_made_final(ir, i, x, length);
    }
    assert(assemble_program(ir, length).subrange(from, then) =~= entries);
    lemma_made_final(ir, i, then, length);
    lemma_made_final(ir, i, then + 1, length);
    lemma_made_final(ir, i, then + 2, length);
    lemma_made_final(ir, i, then + 3, length);
}

/// Where a `MoveUntilZero` is put, the finished listing holds a label, a
/// jump behind the loop if the cell is zero, the sequence that displaces
/// the pointer, a jump back to the label, and the label behind the loop.
pub(crate) proof fn lemma_placed_scan(ir: Seq<Instruction>, i: int, length: u32)
    requires
        listing_fits(ir, length),
        0 <= i < ir.len(),
        ir[i] is MoveUntilZero,
    ensures
        ({
            let from = starts_at(ir, i, length);
            let program = assemble_program(ir, length);
            let entries = wrap_sequence(
                Reg::Pointer,
                Reg::Eax,
                reduce(ir[i]->MoveUntilZero_0, length),
                length,
            );
            let end = from + 3 + entries.len();
            &&& starts_at(ir, i + 1, length) == end + 1
            &&& end <= usize::MAX
            &&& program[from] == Asm::Label(from as usize)
            &&& program[from + 1] == Asm::JumpIfZero(end as usize)
            &&& program.subrange(from + 2, from + 2 + entries.len()) == entries
            &&& program[end - 1] == Asm::Jump(from as usize)
            &&& program[end] == Asm::Label(end as usize)
        }),
{
    let from = starts_at(ir, i, length);
    let entries = wrap_sequence(
        Reg::Pointer,
        Reg::Eax,
        reduce(ir[i]->MoveUntilZero_0, length),
        length,
    );
    let end = from + 3 + entries.len();
    lemma_placed_within(ir, i + 1, length);
    assert(assemble_prefix(ir, i + 1, length).listing.len() <= usize::MAX);
    assert forall|x: int| from + 2 <= x < from + 2 + entries.len() implies assemble_program(
        ir,
        length,
    )[x] == entries[x - from - 2] by {
        lemma_made_final(ir, i, x, length);
    }
    assert(assemble_program(ir, length).subrange(from + 2, from + 2 + entries.len())
        =~= entries);
    lemma_made_final(ir, i, from, length);
    lemma_made_final(ir, i, from + 1, length);
    lemma_made_final(ir, i, end - 1, length);
    lemma_made_final(ir, i, end, length);
}

/// Where a loop end is put, the finished listing holds a jump back to the
/// label of the innermost open loop, and a label; and at the head of that
/// loop it holds a jump to this label.
pub(crate) proof fn lemma_placed_tail(ir: Seq<Instruction>, i: int, length: u32)
    requires
        listing_fits(ir, length),
        0 <= i < ir.len(),
        ir[i] is JumpIfNotZero,
        open_heads(ir, i).len() > 0,
    ensures
        ({
            let from = starts_at(ir, i, length);
            let program = assemble_program(ir, length);
            let head = starts_at(ir, open_heads(ir, i).last(), length);
            &&& starts_at(ir, i + 1, length) == from + 2
            &&& 1 <= head
            &&& head + 1 < from
            &&& from + 1 <= usize::MAX
            &&& program[from] == Asm::JumpIfNotZero((head + 1) as usize)
            &&& program[from + 1] == Asm::Label((from + 1) as usize)
            &&& program[head] == Asm::JumpIfZero((from + 1) as usize)
        }),
{
    let from = starts_at(ir, i, length);
    let before = assemble_prefix(ir, i, length);
    let after = assemble_prefix(ir, i + 1, length);
    lemma_tidy_prefix(ir, i, length);
    lemma_labels_follow(ir, i, length);
    assert(after.listing.len() <= usize::MAX);
    let top = before.open_loops.len() - 1;
    let head = before.open_loops[top] as int;
    assert(before.open_loops.last() == before.open_loops[top]);
    assert(before.open_loops[top] == starts_at(ir, open_heads(ir, i)[top], length));
    lemma_made_final(ir, i, from, length);
    lemma_made_final(ir, i, from + 1, length);
    lemma_tidy_lower(before, ir[i], length);
    if after.open_loops.contains(head as usize) {
        let j = choose|j: int|
            0 <= j < after.open_loops.len() && after.open_loops[j] == head as usize;
        assert(after.open_loops[j] == before.open_loops[j]);
        assert(before.open_loops[j] < before.open_loops[top]);
    }
    lemma_entry_final(ir, i + 1, head, length);
}

/// Where a loop head is put, the finished listing holds a jump, and then
/// the label that the end of the loop jumps back to.
pub(crate) proof fn lemma_placed_head(ir: Seq<Instruction>, i: int, length: u32)
    requires
        listing_fits(ir, length),
        0 <= i < ir.len(),
        ir[i] is JumpIfZero,
    ensures
        ({
            let from = starts_at(ir, i, length);
            let program = assemble_program(ir, length);
            &&& starts_at(ir, i + 1, length) == from + 2
            &&& from + 1 <= usize::MAX
            &&& program[from + 1] == Asm::Label((from + 1) as usize)
        }),
{
    let from = starts_at(ir, i, length);
    lemma_tidy_prefix(ir, i, length);
    assert(assemble_prefix(ir, i + 1, length).listing.len() <= usize::MAX);
    lemma_made_final(ir, i, from + 1, length);
}

} // verus!
