//! How a program parsed with rewrites lies in the same text parsed
//! without: every instruction of the first stands for a stretch of the
//! second.

use vstd::prelude::*;
use crate::parser::grammar::OpenLoop;
use crate::parser::instruction::Instruction;
use crate::parser::pairing::is_open;
use super::straight::{acts_as_nothing, acts_like};

verus! {

/// Where the stretches lie.
pub struct Layout {
    /// For each instruction of the program with rewrites the index in the
    /// plain program where its stretch starts, and at the end the index
    /// where the last stretch ends.
    pub starts: Seq<int>,
    /// For each instruction that stands for a whole loop the index of the
    /// loop head in the plain program.
    pub heads: Seq<int>,
}

impl Layout {
    /// The index of the last instruction of the stretch of instruction
    /// `i`.
    pub open spec fn last_of(self, i: int) -> int {
        self.starts[i + 1] - 1
    }
}

/// What the body of a loop does that an instruction stands for.
pub open spec fn body_model(instruction: Instruction, amount: u8) -> Seq<Instruction> {
    match instruction {
        Instruction::Multiply(offset, factor) => seq![
            Instruction::Add(255),
            Instruction::Move(offset),
            Instruction::Add(factor),
            Instruction::Move((-offset) as isize),
        ],
        Instruction::MoveUntilZero(stride) => seq![Instruction::Move(stride)],
        _ => seq![Instruction::Add(amount)],
    }
}

/// The body of a loop does what the instruction that stands for the loop
/// repeats: for `Clear` an `Add` of some odd amount.
pub open spec fn body_fits(instruction: Instruction, body: Seq<Instruction>) -> bool {
    match instruction {
        Instruction::Clear => exists|amount: u8|
            amount % 2 == 1 && #[trigger] acts_like(body, body_model(instruction, amount)),
        Instruction::Multiply(offset, _) => offset > isize::MIN && acts_like(
            body,
            body_model(instruction, 0),
        ),
        _ => acts_like(body, body_model(instruction, 0)),
    }
}

/// The stretch of instruction `i` does what the instruction does.
///
/// A stretch may start with instructions that cancel each other. An `Add`
/// or a `Move` stands for a straight stretch with the same effect. An `In`,
/// an `Out` or a jump stands for the same instruction, and a jump of a
/// closed loop points at the stretch of its partner. A `Clear`, a `Multiply`
/// or a `MoveUntilZero` stands for a whole loop with a straight body.
pub open spec fn stretch_fits(
    fused: Seq<Instruction>,
    open_loops: Seq<OpenLoop>,
    plain: Seq<Instruction>,
    layout: Layout,
    i: int,
) -> bool {
    let from = layout.starts[i];
    let last = layout.last_of(i);
    &&& 0 <= from <= last < plain.len()
    &&& match fused[i] {
        Instruction::Add(_) | Instruction::Move(_) => acts_like(
            plain.subrange(from, last + 1),
            seq![fused[i]],
        ),
        Instruction::In | Instruction::Out => acts_as_nothing(plain.subrange(from, last))
            && plain[last] == fused[i],
        Instruction::JumpIfZero(target) => {
            &&& acts_as_nothing(plain.subrange(from, last))
            &&& plain[last] is JumpIfZero
            &&& is_open(open_loops, i) || (i < target < fused.len()
                && plain[last]->JumpIfZero_0 == layout.last_of(target as int))
        },
        Instruction::JumpIfNotZero(target) => {
            &&& acts_as_nothing(plain.subrange(from, last))
            &&& plain[last] is JumpIfNotZero
            &&& 0 <= target < i
            &&& plain[last]->JumpIfNotZero_0 == layout.last_of(target as int)
        },
        _ => {
            let head = layout.heads[i];
            &&& from <= head < last
            &&& acts_as_nothing(plain.subrange(from, head))
            &&& plain[head] == Instruction::JumpIfZero(last as usize)
            &&& plain[last] == Instruction::JumpIfNotZero(head as usize)
            &&& body_fits(fused[i], plain.subrange(head + 1, last))
        },
    }
}

/// The program `fused`, with its open loops, lies in the program `plain`,
/// with its open loops, as the layout says.
pub open spec fn lies_in(
    fused: Seq<Instruction>,
    open_loops: Seq<OpenLoop>,
    plain: Seq<Instruction>,
    plain_open_loops: Seq<OpenLoop>,
    layout: Layout,
) -> bool {
    &&& plain.len() <= usize::MAX
    &&& layout.starts.len() == fused.len() + 1
    &&& layout.heads.len() == fused.len()
    &&& layout.starts[0] == 0
    &&& layout.starts[fused.len() as int] <= plain.len()
    &&& acts_as_nothing(plain.subrange(layout.starts[fused.len() as int], plain.len() as int))
    &&& forall|i: int|
        0 <= i < fused.len() ==> #[trigger] stretch_fits(fused, open_loops, plain, layout, i)
    &&& open_loops.len() == plain_open_loops.len()
    &&& forall|j: int|
        0 <= j < open_loops.len() ==> {
            &&& 0 <= (#[trigger] open_loops[j]).0 < fused.len()
            &&& plain_open_loops[j].0 == layout.last_of(open_loops[j].0 as int)
            &&& plain_open_loops[j].1 == open_loops[j].1
        }
}

} // verus!
