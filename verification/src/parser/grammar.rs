//! What the parser computes, stated over the program text as a sequence of
//! bytes.
//!
//! The text is read left to right. Eight bytes are commands, every other byte
//! is a comment. `parse_from` gives the result of reading on from a position
//! with the instructions produced so far and the stack of loops still open.

use vstd::prelude::*;
use super::error::UnbalancedBrackets;
use super::instruction::Instruction;
use super::opt::OptimizationOptions;

verus! {

/// The byte `+`.
pub const PLUS: u8 = 43;

/// The byte `-`.
pub const MINUS: u8 = 45;

/// The byte `>`.
pub const RIGHT: u8 = 62;

/// The byte `<`.
pub const LEFT: u8 = 60;

/// The byte `,`.
pub const COMMA: u8 = 44;

/// The byte `.`.
pub const DOT: u8 = 46;

/// The byte `[`.
pub const OPEN: u8 = 91;

/// The byte `]`.
pub const CLOSE: u8 = 93;

/// A loop that is open: the index of its `JumpIfZero` and the position of
/// its `[` in the text.
pub type OpenLoop = (usize, usize);

/// The bytes that end a run of `+` and `-`.
pub open spec fn ends_add_run(b: u8) -> bool {
    b == RIGHT || b == LEFT || b == DOT || b == COMMA || b == OPEN || b == CLOSE
}

/// The bytes that end a run of `>` and `<`.
pub open spec fn ends_move_run(b: u8) -> bool {
    b == PLUS || b == MINUS || b == DOT || b == COMMA || b == OPEN || b == CLOSE
}

/// Where the run of `+`, `-` and comments that starts at `pos` ends.
pub open spec fn add_run_end(bytes: Seq<u8>, pos: int) -> int
    decreases bytes.len() - pos,
{
    if pos < 0 || pos >= bytes.len() || ends_add_run(bytes[pos]) {
        pos
    } else {
        add_run_end(bytes, pos + 1)
    }
}

/// The cell change of the run that starts at `pos`, on top of `acc`.
pub open spec fn add_run_sum(bytes: Seq<u8>, pos: int, acc: u8) -> u8
    decreases bytes.len() - pos,
{
    if pos < 0 || pos >= bytes.len() || ends_add_run(bytes[pos]) {
        acc
    } else if bytes[pos] == PLUS {
        add_run_sum(bytes, pos + 1, acc.wrapping_add(1))
    } else if bytes[pos] == MINUS {
        add_run_sum(bytes, pos + 1, acc.wrapping_sub(1))
    } else {
        add_run_sum(bytes, pos + 1, acc)
    }
}

/// Where the run of `>`, `<` and comments that starts at `pos` ends.
pub open spec fn move_run_end(bytes: Seq<u8>, pos: int) -> int
    decreases bytes.len() - pos,
{
    if pos < 0 || pos >= bytes.len() || ends_move_run(bytes[pos]) {
        pos
    } else {
        move_run_end(bytes, pos + 1)
    }
}

/// The displacement of the run that starts at `pos`, on top of `acc`.
pub open spec fn move_run_sum(bytes: Seq<u8>, pos: int, acc: isize) -> isize
    decreases bytes.len() - pos,
{
    if pos < 0 || pos >= bytes.len() || ends_move_run(bytes[pos]) {
        acc
    } else if bytes[pos] == RIGHT {
        move_run_sum(bytes, pos + 1, acc.wrapping_add(1))
    } else if bytes[pos] == LEFT {
        move_run_sum(bytes, pos + 1, acc.wrapping_sub(1))
    } else {
        move_run_sum(bytes, pos + 1, acc)
    }
}

/// Appends an instruction, unless it is an `Add` or a `Move` of nothing.
pub open spec fn emit(instrs: Seq<Instruction>, instruction: Instruction) -> Seq<Instruction> {
    if instruction == Instruction::Add(0) || instruction == Instruction::Move(0) {
        instrs
    } else {
        instrs.push(instruction)
    }
}

/// The instructions end in a loop head and one `Add` of an odd amount.
pub open spec fn clear_matches(instrs: Seq<Instruction>) -> bool {
    let len = instrs.len() as int;
    &&& len >= 2
    &&& instrs[len - 2] is JumpIfZero
    &&& instrs[len - 1] matches Instruction::Add(n)
    &&& n % 2 == 1
}

/// The instructions end in a loop head, a decrement, a move, an `Add` and
/// the opposite move.
pub open spec fn multiply_matches(instrs: Seq<Instruction>) -> bool {
    let len = instrs.len() as int;
    &&& len >= 5
    &&& instrs[len - 5] is JumpIfZero
    &&& instrs[len - 4] == Instruction::Add(255)
    &&& instrs[len - 3] matches Instruction::Move(x)
    &&& instrs[len - 2] is Add
    &&& instrs[len - 1] matches Instruction::Move(y)
    &&& x + y == 0
}

/// The instructions end in a loop head and one `Move`.
pub open spec fn move_until_zero_matches(instrs: Seq<Instruction>) -> bool {
    let len = instrs.len() as int;
    &&& len >= 2
    &&& instrs[len - 2] is JumpIfZero
    &&& instrs[len - 1] is Move
}

/// The instructions after a `]` that closes the loop whose head is at `head`.
///
/// The rewrites are tried in the order clear, multiply, move-until-zero, each
/// only if it is switched on. If none applies the head is pointed at the new
/// `JumpIfNotZero`, which points back at the head.
pub open spec fn close_loop(
    instrs: Seq<Instruction>,
    head: usize,
    opts: OptimizationOptions,
) -> Seq<Instruction> {
    let len = instrs.len() as int;
    if opts.clear && clear_matches(instrs) {
        instrs.take(len - 2).push(Instruction::Clear)
    } else if opts.multiply && multiply_matches(instrs) {
        instrs.take(len - 5).push(
            Instruction::Multiply(instrs[len - 3]->Move_0, instrs[len - 2]->Add_0),
        )
    } else if opts.move_until_zero && move_until_zero_matches(instrs) {
        instrs.take(len - 2).push(Instruction::MoveUntilZero(instrs[len - 1]->Move_0))
    } else {
        instrs.update(head as int, Instruction::JumpIfZero(len as usize)).push(
            Instruction::JumpIfNotZero(head),
        )
    }
}

/// The result of reading the text from `pos` on.
///
/// A `]` with no loop open fails with its own position. At the end of the
/// text a loop still open fails with the position of the outermost open `[`.
pub open spec fn parse_from(
    bytes: Seq<u8>,
    opts: OptimizationOptions,
    pos: int,
    instrs: Seq<Instruction>,
    open_loops: Seq<OpenLoop>,
) -> Result<Seq<Instruction>, UnbalancedBrackets>
    decreases bytes.len() - pos,
    via parse_from_decreases
{
    if pos < 0 || pos >= bytes.len() {
        if open_loops.len() > 0 {
            Err(UnbalancedBrackets::UnclosedBracket(open_loops[0].1))
        } else {
            Ok(instrs)
        }
    } else {
        let b = bytes[pos];
        if (b == PLUS || b == MINUS) && opts.contract {
            let first: u8 = if b == PLUS { 1 } else { 255 };
            let amount = add_run_sum(bytes, pos + 1, first);
            parse_from(
                bytes,
                opts,
                add_run_end(bytes, pos + 1),
                emit(instrs, Instruction::Add(amount)),
                open_loops,
            )
        } else if (b == RIGHT || b == LEFT) && opts.contract {
            let first: isize = if b == RIGHT { 1 } else { -1isize };
            let amount = move_run_sum(bytes, pos + 1, first);
            parse_from(
                bytes,
                opts,
                move_run_end(bytes, pos + 1),
                emit(instrs, Instruction::Move(amount)),
                open_loops,
            )
        } else if b == PLUS {
            parse_from(bytes, opts, pos + 1, instrs.push(Instruction::Add(1)), open_loops)
        } else if b == MINUS {
            parse_from(bytes, opts, pos + 1, instrs.push(Instruction::Add(255)), open_loops)
        } else if b == RIGHT {
            parse_from(bytes, opts, pos + 1, instrs.push(Instruction::Move(1)), open_loops)
        } else if b == LEFT {
            parse_from(bytes, opts, pos + 1, instrs.push(Instruction::Move(-1isize)), open_loops)
        } else if b == COMMA {
            parse_from(bytes, opts, pos + 1, instrs.push(Instruction::In), open_loops)
        } else if b == DOT {
            parse_from(bytes, opts, pos + 1, instrs.push(Instruction::Out), open_loops)
        } else if b == OPEN {
            parse_from(
                bytes,
                opts,
                pos + 1,
                instrs.push(Instruction::JumpIfZero(0)),
                open_loops.push((instrs.len() as usize, pos as usize)),
            )
        } else if b == CLOSE {
            if open_loops.len() == 0 {
                Err(UnbalancedBrackets::UnopenedBracket(pos as usize))
            } else {
                parse_from(
                    bytes,
                    opts,
                    pos + 1,
                    close_loop(instrs, open_loops.last().0, opts),
                    open_loops.drop_last(),
                )
            }
        } else {
            parse_from(bytes, opts, pos + 1, instrs, open_loops)
        }
    }
}

#[via_fn]
proof fn parse_from_decreases(
    bytes: Seq<u8>,
    opts: OptimizationOptions,
    pos: int,
    instrs: Seq<Instruction>,
    open_loops: Seq<OpenLoop>,
) {
    if 0 <= pos < bytes.len() {
        lemma_add_run_end_bounds(bytes, pos + 1);
        lemma_move_run_end_bounds(bytes, pos + 1);
    }
}

/// The result of parsing a whole text.
pub open spec fn parse_spec(bytes: Seq<u8>, opts: OptimizationOptions) -> Result<
    Seq<Instruction>,
    UnbalancedBrackets,
> {
    parse_from(bytes, opts, 0, Seq::empty(), Seq::empty())
}

/// The run ends inside the text, and not before it starts.
pub(crate) proof fn lemma_add_run_end_bounds(bytes: Seq<u8>, pos: int)
    requires
        0 <= pos <= bytes.len(),
    ensures
        pos <= add_run_end(bytes, pos) <= bytes.len(),
    decreases bytes.len() - pos,
{
    if pos < bytes.len() && !ends_add_run(bytes[pos]) {
        lemma_add_run_end_bounds(bytes, pos + 1);
    }
}

/// The run ends inside the text, and not before it starts.
pub(crate) proof fn lemma_move_run_end_bounds(bytes: Seq<u8>, pos: int)
    requires
        0 <= pos <= bytes.len(),
    ensures
        pos <= move_run_end(bytes, pos) <= bytes.len(),
    decreases bytes.len() - pos,
{
    if pos < bytes.len() && !ends_move_run(bytes[pos]) {
        lemma_move_run_end_bounds(bytes, pos + 1);
    }
}

} // verus!
