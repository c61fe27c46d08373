//! The instruction set shared by every backend.

use vstd::prelude::*;
use vstd::string::StringExecFns;
use super::text::{append_repeated, repeated};

verus! {

/// One resolved operation on the tape.
#[derive(Debug, Clone, Copy, PartialEq, Eq, Hash, Structural)]
pub enum Instruction {
    /// Add to the current cell, modulo 256.
    Add(u8),
    /// Displace the pointer, modulo the tape length.
    Move(isize),
    /// Read one byte into the current cell.
    In,
    /// Write the current cell as one byte.
    Out,
    /// Continue behind the instruction at the given index if the cell is zero.
    JumpIfZero(usize),
    /// Continue behind the instruction at the given index if the cell is not zero.
    JumpIfNotZero(usize),
    /// Set the current cell to zero.
    Clear,
    /// Add the current cell times the factor to the cell at the offset, then
    /// set the current cell to zero.
    Multiply(isize, u8),
    /// Displace the pointer by the stride until it rests on a zero cell.
    MoveUntilZero(isize),
}

/// How often `+` or `-` is written for an amount: the amount read as a
/// signed number, without its sign.
pub open spec fn add_count(amount: u8) -> nat {
    if amount >= 128 {
        (256 - amount) as nat
    } else {
        amount as nat
    }
}

/// How often `>` or `<` is written for a displacement.
pub open spec fn move_count(delta: isize) -> nat {
    if delta < 0 {
        (-delta) as nat
    } else {
        delta as nat
    }
}

/// The run of `+` or `-` that adds an amount.
pub open spec fn add_text(amount: u8) -> Seq<char> {
    if amount >= 128 {
        repeated(seq!['-'], add_count(amount))
    } else {
        repeated(seq!['+'], add_count(amount))
    }
}

/// The run of `>` or `<` that displaces the pointer.
pub open spec fn move_text(delta: isize) -> Seq<char> {
    if delta < 0 {
        repeated(seq!['<'], move_count(delta))
    } else {
        repeated(seq!['>'], move_count(delta))
    }
}

/// The run of `>` or `<` that takes a displacement back.
pub open spec fn move_back_text(delta: isize) -> Seq<char> {
    if delta < 0 {
        repeated(seq!['>'], move_count(delta))
    } else {
        repeated(seq!['<'], move_count(delta))
    }
}

fn add_magnitude(amount: u8) -> (count: usize)
    ensures
        count == add_count(amount),
{
    if amount >= 128 {
        (256 - amount as usize)
    } else {
        amount as usize
    }
}

fn move_magnitude(delta: isize) -> (count: usize)
    ensures
        count == move_count(delta),
{
    if delta < 0 {
        (-(delta + 1)) as usize + 1
    } else {
        delta as usize
    }
}

impl Instruction {
    /// The program text that the instruction stands for.
    pub open spec fn text(self) -> Seq<char> {
        match self {
            Instruction::Add(amount) => add_text(amount),
            Instruction::Move(delta) => move_text(delta),
            Instruction::In => seq![','],
            Instruction::Out => seq!['.'],
            Instruction::JumpIfZero(_) => seq!['['],
            Instruction::JumpIfNotZero(_) => seq![']'],
            Instruction::Clear => seq!['[', '-', ']'],
            Instruction::Multiply(offset, factor) => seq!['[', '-'] + move_text(offset) + add_text(
                factor,
            ) + move_back_text(offset) + seq![']'],
            Instruction::MoveUntilZero(stride) => seq!['['] + move_text(stride) + seq![']'],
        }
    }

    /// The program text that the instruction stands for.
    pub fn to_string(&self) -> (text: String)
        ensures
            text@ == self.text(),
    {
        proof {
            reveal_strlit("+");
            reveal_strlit("-");
            reveal_strlit(">");
            reveal_strlit("<");
            reveal_strlit(",");
            reveal_strlit(".");
            reveal_strlit("[");
            reveal_strlit("]");
            reveal_strlit("[-]");
            reveal_strlit("[-");
            assert("+"@ =~= seq!['+']);
            assert("-"@ =~= seq!['-']);
            assert(">"@ =~= seq!['>']);
            assert("<"@ =~= seq!['<']);
            assert(","@ =~= seq![',']);
            assert("."@ =~= seq!['.']);
            assert("["@ =~= seq!['[']);
            assert("]"@ =~= seq![']']);
            assert("[-]"@ =~= seq!['[', '-', ']']);
            assert("[-"@ =~= seq!['[', '-']);
        }
        let mut text = String::new();
        match *self {
            Instruction::Add(amount) => {
                let symbol = if amount >= 128 {
                    "-"
                } else {
                    "+"
                };
                append_repeated(&mut text, symbol, add_magnitude(amount));
            },
            Instruction::Move(delta) => {
                let symbol = if delta < 0 {
                    "<"
                } else {
                    ">"
                };
                append_repeated(&mut text, symbol, move_magnitude(delta));
            },
            Instruction::In => {
                text.append(",");
            },
            Instruction::Out => {
                text.append(".");
            },
            Instruction::JumpIfZero(_) => {
                text.append("[");
            },
            Instruction::JumpIfNotZero(_) => {
                text.append("]");
            },
            Instruction::Clear => {
                text.append("[-]");
            },
            Instruction::Multiply(offset, factor) => {
                let (symbol, opposite) = if offset < 0 {
                    ("<", ">")
                } else {
                    (">", "<")
                };
                let sign = if factor >= 128 {
                    "-"
                } else {
                    "+"
                };
                text.append("[-");
                append_repeated(&mut text, symbol, move_magnitude(offset));
                append_repeated(&mut text, sign, add_magnitude(factor));
                append_repeated(&mut text, opposite, move_magnitude(offset));
                text.append("]");
            },
            Instruction::MoveUntilZero(stride) => {
                let symbol = if stride < 0 {
                    "<"
                } else {
                    ">"
                };
                text.append("[");
                append_repeated(&mut text, symbol, move_magnitude(stride));
                text.append("]");
            },
        }
        assert(text@ =~= self.text());
        text
    }
}

} // verus!
