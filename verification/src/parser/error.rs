//! What the parser reports about brackets that do not pair up.

use vstd::prelude::*;
use vstd::string::StringExecFns;
use super::text::{append_decimal, decimal};

verus! {

/// A bracket without its partner, with the byte position of the bracket.
#[derive(Debug, Clone, Copy, PartialEq, Eq, Structural)]
pub enum UnbalancedBrackets {
    /// A `[` that is never closed.
    UnclosedBracket(usize),
    /// A `]` with no `[` open before it.
    UnopenedBracket(usize),
}

impl UnbalancedBrackets {
    /// The position of the bracket that has no partner.
    pub open spec fn position(self) -> usize {
        match self {
            UnbalancedBrackets::UnclosedBracket(position) => position,
            UnbalancedBrackets::UnopenedBracket(position) => position,
        }
    }

    /// The message that describes the error.
    pub open spec fn message(self) -> Seq<char> {
        match self {
            UnbalancedBrackets::UnclosedBracket(position) => "expected ']' to close '[' at position "@
                + decimal(position as nat) + ", got EOF"@,
            UnbalancedBrackets::UnopenedBracket(position) => "unexpected ']' at position "@
                + decimal(position as nat),
        }
    }

    /// The message that describes the error.
    pub fn to_string(&self) -> (text: String)
        ensures
            text@ == self.message(),
    {
        let mut text = String::new();
        match *self {
            UnbalancedBrackets::UnclosedBracket(position) => {
                text.append("expected ']' to close '[' at position ");
                append_decimal(&mut text, position);
                text.append(", got EOF");
            },
            UnbalancedBrackets::UnopenedBracket(position) => {
                text.append("unexpected ']' at position ");
                append_decimal(&mut text, position);
            },
        }
        assert(text@ =~= self.message());
        text
    }
}

} // verus!
