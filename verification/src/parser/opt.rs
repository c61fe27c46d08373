//! The independently selectable rewrite rules of the parser.

use vstd::prelude::*;

verus! {

/// Which rewrites the parser applies. Every rule is off unless asked for.
#[derive(Debug, Clone, Copy, PartialEq, Eq, Hash, Default, Structural)]
pub struct OptimizationOptions {
    /// Fold a run of `+`/`-`, or of `>`/`<`, into one instruction.
    pub contract: bool,
    /// Replace a loop that only changes the cell by an odd amount.
    pub clear: bool,
    /// Replace a loop that drains the cell into another one.
    pub multiply: bool,
    /// Replace a loop that only moves the pointer.
    pub move_until_zero: bool,
}

impl OptimizationOptions {
    /// No rewrite at all.
    pub fn new() -> (opts: Self)
        ensures
            opts == (OptimizationOptions {
                contract: false,
                clear: false,
                multiply: false,
                move_until_zero: false,
            }),
    {
        Self { contract: false, clear: false, multiply: false, move_until_zero: false }
    }

    /// Every rewrite.
    pub fn all() -> (opts: Self)
        ensures
            opts == (OptimizationOptions {
                contract: true,
                clear: true,
                multiply: true,
                move_until_zero: true,
            }),
    {
        Self { contract: true, clear: true, multiply: true, move_until_zero: true }
    }

    /// The same options with run folding switched on.
    pub fn with_contract(self) -> (opts: Self)
        ensures
            opts == (OptimizationOptions { contract: true, ..self }),
    {
        Self { contract: true, ..self }
    }

    /// The same options with the clear rewrite switched on.
    pub fn with_clear(self) -> (opts: Self)
        ensures
            opts == (OptimizationOptions { clear: true, ..self }),
    {
        Self { clear: true, ..self }
    }

    /// The same options with the multiply rewrite switched on.
    pub fn with_multiply(self) -> (opts: Self)
        ensures
            opts == (OptimizationOptions { multiply: true, ..self }),
    {
        Self { multiply: true, ..self }
    }

    /// The same options with the move-until-zero rewrite switched on.
    pub fn with_move_until_zero(self) -> (opts: Self)
        ensures
            opts == (OptimizationOptions { move_until_zero: true, ..self }),
    {
        Self { move_until_zero: true, ..self }
    }
}

} // verus!
