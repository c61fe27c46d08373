//! A toolchain for a minimal tape-based language: a parser that resolves
//! loops and fuses common idioms, a reference interpreter, and the lowering
//! stages of a native and of a block-structured backend.

pub mod agreement;
pub mod parser;
pub mod interpreter;
pub mod llvm;
pub mod jit;
pub mod fusion;
