//! An optimizing interpreter for a tape language of eight operations.
//!
//! The crate holds the instruction set, the parser, the optimizer passes, the
//! tape, the evaluator and the emitters, each with a contract that is proved
//! of it. `semantics` says what a program means, `equivalence` proves that
//! the passes keep it, and `theorems` states what follows for the runs of
//! the evaluator.

pub mod byte_stream;
pub mod emit;
pub mod equivalence;
pub mod eval;
pub mod lexer;
pub mod mem;
pub mod nesting;
pub mod optimizer;
pub mod options;
pub mod parser;
pub mod semantics;
pub mod syntax;
pub mod theorems;
