//! An interpreter for an extended Brainfuck-family language: the eight classic
//! single-character operations, plus bounded-span comments delimited by `/` and
//! a run-length repetition shorthand `(op N)`.
//!
//! The pipeline has two stages: a structural parser that turns a source string
//! into a nested program representation ([`parser::stack::BfStack`]), and an
//! evaluator that walks that representation against a growable, wrapping
//! memory tape ([`parser::tape::BfTape`]). Both stages are specified against
//! mathematical models: a character-at-a-time parsing step machine and a
//! fuel-indexed interpreter, and the executable code is proved to match them.
use vstd::prelude::*;

pub mod parser;

verus! {

/// A runtime error: one detected only while executing a parsed program, or a
/// structural error forwarded from the parsing stage.
#[derive(Debug, Clone, PartialEq, Eq, Structural)]
pub enum Error {
    /// The tape cursor is outside the allocated cells (defensive; the verified
    /// tape operations never produce a cursor out of range).
    OutOfTapeIndex(usize),
    /// A character reached by the evaluator is not bound to any operation.
    UnknownToken(char),
    /// The input stream could not be read.
    InputReadError,
    /// An input line is not a valid non-negative integer.
    InputParseError,
    /// A structural error reported by the parsing stage.
    StackModuleError(parser::stack::Error),
}

} // verus!
