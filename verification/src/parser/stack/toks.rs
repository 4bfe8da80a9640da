//! The fixed character-to-role bindings of the language: operation symbols,
//! loop brackets, repetition parentheses, the comment marker, and whitespace.
use vstd::prelude::*;

verus! {

/// The token table: process-wide immutable character constants.
pub struct BfTokens;

impl BfTokens {
    /// Increment the current cell.
    pub const ADD: char = '+';

    /// Decrement the current cell.
    pub const SUB: char = '-';

    /// Move the cursor one cell to the left.
    pub const LFT: char = '<';

    /// Move the cursor one cell to the right.
    pub const RGT: char = '>';

    /// Write the current cell to the output.
    pub const OUT: char = '.';

    /// Read one input line into the current cell.
    pub const INP: char = ',';

    /// Open a loop body.
    pub const LLP: char = '[';

    /// Close a loop body.
    pub const RLP: char = ']';

    /// A space: ignored everywhere.
    pub const SPC: char = ' ';

    /// A newline: ignored everywhere.
    pub const NXL: char = '\n';

    /// Open a repetition group.
    pub const LTB: char = '(';

    /// Close a repetition group.
    pub const RTB: char = ')';

    /// A tab: ignored everywhere.
    pub const TAB: char = '\t';

    /// The comment marker: comments run from one marker to the next.
    pub const FSL: char = '/';
}

/// Whether `c` is one of the whitespace characters the parser ignores.
pub open spec fn is_whitespace(c: char) -> bool {
    c == BfTokens::SPC || c == BfTokens::NXL || c == BfTokens::TAB
}

/// Whether `c` is one of the four symbols eligible for a repetition group:
/// the movement and arithmetic operations.
pub open spec fn is_rep_op(c: char) -> bool {
    c == BfTokens::ADD || c == BfTokens::SUB || c == BfTokens::LFT || c == BfTokens::RGT
}

/// Whether `c` is a decimal digit.
pub open spec fn is_digit(c: char) -> bool {
    48 <= c as u32 && c as u32 <= 57
}

/// The numeric value of a decimal digit character.
pub open spec fn digit_value(c: char) -> nat {
    (c as u32 - 48) as nat
}

/// Whether every character of `s` is a decimal digit.
pub open spec fn all_digits(s: Seq<char>) -> bool {
    forall|i: int| 0 <= i < s.len() ==> is_digit(#[trigger] s[i])
}

/// The number a digit string denotes.
pub open spec fn digits_value(s: Seq<char>) -> nat
    decreases s.len(),
{
    if s.len() == 0 {
        0
    } else {
        digits_value(s.drop_last()) * 10 + digit_value(s.last())
    }
}

} // verus!
