//! The one way in which a pattern can be malformed.

use vstd::prelude::*;

verus! {

/// Why a pattern could not be expanded.
#[derive(Debug, Clone, Copy, PartialEq, Eq, Structural)]
pub enum ParseError {
    /// A `(` has no `)` at its nesting depth before the pattern ends.
    UnmatchedParen,
}

impl ParseError {
    /// The text shown to the user for this error.
    pub fn message(&self) -> (s: String)
        ensures
            s@ == "Unmatched '(' in pattern"@,
    {
        String::from_str("Unmatched '(' in pattern")
    }
}

} // verus!
