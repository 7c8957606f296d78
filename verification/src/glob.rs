//! Telling glob patterns from plain paths.

use vstd::prelude::*;
use crate::text::contains_char;

verus! {

/// Whether `s` holds one of the characters that mark a shell-style glob:
/// `*`, `?` or `[`.
pub open spec fn looks_like_glob(s: Seq<char>) -> bool {
    s.contains('*') || s.contains('?') || s.contains('[')
}

/// Heuristic: does the string look like a glob?
pub fn is_glob(s: &str) -> (b: bool)
    ensures
        b == looks_like_glob(s@),
{
    contains_char(s, '*') || contains_char(s, '?') || contains_char(s, '[')
}

} // verus!
