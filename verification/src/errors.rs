//! Compilation failures.  Table compilation is all-or-nothing: the first
//! offending entry aborts it, and the error names that entry together with
//! the reason.

use vstd::prelude::*;

verus! {

/// What went wrong inside a single table entry.
#[derive(Clone, Copy, Debug, PartialEq, Eq, Structural)]
pub enum ErrorKind {
    /// The pattern string is not exactly 8, 16, 32 or 64 characters long.
    PatternLength { len: usize },
    /// The pattern holds a character outside `0`, `1`, `_`, `.`, `a`-`z`.
    PatternChar { ch: char },
    /// A variable letter occurs at non-adjacent pattern positions, so its
    /// field cannot be described by a start bit and a width.
    NonContiguousVariable { name: char },
    /// A binding literal is not a well-formed binary literal, or its value
    /// does not fit in 64 bits.
    MalformedLiteral { variable: char },
    /// Two literals of one variable's binding have the same value.
    DuplicateLiteral { variable: char },
    /// A handler generic argument refers to a variable that no binding of
    /// the entry's pattern supplies.
    UnresolvedVariable { name: char },
}

/// A compilation failure: the index of the offending entry, in declaration
/// order, and the reason.
#[derive(Clone, Copy, Debug, PartialEq, Eq, Structural)]
pub struct CompileError {
    pub entry: usize,
    pub kind: ErrorKind,
}

} // verus!
