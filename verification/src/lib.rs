//! Compiles a declarative table of bit-pattern instruction encodings into an
//! ordered decision table, and dispatches fixed-width opcodes against it.
//!
//! A table entry pairs a bit-pattern string such as `"11rr____"` with a
//! handler specification and, optionally, bindings that enumerate the legal
//! values of each variable field.  Compilation parses every pattern, expands
//! variable bindings into concrete opcodes, filters candidates that an
//! earlier entry already owns, and assembles the ordered `(mask, value,
//! invocation)` list that the dispatcher scans top to bottom.

pub mod bits;
pub mod decision;
pub mod errors;
pub mod expand;
pub mod literal;
pub mod pattern;
pub mod table;
