//! The error taxonomy of the engine. Every failure is terminal for the
//! call that raised it; no partial output is ever committed.

use vstd::prelude::*;

verus! {

/// What went wrong, with enough context to act on it.
///
/// - `Syntax`: the template text could not be tokenized; carries the
///   character position where tokenizing failed.
/// - `Lookup`: a key reference pointed past the available context depth,
///   or at a context element that is not a descent.
/// - `Type`: a value of the wrong shape was stringified, or a mapping
///   key met during section iteration is not a string.
/// - `Config`: the reserved configuration key or one of its sub-fields
///   has the wrong shape.
/// - `Phase`: the two-phase input parser was driven out of order.
/// - `Upstream`: the outside document parser rejected a data block;
///   carries its message verbatim.
#[derive(Debug, PartialEq)]
pub enum Error {
    Syntax(usize),
    Lookup(String),
    Type(String),
    Config(String),
    Phase(String),
    Upstream(String),
}

} // verus!
