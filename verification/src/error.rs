//! What can go wrong.

use vstd::prelude::*;

verus! {

/// The ways in which an operation of this library fails.
#[derive(Debug, Clone, Copy, PartialEq, Eq, Structural)]
pub enum WordsError {
    /// A list was asked for by the ID 0; IDs count from one.
    IdUnderflow,
    /// No list has the given ID.
    NotFound { id: usize },
    /// The given line (counted from one) of an imported text has a term
    /// but no definition.
    Parse { line: usize },
    /// The user ended a session before every word was retired.
    Cancelled,
}

} // verus!
