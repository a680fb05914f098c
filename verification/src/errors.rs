//! The failure kinds a run can surface. All are terminal; an unreachable end
//! is not an error but a plain negative search outcome.

use vstd::prelude::*;

verus! {

/// Everything that can go wrong before or instead of a search.
#[derive(Clone, Copy, Debug, PartialEq, Eq, Structural)]
pub enum Error {
    /// The algorithm token is not one of the recognized names.
    InvalidAlgorithm,
    /// The grid contains a symbol outside the recognized set.
    InvalidCharacter,
    /// The underlying source could not be read (raised by the I/O layer).
    FileNotFound,
    /// Not all rows share the first row's length.
    MangledRows,
    /// No cell carries the start marker.
    StartNotFound,
    /// No cell carries the end marker.
    EndNotFound,
    /// The grid has zero rows.
    EmptyGrid,
}

} // verus!
