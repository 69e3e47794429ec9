//! Errors reported by the library.

use vstd::prelude::*;

verus! {

/// An error of the store.
#[derive(Debug, Clone)]
pub enum Error {
    /// Reading or writing bytes failed (for instance, input ended early).
    Io(String),
    /// Stored data does not have the expected shape.
    Corrupted(String),
    /// An internal invariant or lookup failed.
    Internal(String),
    /// A requested item does not exist.
    NotFound(String),
    /// Any other failure.
    Other(String),
}

/// The result type of fallible operations of the library.
pub type Result<T> = std::result::Result<T, Error>;

} // verus!
