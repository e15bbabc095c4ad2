//! What can go wrong.

use vstd::prelude::*;

verus! {

/// An error with its message.
#[derive(Debug, PartialEq, Eq)]
pub enum DaftError {
    /// An argument has a value that cannot be used.
    ValueError(String),
    /// The data cannot be computed with.
    ComputeError(String),
    /// A file was not read in time.
    FileReadTimeout { path: String, duration_ms: i64 },
}

} // verus!
