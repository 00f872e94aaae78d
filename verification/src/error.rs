//! Error type shared by the loading and decoding routines.

use vstd::prelude::*;

verus! {

/// Error carrying a human-readable message.
#[derive(Debug)]
pub struct Error {
    /// Error message.
    pub message: String,
}

impl Error {
    /// Creates a new Error object.
    pub fn new(message: String) -> (r: Self)
        ensures
            r.message@ == message@,
    {
        Error { message }
    }
}

} // verus!
