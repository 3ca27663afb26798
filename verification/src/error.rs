//! The errors of the allocators.

use vstd::prelude::*;

verus! {

/// Errors that the allocators report.
#[derive(Debug, Clone, Copy, PartialEq, Eq, Structural)]
pub enum MemoryError {
    /// No memory type satisfies the request's type mask and properties.
    NoCompatibleMemoryType,
    /// A compatible memory type exists, but its memory is exhausted.
    OutOfMemory,
}

impl MemoryError {
    /// A short description of the error.
    pub fn description(&self) -> (text: &'static str)
        ensures
            text@ == (match *self {
                MemoryError::NoCompatibleMemoryType => "No compatible memory"@,
                MemoryError::OutOfMemory => "Out of memory"@,
            }),
    {
        match *self {
            MemoryError::NoCompatibleMemoryType => "No compatible memory",
            MemoryError::OutOfMemory => "Out of memory",
        }
    }
}

} // verus!
