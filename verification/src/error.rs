//! The ways in which a call into the engine can fail.

use vstd::prelude::*;

verus! {

/// Why an operation was refused. A refused operation changes nothing.
#[derive(Clone, Copy, Debug, PartialEq, Eq, Structural)]
pub enum Error {
    /// The bounds or choices of a distribution are malformed.
    Configuration,
    /// No trial has the identifier.
    NotFound,
    /// The trial has left the running state and can no longer change.
    AlreadyFinished,
}

} // verus!
