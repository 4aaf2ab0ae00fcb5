//! Errors of the operations over several sources.

use vstd::prelude::*;

verus! {

/// Why an operation over several sources refused its input.
#[derive(Debug, Clone, Copy, PartialEq, Eq, Structural)]
pub enum ReconcileError {
    /// The operation needs at least one source and was given none.
    NoSources,
}

} // verus!
