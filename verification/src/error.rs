//! What can go wrong in the allocator.
use vstd::prelude::*;

verus! {

/// Errors of the allocator.
#[derive(Clone, Copy, Debug, PartialEq, Eq, Structural)]
pub enum AllocError {
    /// The descriptor in the block is not the expected one: load it again.
    Retry,
    /// Nothing of the wanted kind. Carries the set of orders of the free runs
    /// that were seen, bit `n` for order `n`.
    NoMatch(u32),
    /// Not enough free memory.
    NoMem,
    /// The request or the descriptor is not valid.
    Inval,
    /// The descriptor is of another type.
    TypeMismatch,
}

} // verus!
