//! The ways in which building an instance or pricing it can fail.

use vstd::prelude::*;

verus! {

/// Why a pricer could not be built, or why a search stopped without a result.
#[derive(Debug, Clone, Copy, PartialEq, Eq, Structural)]
pub enum PricingError {
    /// The instance data do not fit together: a vector has the wrong length,
    /// or an index lies outside the node range.
    InstanceShape,
    /// The search had to leave the given node, and the duals hold no price for it.
    MissingDual(usize),
}

} // verus!
