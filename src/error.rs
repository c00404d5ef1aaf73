//! Failures reported by the sharing operations.
use vstd::prelude::*;

verus! {

/// Why a sharing operation produced no result.
#[derive(Debug, Clone, Copy, PartialEq, Eq, Structural)]
pub enum VssError {
    /// A Lagrange denominator has no inverse modulo the modulus.
    InverseUndefined,
    /// Fewer shares than the threshold were supplied.
    InsufficientShares,
    /// Two shares carry the same index modulo the modulus.
    DuplicateShareIndex,
    /// No prime of the requested size could be produced.
    PrimeGenerationFailed,
}

} // verus!
