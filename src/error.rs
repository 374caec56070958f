use vstd::prelude::*;

verus! {

/// Why a generation call gave up.
#[derive(Debug, PartialEq, Eq, Structural, Clone, Copy)]
pub enum GenerationError {
    /// No root met the phonotactic and illegal-substring constraints within
    /// the attempt budget.
    ExhaustedAttempts,
    /// Root seeding drew too many duplicate forms in a row to reach the
    /// requested number of distinct roots.
    InsufficientDiversity,
    /// Fresh identifiers kept colliding with identifiers already in use.
    IdentifierCollision,
}

} // verus!
