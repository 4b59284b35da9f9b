use vstd::prelude::*;

verus! {

/// Error classification surfaced by the engine.
#[derive(Clone, Copy, Debug, PartialEq, Eq, Structural)]
pub enum EngineError {
    /// A lookup by id found no operation.
    NotFound,
    /// A multi-member hash group was observed in a mixed-state condition.
    /// Unreachable while detection runs atomically; kept as a distinct
    /// classification for invariant-violation reports.
    Conflict,
    /// A tag rule whose predicate kind is not one the matcher evaluates.
    MalformedRule,
    /// The store could not commit a mutation (for this in-memory store:
    /// the id space is exhausted; for a persistent backend: a failed
    /// transaction).
    StorageFailure,
}

} // verus!
