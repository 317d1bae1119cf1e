//! Error taxonomy of the combat engine.
//!
//! Every failure is recoverable at the caller boundary: an operation that
//! fails leaves the engine state untouched and reports one of these
//! conditions.

use vstd::prelude::*;

verus! {

/// Why an engine operation was rejected.
#[derive(Clone, Copy, Debug, PartialEq, Eq, Structural)]
pub enum EngineError {
    /// A referenced session, participant or effect is absent.
    NotFound,
    /// The operation was attempted on an ended session, or a rest-clearing
    /// rule was misapplied.
    InvalidState,
    /// A data invariant would be broken, e.g. a missing remaining duration on
    /// an effect that is not rest-bound.
    IntegrityViolation,
    /// A participant does not belong to the session it is being mutated
    /// through.
    ReferenceMismatch,
}

} // verus!
