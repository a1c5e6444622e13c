//! The error taxonomy shared by every fallible operation of the engine.

use vstd::prelude::*;

verus! {

/// A typed failure reported synchronously to the caller.
///
/// None of these are retried automatically; retry, if any, is the caller
/// re-issuing a corrected command.
#[derive(Debug, Clone, Copy, PartialEq, Eq, Structural)]
pub enum BabelError {
    /// A language may not be derived from itself.
    DeriveFromSelf,
    /// Derivation could not find the expected ancestor word; carries the
    /// index of the descendant word whose lineage reference dangles.
    GhostWord(usize),
    /// A bad index into a list.
    IndexOutOfRange,
    /// An index resolved to a tombstoned (soft-deleted) slot.
    InvalidElement,
    /// A sound change's environment did not split into exactly a "before"
    /// part and an "after" part.
    InvalidSCEnvironment,
    /// A correlated sound change whose target references no category.
    InvalidSCTarget,
    /// A compiled text pattern is not a valid expression; carries the index
    /// of the offending rule in the list being compiled (0 where a single
    /// rule or pattern was given).
    PatternError(usize),
    /// Fixpoint application of a substitution did not stabilize within the
    /// iteration cap.
    NonTerminatingRule,
}

impl BabelError {
    /// A short human-readable account of the failure.
    pub fn describe(&self) -> (r: &'static str)
        ensures
            r@ == Self::spec_describe(*self),
    {
        match self {
            BabelError::DeriveFromSelf => "Cannot derive from self!",
            BabelError::GhostWord(_) => "Ghost word!",
            BabelError::IndexOutOfRange => "Index out of range!",
            BabelError::InvalidElement => "Invalid element!",
            BabelError::InvalidSCEnvironment => "Invalid SC environment!",
            BabelError::InvalidSCTarget => "Invalid SC target!",
            BabelError::PatternError(_) => "Invalid pattern!",
            BabelError::NonTerminatingRule => "Rule did not converge!",
        }
    }

    /// The text that `describe` returns for each variant.
    pub open spec fn spec_describe(self) -> Seq<char> {
        match self {
            BabelError::DeriveFromSelf => "Cannot derive from self!"@,
            BabelError::GhostWord(_) => "Ghost word!"@,
            BabelError::IndexOutOfRange => "Index out of range!"@,
            BabelError::InvalidElement => "Invalid element!"@,
            BabelError::InvalidSCEnvironment => "Invalid SC environment!"@,
            BabelError::InvalidSCTarget => "Invalid SC target!"@,
            BabelError::PatternError(_) => "Invalid pattern!"@,
            BabelError::NonTerminatingRule => "Rule did not converge!"@,
        }
    }
}

} // verus!
