//! Typed failures of the inference engine.
//!
//! Every lookup or configuration failure is a recoverable value surfaced to
//! the caller; evaluation never panics.

use vstd::prelude::*;

verus! {

/// Why a rule set could not be built.
#[derive(PartialEq, Eq, Debug)]
pub enum ConfigIssue {
    /// The rule list was empty.
    EmptyRules,
    /// Two rules target different result universes; both names are kept.
    MixedUniverses { first: String, other: String },
}

/// A failure of evaluation or configuration.
#[derive(PartialEq, Eq, Debug)]
pub enum FuzzyError {
    /// A condition referenced a variable absent from the input snapshot.
    UnknownVariable(String),
    /// A lookup named a universe that is not registered.
    UnknownUniverse(String),
    /// A lookup named a set absent from its universe.
    UnknownSet(String),
    /// A rule set could not be built from the given rules.
    ConfigurationError(ConfigIssue),
    /// A membership query reached a set that has no membership function.
    InvalidMembershipUse,
    /// A domain sample point outside the representable range.
    InvalidDomainValue,
}

} // verus!
