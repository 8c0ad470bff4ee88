//! Earlier names of the grammar types, kept so that both vocabularies
//! work: a relationship is a version set, and the dependency built from
//! relationships is the same dependency.

use vstd::prelude::*;

verus! {

/// A version-constrained package name; the same type as
/// [`VersionSet`](super::relations::VersionSet).
pub type Relationship = super::relations::VersionSet;

/// The error returned when a [`Relationship`] fails to parse.
pub type RelationshipParseError = super::relations::VersionSetParseError;

/// A dependency fulfillable by one of several [`Relationship`]s.
pub type Dependency = super::relations::Dependency;

/// The error returned when a [`Dependency`] fails to parse.
pub type DependencyParseError = super::relations::DependencyParseError;

} // verus!
