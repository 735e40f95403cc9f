//! The fatal conditions of a run. Every variant carries the offending
//! name, path or version string so that callers can report it.

use vstd::prelude::*;

verus! {

/// A configuration inconsistency that aborts the whole run.
#[derive(Debug, Clone, PartialEq, Eq)]
pub enum Error {
    /// A non-inherited table entry in a manifest has no `version` key.
    MissingVersion(String),
    /// A declared dependency's resolution name is absent from the lock table.
    PackageNotFound(String),
    /// Lock entries share the declaration's name, but none satisfies the
    /// version requirement.
    NoVersionMatch(String),
    /// A declared version requirement does not parse.
    BadRequirement(String),
    /// A version string (declared, locked or reported) does not parse.
    BadVersion(String),
    /// The lock file text does not parse.
    BadLockFile,
    /// A manifest text does not parse.
    BadManifest(String),
    /// A referenced project node has no manifest in the supplied set.
    MissingManifest(String),
    /// Workspace member references form a chain longer than the number of
    /// supplied manifests, which only a reference cycle can produce.
    WorkspaceCycle,
}

} // verus!
