//! The input side of the protocol: a request stanza and the package
//! universe it is to be resolved against.

use std::collections::HashMap;

use vstd::prelude::*;
use vstd::string::StrSliceExecFns;

use crate::Bool;

pub mod relations;
pub mod relationship;
pub mod version;

pub use relations::{Dependency, DependencyParseError, Relation, VersionSet, VersionSetParseError};
pub use relationship::{Relationship, RelationshipParseError};
pub use version::Version;

use version::{find_char, find_first};

verus! {

/// A whole scenario: the request and the package universe.
pub struct Scenario {
    /// The request stanza.
    pub request: Request,
    /// The package stanzas comprising the package universe.
    pub universe: Vec<Package>,
}

/// An architecture-qualified package name, written `name:architecture`.
#[derive(Debug)]
pub struct ArchQualifiedPackageName {
    /// The name of the package.
    pub name: String,
    /// The architecture of the package.
    pub architecture: String,
}

/// The error returned when an architecture-qualified package name holds
/// no colon.
#[derive(Debug)]
pub struct ArchQualifiedPackageNameParseError;

impl ArchQualifiedPackageName {
    /// Parses `name:architecture`, split at the first colon; fails when
    /// there is none.
    pub fn from_str(s: &str) -> (r: Result<
        ArchQualifiedPackageName,
        ArchQualifiedPackageNameParseError,
    >)
        ensures
            r is Ok <==> find_first(s@, ':') >= 0,
            match r {
                Ok(a) => a.name@ == s@.take(find_first(s@, ':')) && a.architecture@ == s@.skip(
                    find_first(s@, ':') + 1,
                ),
                Err(_) => true,
            },
    {
        let n = s.unicode_len();
        match find_char(s, n, ':') {
            None => Err(ArchQualifiedPackageNameParseError),
            Some(i) => {
                let name = s.substring_char(0, i).to_owned();
                let architecture = s.substring_char(i + 1, n).to_owned();
                proof {
                    assert(name@ =~= s@.take(i as int));
                    assert(architecture@ =~= s@.skip(i + 1));
                }
                Ok(ArchQualifiedPackageName { name, architecture })
            },
        }
    }

    /// The textual form, `name:architecture`.
    pub fn to_string(&self) -> (r: String)
        ensures
            r@ == self.name@ + seq![':'] + self.architecture@,
    {
        let mut out = self.name.clone();
        out.append(":");
        out.append(self.architecture.as_str());
        proof {
            reveal_strlit(":");
            assert(":"@ =~= seq![':']);
            assert(out@ =~= self.name@ + seq![':'] + self.architecture@);
        }
        out
    }
}

/// The action fields of a request stanza.
pub struct Actions {
    /// Set in a distribution-upgrade request.
    pub dist_upgrade: Bool<false>,
    /// Set in an upgrade request.
    pub upgrade: Bool<false>,
    /// Set when a cleanup of unused automatically installed packages has
    /// been requested.
    pub autoremove: Bool<false>,
    /// Set when an upgrade of all installed packages has been requested.
    pub upgrade_all: Bool<false>,
    /// The arch-qualified names of the packages to remove.
    pub remove: Vec<ArchQualifiedPackageName>,
    /// The arch-qualified names of the packages to install.
    pub install: Vec<ArchQualifiedPackageName>,
}

/// The preference fields of a request stanza.
pub struct Preferences {
    /// Whether pinning is strict: whether the solver may propose to
    /// install packages that are no candidates.
    pub strict_pinning: Bool<true>,
    /// Whether the solver is forbidden to install new packages.
    pub forbid_new_install: Bool<false>,
    /// Whether the solver is forbidden to remove installed packages.
    pub forbid_remove: Bool<false>,
    /// The solver this request was initially sent to.
    pub solver: Option<String>,
    /// A solver-specific preferences string.
    pub preferences: Option<String>,
}

/// The request stanza of a scenario.
pub struct Request {
    /// The protocol the requester speaks.
    pub request: String,
    /// The native architecture of the machine.
    pub architecture: String,
    /// All architectures known to the requester, space-separated.
    pub architectures: Option<String>,
    /// The action fields.
    pub actions: Actions,
    /// The preference fields.
    pub preferences: Preferences,
}

/// An installed or installable package of the package universe.
pub struct Package {
    /// The name of the package.
    pub package: String,
    /// The version of the package.
    pub version: Version,
    /// The architectures the package supports.
    pub architecture: String,
    /// Whether the package is installed.
    pub installed: Bool<false>,
    /// Whether the package is held back.
    pub hold: Bool<false>,
    /// The unique identifier of the package.
    pub id: String,
    /// The pin value of the package.
    pub pin: u32,
    /// Whether the package is the installation candidate among those of
    /// its name and architecture.
    pub candidate: Bool<false>,
    /// Whether the package is marked as automatically installed.
    pub automatic: Bool<false>,
    /// The absolute dependencies of the package.
    pub depends: Vec<Dependency>,
    /// The packages this package conflicts with.
    pub conflicts: Vec<VersionSet>,
    /// The other fields of the stanza.
    pub extra: HashMap<String, String>,
}

} // verus!
