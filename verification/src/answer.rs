//! The answer a solver returns: a solution made of install, remove and
//! autoremove stanzas, or a single error stanza.

use std::collections::HashMap;

use vstd::prelude::*;

use crate::scenario::{Package, Version};

verus! {

/// A stanza asking for a specific package to be installed, or upgraded
/// or downgraded to a specific version.
pub struct Install {
    /// The identifier of the package to install.
    pub install: String,
    /// The name of the package to install.
    pub package: Option<String>,
    /// The version of the package to install.
    pub version: Option<Version>,
    /// The architecture of the package to install.
    pub architecture: Option<String>,
    /// Further optional fields of the stanza.
    pub extra: HashMap<String, String>,
}

/// A stanza asking for a specific package to be removed.
pub struct Remove {
    /// The identifier of the package to remove.
    pub remove: String,
    /// The name of the package to remove.
    pub package: Option<String>,
    /// The version of the package to remove.
    pub version: Option<Version>,
    /// The architecture of the package to remove.
    pub architecture: Option<String>,
    /// Further optional fields of the stanza.
    pub extra: HashMap<String, String>,
}

/// A stanza noting that a package can be removed as a consequence of the
/// executed request.
pub struct Autoremove {
    /// The identifier of the package that can be autoremoved.
    pub autoremove: String,
    /// Further optional fields of the stanza.
    pub extra: HashMap<String, String>,
}

/// An error stanza, reporting why an unsatisfiable request failed.
pub struct Error {
    /// A unique error identifier.
    pub error: String,
    /// Human-readable text explaining the cause.
    pub message: String,
}

/// A single stanza of a solution.
pub enum Action {
    /// An install stanza.
    Install(Install),
    /// A remove stanza.
    Remove(Remove),
    /// An autoremove stanza.
    Autoremove(Autoremove),
}

/// What the solver answers: the list of actions that satisfies the
/// request, or one error stanza.
pub enum Answer {
    /// The stanzas describing the changes to the installed set.
    Solution(Vec<Action>),
    /// An error during resolution.
    Error(Error),
}

impl Package {
    /// The install stanza for this package: its identifier, name,
    /// version and architecture, and nothing else.
    pub fn to_install(&self) -> (r: Install)
        ensures
            r.install@ == self.id@,
            match r.package {
                Some(p) => p@ == self.package@,
                None => false,
            },
            match r.version {
                Some(v) => v == self.version,
                None => false,
            },
            match r.architecture {
                Some(a) => a@ == self.architecture@,
                None => false,
            },
            r.extra@ == Map::<String, String>::empty(),
    {
        Install {
            install: self.id.clone(),
            package: Some(self.package.clone()),
            version: Some(self.version.clone()),
            architecture: Some(self.architecture.clone()),
            extra: HashMap::new(),
        }
    }

    /// The remove stanza for this package: its identifier, name, version
    /// and architecture, and nothing else.
    pub fn to_remove(&self) -> (r: Remove)
        ensures
            r.remove@ == self.id@,
            match r.package {
                Some(p) => p@ == self.package@,
                None => false,
            },
            match r.version {
                Some(v) => v == self.version,
                None => false,
            },
            match r.architecture {
                Some(a) => a@ == self.architecture@,
                None => false,
            },
            r.extra@ == Map::<String, String>::empty(),
    {
        Remove {
            remove: self.id.clone(),
            package: Some(self.package.clone()),
            version: Some(self.version.clone()),
            architecture: Some(self.architecture.clone()),
            extra: HashMap::new(),
        }
    }

    /// The autoremove stanza for this package: its identifier, and
    /// nothing else.
    pub fn to_autoremove(&self) -> (r: Autoremove)
        ensures
            r.autoremove@ == self.id@,
            r.extra@ == Map::<String, String>::empty(),
    {
        Autoremove { autoremove: self.id.clone(), extra: HashMap::new() }
    }
}

} // verus!
