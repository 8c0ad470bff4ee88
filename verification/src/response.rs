//! The stanzas a solver may emit while running and when it finishes,
//! seen as one sum type.

use std::collections::HashMap;

use vstd::prelude::*;

verus! {

/// An install stanza of a response.
pub struct Install {
    /// The identifier of the package to install.
    pub install: String,
    /// Further optional fields of the stanza.
    pub extra: HashMap<String, String>,
}

/// A remove stanza of a response.
pub struct Remove {
    /// The identifier of the package to remove.
    pub remove: String,
    /// Further optional fields of the stanza.
    pub extra: HashMap<String, String>,
}

/// An autoremove stanza of a response.
pub struct Autoremove {
    /// The identifier of the package that can be autoremoved.
    pub autoremove: String,
    /// Further optional fields of the stanza.
    pub extra: HashMap<String, String>,
}

/// An error stanza of a response.
pub struct Error {
    /// A unique error identifier.
    pub error: String,
    /// Human-readable text explaining the cause.
    pub message: String,
}

/// A progress stanza of a response.
pub struct Progress {
    /// A date-and-time timestamp.
    pub progress: String,
    /// Completion of the solving process, from `0` to `100`.
    pub percentage: Option<String>,
    /// A textual description of what is going on.
    pub message: Option<String>,
}

/// Any single stanza a solver may emit.
pub enum Response {
    /// An install stanza.
    Install(Install),
    /// A remove stanza.
    Remove(Remove),
    /// An autoremove stanza.
    Autoremove(Autoremove),
    /// An error stanza.
    Error(Error),
    /// A progress stanza.
    Progress(Progress),
    /// An empty stanza.
    Empty,
}

} // verus!
