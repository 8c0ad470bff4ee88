//! The progress stanza a solver reports while it works.

use vstd::prelude::*;

verus! {

/// A progress report: a timestamp, an optional percentage of completion,
/// and an optional message for the user.
#[derive(Debug)]
pub struct Progress {
    /// A date-and-time timestamp.
    pub progress: String,
    /// Completion of the solving process, from `0` to `100`.
    pub percentage: Option<String>,
    /// A textual description of what is going on.
    pub message: Option<String>,
}

} // verus!
