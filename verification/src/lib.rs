//! A data model for a line-oriented package-manager dependency-resolution
//! protocol: request and answer stanzas, Debian-style package versions with
//! their total order, and the `name (relop version)` dependency grammar.

pub use boolean::Bool;
pub use progress::Progress;

pub mod answer;
pub mod response;
pub mod scenario;

mod boolean;
mod progress;
