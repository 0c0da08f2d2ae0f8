//! Errors reported by the library.

use vstd::prelude::*;

verus! {

/// Library errors, each with a human-readable message.
#[derive(Clone, Debug, PartialEq, Eq)]
pub enum Error {
    /// A query could not be parsed or evaluated.
    InvalidQuery(String),
    /// A configuration value is missing or unusable.
    ConfigError(String),
    /// A graph operation failed.
    GraphError(String),
    /// Something that was looked up does not exist.
    NotFound(String),
}

} // verus!
