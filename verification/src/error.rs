//! The error type shared by the platform's subsystems.

use vstd::prelude::*;

verus! {

/// `anyhow::Error`, carried unchanged as the cause of a configuration
/// error.
#[verifier::external_type_specification]
#[verifier::external_body]
pub struct ExAnyhowError(anyhow::Error);

/// The platform's error. Subsystems define their own errors and convert
/// into this one at their public boundary.
#[derive(Debug)]
pub enum UnicornError {
    /// Loading configuration from `path` failed.
    Config { path: String, source: anyhow::Error },
    /// A repository operation failed.
    Repository(String),
    /// An I/O operation failed.
    Io(std::io::Error),
    /// Anything else.
    Other(String),
}

} // verus!
