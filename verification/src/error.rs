//! Failure conditions of the repository and of the services built on it.

use vstd::prelude::*;

verus! {

/// Why a repository or service operation was refused.
///
/// Credential mismatches are never reported through this type: verification
/// and authorization resolve to plain booleans or `Option`s, so that a caller
/// cannot tell a wrong password from an unknown user.
#[derive(Clone, Copy, Debug, PartialEq, Eq, Structural)]
pub enum Error {
    /// The named user or team does not exist.
    NotFound,
    /// An insert hit an existing primary key (user, team, or membership pair).
    Conflict,
    /// A team that still has members cannot be deleted.
    IntegrityViolation,
    /// The password hasher failed to produce a hash.
    Hasher,
}

impl Error {
    /// A short description of the failure, for callers that render it.
    pub fn message(&self) -> &'static str {
        match self {
            Error::NotFound => "not found",
            Error::Conflict => "already exists",
            Error::IntegrityViolation => "team has users",
            Error::Hasher => "password hashing failed",
        }
    }
}

} // verus!
