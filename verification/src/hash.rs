//! Password hashing and verification, through the bcrypt crate.
//!
//! The hash format is opaque to the rest of the library: everything the
//! other modules know about it is said here, in terms of the uninterpreted
//! predicate [`bcrypt_verifies`].

use vstd::prelude::*;

verus! {

/// What `bcrypt::verify(password, hash)` decides: `true` exactly when it
/// returns `Ok(true)`. `verify` extracts cost and salt from `hash` and
/// recomputes the hash of `password`, so its outcome (including every error,
/// which [`check`] collapses to `false`) is a function of the two arguments
/// alone.
pub uninterp spec fn bcrypt_verifies(password: Seq<char>, hash: Seq<char>) -> bool;

/// Hash a password with a fresh random salt.
///
/// Relies on `bcrypt::hash`: with the fixed cost 4 (a valid cost) it fails
/// only when the operating system's randomness source does, which `None`
/// reports. A produced hash is the 60-character bcrypt string
/// `"$2b$04$<salt><hash>"`, and `bcrypt::verify` accepts it for the same
/// password, whatever salt was drawn.
#[verifier::external_body]
pub fn salt(password: &str) -> (r: Option<String>)
    ensures
        (r matches Some(h) ==> bcrypt_verifies(password@, h@) && h@.len() == 60 && h@[0]
            == '$'),
{
    bcrypt::hash(password, 4).ok()
}

/// Check a password against a stored hash.
///
/// Relies on `bcrypt::verify`: deterministic in its two arguments. A
/// verification error (malformed hash) is treated as a failed check, as the
/// callers of this library expect.
#[verifier::external_body]
pub fn check(expected_password_hash: &str, password: &str) -> (r: bool)
    ensures
        r == bcrypt_verifies(password@, expected_password_hash@),
{
    bcrypt::verify(password, expected_password_hash).unwrap_or(false)
}

} // verus!
