//! The user record as the repository and the services hand it out.

use vstd::prelude::*;

verus! {

use crate::hash;
use crate::hash::bcrypt_verifies;

/// An identity record: a unique username, the bcrypt hash of the password
/// (never the plaintext), the teams the user belongs to, and the admin flag.
pub struct User {
    pub username: String,
    /// The password salted and hashed by bcrypt; opaque to this library.
    pub password_hash: String,
    pub teams: Vec<String>,
    pub admin: bool,
}

impl User {
    /// Whether `password` is this user's password, by checking it against
    /// the stored hash.
    pub fn is_valid(&self, password: &str) -> (r: bool)
        ensures
            r == bcrypt_verifies(password@, self.password_hash@),
    {
        hash::check(self.password_hash.as_str(), password)
    }
}

} // verus!
