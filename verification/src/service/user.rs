//! The authorization service: higher-level access decisions and privileged
//! mutations, built on the repository and the credential verifier and never
//! bypassing verification.

use vstd::prelude::*;

verus! {

use vstd::string::StringSliceAdditionalSpecFns;

use crate::error::Error;
use crate::hash;
use crate::hash::bcrypt_verifies;
use crate::model::user::User;
use crate::order::str_eq;
use crate::order::views_of;
use crate::service::user_repository::contains_name;
use crate::service::user_repository::DEFAULT_ADMIN_SECRET;
use crate::service::user_repository::UserRepository;

/// Why a self-service password change was refused.
#[derive(Clone, Copy, Debug, PartialEq, Eq, Structural)]
pub enum PasswordRefusal {
    /// The new password is shorter than eight bytes.
    TooShort,
    /// No current password was supplied with the request.
    MissingPassword,
    /// The credentials did not verify, or the hasher failed; which of the
    /// two is deliberately not revealed.
    NotChanged,
}

impl PasswordRefusal {
    /// The message the transport layer reports for this refusal.
    pub fn message(&self) -> &'static str {
        match self {
            PasswordRefusal::TooShort => "Password is too short",
            PasswordRefusal::MissingPassword => "Password is missing",
            PasswordRefusal::NotChanged => "Password not changed",
        }
    }
}

/// Access decisions for administrative and team-scoped actions.
pub struct AdminService {
    pub user_repository: UserRepository,
}

impl AdminService {
    /// The service is as well-formed as its repository.
    pub open spec fn wf(self) -> bool {
        self.user_repository.wf()
    }

    /// What `is_admin` decides: the literal bootstrap default secret is
    /// rejected outright, whatever the stored hash; otherwise the
    /// credentials must verify and the stored admin flag is the answer.
    pub open spec fn spec_is_admin(self, username: Seq<char>, password: Seq<char>) -> bool {
        &&& password != DEFAULT_ADMIN_SECRET@
        &&& self.user_repository.spec_credentials_valid(username, password)
        &&& self.user_repository.user_admin(username)
    }

    /// What `has_team` decides: valid credentials and a membership.
    pub open spec fn spec_has_team(
        self,
        username: Seq<char>,
        password: Seq<char>,
        team: Seq<char>,
    ) -> bool {
        &&& self.user_repository.spec_credentials_valid(username, password)
        &&& self.user_repository.spec_has_link(username, team)
    }

    pub fn new(user_repository: UserRepository) -> (r: AdminService)
        ensures
            r.user_repository == user_repository,
    {
        AdminService { user_repository }
    }

    /// Whether `password` is this user's password.
    fn is_valid(&self, user: &User, password: &str) -> (r: bool)
        ensures
            r == bcrypt_verifies(password@, user.password_hash@),
    {
        user.is_valid(password)
    }

    /// The credential verifier: look the user up and check the secret
    /// against the stored hash; absence and a wrong password are
    /// indistinguishable.
    pub fn find_valid_user(&self, username: &str, password: &str) -> (r: Option<User>)
        requires
            self.wf(),
        ensures
            (match r {
                Some(u) => {
                    &&& self.user_repository.spec_credentials_valid(username@, password@)
                    &&& u.username@ == username@
                    &&& u.password_hash@ == self.user_repository.user_hash(username@)
                    &&& u.admin == self.user_repository.user_admin(username@)
                    &&& (forall|t: Seq<char>|
                        #[trigger] views_of(u.teams@).contains(t)
                            <==> self.user_repository.spec_has_link(username@, t))
                    &&& (forall|i: int, j: int|
                        0 <= i < j < u.teams@.len() ==> u.teams@[i]@ != u.teams@[j]@)
                },
                None => !self.user_repository.spec_credentials_valid(username@, password@),
            }),
    {
        if let Some(user) = self.user_repository.find_user(username) {
            if self.is_valid(&user, password) {
                return Some(user);
            }
        }
        None
    }

    /// Authenticate and return the user record, with the password hash
    /// scrubbed before it leaves the core. Wrong or missing credentials
    /// yield `None`, indistinguishably.
    pub fn get_user(&self, username: &str, password: &str) -> (r: Option<User>)
        requires
            self.wf(),
        ensures
            (match r {
                Some(u) => {
                    &&& self.user_repository.spec_credentials_valid(username@, password@)
                    &&& u.username@ == username@
                    &&& u.password_hash@ == Seq::<char>::empty()
                    &&& u.admin == self.user_repository.user_admin(username@)
                    &&& (forall|t: Seq<char>|
                        #[trigger] views_of(u.teams@).contains(t)
                            <==> self.user_repository.spec_has_link(username@, t))
                    &&& (forall|i: int, j: int|
                        0 <= i < j < u.teams@.len() ==> u.teams@[i]@ != u.teams@[j]@)
                },
                None => !self.user_repository.spec_credentials_valid(username@, password@),
            }),
    {
        match self.find_valid_user(username, password) {
            Some(mut user) => {
                user.password_hash = String::new();
                Some(user)
            },
            None => None,
        }
    }

    /// Whether the user is an administrator: the bootstrap default secret
    /// `"admin"` is rejected before any hash comparison, so an unrotated
    /// default credential never grants administration.
    pub fn is_admin(&self, username: &str, password: &str) -> (r: bool)
        requires
            self.wf(),
        ensures
            r == self.spec_is_admin(username@, password@),
    {
        if str_eq(password, DEFAULT_ADMIN_SECRET) {
            return false;
        }
        match self.user_repository.find_user(username) {
            Some(user) => if self.is_valid(&user, password) {
                user.admin
            } else {
                false
            },
            None => false,
        }
    }

    /// Whether the user's credentials verify and the user belongs to the
    /// team. Verification failure and absence from the team are both plain
    /// `false`.
    pub fn has_team(&self, username: &str, password: &str, team: &str) -> (r: bool)
        requires
            self.wf(),
        ensures
            r == self.spec_has_team(username@, password@, team@),
    {
        if let Some(user) = self.find_valid_user(username, password) {
            if contains_name(&user.teams, team) {
                return true;
            }
        }
        false
    }

    /// Rotate a user's password to a new plaintext, hashed through the
    /// password hasher: what gets stored has the hasher's 60-character
    /// `'$'`-prefixed shape, never the plaintext itself (for any plaintext
    /// not of that shape). The caller is responsible for authorization and
    /// for the minimum-length policy, which is demanded here, not
    /// re-checked.
    pub fn change_password(&mut self, user_name: &str, clear_password: &str) -> (r: Result<
        (),
        Error,
    >)
        requires
            old(self).wf(),
            clear_password.spec_bytes().len() >= 8,
        ensures
            final(self).wf(),
            (match r {
                Ok(()) => {
                    &&& old(self).user_repository.spec_has_user(user_name@)
                    &&& (forall|nm: Seq<char>|
                        final(self).user_repository.spec_has_user(nm) <==> old(
                            self,
                        ).user_repository.spec_has_user(nm))
                    &&& bcrypt_verifies(
                        clear_password@,
                        final(self).user_repository.user_hash(user_name@),
                    )
                    &&& final(self).user_repository.user_hash(user_name@).len() == 60
                    &&& final(self).user_repository.user_hash(user_name@)[0] == '$'
                    &&& final(self).user_repository.user_admin(user_name@) == old(
                        self,
                    ).user_repository.user_admin(user_name@)
                    &&& (forall|nm: Seq<char>|
                        nm != user_name@ && old(self).user_repository.spec_has_user(nm)
                            ==> final(self).user_repository.user_hash(nm) == old(
                            self,
                        ).user_repository.user_hash(nm) && final(self).user_repository.user_admin(
                            nm,
                        ) == old(self).user_repository.user_admin(nm))
                    &&& final(self).user_repository.team_names() == old(
                        self,
                    ).user_repository.team_names()
                    &&& final(self).user_repository.links() == old(self).user_repository.links()
                    &&& final(self).user_repository.is_initialized() == old(
                        self,
                    ).user_repository.is_initialized()
                },
                Err(e) => *final(self) == *old(self) && ((e == Error::NotFound && !old(
                    self,
                ).user_repository.spec_has_user(user_name@)) || e == Error::Hasher),
            }),
    {
        let salted_password = match hash::salt(clear_password) {
            None => {
                return Err(Error::Hasher);
            },
            Some(h) => h,
        };
        self.user_repository.update_password(user_name, salted_password)
    }

    /// Self-service password rotation as the transport layer drives it:
    /// enforce the eight-byte minimum on the new password, require a current
    /// password, verify it, and only then rotate. As with `change_password`,
    /// what gets stored is the hasher's 60-character output, not the
    /// plaintext.
    pub fn self_change_password(
        &mut self,
        username: &str,
        password: Option<&str>,
        new_password: &str,
    ) -> (r: Result<(), PasswordRefusal>)
        requires
            old(self).wf(),
        ensures
            final(self).wf(),
            (match r {
                Ok(()) => {
                    &&& new_password.spec_bytes().len() >= 8
                    &&& (match password {
                        Some(p) => old(self).user_repository.spec_credentials_valid(
                            username@,
                            p@,
                        ),
                        None => false,
                    })
                    &&& (forall|nm: Seq<char>|
                        final(self).user_repository.spec_has_user(nm) <==> old(
                            self,
                        ).user_repository.spec_has_user(nm))
                    &&& bcrypt_verifies(
                        new_password@,
                        final(self).user_repository.user_hash(username@),
                    )
                    &&& final(self).user_repository.user_hash(username@).len() == 60
                    &&& final(self).user_repository.user_hash(username@)[0] == '$'
                    &&& final(self).user_repository.team_names() == old(
                        self,
                    ).user_repository.team_names()
                    &&& final(self).user_repository.links() == old(self).user_repository.links()
                    &&& final(self).user_repository.is_initialized() == old(
                        self,
                    ).user_repository.is_initialized()
                },
                Err(e) => {
                    &&& *final(self) == *old(self)
                    &&& (e == PasswordRefusal::TooShort <==> new_password.spec_bytes().len() < 8)
                    &&& (e == PasswordRefusal::MissingPassword <==> new_password.spec_bytes().len()
                        >= 8 && password is None)
                    &&& ((match password {
                        Some(p) => new_password.spec_bytes().len() >= 8 && !old(
                            self,
                        ).user_repository.spec_credentials_valid(username@, p@),
                        None => false,
                    }) ==> e == PasswordRefusal::NotChanged)
                },
            }),
    {
        if new_password.as_bytes().len() < 8 {
            return Err(PasswordRefusal::TooShort);
        }
        let current = match password {
            None => {
                return Err(PasswordRefusal::MissingPassword);
            },
            Some(p) => p,
        };
        if self.get_user(username, current).is_none() {
            return Err(PasswordRefusal::NotChanged);
        }
        match self.change_password(username, new_password) {
            Ok(()) => Ok(()),
            Err(_) => Err(PasswordRefusal::NotChanged),
        }
    }
}

/// For a user whose password was rotated away from the bootstrap default,
/// `is_admin` under the correct secret answers exactly the stored admin flag
/// (the correct secret of a rotated password is never the default one).
pub proof fn lemma_is_admin_correct_secret(s: AdminService, username: Seq<char>, secret: Seq<char>)
    requires
        s.user_repository.spec_has_user(username),
        bcrypt_verifies(secret, s.user_repository.user_hash(username)),
        secret != DEFAULT_ADMIN_SECRET@,
    ensures
        s.spec_is_admin(username, secret) == s.user_repository.user_admin(username),
{
}

/// Under a secret that does not verify, `is_admin` answers false, whatever
/// the stored flag; so does it for a username that does not exist.
pub proof fn lemma_is_admin_wrong_secret(s: AdminService, username: Seq<char>, secret: Seq<char>)
    requires
        !s.user_repository.spec_has_user(username) || !bcrypt_verifies(
            secret,
            s.user_repository.user_hash(username),
        ),
    ensures
        !s.spec_is_admin(username, secret),
{
}

/// The literal bootstrap default secret is always rejected, even for an
/// account whose stored hash would verify against it.
pub proof fn lemma_is_admin_rejects_default(s: AdminService, username: Seq<char>)
    ensures
        !s.spec_is_admin(username, DEFAULT_ADMIN_SECRET@),
{
}

/// After a successful link of a user and a team, `has_team` answers true
/// for that team under a correct secret, and for every other team exactly
/// what it answered before the link.
pub proof fn lemma_link_grants_team(
    before: UserRepository,
    s: AdminService,
    u: Seq<char>,
    t: Seq<char>,
    secret: Seq<char>,
)
    requires
        // the state change of a successful `link_user_team`
        forall|p: (Seq<char>, Seq<char>)|
            #![trigger s.user_repository.links().contains(p)]
            s.user_repository.links().contains(p) <==> before.links().contains(p) || p == (u, t),
        // the user record itself was not touched
        s.user_repository.spec_has_user(u) == before.spec_has_user(u),
        s.user_repository.user_hash(u) == before.user_hash(u),
        // the caller's secret is correct
        s.user_repository.spec_credentials_valid(u, secret),
    ensures
        s.spec_has_team(u, secret, t),
        forall|t2: Seq<char>|
            t2 != t ==> s.spec_has_team(u, secret, t2) == (before.spec_credentials_valid(u, secret)
                && before.spec_has_link(u, t2)),
{
    assert(s.user_repository.links().contains((u, t)));
    assert forall|t2: Seq<char>| t2 != t implies s.spec_has_team(u, secret, t2) == (
    before.spec_credentials_valid(u, secret) && before.spec_has_link(u, t2)) by {
        assert(s.user_repository.links().contains((u, t2)) <==> before.links().contains(
            (u, t2),
        ) || (u, t2) == (u, t));
    }
}

} // verus!
