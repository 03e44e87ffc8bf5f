//! The repository: an in-memory relational store of users, teams and
//! memberships, the sole owner of referential-integrity enforcement.
//!
//! User and team rows are kept sorted by [`name_lt`], the byte-lexicographic
//! order of their names, so listings are deterministic; membership pairs are
//! unique and each side always references an existing row.

use vstd::prelude::*;

verus! {

use crate::error::Error;
use crate::hash;
use crate::hash::bcrypt_verifies;
use crate::model::user::User;
use crate::order::lemma_contains_insert;
use crate::order::lemma_contains_push;
use crate::order::lemma_contains_remove;
use crate::order::lemma_name_lt_total;
use crate::order::lemma_sorted_insert;
use crate::order::lemma_sorted_remove;
use crate::order::lemma_sorted_unique;
use crate::order::name_lt;
use crate::order::sorted_names;
use crate::order::str_eq;
use crate::order::str_lt;
use crate::order::views_of;

/// A stored user row: the materialized team set is not part of it.
pub(crate) struct UserRow {
    pub username: String,
    pub password_hash: String,
    pub admin: bool,
}

/// A membership row: one `(username, team)` pair.
pub(crate) struct Membership {
    pub username: String,
    pub team: String,
}

/// The `(username, team)` views of a sequence of membership rows.
pub(crate) open spec fn links_of(s: Seq<Membership>) -> Seq<(Seq<char>, Seq<char>)> {
    s.map_values(|m: Membership| (m.username@, m.team@))
}

/// The bootstrap administrator's initial secret. The hardening rule in the
/// authorization service rejects this very string as a password outright, so
/// the two must stay in lockstep: both read this constant.
pub const DEFAULT_ADMIN_SECRET: &'static str = "admin";

/// Whether one of the strings in `v` is `name`.
pub(crate) fn contains_name(v: &Vec<String>, name: &str) -> (r: bool)
    ensures
        r == views_of(v@).contains(name@),
{
    let n = v.len();
    let mut i: usize = 0;
    while i < n
        invariant
            i <= n,
            n == v@.len(),
            forall|j: int| 0 <= j < i ==> v@[j]@ != name@,
        decreases n - i,
    {
        if str_eq(v[i].as_str(), name) {
            proof {
                assert(views_of(v@)[i as int] == name@);
            }
            return true;
        }
        i = i + 1;
    }
    proof {
        if views_of(v@).contains(name@) {
            let k = choose|k: int| 0 <= k < views_of(v@).len() && views_of(v@)[k] == name@;
            assert(v@[k]@ == name@);
        }
    }
    false
}

/// Durable storage for users, teams and memberships.
pub struct UserRepository {
    users: Vec<UserRow>,
    teams: Vec<String>,
    memberships: Vec<Membership>,
    /// Whether the schema exists; the bootstrap trigger.
    initialized: bool,
}

impl UserRepository {
    /// The usernames, in the order the store keeps them.
    pub closed spec fn user_names(self) -> Seq<Seq<char>> {
        self.users@.map_values(|u: UserRow| u.username@)
    }

    /// The team names, in the order the store keeps them.
    pub closed spec fn team_names(self) -> Seq<Seq<char>> {
        views_of(self.teams@)
    }

    /// The membership pairs `(username, team)`.
    pub closed spec fn links(self) -> Seq<(Seq<char>, Seq<char>)> {
        links_of(self.memberships@)
    }

    /// Whether the schema has been created.
    pub closed spec fn is_initialized(self) -> bool {
        self.initialized
    }

    pub open spec fn spec_has_user(self, name: Seq<char>) -> bool {
        self.user_names().contains(name)
    }

    pub open spec fn spec_has_team(self, name: Seq<char>) -> bool {
        self.team_names().contains(name)
    }

    pub open spec fn spec_has_link(self, user: Seq<char>, team: Seq<char>) -> bool {
        self.links().contains((user, team))
    }

    /// The teams a user belongs to, as a set of names.
    pub open spec fn spec_user_teams(self, user: Seq<char>) -> Set<Seq<char>> {
        Set::new(|t: Seq<char>| self.spec_has_link(user, t))
    }

    /// The row index of the user with this name (meaningful when the user
    /// exists).
    pub closed spec fn user_index(self, name: Seq<char>) -> int {
        choose|i: int| 0 <= i < self.users@.len() && self.users@[i].username@ == name
    }

    /// The stored password hash of the named user.
    pub closed spec fn user_hash(self, name: Seq<char>) -> Seq<char> {
        self.users@[self.user_index(name)].password_hash@
    }

    /// The stored admin flag of the named user.
    pub closed spec fn user_admin(self, name: Seq<char>) -> bool {
        self.users@[self.user_index(name)].admin
    }

    /// Whether this pair of credentials is valid against the store: the user
    /// exists and the secret checks against the stored hash.
    pub open spec fn spec_credentials_valid(self, username: Seq<char>, password: Seq<char>) -> bool {
        self.spec_has_user(username) && bcrypt_verifies(password, self.user_hash(username))
    }

    /// Well-formedness: rows sorted by name (hence unique), names non-empty,
    /// membership pairs unique and referencing existing rows, and no rows at
    /// all before the schema exists.
    pub closed spec fn wf(self) -> bool {
        &&& sorted_names(self.user_names())
        &&& sorted_names(self.team_names())
        &&& (forall|i: int, j: int|
            0 <= i < j < self.links().len() ==> self.links()[i] != self.links()[j])
        &&& (forall|i: int|
            #![trigger self.links()[i]]
            0 <= i < self.links().len() ==> self.spec_has_user(self.links()[i].0)
                && self.spec_has_team(self.links()[i].1))
        &&& (forall|i: int| 0 <= i < self.user_names().len() ==> self.user_names()[i].len() != 0)
        &&& (forall|i: int| 0 <= i < self.team_names().len() ==> self.team_names()[i].len() != 0)
        &&& (!self.initialized ==> self.user_names().len() == 0 && self.team_names().len() == 0
            && self.links().len() == 0)
    }

    /// In a well-formed store no two user rows share a name.
    proof fn lemma_unique_usernames(self)
        requires
            self.wf(),
        ensures
            forall|i: int, j: int|
                0 <= i < self.users@.len() && 0 <= j < self.users@.len() && i != j
                    ==> self.users@[i].username@ != self.users@[j].username@,
    {
        assert forall|i: int, j: int|
            0 <= i < self.users@.len() && 0 <= j < self.users@.len() && i != j
            implies self.users@[i].username@ != self.users@[j].username@ by {
            if i < j {
                assert(name_lt(self.user_names()[i], self.user_names()[j]));
                lemma_name_lt_total(self.users@[i].username@, self.users@[j].username@);
            } else {
                assert(name_lt(self.user_names()[j], self.user_names()[i]));
                lemma_name_lt_total(self.users@[i].username@, self.users@[j].username@);
            }
        }
    }

    /// An existing user's name leads back to its row.
    proof fn lemma_user_index(self, name: Seq<char>)
        requires
            self.spec_has_user(name),
        ensures
            0 <= self.user_index(name) < self.users@.len(),
            self.users@[self.user_index(name)].username@ == name,
    {
        let k = choose|k: int| 0 <= k < self.user_names().len() && self.user_names()[k] == name;
        assert(self.users@[k].username@ == name);
    }

    /// A row's name is an existing user whose lookups read that very row.
    proof fn lemma_user_at(self, i: int)
        requires
            self.wf(),
            0 <= i < self.users@.len(),
        ensures
            self.spec_has_user(self.users@[i].username@),
            self.user_index(self.users@[i].username@) == i,
            self.user_hash(self.users@[i].username@) == self.users@[i].password_hash@,
            self.user_admin(self.users@[i].username@) == self.users@[i].admin,
    {
        let name = self.users@[i].username@;
        assert(self.user_names()[i] == name);
        self.lemma_user_index(name);
        self.lemma_unique_usernames();
    }

    /// The row index of the user with this name, if any.
    fn find_user_index(&self, username: &str) -> (r: Option<usize>)
        ensures
            (match r {
                Some(i) => i < self.users@.len() && self.users@[i as int].username@ == username@
                    && self.spec_has_user(username@),
                None => !self.spec_has_user(username@),
            }),
    {
        let n = self.users.len();
        let mut i: usize = 0;
        while i < n
            invariant
                i <= n,
                n == self.users@.len(),
                forall|j: int| 0 <= j < i ==> self.users@[j].username@ != username@,
            decreases n - i,
        {
            if str_eq(self.users[i].username.as_str(), username) {
                proof {
                    assert(self.user_names()[i as int] == username@);
                }
                return Some(i);
            }
            i = i + 1;
        }
        proof {
            if self.spec_has_user(username@) {
                let k = choose|k: int|
                    0 <= k < self.user_names().len() && self.user_names()[k] == username@;
                assert(self.users@[k].username@ == username@);
            }
        }
        None
    }

    /// The row index of the team with this name, if any.
    fn find_team_index(&self, team: &str) -> (r: Option<usize>)
        ensures
            (match r {
                Some(i) => i < self.teams@.len() && self.teams@[i as int]@ == team@
                    && self.spec_has_team(team@),
                None => !self.spec_has_team(team@),
            }),
    {
        let n = self.teams.len();
        let mut i: usize = 0;
        while i < n
            invariant
                i <= n,
                n == self.teams@.len(),
                forall|j: int| 0 <= j < i ==> self.teams@[j]@ != team@,
            decreases n - i,
        {
            if str_eq(self.teams[i].as_str(), team) {
                proof {
                    assert(self.team_names()[i as int] == team@);
                }
                return Some(i);
            }
            i = i + 1;
        }
        proof {
            if self.spec_has_team(team@) {
                let k = choose|k: int|
                    0 <= k < self.team_names().len() && self.team_names()[k] == team@;
                assert(self.teams@[k]@ == team@);
            }
        }
        None
    }

    /// List every username, lexicographically ordered.
    pub fn list_users(&self) -> (r: Vec<String>)
        requires
            self.wf(),
        ensures
            views_of(r@) == self.user_names(),
            sorted_names(views_of(r@)),
    {
        let n = self.users.len();
        let mut r: Vec<String> = Vec::new();
        let mut i: usize = 0;
        while i < n
            invariant
                i <= n,
                n == self.users@.len(),
                r@.len() == i,
                forall|j: int| 0 <= j < i ==> r@[j]@ == self.users@[j].username@,
            decreases n - i,
        {
            r.push(self.users[i].username.clone());
            i = i + 1;
        }
        proof {
            assert(views_of(r@) =~= self.user_names());
        }
        r
    }

    /// List every team name, lexicographically ordered.
    pub fn list_teams(&self) -> (r: Vec<String>)
        requires
            self.wf(),
        ensures
            views_of(r@) == self.team_names(),
            sorted_names(views_of(r@)),
    {
        let n = self.teams.len();
        let mut r: Vec<String> = Vec::new();
        let mut i: usize = 0;
        while i < n
            invariant
                i <= n,
                n == self.teams@.len(),
                r@.len() == i,
                forall|j: int| 0 <= j < i ==> r@[j]@ == self.teams@[j]@,
            decreases n - i,
        {
            r.push(self.teams[i].clone());
            i = i + 1;
        }
        proof {
            assert(views_of(r@) =~= self.team_names());
        }
        r
    }

    /// The distinct teams a user belongs to.
    ///
    /// Membership listing is informational and degrades to an empty set on a
    /// storage fault rather than failing a whole user lookup; an in-memory
    /// store has no such faults, so here the listing is always exact.
    pub fn find_user_teams(&self, username: &str) -> (r: Vec<String>)
        requires
            self.wf(),
        ensures
            forall|t: Seq<char>|
                #[trigger] views_of(r@).contains(t) <==> self.spec_has_link(username@, t),
            forall|i: int, j: int| 0 <= i < j < r@.len() ==> r@[i]@ != r@[j]@,
    {
        let n = self.memberships.len();
        let mut r: Vec<String> = Vec::new();
        let mut i: usize = 0;
        while i < n
            invariant
                self.wf(),
                i <= n,
                n == self.memberships@.len(),
                forall|t: Seq<char>|
                    #[trigger] views_of(r@).contains(t) <==> (exists|j: int|
                        0 <= j < i && self.links()[j] == (username@, t)),
                forall|p: int, q: int| 0 <= p < q < r@.len() ==> r@[p]@ != r@[q]@,
            decreases n - i,
        {
            let ghost prev = r@;
            if str_eq(self.memberships[i].username.as_str(), username) {
                let t = self.memberships[i].team.clone();
                proof {
                    // the new team is not already listed: its pair would be a
                    // duplicate membership
                    if views_of(prev).contains(t@) {
                        let j = choose|j: int|
                            0 <= j < i && self.links()[j] == (username@, t@);
                        assert(self.links()[j] == self.links()[i as int]);
                        assert(false);
                    }
                }
                r.push(t);
                proof {
                    assert forall|p: int, q: int| 0 <= p < q < r@.len() implies r@[p]@ != r@[
                        q]@ by {
                        if q == r@.len() - 1 {
                            assert(r@[p] == prev[p]);
                            assert(views_of(prev)[p] == prev[p]@);
                        }
                    }
                    assert forall|tv: Seq<char>| #[trigger] views_of(r@).contains(tv) implies (
                    exists|j: int| 0 <= j < i + 1 && self.links()[j] == (username@, tv)) by {
                        let k = choose|k: int| 0 <= k < views_of(r@).len() && views_of(r@)[k] == tv;
                        if k < prev.len() {
                            assert(r@[k] == prev[k]);
                            assert(views_of(prev)[k] == tv);
                            assert(views_of(prev).contains(tv));
                        } else {
                            assert(self.links()[i as int] == (username@, tv));
                        }
                    }
                    assert forall|tv: Seq<char>| (exists|j: int|
                        0 <= j < i + 1 && self.links()[j] == (username@, tv)) implies #[trigger] views_of(
                        r@).contains(tv) by {
                        let j = choose|j: int| 0 <= j < i + 1 && self.links()[j] == (username@, tv);
                        if j < i {
                            assert(views_of(prev).contains(tv));
                            let k = choose|k: int|
                                0 <= k < views_of(prev).len() && views_of(prev)[k] == tv;
                            assert(views_of(r@)[k] == tv);
                        } else {
                            assert(views_of(r@)[r@.len() - 1] == tv);
                        }
                    }
                }
            } else {
                proof {
                    assert forall|tv: Seq<char>| (exists|j: int|
                        0 <= j < i + 1 && self.links()[j] == (username@, tv)) implies #[trigger] views_of(
                        r@).contains(tv) by {
                        let j = choose|j: int| 0 <= j < i + 1 && self.links()[j] == (username@, tv);
                        assert(j < i);
                    }
                }
            }
            i = i + 1;
        }
        proof {
            assert forall|t: Seq<char>| #[trigger] views_of(r@).contains(t) implies self
                .spec_has_link(username@, t) by {
                let j = choose|j: int| 0 <= j < n && self.links()[j] == (username@, t);
            }
            assert forall|t: Seq<char>| self.spec_has_link(username@, t) implies #[trigger] views_of(
                r@).contains(t) by {
                let j = choose|j: int|
                    0 <= j < self.links().len() && self.links()[j] == (username@, t);
                assert(0 <= j < n && self.links()[j] == (username@, t));
            }
        }
        r
    }

    /// Whether the schema has been created.
    pub fn initialized(&self) -> (r: bool)
        ensures
            r == self.is_initialized(),
    {
        self.initialized
    }

    /// The position where a row named `name` belongs: every row before it is
    /// strictly below `name`, the row at it (if any) is not.
    fn user_insert_position(&self, name: &str) -> (r: usize)
        ensures
            r <= self.users@.len(),
            forall|j: int| 0 <= j < r ==> name_lt(self.users@[j].username@, name@),
            r < self.users@.len() ==> !name_lt(self.users@[r as int].username@, name@),
    {
        let n = self.users.len();
        let mut idx: usize = 0;
        while idx < n && str_lt(self.users[idx].username.as_str(), name)
            invariant
                idx <= n,
                n == self.users@.len(),
                forall|j: int| 0 <= j < idx ==> name_lt(self.users@[j].username@, name@),
            decreases n - idx,
        {
            idx = idx + 1;
        }
        idx
    }

    /// The position where a team named `name` belongs.
    fn team_insert_position(&self, name: &str) -> (r: usize)
        ensures
            r <= self.teams@.len(),
            forall|j: int| 0 <= j < r ==> name_lt(self.teams@[j]@, name@),
            r < self.teams@.len() ==> !name_lt(self.teams@[r as int]@, name@),
    {
        let n = self.teams.len();
        let mut idx: usize = 0;
        while idx < n && str_lt(self.teams[idx].as_str(), name)
            invariant
                idx <= n,
                n == self.teams@.len(),
                forall|j: int| 0 <= j < idx ==> name_lt(self.teams@[j]@, name@),
            decreases n - idx,
        {
            idx = idx + 1;
        }
        idx
    }

    /// Provision a user. Fails with `Conflict` when the username is already
    /// taken; memberships are not touched (`user.teams` is ignored).
    pub fn insert_user(&mut self, user: &User) -> (r: Result<(), Error>)
        requires
            old(self).wf(),
            old(self).is_initialized(),
            user.username@.len() != 0,
        ensures
            final(self).wf(),
            (match r {
                Ok(()) => {
                    &&& !old(self).spec_has_user(user.username@)
                    &&& (forall|nm: Seq<char>|
                        final(self).spec_has_user(nm) <==> old(self).spec_has_user(nm) || nm
                            == user.username@)
                    &&& final(self).user_hash(user.username@) == user.password_hash@
                    &&& final(self).user_admin(user.username@) == user.admin
                    &&& (forall|nm: Seq<char>|
                        nm != user.username@ && old(self).spec_has_user(nm)
                            ==> final(self).user_hash(nm) == old(self).user_hash(nm)
                            && final(self).user_admin(nm) == old(self).user_admin(nm))
                    &&& final(self).team_names() == old(self).team_names()
                    &&& final(self).links() == old(self).links()
                    &&& final(self).is_initialized()
                },
                Err(e) => e == Error::Conflict && old(self).spec_has_user(user.username@)
                    && *final(self) == *old(self),
            }),
    {
        let idx = self.user_insert_position(user.username.as_str());
        let n = self.users.len();
        if idx < n && str_eq(self.users[idx].username.as_str(), user.username.as_str()) {
            proof {
                assert(self.user_names()[idx as int] == user.username@);
            }
            return Err(Error::Conflict);
        }
        proof {
            if self.spec_has_user(user.username@) {
                let k = choose|k: int|
                    0 <= k < self.user_names().len() && self.user_names()[k] == user.username@;
                assert(self.users@[k].username@ == user.username@);
                if k < idx {
                    lemma_name_lt_total(user.username@, user.username@);
                } else if k > idx {
                    assert(name_lt(self.user_names()[idx as int], self.user_names()[k]));
                }
                assert(false);
            }
        }
        let ghost prev = *self;
        let row = UserRow {
            username: user.username.clone(),
            password_hash: user.password_hash.clone(),
            admin: user.admin,
        };
        self.users.insert(idx, row);
        proof {
            assert(self.user_names() =~= prev.user_names().insert(idx as int, user.username@));
            if idx < n {
                lemma_name_lt_total(user.username@, prev.users@[idx as int].username@);
            }
            lemma_sorted_insert(prev.user_names(), idx as int, user.username@);
            assert forall|nm: Seq<char>|
                final(self).spec_has_user(nm) <==> prev.spec_has_user(nm) || nm
                    == user.username@ by {
                lemma_contains_insert(prev.user_names(), idx as int, user.username@, nm);
            }
            assert(self.links() == prev.links());
            assert(self.team_names() == prev.team_names());
            assert forall|i: int| 0 <= i < self.links().len() implies self.spec_has_user(
                #[trigger] self.links()[i].0,
            ) && self.spec_has_team(self.links()[i].1) by {
                assert(prev.spec_has_user(prev.links()[i].0) && prev.spec_has_team(
                    prev.links()[i].1,
                ));
                lemma_contains_insert(
                    prev.user_names(),
                    idx as int,
                    user.username@,
                    self.links()[i].0,
                );
            }
            assert forall|i: int|
                0 <= i < self.user_names().len() implies (#[trigger] self.user_names()[i]).len()
                != 0 by {
                if i < idx {
                    assert(self.user_names()[i] == prev.user_names()[i]);
                } else if i > idx {
                    assert(self.user_names()[i] == prev.user_names()[i - 1]);
                }
            }
            assert(self.wf());
            self.lemma_user_at(idx as int);
            assert forall|nm: Seq<char>|
                nm != user.username@ && prev.spec_has_user(nm) implies self.user_hash(nm)
                    == prev.user_hash(nm) && self.user_admin(nm) == prev.user_admin(nm) by {
                prev.lemma_user_index(nm);
                let k = prev.user_index(nm);
                let k2: int = if k < idx { k } else { k + 1 };
                assert(self.users@[k2] == prev.users@[k]);
                self.lemma_user_at(k2);
                prev.lemma_unique_usernames();
                assert(prev.user_hash(nm) == prev.users@[k].password_hash@);
            }
        }
        Ok(())
    }

    /// Provision a team. Fails with `Conflict` when the name is already
    /// taken.
    pub fn insert_team(&mut self, team: &str) -> (r: Result<(), Error>)
        requires
            old(self).wf(),
            old(self).is_initialized(),
            team@.len() != 0,
        ensures
            final(self).wf(),
            final(self).user_names() == old(self).user_names(),
            forall|nm: Seq<char>|
                final(self).user_hash(nm) == old(self).user_hash(nm) && final(self).user_admin(nm)
                    == old(self).user_admin(nm),
            final(self).links() == old(self).links(),
            final(self).is_initialized(),
            (match r {
                Ok(()) => {
                    &&& !old(self).spec_has_team(team@)
                    &&& (forall|nm: Seq<char>|
                        final(self).spec_has_team(nm) <==> old(self).spec_has_team(nm) || nm
                            == team@)
                },
                Err(e) => e == Error::Conflict && old(self).spec_has_team(team@) && *final(self)
                    == *old(self),
            }),
    {
        let idx = self.team_insert_position(team);
        let n = self.teams.len();
        if idx < n && str_eq(self.teams[idx].as_str(), team) {
            proof {
                assert(self.team_names()[idx as int] == team@);
            }
            return Err(Error::Conflict);
        }
        proof {
            if self.spec_has_team(team@) {
                let k = choose|k: int|
                    0 <= k < self.team_names().len() && self.team_names()[k] == team@;
                assert(self.teams@[k]@ == team@);
                if k < idx {
                    lemma_name_lt_total(team@, team@);
                } else if k > idx {
                    assert(name_lt(self.team_names()[idx as int], self.team_names()[k]));
                }
                assert(false);
            }
        }
        let ghost prev = *self;
        self.teams.insert(idx, team.to_owned());
        proof {
            assert(self.team_names() =~= prev.team_names().insert(idx as int, team@));
            if idx < n {
                lemma_name_lt_total(team@, prev.teams@[idx as int]@);
            }
            lemma_sorted_insert(prev.team_names(), idx as int, team@);
            assert forall|nm: Seq<char>|
                final(self).spec_has_team(nm) <==> prev.spec_has_team(nm) || nm == team@ by {
                lemma_contains_insert(prev.team_names(), idx as int, team@, nm);
            }
            assert(self.links() == prev.links());
            assert(self.user_names() == prev.user_names());
            assert forall|i: int| 0 <= i < self.links().len() implies self.spec_has_user(
                #[trigger] self.links()[i].0,
            ) && self.spec_has_team(self.links()[i].1) by {
                assert(prev.spec_has_user(prev.links()[i].0) && prev.spec_has_team(
                    prev.links()[i].1,
                ));
                lemma_contains_insert(prev.team_names(), idx as int, team@, self.links()[i].1);
            }
            assert forall|i: int|
                0 <= i < self.team_names().len() implies (#[trigger] self.team_names()[i]).len()
                != 0 by {
                if i < idx {
                    assert(self.team_names()[i] == prev.team_names()[i]);
                } else if i > idx {
                    assert(self.team_names()[i] == prev.team_names()[i - 1]);
                }
            }
            assert(self.wf());
        }
        Ok(())
    }

    /// Rotate a stored password hash. Fails with `NotFound` when the user
    /// does not exist (an update that would affect zero rows).
    pub fn update_password(&mut self, user_name: &str, salted_password: String) -> (r: Result<
        (),
        Error,
    >)
        requires
            old(self).wf(),
        ensures
            final(self).wf(),
            (match r {
                Ok(()) => {
                    &&& old(self).spec_has_user(user_name@)
                    &&& (forall|nm: Seq<char>|
                        final(self).spec_has_user(nm) <==> old(self).spec_has_user(nm))
                    &&& final(self).user_hash(user_name@) == salted_password@
                    &&& final(self).user_admin(user_name@) == old(self).user_admin(user_name@)
                    &&& (forall|nm: Seq<char>|
                        nm != user_name@ && old(self).spec_has_user(nm)
                            ==> final(self).user_hash(nm) == old(self).user_hash(nm)
                            && final(self).user_admin(nm) == old(self).user_admin(nm))
                    &&& final(self).team_names() == old(self).team_names()
                    &&& final(self).links() == old(self).links()
                    &&& final(self).is_initialized() == old(self).is_initialized()
                },
                Err(e) => e == Error::NotFound && !old(self).spec_has_user(user_name@)
                    && *final(self) == *old(self),
            }),
    {
        match self.find_user_index(user_name) {
            None => Err(Error::NotFound),
            Some(i) => {
                let ghost prev = *self;
                proof {
                    self.lemma_user_at(i as int);
                }
                let row = UserRow {
                    username: self.users[i].username.clone(),
                    password_hash: salted_password,
                    admin: self.users[i].admin,
                };
                self.users.remove(i);
                self.users.insert(i, row);
                proof {
                    assert(self.users@ =~= prev.users@.update(i as int, row));
                    assert(self.user_names() =~= prev.user_names());
                    assert(self.links() == prev.links());
                    assert(self.team_names() == prev.team_names());
                    assert(self.wf());
                    self.lemma_user_at(i as int);
                    assert(self.user_names()[i as int] == user_name@);
                    assert forall|nm: Seq<char>|
                        nm != user_name@ && prev.spec_has_user(nm) implies final(self).user_hash(nm)
                        == prev.user_hash(nm) && final(self).user_admin(nm) == prev.user_admin(
                        nm) by {
                        prev.lemma_user_index(nm);
                        let k = prev.user_index(nm);
                        assert(k != i);
                        assert(self.users@[k] == prev.users@[k]);
                        self.lemma_user_at(k);
                    }
                }
                Ok(())
            },
        }
    }

    /// The row index of the membership pair, if it is present.
    fn find_link_index(&self, username: &str, team: &str) -> (r: Option<usize>)
        ensures
            (match r {
                Some(i) => i < self.links().len() && self.links()[i as int] == (
                    username@,
                    team@,
                ),
                None => !self.spec_has_link(username@, team@),
            }),
    {
        let n = self.memberships.len();
        let mut i: usize = 0;
        while i < n
            invariant
                i <= n,
                n == self.memberships@.len(),
                forall|j: int| 0 <= j < i ==> self.links()[j] != (username@, team@),
            decreases n - i,
        {
            if str_eq(self.memberships[i].username.as_str(), username) && str_eq(
                self.memberships[i].team.as_str(),
                team,
            ) {
                return Some(i);
            }
            i = i + 1;
        }
        proof {
            if self.spec_has_link(username@, team@) {
                let k = choose|k: int|
                    0 <= k < self.links().len() && self.links()[k] == (username@, team@);
                assert(self.links()[k] == (username@, team@));
            }
        }
        None
    }

    /// Record that a user belongs to a team. Fails with `NotFound` when
    /// either side is absent and with `Conflict` when the pair already
    /// exists: referential integrity is enforced at write time.
    pub fn link_user_team(&mut self, username: &str, team: &str) -> (r: Result<(), Error>)
        requires
            old(self).wf(),
        ensures
            final(self).wf(),
            final(self).user_names() == old(self).user_names(),
            forall|nm: Seq<char>|
                final(self).user_hash(nm) == old(self).user_hash(nm) && final(self).user_admin(nm)
                    == old(self).user_admin(nm),
            final(self).team_names() == old(self).team_names(),
            final(self).is_initialized() == old(self).is_initialized(),
            (match r {
                Ok(()) => {
                    &&& old(self).spec_has_user(username@)
                    &&& old(self).spec_has_team(team@)
                    &&& !old(self).spec_has_link(username@, team@)
                    &&& (forall|p: (Seq<char>, Seq<char>)|
                        final(self).links().contains(p) <==> old(self).links().contains(p) || p
                            == (username@, team@))
                },
                Err(e) => {
                    &&& *final(self) == *old(self)
                    &&& (e == Error::NotFound || e == Error::Conflict)
                    &&& (e == Error::NotFound <==> (!old(self).spec_has_user(username@)
                        || !old(self).spec_has_team(team@)))
                    &&& (e == Error::Conflict <==> old(self).spec_has_user(username@)
                        && old(self).spec_has_team(team@) && old(self).spec_has_link(
                        username@, team@))
                },
            }),
    {
        if self.find_user_index(username).is_none() {
            return Err(Error::NotFound);
        }
        if self.find_team_index(team).is_none() {
            return Err(Error::NotFound);
        }
        if self.find_link_index(username, team).is_some() {
            return Err(Error::Conflict);
        }
        let ghost prev = *self;
        self.memberships.push(
            Membership { username: username.to_owned(), team: team.to_owned() },
        );
        proof {
            assert(self.links() =~= prev.links().push((username@, team@)));
            assert(self.user_names() == prev.user_names());
            assert(self.team_names() == prev.team_names());
            assert forall|p: (Seq<char>, Seq<char>)|
                final(self).links().contains(p) <==> prev.links().contains(p) || p == (
                    username@,
                    team@,
                ) by {
                lemma_contains_push(prev.links(), (username@, team@), p);
            }
            assert forall|i: int, j: int|
                0 <= i < j < self.links().len() implies self.links()[i] != self.links()[j] by {
                if j == self.links().len() - 1 {
                    assert(self.links()[i] == prev.links()[i]);
                    assert(!prev.spec_has_link(username@, team@));
                }
            }
            assert forall|i: int| 0 <= i < self.links().len() implies self.spec_has_user(
                #[trigger] self.links()[i].0,
            ) && self.spec_has_team(self.links()[i].1) by {
                if i < prev.links().len() {
                    assert(self.links()[i] == prev.links()[i]);
                    assert(prev.spec_has_user(prev.links()[i].0) && prev.spec_has_team(
                        prev.links()[i].1,
                    ));
                } else {
                    assert(self.links()[i] == (username@, team@));
                    assert(prev.spec_has_user(username@) && prev.spec_has_team(team@));
                }
            }
            assert(self.wf());
        }
        Ok(())
    }

    /// Whether any membership still references this team.
    fn team_has_users(&self, team: &str) -> (r: bool)
        ensures
            r == (exists|u: Seq<char>| self.spec_has_link(u, team@)),
    {
        let n = self.memberships.len();
        let mut i: usize = 0;
        while i < n
            invariant
                i <= n,
                n == self.memberships@.len(),
                forall|j: int| 0 <= j < i ==> self.links()[j].1 != team@,
            decreases n - i,
        {
            if str_eq(self.memberships[i].team.as_str(), team) {
                proof {
                    let u = self.memberships@[i as int].username@;
                    assert(self.links()[i as int] == (u, team@));
                    assert(self.links().contains((u, team@)));
                    assert(self.spec_has_link(u, team@));
                }
                return true;
            }
            i = i + 1;
        }
        proof {
            if exists|u: Seq<char>| self.spec_has_link(u, team@) {
                let u = choose|u: Seq<char>| self.spec_has_link(u, team@);
                let k = choose|k: int|
                    0 <= k < self.links().len() && self.links()[k] == (u, team@);
                assert(self.links()[k].1 == team@);
            }
        }
        false
    }

    /// Delete a team. Fails with `IntegrityViolation` while any membership
    /// references it; deleting an absent team is a no-op.
    pub fn delete_team(&mut self, team: &str) -> (r: Result<(), Error>)
        requires
            old(self).wf(),
        ensures
            final(self).wf(),
            final(self).user_names() == old(self).user_names(),
            forall|nm: Seq<char>|
                final(self).user_hash(nm) == old(self).user_hash(nm) && final(self).user_admin(nm)
                    == old(self).user_admin(nm),
            final(self).links() == old(self).links(),
            final(self).is_initialized() == old(self).is_initialized(),
            (match r {
                Ok(()) => {
                    &&& !(exists|u: Seq<char>| old(self).spec_has_link(u, team@))
                    &&& (forall|nm: Seq<char>|
                        final(self).spec_has_team(nm) <==> old(self).spec_has_team(nm) && nm
                            != team@)
                },
                Err(e) => e == Error::IntegrityViolation && (exists|u: Seq<char>|
                    old(self).spec_has_link(u, team@)) && *final(self) == *old(self),
            }),
    {
        if self.team_has_users(team) {
            return Err(Error::IntegrityViolation);
        }
        match self.find_team_index(team) {
            None => {
                proof {
                    assert forall|nm: Seq<char>|
                        final(self).spec_has_team(nm) <==> old(self).spec_has_team(nm) && nm
                            != team@ by {
                        if nm == team@ {
                            assert(!old(self).spec_has_team(nm));
                        }
                    }
                }
                Ok(())
            },
            Some(i) => {
                let ghost prev = *self;
                self.teams.remove(i);
                proof {
                    assert(self.team_names() =~= prev.team_names().remove(i as int));
                    assert(self.user_names() == prev.user_names());
                    assert(self.links() == prev.links());
                    lemma_sorted_remove(prev.team_names(), i as int);
                    lemma_sorted_unique(prev.team_names());
                    assert forall|nm: Seq<char>|
                        final(self).spec_has_team(nm) <==> prev.spec_has_team(nm) && nm
                            != team@ by {
                        lemma_contains_remove(prev.team_names(), i as int, nm);
                    }
                    assert forall|k: int| 0 <= k < self.links().len() implies self.spec_has_user(
                        #[trigger] self.links()[k].0,
                    ) && self.spec_has_team(self.links()[k].1) by {
                        assert(prev.spec_has_user(prev.links()[k].0) && prev.spec_has_team(
                            prev.links()[k].1,
                        ));
                        if prev.links()[k].1 == team@ {
                            let u = prev.links()[k].0;
                            assert(prev.links()[k] == (u, team@));
                            assert(prev.links().contains((u, team@)));
                            assert(prev.spec_has_link(u, team@));
                            assert(false);
                        }
                        lemma_contains_remove(prev.team_names(), i as int, prev.links()[k].1);
                    }
                    assert forall|k: int|
                        0 <= k < self.team_names().len() implies (
                        #[trigger] self.team_names()[k]).len() != 0 by {
                        if k < i {
                            assert(self.team_names()[k] == prev.team_names()[k]);
                        } else {
                            assert(self.team_names()[k] == prev.team_names()[k + 1]);
                        }
                    }
                    assert(self.wf());
                }
                Ok(())
            },
        }
    }

    /// Remove every membership of a user, leaving the user row alone.
    fn remove_all_user_teams(&mut self, username: &str) -> (r: Result<(), Error>)
        requires
            old(self).wf(),
        ensures
            final(self).wf(),
            r == Result::<(), Error>::Ok(()),
            final(self).users == old(self).users,
            final(self).teams == old(self).teams,
            final(self).is_initialized() == old(self).is_initialized(),
            forall|p: (Seq<char>, Seq<char>)|
                final(self).links().contains(p) <==> old(self).links().contains(p) && p.0
                    != username@,
    {
        let n = self.memberships.len();
        let mut kept: Vec<Membership> = Vec::new();
        let mut i: usize = 0;
        while i < n
            invariant
                self.wf(),
                i <= n,
                kept@.len() <= i,
                n == self.memberships@.len(),
                forall|p: (Seq<char>, Seq<char>)|
                    #[trigger] links_of(kept@).contains(p) <==> (exists|j: int|
                        0 <= j < i && self.links()[j] == p) && p.0 != username@,
                forall|a: int, b: int|
                    0 <= a < b < kept@.len() ==> links_of(kept@)[a] != links_of(kept@)[b],
            decreases n - i,
        {
            let ghost prev_kept = kept@;
            if !str_eq(self.memberships[i].username.as_str(), username) {
                let m = Membership {
                    username: self.memberships[i].username.clone(),
                    team: self.memberships[i].team.clone(),
                };
                proof {
                    assert(links_of(kept@.push(m)) =~= links_of(kept@).push(
                        (m.username@, m.team@),
                    ));
                    if links_of(kept@).contains((m.username@, m.team@)) {
                        let j = choose|j: int|
                            0 <= j < i && self.links()[j] == (m.username@, m.team@);
                        assert(self.links()[j] == self.links()[i as int]);
                        assert(false);
                    }
                }
                kept.push(m);
                proof {
                    let ghost mp = (self.memberships@[i as int].username@,
                        self.memberships@[i as int].team@);
                    assert(links_of(kept@) =~= links_of(prev_kept).push(mp));
                    assert forall|p: (Seq<char>, Seq<char>)|
                        #[trigger] links_of(kept@).contains(p) implies (exists|j: int|
                        0 <= j < i + 1 && self.links()[j] == p) && p.0 != username@ by {
                        lemma_contains_push(links_of(prev_kept), mp, p);
                        if p == mp {
                            assert(self.links()[i as int] == p);
                        }
                    }
                    assert forall|p: (Seq<char>, Seq<char>)| (exists|j: int|
                        0 <= j < i + 1 && self.links()[j] == p) && p.0
                        != username@ implies #[trigger] links_of(kept@).contains(p) by {
                        lemma_contains_push(links_of(prev_kept), mp, p);
                        let j = choose|j: int| 0 <= j < i + 1 && self.links()[j] == p;
                        if j < i {
                            assert(links_of(prev_kept).contains(p));
                        } else {
                            assert(p == mp);
                        }
                    }
                    assert forall|a: int, b: int|
                        0 <= a < b < kept@.len() implies links_of(kept@)[a] != links_of(
                        kept@)[b] by {
                        if b == kept@.len() - 1 {
                            assert(links_of(kept@)[a] == links_of(prev_kept)[a]);
                            assert(links_of(prev_kept).contains(links_of(prev_kept)[a]));
                        }
                    }
                }
            } else {
                proof {
                    assert forall|p: (Seq<char>, Seq<char>)| (exists|j: int|
                        0 <= j < i + 1 && self.links()[j] == p) && p.0
                        != username@ implies #[trigger] links_of(kept@).contains(p) by {
                        let j = choose|j: int| 0 <= j < i + 1 && self.links()[j] == p;
                        assert(j != i);
                    }
                }
            }
            i = i + 1;
        }
        let ghost prev = *self;
        self.memberships = kept;
        proof {
            assert(self.user_names() == prev.user_names());
            assert(self.team_names() == prev.team_names());
            assert forall|p: (Seq<char>, Seq<char>)|
                final(self).links().contains(p) <==> prev.links().contains(p) && p.0
                    != username@ by {
                if prev.links().contains(p) {
                    let j = choose|j: int|
                        0 <= j < prev.links().len() && prev.links()[j] == p;
                }
            }
            assert forall|k: int| 0 <= k < self.links().len() implies self.spec_has_user(
                #[trigger] self.links()[k].0,
            ) && self.spec_has_team(self.links()[k].1) by {
                assert(self.links().contains(self.links()[k]));
                let j = choose|j: int|
                    0 <= j < prev.links().len() && prev.links()[j] == self.links()[k];
                assert(prev.spec_has_user(prev.links()[j].0) && prev.spec_has_team(
                    prev.links()[j].1,
                ));
            }
            assert(self.wf());
        }
        Ok(())
    }

    /// Delete a user: all its memberships are removed first, then the user
    /// row; deleting an absent user is a no-op.
    pub fn delete_user(&mut self, username: &str) -> (r: Result<(), Error>)
        requires
            old(self).wf(),
        ensures
            final(self).wf(),
            r == Result::<(), Error>::Ok(()),
            forall|nm: Seq<char>|
                final(self).spec_has_user(nm) <==> old(self).spec_has_user(nm) && nm != username@,
            forall|nm: Seq<char>|
                nm != username@ && old(self).spec_has_user(nm) ==> final(self).user_hash(nm) == old(
                    self,
                ).user_hash(nm) && final(self).user_admin(nm) == old(self).user_admin(nm),
            final(self).team_names() == old(self).team_names(),
            final(self).is_initialized() == old(self).is_initialized(),
            forall|p: (Seq<char>, Seq<char>)|
                final(self).links().contains(p) <==> old(self).links().contains(p) && p.0
                    != username@,
    {
        if let Err(e) = self.remove_all_user_teams(username) {
            return Err(e);
        }
        match self.find_user_index(username) {
            None => {
                proof {
                    assert(self.users@ == old(self).users@);
                    assert forall|nm: Seq<char>|
                        final(self).spec_has_user(nm) <==> old(self).spec_has_user(nm) && nm
                            != username@ by {
                        assert(self.user_names() == old(self).user_names());
                        if nm == username@ {
                            assert(!self.spec_has_user(nm));
                        }
                    }
                    assert forall|nm: Seq<char>|
                        nm != username@ && old(self).spec_has_user(nm) implies final(
                        self).user_hash(nm) == old(self).user_hash(nm) && final(self).user_admin(nm)
                        == old(self).user_admin(nm) by {
                        old(self).lemma_user_index(nm);
                        let k = old(self).user_index(nm);
                        old(self).lemma_user_at(k);
                        assert(self.users@[k] == old(self).users@[k]);
                        self.lemma_user_at(k);
                    }
                }
                Ok(())
            },
            Some(i) => {
                let ghost mid = *self;
                self.users.remove(i);
                proof {
                    assert(mid.users@ == old(self).users@);
                    assert(self.users@ =~= old(self).users@.remove(i as int));
                    assert(self.user_names() =~= old(self).user_names().remove(i as int));
                    assert(old(self).user_names()[i as int] == username@);
                    assert(self.team_names() == mid.team_names());
                    assert(self.links() == mid.links());
                    lemma_sorted_remove(old(self).user_names(), i as int);
                    lemma_sorted_unique(old(self).user_names());
                    assert forall|nm: Seq<char>|
                        final(self).spec_has_user(nm) <==> old(self).spec_has_user(nm) && nm
                            != username@ by {
                        lemma_contains_remove(old(self).user_names(), i as int, nm);
                    }
                    assert forall|k: int| 0 <= k < self.links().len() implies self.spec_has_user(
                        #[trigger] self.links()[k].0,
                    ) && self.spec_has_team(self.links()[k].1) by {
                        let p = self.links()[k];
                        assert(mid.links()[k] == p);
                        assert(mid.spec_has_user(p.0) && mid.spec_has_team(p.1));
                        assert(mid.links().contains(p));
                        assert(p.0 != username@);
                        assert(mid.user_names() == old(self).user_names());
                        lemma_contains_remove(old(self).user_names(), i as int, p.0);
                    }
                    assert forall|k: int|
                        0 <= k < self.user_names().len() implies (
                        #[trigger] self.user_names()[k]).len() != 0 by {
                        if k < i {
                            assert(self.user_names()[k] == old(self).user_names()[k]);
                        } else {
                            assert(self.user_names()[k] == old(self).user_names()[k + 1]);
                        }
                    }
                    assert(self.wf());
                    assert forall|nm: Seq<char>|
                        nm != username@ && old(self).spec_has_user(nm) implies final(
                        self).user_hash(nm) == old(self).user_hash(nm) && final(self).user_admin(nm)
                        == old(self).user_admin(nm) by {
                        old(self).lemma_user_index(nm);
                        let k = old(self).user_index(nm);
                        old(self).lemma_user_at(k);
                        assert(k != i);
                        let k2: int = if k < i {
                            k
                        } else {
                            k - 1
                        };
                        assert(self.users@[k2] == old(self).users@[k]);
                        self.lemma_user_at(k2);
                    }
                }
                Ok(())
            },
        }
    }

    /// The state right after bootstrap: the schema exists and the default
    /// administrator account, in the default team, is the only row anywhere.
    /// The stored hash has the hasher's 60-character `'$'`-prefixed shape,
    /// so it is in particular not the five-character default secret itself.
    pub open spec fn spec_bootstrapped(self) -> bool {
        &&& self.is_initialized()
        &&& self.user_names() == seq!["admin"@]
        &&& self.team_names() == seq!["admin"@]
        &&& self.links() == seq![("admin"@, "admin"@)]
        &&& self.user_admin("admin"@)
        &&& bcrypt_verifies(DEFAULT_ADMIN_SECRET@, self.user_hash("admin"@))
        &&& self.user_hash("admin"@).len() == 60
        &&& self.user_hash("admin"@)[0] == '$'
        &&& self.user_hash("admin"@) != DEFAULT_ADMIN_SECRET@
    }

    /// Provision the default administrator account in the default team.
    /// `false` reports that the password hasher failed and nothing changed.
    fn init_admin_user(&mut self) -> (r: bool)
        requires
            old(self).wf(),
            old(self).is_initialized(),
            old(self).user_names().len() == 0,
            old(self).team_names().len() == 0,
            old(self).links().len() == 0,
        ensures
            final(self).wf(),
            r ==> final(self).spec_bootstrapped(),
            !r ==> *final(self) == *old(self),
    {
        let team = "admin";
        let username = "admin";
        let password = DEFAULT_ADMIN_SECRET;
        let hashed = match hash::salt(password) {
            None => {
                return false;
            },
            Some(h) => h,
        };
        proof {
            reveal_strlit("admin");
        }
        let mut admin_teams: Vec<String> = Vec::new();
        admin_teams.push(team.to_owned());
        let admin_user = User {
            username: username.to_owned(),
            password_hash: hashed,
            teams: admin_teams,
            admin: true,
        };
        let r1 = self.insert_team(team);
        let ghost s1 = *self;
        proof {
            assert(r1 is Ok);
        }
        let r2 = self.insert_user(&admin_user);
        let ghost s2 = *self;
        proof {
            assert(r2 is Ok);
        }
        let r3 = self.link_user_team(username, team);
        proof {
            assert(r3 is Ok);
            // one user row: every name in the store is the administrator's
            let names = self.user_names();
            assert(names == s2.user_names());
            assert forall|nm: Seq<char>| names.contains(nm) implies nm == "admin"@ by {
                assert(s2.spec_has_user(nm));
                assert(s1.spec_has_user(nm) || nm == admin_user.username@);
                assert(s1.user_names() == old(self).user_names());
            }
            assert(s2.spec_has_user(admin_user.username@));
            assert(names.contains("admin"@));
            lemma_sorted_unique(names);
            if names.len() >= 2 {
                assert(names.contains(names[0]) && names.contains(names[1]));
                assert(false);
            }
            assert(names =~= seq!["admin"@]);
            // one team row
            let teams_v = self.team_names();
            assert(teams_v == s2.team_names() && s2.team_names() == s1.team_names());
            assert forall|nm: Seq<char>| teams_v.contains(nm) implies nm == "admin"@ by {
                assert(s1.spec_has_team(nm));
                assert(old(self).spec_has_team(nm) || nm == team@);
            }
            assert(s1.spec_has_team(team@));
            assert(teams_v.contains("admin"@));
            lemma_sorted_unique(teams_v);
            if teams_v.len() >= 2 {
                assert(teams_v.contains(teams_v[0]) && teams_v.contains(teams_v[1]));
                assert(false);
            }
            assert(teams_v =~= seq!["admin"@]);
            // one membership row
            let ls = self.links();
            assert(s2.links() == s1.links() && s1.links() == old(self).links());
            assert forall|p: (Seq<char>, Seq<char>)| ls.contains(p) implies p == (
            "admin"@, "admin"@) by {
                assert(s2.links().contains(p) || p == (username@, team@));
            }
            assert(ls.contains(("admin"@, "admin"@)));
            if ls.len() >= 2 {
                assert(ls.contains(ls[0]) && ls.contains(ls[1]));
                assert(ls[0] == ("admin"@, "admin"@) && ls[1] == ("admin"@, "admin"@));
                assert(false);
            }
            assert(ls =~= seq![("admin"@, "admin"@)]);
            // the administrator's stored hash and flag
            assert(s2.user_hash(admin_user.username@) == admin_user.password_hash@);
            assert(self.user_hash("admin"@) == s2.user_hash("admin"@) && self.user_admin("admin"@)
                == s2.user_admin("admin"@));
        }
        true
    }

    /// Create the schema and provision the default administrator, once: on
    /// an already-initialized store this is a no-op. `false` reports that
    /// the password hasher failed and the store was left untouched.
    pub fn init_db(&mut self) -> (r: bool)
        requires
            old(self).wf(),
        ensures
            final(self).wf(),
            old(self).is_initialized() ==> r && *final(self) == *old(self),
            !old(self).is_initialized() && r ==> final(self).spec_bootstrapped(),
            !old(self).is_initialized() && !r ==> *final(self) == *old(self),
    {
        if self.initialized {
            return true;
        }
        self.initialized = true;
        proof {
            assert(self.wf());
        }
        if self.init_admin_user() {
            true
        } else {
            self.initialized = false;
            proof {
                assert(*self =~= *old(self));
            }
            false
        }
    }

    /// A fresh store: the schema is created and the default administrator
    /// provisioned. Fails only when the password hasher does.
    pub fn new() -> (r: Result<UserRepository, Error>)
        ensures
            (match r {
                Ok(repo) => repo.wf() && repo.spec_bootstrapped(),
                Err(e) => e == Error::Hasher,
            }),
    {
        let mut repo = UserRepository {
            users: Vec::new(),
            teams: Vec::new(),
            memberships: Vec::new(),
            initialized: false,
        };
        proof {
            assert(repo.wf());
        }
        if repo.init_db() {
            Ok(repo)
        } else {
            Err(Error::Hasher)
        }
    }

    /// Whether the named user exists and belongs to this team.
    pub fn has_team(&self, username: &str, team: &str) -> (r: bool)
        requires
            self.wf(),
        ensures
            r == (self.spec_has_user(username@) && self.spec_has_link(username@, team@)),
    {
        match self.find_user(username) {
            None => false,
            Some(user) => contains_name(&user.teams, team),
        }
    }

    /// Whether the claimed `(username, password)` pair is valid: a missing
    /// password never is.
    pub fn is_user_valid(&self, username: &str, password: Option<String>) -> (r: bool)
        requires
            self.wf(),
        ensures
            r == (match password {
                Some(p) => self.spec_credentials_valid(username@, p@),
                None => false,
            }),
    {
        match password {
            None => false,
            Some(p) => match self.find_user(username) {
                None => false,
                Some(user) => user.is_valid(p.as_str()),
            },
        }
    }

    /// Whether the credentials are valid and the user belongs to this team.
    pub fn is_valid_for_team(&self, username: &str, password: Option<String>, team: &str) -> (r:
        bool)
        requires
            self.wf(),
        ensures
            r == ((match password {
                Some(p) => self.spec_credentials_valid(username@, p@),
                None => false,
            }) && self.spec_has_link(username@, team@)),
    {
        self.is_user_valid(username, password) && self.has_team(username, team)
    }

    /// Load a user together with its materialized team set. Absence is not
    /// an error.
    pub fn find_user(&self, username: &str) -> (r: Option<User>)
        requires
            self.wf(),
        ensures
            (match r {
                None => !self.spec_has_user(username@),
                Some(u) => {
                    &&& self.spec_has_user(username@)
                    &&& u.username@ == username@
                    &&& u.password_hash@ == self.user_hash(username@)
                    &&& u.admin == self.user_admin(username@)
                    &&& (forall|t: Seq<char>|
                        #[trigger] views_of(u.teams@).contains(t) <==> self.spec_has_link(
                            username@, t))
                    &&& (forall|i: int, j: int|
                        0 <= i < j < u.teams@.len() ==> u.teams@[i]@ != u.teams@[j]@)
                },
            }),
    {
        match self.find_user_index(username) {
            None => None,
            Some(i) => {
                proof {
                    self.lemma_user_at(i as int);
                }
                let teams = self.find_user_teams(username);
                Some(
                    User {
                        username: self.users[i].username.clone(),
                        password_hash: self.users[i].password_hash.clone(),
                        teams,
                        admin: self.users[i].admin,
                    },
                )
            },
        }
    }
}

/// Referential integrity: in a well-formed store no membership references a
/// non-existent user or team.
pub proof fn lemma_referential_integrity(repo: UserRepository)
    requires
        repo.wf(),
    ensures
        forall|p: (Seq<char>, Seq<char>)|
            #![trigger repo.links().contains(p)]
            repo.links().contains(p) ==> repo.spec_has_user(p.0) && repo.spec_has_team(p.1),
{
    assert forall|p: (Seq<char>, Seq<char>)| repo.links().contains(p) implies repo.spec_has_user(
        p.0,
    ) && repo.spec_has_team(p.1) by {
        let i = choose|i: int| 0 <= i < repo.links().len() && repo.links()[i] == p;
        assert(repo.spec_has_user(repo.links()[i].0) && repo.spec_has_team(repo.links()[i].1));
    }
}

/// After a user deletion, nothing is left half-deleted: the user is gone
/// from the user set (so from the user listing) and no membership mentions
/// it, so its team set is empty.
pub proof fn lemma_delete_user_leaves_no_trace(
    before: UserRepository,
    after: UserRepository,
    u: Seq<char>,
)
    requires
        // the state change of `delete_user`
        forall|nm: Seq<char>|
            after.spec_has_user(nm) <==> before.spec_has_user(nm) && nm != u,
        forall|p: (Seq<char>, Seq<char>)|
            #![trigger after.links().contains(p)]
            after.links().contains(p) <==> before.links().contains(p) && p.0 != u,
    ensures
        !after.spec_has_user(u),
        !after.user_names().contains(u),
        forall|t: Seq<char>| !after.spec_has_link(u, t),
        after.spec_user_teams(u) == Set::<Seq<char>>::empty(),
{
    assert(!after.spec_has_user(u));
    assert forall|t: Seq<char>| !after.spec_has_link(u, t) by {
        assert(after.links().contains((u, t)) <==> before.links().contains((u, t)) && (
        u,
        t,
        ).0 != u);
    }
    assert(after.spec_user_teams(u) =~= Set::<Seq<char>>::empty());
}

/// Round trip: a user provisioned with a hash produced by the password
/// hasher is found again with the same name and admin flag, and its stored
/// hash verifies against the original plaintext without ever equaling it —
/// as long as the plaintext is not itself shaped like a stored hash, a
/// 60-character string starting with `'$'`.
pub proof fn lemma_insert_find_round_trip(
    after: UserRepository,
    username: Seq<char>,
    hashed: Seq<char>,
    admin: bool,
    password: Seq<char>,
)
    requires
        // what `hash::salt` ensures of a produced hash
        bcrypt_verifies(password, hashed),
        hashed.len() == 60,
        hashed[0] == '$',
        // the plaintext is not shaped like a stored hash
        password.len() != 60 || password[0] != '$',
        // what a successful `insert_user` of the record ensures
        after.spec_has_user(username),
        after.user_hash(username) == hashed,
        after.user_admin(username) == admin,
    ensures
        bcrypt_verifies(password, after.user_hash(username)),
        after.user_admin(username) == admin,
        after.user_hash(username) != password,
{
}

} // verus!
