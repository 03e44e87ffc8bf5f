use roadwork_server::error::Error;
use roadwork_server::hash::check;
use roadwork_server::hash::salt;
use roadwork_server::model::user::User;
use roadwork_server::service::user_repository::UserRepository;

fn user(name: &str, password: &str, admin: bool) -> User {
    User {
        username: name.to_owned(),
        password_hash: salt(password).unwrap(),
        teams: Vec::new(),
        admin,
    }
}

#[test]
fn bootstrap_creates_the_default_administrator() {
    let repo = UserRepository::new().unwrap();
    assert!(repo.initialized());
    assert_eq!(repo.list_users(), vec!["admin".to_owned()]);
    assert_eq!(repo.list_teams(), vec!["admin".to_owned()]);
    let admin = repo.find_user("admin").unwrap();
    assert!(admin.admin);
    assert_eq!(admin.teams, vec!["admin".to_owned()]);
    assert!(check(&admin.password_hash, "admin"));
}

#[test]
fn bootstrap_twice_is_a_no_op() {
    let mut repo = UserRepository::new().unwrap();
    repo.insert_team("ops").unwrap();
    repo.insert_user(&user("bob", "longpassword", false)).unwrap();
    let users_before = repo.list_users();
    let teams_before = repo.list_teams();
    let hash_before = repo.find_user("admin").unwrap().password_hash;
    assert!(repo.init_db());
    assert_eq!(repo.list_users(), users_before);
    assert_eq!(repo.list_teams(), teams_before);
    assert_eq!(repo.find_user("admin").unwrap().password_hash, hash_before);
}

#[test]
fn insert_then_find_round_trip() {
    let mut repo = UserRepository::new().unwrap();
    let alice = user("alice", "s3cr3t!23", true);
    repo.insert_user(&alice).unwrap();
    let found = repo.find_user("alice").unwrap();
    assert_eq!(found.username, "alice");
    assert!(found.admin);
    assert_eq!(found.password_hash, alice.password_hash);
    assert!(check(&found.password_hash, "s3cr3t!23"));
    assert!(!check(&found.password_hash, "something else"));
    assert_ne!(found.password_hash, "s3cr3t!23");
    assert!(found.teams.is_empty());
}

#[test]
fn find_user_absent_is_none() {
    let repo = UserRepository::new().unwrap();
    assert!(repo.find_user("nobody").is_none());
}

#[test]
fn insert_duplicate_user_is_a_conflict() {
    let mut repo = UserRepository::new().unwrap();
    repo.insert_user(&user("alice", "s3cr3t!23", false)).unwrap();
    let err = repo.insert_user(&user("alice", "other-secret", true)).unwrap_err();
    assert_eq!(err, Error::Conflict);
    // the first record is intact
    let found = repo.find_user("alice").unwrap();
    assert!(!found.admin);
    assert!(check(&found.password_hash, "s3cr3t!23"));
}

#[test]
fn insert_duplicate_team_is_a_conflict() {
    let mut repo = UserRepository::new().unwrap();
    repo.insert_team("infra").unwrap();
    assert_eq!(repo.insert_team("infra").unwrap_err(), Error::Conflict);
    assert_eq!(repo.insert_team("admin").unwrap_err(), Error::Conflict);
}

#[test]
fn listings_are_sorted_whatever_the_insertion_order() {
    let mut repo = UserRepository::new().unwrap();
    for t in ["zulu", "echo", "bravo", "yankee"] {
        repo.insert_team(t).unwrap();
    }
    assert_eq!(repo.list_teams(), vec!["admin", "bravo", "echo", "yankee", "zulu"]);
    for u in ["walter", "ada", "mallory"] {
        repo.insert_user(&user(u, "longpassword", false)).unwrap();
    }
    assert_eq!(repo.list_users(), vec!["ada", "admin", "mallory", "walter"]);
}

#[test]
fn link_requires_both_sides_and_a_fresh_pair() {
    let mut repo = UserRepository::new().unwrap();
    repo.insert_team("infra").unwrap();
    repo.insert_user(&user("alice", "s3cr3t!23", false)).unwrap();
    assert_eq!(repo.link_user_team("ghost", "infra").unwrap_err(), Error::NotFound);
    assert_eq!(repo.link_user_team("alice", "nowhere").unwrap_err(), Error::NotFound);
    repo.link_user_team("alice", "infra").unwrap();
    assert_eq!(repo.link_user_team("alice", "infra").unwrap_err(), Error::Conflict);
    let found = repo.find_user("alice").unwrap();
    assert_eq!(found.teams, vec!["infra".to_owned()]);
}

#[test]
fn update_password_of_unknown_user_is_not_found() {
    let mut repo = UserRepository::new().unwrap();
    let hashed = salt("irrelevant").unwrap();
    assert_eq!(repo.update_password("ghost", hashed).unwrap_err(), Error::NotFound);
}

#[test]
fn update_password_replaces_only_that_hash() {
    let mut repo = UserRepository::new().unwrap();
    repo.insert_user(&user("alice", "s3cr3t!23", false)).unwrap();
    let admin_hash = repo.find_user("admin").unwrap().password_hash;
    let hashed = salt("an0ther-secret").unwrap();
    repo.update_password("alice", hashed).unwrap();
    let found = repo.find_user("alice").unwrap();
    assert!(check(&found.password_hash, "an0ther-secret"));
    assert!(!check(&found.password_hash, "s3cr3t!23"));
    assert_eq!(repo.find_user("admin").unwrap().password_hash, admin_hash);
}

#[test]
fn delete_team_with_members_is_an_integrity_violation() {
    let mut repo = UserRepository::new().unwrap();
    repo.insert_team("infra").unwrap();
    repo.insert_user(&user("alice", "s3cr3t!23", false)).unwrap();
    repo.link_user_team("alice", "infra").unwrap();
    assert_eq!(repo.delete_team("infra").unwrap_err(), Error::IntegrityViolation);
    assert!(repo.list_teams().contains(&"infra".to_owned()));
    // removing the only member makes the deletion possible
    repo.delete_user("alice").unwrap();
    repo.delete_team("infra").unwrap();
    assert!(!repo.list_teams().contains(&"infra".to_owned()));
}

#[test]
fn delete_absent_team_is_a_quiet_no_op() {
    let mut repo = UserRepository::new().unwrap();
    repo.delete_team("nowhere").unwrap();
    assert_eq!(repo.list_teams(), vec!["admin".to_owned()]);
}

#[test]
fn delete_user_removes_its_memberships_first() {
    let mut repo = UserRepository::new().unwrap();
    repo.insert_team("infra").unwrap();
    repo.insert_team("ops").unwrap();
    repo.insert_user(&user("alice", "s3cr3t!23", false)).unwrap();
    repo.insert_user(&user("bob", "longpassword", false)).unwrap();
    repo.link_user_team("alice", "infra").unwrap();
    repo.link_user_team("alice", "ops").unwrap();
    repo.link_user_team("bob", "ops").unwrap();
    repo.delete_user("alice").unwrap();
    assert!(repo.find_user("alice").is_none());
    assert!(!repo.list_users().contains(&"alice".to_owned()));
    // alice's memberships are gone: her teams can be emptied and removed
    assert_eq!(repo.delete_team("ops").unwrap_err(), Error::IntegrityViolation);
    assert_eq!(repo.find_user("bob").unwrap().teams, vec!["ops".to_owned()]);
    repo.delete_team("infra").unwrap();
}

#[test]
fn delete_absent_user_is_a_quiet_no_op() {
    let mut repo = UserRepository::new().unwrap();
    repo.delete_user("ghost").unwrap();
    assert_eq!(repo.list_users(), vec!["admin".to_owned()]);
}

#[test]
fn repository_credential_checks() {
    let mut repo = UserRepository::new().unwrap();
    repo.insert_team("infra").unwrap();
    repo.insert_user(&user("alice", "s3cr3t!23", false)).unwrap();
    repo.link_user_team("alice", "infra").unwrap();
    assert!(repo.is_user_valid("alice", Some("s3cr3t!23".to_owned())));
    assert!(!repo.is_user_valid("alice", Some("wrong".to_owned())));
    assert!(!repo.is_user_valid("alice", None));
    assert!(!repo.is_user_valid("ghost", Some("s3cr3t!23".to_owned())));
    assert!(repo.has_team("alice", "infra"));
    assert!(!repo.has_team("alice", "admin"));
    assert!(!repo.has_team("ghost", "infra"));
    assert!(repo.is_valid_for_team("alice", Some("s3cr3t!23".to_owned()), "infra"));
    assert!(!repo.is_valid_for_team("alice", Some("wrong".to_owned()), "infra"));
    assert!(!repo.is_valid_for_team("alice", Some("s3cr3t!23".to_owned()), "admin"));
}

#[test]
fn user_record_checks_its_own_password() {
    let alice = user("alice", "s3cr3t!23", false);
    assert!(alice.is_valid("s3cr3t!23"));
    assert!(!alice.is_valid("S3CR3T!23"));
    assert!(!alice.is_valid(""));
}
