use roadwork_server::error::Error;
use roadwork_server::hash::salt;
use roadwork_server::model::user::User;
use roadwork_server::service::user::AdminService;
use roadwork_server::service::user::PasswordRefusal;
use roadwork_server::service::user_repository::UserRepository;

fn service_with(users: &[(&str, &str, bool)]) -> AdminService {
    let mut repo = UserRepository::new().unwrap();
    for (name, password, admin) in users {
        let record = User {
            username: (*name).to_owned(),
            password_hash: salt(password).unwrap(),
            teams: Vec::new(),
            admin: *admin,
        };
        repo.insert_user(&record).unwrap();
    }
    AdminService::new(repo)
}

#[test]
fn is_admin_follows_the_stored_flag_under_a_rotated_password() {
    let svc = service_with(&[("root", "r00t-secret", true), ("alice", "s3cr3t!23", false)]);
    assert!(svc.is_admin("root", "r00t-secret"));
    assert!(!svc.is_admin("root", "wrong-secret"));
    assert!(!svc.is_admin("alice", "s3cr3t!23"));
    assert!(!svc.is_admin("ghost", "r00t-secret"));
}

#[test]
fn is_admin_always_rejects_the_default_secret() {
    // the bootstrap administrator's password was never rotated, so "admin"
    // would verify against its stored hash; it is rejected anyway
    let svc = service_with(&[]);
    assert!(svc.find_valid_user("admin", "admin").is_some());
    assert!(!svc.is_admin("admin", "admin"));
    assert!(!svc.is_admin("alice", "admin"));
    assert!(!svc.is_admin("", "admin"));
}

#[test]
fn has_team_needs_the_right_secret_and_the_right_team() {
    let mut svc = service_with(&[("alice", "s3cr3t!23", false)]);
    svc.user_repository.insert_team("infra").unwrap();
    svc.user_repository.link_user_team("alice", "infra").unwrap();
    assert!(svc.has_team("alice", "s3cr3t!23", "infra"));
    assert!(!svc.has_team("alice", "s3cr3t!23", "ops"));
    assert!(!svc.has_team("alice", "s3cr3t!23", "admin"));
    assert!(!svc.has_team("alice", "wrong", "infra"));
    assert!(!svc.has_team("ghost", "s3cr3t!23", "infra"));
}

#[test]
fn get_user_authenticates_and_scrubs_the_hash() {
    let svc = service_with(&[("alice", "s3cr3t!23", false)]);
    let found = svc.get_user("alice", "s3cr3t!23").unwrap();
    assert_eq!(found.username, "alice");
    assert_eq!(found.password_hash, "");
    assert!(svc.get_user("alice", "wrong").is_none());
    assert!(svc.get_user("ghost", "s3cr3t!23").is_none());
}

#[test]
fn find_valid_user_collapses_absence_and_mismatch() {
    let svc = service_with(&[("alice", "s3cr3t!23", false)]);
    assert!(svc.find_valid_user("alice", "s3cr3t!23").is_some());
    assert!(svc.find_valid_user("alice", "nope").is_none());
    assert!(svc.find_valid_user("ghost", "whatever").is_none());
}

#[test]
fn change_password_rotates_the_hash() {
    let mut svc = service_with(&[("alice", "s3cr3t!23", false)]);
    svc.change_password("alice", "new-secret-9").unwrap();
    assert!(svc.find_valid_user("alice", "new-secret-9").is_some());
    assert!(svc.find_valid_user("alice", "s3cr3t!23").is_none());
    assert_eq!(svc.change_password("ghost", "new-secret-9").unwrap_err(), Error::NotFound);
}

#[test]
fn rotation_stores_a_hash_and_never_the_plaintext() {
    let mut svc = service_with(&[("alice", "s3cr3t!23", false)]);
    svc.change_password("alice", "new-secret-9").unwrap();
    let stored = svc.user_repository.find_user("alice").unwrap().password_hash;
    assert_eq!(stored.len(), 60);
    assert!(stored.starts_with('$'));
    assert_ne!(stored, "new-secret-9");
}

#[test]
fn bootstrap_hash_is_not_the_default_secret() {
    let repo = UserRepository::new().unwrap();
    let stored = repo.find_user("admin").unwrap().password_hash;
    assert_eq!(stored.len(), 60);
    assert!(stored.starts_with('$'));
    assert_ne!(stored, "admin");
}

#[test]
fn self_change_password_enforces_the_policy() {
    let mut svc = service_with(&[("alice", "s3cr3t!23", false)]);
    assert_eq!(
        svc.self_change_password("alice", Some("s3cr3t!23"), "short"),
        Err(PasswordRefusal::TooShort)
    );
    assert_eq!(
        svc.self_change_password("alice", None, "long enough"),
        Err(PasswordRefusal::MissingPassword)
    );
    assert_eq!(
        svc.self_change_password("alice", Some("wrong"), "long enough"),
        Err(PasswordRefusal::NotChanged)
    );
    // nothing changed so far
    assert!(svc.find_valid_user("alice", "s3cr3t!23").is_some());
    svc.self_change_password("alice", Some("s3cr3t!23"), "long enough").unwrap();
    assert!(svc.find_valid_user("alice", "long enough").is_some());
    assert!(svc.find_valid_user("alice", "s3cr3t!23").is_none());
}

#[test]
fn refusal_messages_match_the_transport_wording() {
    assert_eq!(PasswordRefusal::TooShort.message(), "Password is too short");
    assert_eq!(PasswordRefusal::MissingPassword.message(), "Password is missing");
    assert_eq!(PasswordRefusal::NotChanged.message(), "Password not changed");
    assert_eq!(Error::NotFound.message(), "not found");
    assert_eq!(Error::Conflict.message(), "already exists");
    assert_eq!(Error::IntegrityViolation.message(), "team has users");
    assert_eq!(Error::Hasher.message(), "password hashing failed");
}

#[test]
fn infra_scenario() {
    // insert team "infra", insert user "alice" with a hashed password for
    // "s3cr3t!23", link them; membership answers follow, and the team can
    // only be deleted once the link is gone
    let mut repo = UserRepository::new().unwrap();
    repo.insert_team("infra").unwrap();
    let alice = User {
        username: "alice".to_owned(),
        password_hash: salt("s3cr3t!23").unwrap(),
        teams: Vec::new(),
        admin: false,
    };
    repo.insert_user(&alice).unwrap();
    repo.link_user_team("alice", "infra").unwrap();
    let mut svc = AdminService::new(repo);
    assert!(svc.has_team("alice", "s3cr3t!23", "infra"));
    assert!(!svc.has_team("alice", "wrong", "infra"));
    assert_eq!(
        svc.user_repository.delete_team("infra").unwrap_err(),
        Error::IntegrityViolation
    );
    svc.user_repository.delete_user("alice").unwrap();
    svc.user_repository.delete_team("infra").unwrap();
}
