use roadwork_server::hash::check;
use roadwork_server::hash::salt;

#[test]
fn test_salt() {
    let password = "password";
    let salted_password = salt(password).unwrap();
    assert!(check(&salted_password, password));
}

#[test]
fn test_salt_wrong_password() {
    let password = "password";
    let salted_password = salt(password).unwrap();
    assert!(!check(&salted_password, "wrong password"));
}

#[test]
fn salted_password_is_not_the_plaintext() {
    let password = "password";
    let salted_password = salt(password).unwrap();
    assert_eq!(salted_password.len(), 60);
    assert!(salted_password.starts_with('$'));
    assert_ne!(salted_password, password);
}

#[test]
fn check_rejects_malformed_hash() {
    assert!(!check("not a bcrypt hash", "password"));
    assert!(!check("", "password"));
}
