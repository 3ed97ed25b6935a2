use fahrtenbuch::auth::{authenticate, let_in, AuthBackendError, Credentials, RegistrationData, User};
use fahrtenbuch::username::Username;
use fahrtenbuch::users::ListUsersOptions;

fn user(password_hash: String) -> User {
    User { id: 7, username: "anna".to_string(), password: password_hash }
}

fn credentials(password: &str) -> Credentials {
    Credentials { username: "anna".to_string(), password: password.to_string() }
}

#[test]
fn right_password_lets_the_user_in() {
    let hash = password_auth::generate_hash("correct horse");
    let granted = authenticate(Some(user(hash)), &credentials("correct horse"));
    assert_eq!(granted.map(|u| u.id()), Some(7));
}

#[test]
fn wrong_password_keeps_the_user_out() {
    let hash = password_auth::generate_hash("correct horse");
    assert!(authenticate(Some(user(hash)), &credentials("battery staple")).is_none());
}

#[test]
fn broken_hash_keeps_the_user_out() {
    assert!(authenticate(Some(user("correct horse".to_string())), &credentials("correct horse")).is_none());
}

#[test]
fn unknown_user_is_kept_out() {
    assert!(authenticate(None, &credentials("correct horse")).is_none());
}

#[test]
fn verdict_decides_who_is_let_in() {
    assert!(let_in(user(String::new()), Ok(())).is_some());
    assert!(let_in(user(String::new()), Err(password_auth::VerifyError::PasswordInvalid)).is_none());
}

#[test]
fn session_is_bound_to_the_password_hash() {
    let u = user("abc".to_string());
    assert_eq!(u.session_auth_hash(), b"abc");
    assert_eq!(u.id(), 7);
}

#[test]
fn taken_name_is_refused() {
    let data = RegistrationData { credentials: credentials("pw") };
    assert!(data.check_free(None).is_ok());
    match data.check_free(Some(user(String::new()))) {
        Err(AuthBackendError::UserAlreadyExists(name)) => assert_eq!(name, "anna"),
        Ok(()) => panic!("a taken name was accepted"),
    }
}

#[test]
fn usernames_are_trimmed_and_lowered() {
    assert_eq!(Username::from_str("  Anna\t").as_str(), "anna");
    assert_eq!(Username::from_str("BOB").as_str(), "bob");
    assert_eq!(Username::from_str(" ").as_str(), "");
    assert_eq!(Username::from_str("anna"), Username::from_str(" ANNA "));
}

#[test]
fn usernames_are_shown_with_a_capital() {
    assert_eq!(Username::from_str("anna").display(), "Anna");
    assert_eq!(Username::from_str("a").display(), "A");
    assert_eq!(Username::from_str("").display(), "");
    assert_eq!(Username::from_str("aNNA maria").display(), "Anna maria");
    assert!(Username::from_str("anna").can_show());
    assert!(!Username::from_str("\u{e9}mile").can_show());
    assert!(Username::from_str("a\u{e9}").can_show());
    assert_eq!(Username::from_str("a\u{c9}").display(), "A\u{e9}");
}

#[test]
fn listing_users_takes_no_options() {
    let options = ListUsersOptions {};
    let _ = options.clone();
}
