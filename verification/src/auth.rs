//! Users, their credentials and the decisions of logging in and of
//! registering. Passwords are checked against their hashes by the crate
//! `password_auth`.

use vstd::prelude::*;

verus! {

/// A registered user.
#[derive(Clone)]
pub struct User {
    /// The unique identifier of the user.
    pub id: i64,
    /// The name by which the user logs in.
    pub username: String,
    /// The hash of the password of the user.
    pub password: String,
}

impl User {
    /// The identifier of the user.
    pub fn id(&self) -> (id: i64)
        ensures
            id == self.id,
    {
        self.id
    }

    /// The bytes by which a session is bound to the user: those of the
    /// password hash, so that a new password ends the old sessions.
    pub fn session_auth_hash(&self) -> (bytes: &[u8])
        ensures
            bytes@ == vstd::utf8::encode_utf8(self.password@),
    {
        self.password.as_str().as_bytes()
    }
}

/// What a user hands in to log in.
#[derive(Debug, Clone)]
pub struct Credentials {
    /// The name of the user.
    pub username: String,
    /// The password in clear.
    pub password: String,
}

/// What a user hands in to register.
#[derive(Debug, Clone)]
pub struct RegistrationData {
    /// The name and the password of the new user.
    pub credentials: Credentials,
}

/// Why a user cannot be registered.
#[derive(Debug, Clone)]
pub enum AuthBackendError {
    /// A user of this name is registered already.
    UserAlreadyExists(String),
}

/// The error of `password_auth::verify_password`: the hash does not parse, or
/// the password does not fit it. Nothing is read from it here.
#[verifier::external_type_specification]
#[verifier::external_body]
pub struct ExVerifyError(password_auth::VerifyError);

/// Whether `password` is the password that `hash` was made from, as
/// `password_auth::verify_password` finds it.
pub uninterp spec fn password_verifies(password: Seq<char>, hash: Seq<char>) -> bool;

/// Calls `password_auth::verify_password`, which parses `hash` and checks
/// `password` against it. The result is `Ok` where the hash parses and the
/// password fits it; that is taken to depend on the two strings alone.
#[verifier::external_body]
fn verify_password(password: &str, hash: &str) -> (verdict: Result<(), password_auth::VerifyError>)
    ensures
        verdict is Ok <==> password_verifies(password@, hash@),
{
    password_auth::verify_password(password, hash)
}

/// Lets `user` in where the password was found to fit.
pub fn let_in(user: User, verdict: Result<(), password_auth::VerifyError>) -> (granted: Option<User>)
    ensures
        granted == (if verdict is Ok {
            Some(user)
        } else {
            None::<User>
        }),
{
    match verdict {
        Ok(_) => Some(user),
        Err(_) => None,
    }
}

/// Decides a login. `user` is the registered user of the name in
/// `credentials`, if there is one. The user is let in where the password of
/// the credentials fits the password hash of the user.
pub fn authenticate(user: Option<User>, credentials: &Credentials) -> (granted: Option<User>)
    ensures
        granted == match user {
            Some(known) => if password_verifies(credentials.password@, known.password@) {
                Some(known)
            } else {
                None
            },
            None => None::<User>,
        },
{
    match user {
        Some(known) => {
            let verdict = verify_password(credentials.password.as_str(), known.password.as_str());
            let_in(known, verdict)
        },
        None => None,
    }
}

impl RegistrationData {
    /// Decides whether the name is free. `existing` is the registered user
    /// of that name, if there is one, and then the registration is refused
    /// with the name of that user.
    pub fn check_free(&self, existing: Option<User>) -> (verdict: Result<(), AuthBackendError>)
        ensures
            verdict == match existing {
                Some(user) => Err::<(), AuthBackendError>(
                    AuthBackendError::UserAlreadyExists(user.username),
                ),
                None => Ok(()),
            },
    {
        match existing {
            Some(user) => Err(AuthBackendError::UserAlreadyExists(user.username)),
            None => Ok(()),
        }
    }
}

} // verus!
