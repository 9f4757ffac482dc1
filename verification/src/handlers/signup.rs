use vstd::prelude::*;
use vstd::string::*;

use crate::clock::{expiry_at, expiry_for_reading, expiry_from_now, expiry_of};
use crate::handlers::reply::Reply;
use crate::text::{blank, is_blank};

verus! {

pub struct SignupRequest {
    pub email: String,
    pub password: String,
}

pub struct SignupResponse {
    pub success: bool,
    pub message: String,
    pub user_id: Option<String>,
}

/// The claims a session token carries: the user and the expiry, in seconds
/// since the epoch.
pub struct Claims {
    pub user_id: String,
    pub exp: usize,
}

/// How a sign-up request ended.
pub enum SignupOutcome {
    /// The email or the password is blank.
    MissingData,
    /// A user with this email exists already.
    AlreadyExists,
    /// The password could not be hashed.
    HashFailed,
    /// The user could not be stored.
    CreateFailed,
    /// The session token could not be made.
    TokenFailed,
    /// The user was stored under this id.
    Created(String),
}

/// Whether `bcrypt::verify(password, hash)` gives `Ok(true)`: whether `hash`
/// is a bcrypt hash of `password`. The answer depends on the two texts alone.
pub uninterp spec fn bcrypt_verifies(password: Seq<char>, hash: Seq<char>) -> bool;

/// Hashes a password with `bcrypt::hash` at `bcrypt::DEFAULT_COST` (12),
/// salted from the system's randomness. The source writes the hash as a
/// 60-character `$2b$12$` string that `bcrypt::verify` accepts for the same
/// password (bcrypt's README and tests use the two so), and fails only when
/// no randomness can be had (the cost is in range). Which hash comes back
/// depends on the salt, and nothing here states it.
#[verifier::external_body]
fn bcrypt_hash(password: &str) -> (r: Option<String>)
    ensures
        r matches Some(h) ==> h@.len() == 60 && h@.take(7) == "$2b$12$"@ && bcrypt_verifies(password@, h@),
{
    bcrypt::hash(password, bcrypt::DEFAULT_COST).ok()
}

/// The stored form of the password of a signup request: a bcrypt hash of the
/// password, or the outcome that answers the request when the password
/// cannot be hashed.
pub fn hashed_password(req: &SignupRequest) -> (r: Result<String, SignupOutcome>)
    ensures
        match r {
            Ok(h) => h@.len() == 60 && h@.take(7) == "$2b$12$"@ && bcrypt_verifies(req.password@, h@),
            Err(o) => o == SignupOutcome::HashFailed,
        },
{
    match bcrypt_hash(req.password.as_str()) {
        Some(h) => Ok(h),
        None => Err(SignupOutcome::HashFailed),
    }
}

/// Seconds a session made at sign-up lasts.
pub const SIGNUP_SESSION_SECONDS: i64 = 60;

/// Whether a sign-up request carries an email and a password that are not
/// blank.
pub fn signup_check(req: &SignupRequest) -> (r: bool)
    ensures
        r == !(is_blank(req.email@) || is_blank(req.password@)),
{
    !(blank(req.email.as_str()) || blank(req.password.as_str()))
}

/// The answer to a sign-up request that ended with `outcome`.
pub fn signup_reply(req: &SignupRequest, outcome: SignupOutcome) -> (r: Reply<SignupResponse>)
    ensures
        match outcome {
            SignupOutcome::MissingData => r.status == 400 && !r.body.success && r.body.message@ == "missing required data"@
                && r.body.user_id is None,
            SignupOutcome::AlreadyExists => r.status == 201 && r.body.success && r.body.message@ == "User "@ + req.email@
                + ": already exist!"@ && r.body.user_id is None,
            SignupOutcome::HashFailed => r.status == 500 && !r.body.success && r.body.message@
                == "internal server error during password security encryption"@ && r.body.user_id is None,
            SignupOutcome::CreateFailed => r.status == 500 && !r.body.success && r.body.message@ == "failed to register user"@
                && r.body.user_id is None,
            SignupOutcome::TokenFailed => r.status == 500 && !r.body.success && r.body.message@
                == "failed to generate session token"@ && r.body.user_id is None,
            SignupOutcome::Created(id) => r.status == 201 && r.body.success && r.body.message@
                == "User registered successfully!"@ && r.body.user_id == Some(id),
        },
{
    match outcome {
        SignupOutcome::MissingData => Reply {
            status: 400,
            body: SignupResponse { success: false, message: String::from_str("missing required data"), user_id: None },
        },
        SignupOutcome::AlreadyExists => {
            let mut message = String::from_str("User ");
            message.append(req.email.as_str());
            message.append(": already exist!");
            Reply { status: 201, body: SignupResponse { success: true, message, user_id: None } }
        },
        SignupOutcome::HashFailed => Reply {
            status: 500,
            body: SignupResponse {
                success: false,
                message: String::from_str("internal server error during password security encryption"),
                user_id: None,
            },
        },
        SignupOutcome::CreateFailed => Reply {
            status: 500,
            body: SignupResponse { success: false, message: String::from_str("failed to register user"), user_id: None },
        },
        SignupOutcome::TokenFailed => Reply {
            status: 500,
            body: SignupResponse {
                success: false,
                message: String::from_str("failed to generate session token"),
                user_id: None,
            },
        },
        SignupOutcome::Created(id) => Reply {
            status: 201,
            body: SignupResponse {
                success: true,
                message: String::from_str("User registered successfully!"),
                user_id: Some(id),
            },
        },
    }
}

/// The claims of a session of `user_id` that starts at `now` and lasts
/// `seconds`.
pub fn claims_at(user_id: String, now: i64, seconds: i64) -> (r: Claims)
    requires
        0 <= now < 0x1_0000_0000_0000,
        0 <= seconds < 0x1_0000_0000_0000,
    ensures
        r.user_id == user_id,
        r.exp == (now + seconds) as usize,
{
    Claims { user_id, exp: expiry_at(now, seconds) }
}

/// The claims of a session of `user_id` that starts now and lasts `seconds`;
/// none when the clock gives no usable reading (before the epoch, or too far
/// out to count with).
pub fn claims_from_now(user_id: String, seconds: i64) -> (r: Option<Claims>)
    requires
        0 <= seconds < 0x1_0000_0000_0000,
    ensures
        exists|reading: Option<u64>| #[trigger] expiry_for_reading(reading, seconds as int) == match r {
            Some(c) => Some(c.exp),
            None => None::<usize>,
        },
        r matches Some(c) ==> c.user_id == user_id && exists|now: int| #[trigger] expiry_of(c.exp, now, seconds as int),
{
    match expiry_from_now(seconds) {
        Some(exp) => {
            let c = Claims { user_id, exp };
            assert(c.exp == exp);
            Some(c)
        },
        None => None,
    }
}

} // verus!
