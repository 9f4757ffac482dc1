use vstd::prelude::*;
use vstd::string::*;

use crate::handlers::reply::Reply;
use crate::text::{blank, is_blank};

verus! {

pub struct SigninRequest {
    pub email: String,
    pub password: String,
}

pub struct SigninResponse {
    pub success: bool,
    pub message: String,
    pub user_id: Option<String>,
}

/// How a sign-in request ended.
pub enum SigninOutcome {
    /// The email or the password is blank.
    MissingField,
    /// No user has this email.
    UnknownUser,
    /// The session token could not be made.
    TokenFailed,
    /// The user with this id signed in.
    SignedIn(String),
}

/// Seconds a session made at sign-in lasts: one day.
pub const SIGNIN_SESSION_SECONDS: i64 = 86_400;

/// Whether a sign-in request carries an email and a password that are not
/// blank.
pub fn signin_check(req: &SigninRequest) -> (r: bool)
    ensures
        r == !(is_blank(req.email@) || is_blank(req.password@)),
{
    !(blank(req.email.as_str()) || blank(req.password.as_str()))
}

/// The answer to a sign-in request that ended with `outcome`.
pub fn signin_reply(outcome: SigninOutcome) -> (r: Reply<SigninResponse>)
    ensures
        match outcome {
            SigninOutcome::MissingField => r.status == 400 && !r.body.success && r.body.message@ == "missing required field"@
                && r.body.user_id is None,
            SigninOutcome::UnknownUser => r.status == 404 && !r.body.success && r.body.message@ == "user not exist"@
                && r.body.user_id is None,
            SigninOutcome::TokenFailed => r.status == 500 && !r.body.success && r.body.message@
                == "failed to generate session token"@ && r.body.user_id is None,
            SigninOutcome::SignedIn(id) => r.status == 202 && r.body.success && r.body.message@ == "signin successful"@
                && r.body.user_id == Some(id),
        },
{
    match outcome {
        SigninOutcome::MissingField => Reply {
            status: 400,
            body: SigninResponse { success: false, message: String::from_str("missing required field"), user_id: None },
        },
        SigninOutcome::UnknownUser => Reply {
            status: 404,
            body: SigninResponse { success: false, message: String::from_str("user not exist"), user_id: None },
        },
        SigninOutcome::TokenFailed => Reply {
            status: 500,
            body: SigninResponse {
                success: false,
                message: String::from_str("failed to generate session token"),
                user_id: None,
            },
        },
        SigninOutcome::SignedIn(id) => Reply {
            status: 202,
            body: SigninResponse { success: true, message: String::from_str("signin successful"), user_id: Some(id) },
        },
    }
}

} // verus!
