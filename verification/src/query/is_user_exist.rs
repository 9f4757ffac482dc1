use vstd::prelude::*;

verus! {

pub struct IsUserExistRequest {
    pub email: String,
}

pub struct IsUserExistResponse {
    pub is_user_exist: bool,
    pub email: Option<String>,
}

impl IsUserExistResponse {
    /// The answer to a lookup that found a user with this email, or nothing
    /// (no such user, or the lookup failed).
    pub fn from_row(found_email: Option<String>) -> (r: Self)
        ensures
            r.is_user_exist == found_email is Some,
            r.email == found_email,
    {
        IsUserExistResponse { is_user_exist: found_email.is_some(), email: found_email }
    }
}

} // verus!
