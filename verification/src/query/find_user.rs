use vstd::prelude::*;

use crate::text::{i32_text, i32_to_text};

verus! {

pub struct FindUserRequest {
    pub email: String,
}

pub struct FindUserResponse {
    pub user_id: Option<String>,
    pub email: Option<String>,
    pub balance: Option<i64>,
}

impl FindUserResponse {
    /// The answer to a lookup that found the row `(id, email, balance)`, or
    /// nothing (no such user, or the lookup failed).
    pub fn from_row(row: Option<(i32, String, i64)>) -> (r: Self)
        ensures
            match row {
                Some((id, email, balance)) => r.user_id matches Some(u) && u@ == i32_text(id) && r.email == Some(email)
                    && r.balance == Some(balance),
                None => r.user_id is None && r.email is None && r.balance is None,
            },
    {
        match row {
            Some((id, email, balance)) => FindUserResponse {
                user_id: Some(i32_to_text(id)),
                email: Some(email),
                balance: Some(balance),
            },
            None => FindUserResponse { user_id: None, email: None, balance: None },
        }
    }
}

} // verus!
