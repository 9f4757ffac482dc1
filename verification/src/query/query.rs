use vstd::prelude::*;
use vstd::string::*;

use crate::text::{i32_text, i32_to_text};

verus! {

pub struct UserStatusResponse {
    pub is_user_exist: bool,
    pub email: Option<String>,
}

pub struct UserCreationResponse {
    pub success: bool,
    pub id: String,
}

pub struct User {
    pub user_id: Option<String>,
    pub email: Option<String>,
    pub balance: Option<i64>,
}

impl UserStatusResponse {
    /// The answer to a lookup that found a user with this email, or nothing.
    pub fn from_row(found_email: Option<String>) -> (r: Self)
        ensures
            r.is_user_exist == found_email is Some,
            r.email == found_email,
    {
        UserStatusResponse { is_user_exist: found_email.is_some(), email: found_email }
    }
}

impl UserCreationResponse {
    /// The answer to a user insert that gave back the new id, or nothing.
    pub fn from_row(new_id: Option<i32>) -> (r: Self)
        ensures
            match new_id {
                Some(id) => r.success && r.id@ == i32_text(id),
                None => !r.success && r.id@ == Seq::<char>::empty(),
            },
    {
        match new_id {
            Some(id) => UserCreationResponse { success: true, id: i32_to_text(id) },
            None => {
                let id = String::from_str("");
                proof {
                    reveal_strlit("");
                }
                UserCreationResponse { success: false, id }
            },
        }
    }
}

impl User {
    /// The user of the row `(id, email, balance)`, or the empty user.
    pub fn from_row(row: Option<(i32, String, i64)>) -> (r: Self)
        ensures
            match row {
                Some((id, email, balance)) => r.user_id matches Some(u) && u@ == i32_text(id) && r.email == Some(email)
                    && r.balance == Some(balance),
                None => r.user_id is None && r.email is None && r.balance is None,
            },
    {
        match row {
            Some((id, email, balance)) => User { user_id: Some(i32_to_text(id)), email: Some(email), balance: Some(balance) },
            None => User { user_id: None, email: None, balance: None },
        }
    }
}

} // verus!
