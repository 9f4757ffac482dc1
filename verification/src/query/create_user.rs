use vstd::prelude::*;
use vstd::string::*;

use crate::text::{i32_text, i32_to_text};

verus! {

pub struct CreateUserRequest {
    pub email: String,
    pub password: String,
}

pub struct CreateUserResponse {
    pub success: bool,
    pub id: String,
}

impl CreateUserResponse {
    /// The answer to a user insert that gave back the new user's numeric id,
    /// or nothing when it failed.
    pub fn from_row(new_id: Option<i32>) -> (r: Self)
        ensures
            match new_id {
                Some(id) => r.success && r.id@ == i32_text(id),
                None => !r.success && r.id@ == Seq::<char>::empty(),
            },
    {
        match new_id {
            Some(id) => CreateUserResponse { success: true, id: i32_to_text(id) },
            None => {
                let id = String::from_str("");
                proof {
                    reveal_strlit("");
                }
                CreateUserResponse { success: false, id }
            },
        }
    }
}

} // verus!
