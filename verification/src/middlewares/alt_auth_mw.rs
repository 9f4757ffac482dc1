use vstd::prelude::*;
use vstd::string::*;

use crate::middlewares::auth::Rejection;

verus! {

/// The claims a session token carries.
pub struct Claims {
    pub user_id: String,
    pub exp: usize,
}

/// `Bearer `
pub open spec fn bearer_prefix() -> Seq<char> {
    seq!['B', 'e', 'a', 'r', 'e', 'r', ' ']
}

/// The token of an `Authorization` header that reads `Bearer <token>`; any
/// other request is turned away as unauthorized with "missing token".
pub fn bearer_token(authorization: Option<&str>) -> (r: Result<String, Rejection>)
    ensures
        match authorization {
            Some(h) => if h@.len() >= 7 && h@.take(7) == bearer_prefix() {
                r matches Ok(t) && t@ == h@.skip(7)
            } else {
                r matches Err(e) && e.status == 401 && e.message@ == "missing token"@
            },
            None => r matches Err(e) && e.status == 401 && e.message@ == "missing token"@,
        },
{
    let h = match authorization {
        Some(h) => h,
        None => {
            return Err(Rejection { status: 401, message: "missing token" });
        },
    };
    let n = h.unicode_len();
    if n >= 7 && h.get_char(0) == 'B' && h.get_char(1) == 'e' && h.get_char(2) == 'a' && h.get_char(3) == 'r' && h.get_char(4)
        == 'e' && h.get_char(5) == 'r' && h.get_char(6) == ' ' {
        assert(h@.take(7) =~= bearer_prefix());
        let t = h.substring_char(7, n);
        assert(t@ =~= h@.skip(7));
        Ok(String::from_str(t))
    } else {
        proof {
            if h@.len() >= 7 && h@.take(7) == bearer_prefix() {
                assert(h@.take(7)[0] == h@[0] && h@.take(7)[1] == h@[1] && h@.take(7)[2] == h@[2] && h@.take(7)[3] == h@[3]
                    && h@.take(7)[4] == h@[4] && h@.take(7)[5] == h@[5] && h@.take(7)[6] == h@[6]);
            }
        }
        Err(Rejection { status: 401, message: "missing token" })
    }
}

} // verus!
