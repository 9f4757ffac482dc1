use vstd::prelude::*;

use crate::text::{parse_i32, spec_parse_i32};

verus! {

/// The 128-bit value of the UUID that `s` spells, as
/// `uuid::Uuid::parse_str` reads it, or `None` when `s` spells none.
pub uninterp spec fn uuid_value(s: Seq<char>) -> Option<u128>;

/// Reads a UUID with `uuid::Uuid::parse_str`, whose grammar (hyphenated,
/// simple, braced and URN forms) is taken as given.
#[verifier::external_body]
fn parse_uuid(s: &str) -> (r: Option<u128>)
    ensures
        r == uuid_value(s@),
{
    match uuid::Uuid::parse_str(s) {
        Ok(u) => Some(u.as_u128()),
        Err(_) => None,
    }
}

/// The database keys of an order: the user's numeric id and the order's
/// UUID, or `None` when either does not parse.
pub open spec fn spec_order_keys(user_id: Seq<char>, order_id: Seq<char>) -> Option<(i32, u128)> {
    match (spec_parse_i32(user_id), uuid_value(order_id)) {
        (Some(u), Some(o)) => Some((u, o)),
        _ => None,
    }
}

/// The keys that a user id and an order id give once parsed, or `None`
/// when either does not parse.
pub fn keys_from(user: Option<i32>, order: Option<u128>) -> (r: Option<(i32, u128)>)
    ensures
        r == match (user, order) {
            (Some(u), Some(o)) => Some((u, o)),
            _ => None,
        },
{
    match (user, order) {
        (Some(u), Some(o)) => Some((u, o)),
        _ => None,
    }
}

/// Parses the user id and the order UUID that a query is keyed by.
pub fn order_keys(user_id: &str, order_id: &str) -> (r: Option<(i32, u128)>)
    ensures
        r == spec_order_keys(user_id@, order_id@),
{
    let user = parse_i32(user_id);
    if user.is_none() {
        return None;
    }
    keys_from(user, parse_uuid(order_id))
}

/// Parses the numeric user id that a query is keyed by.
pub fn user_key(user_id: &str) -> (r: Option<i32>)
    ensures
        r == spec_parse_i32(user_id@),
{
    parse_i32(user_id)
}

} // verus!
