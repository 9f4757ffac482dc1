use vstd::prelude::*;

verus! {

pub struct FetchOrdersRequest {
    pub user_id: String,
}

} // verus!
