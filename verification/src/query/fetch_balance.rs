use vstd::prelude::*;

verus! {

pub struct FetchBalanceRequest {
    pub user_id: String,
}

} // verus!
