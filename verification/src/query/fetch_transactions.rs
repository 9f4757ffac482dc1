use vstd::prelude::*;

verus! {

pub struct FetchTransactionsRequest {
    pub user_id: String,
}

} // verus!
