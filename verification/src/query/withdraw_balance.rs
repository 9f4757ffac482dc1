use vstd::prelude::*;

verus! {

pub struct WithdrawBalanceResponse {
    pub success: bool,
}

} // verus!
