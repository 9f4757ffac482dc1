use vstd::prelude::*;

verus! {

pub struct CloseOrderResponse {
    pub success: bool,
}

} // verus!
