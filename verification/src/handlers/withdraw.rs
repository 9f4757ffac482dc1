use vstd::prelude::*;
use vstd::string::*;

use crate::handlers::reply::Reply;

verus! {

pub struct WithdrawResponse {
    pub success: bool,
    pub message: String,
}

/// How a withdrawal request ended.
pub enum WithdrawOutcome {
    /// The amount is negative.
    Negative,
    /// The balance could not be lowered (for one, it holds too little).
    Failed,
    /// The amount was taken from the balance.
    Done,
}

/// The answer to a withdrawal request that ended with `outcome`.
pub fn withdraw_reply(outcome: WithdrawOutcome) -> (r: Reply<WithdrawResponse>)
    ensures
        match outcome {
            WithdrawOutcome::Negative => r.status == 400 && !r.body.success && r.body.message@ == "amount cant be negative"@,
            WithdrawOutcome::Failed => r.status == 409 && !r.body.success && r.body.message@ == "failed to withdraw"@,
            WithdrawOutcome::Done => r.status == 200 && r.body.success && r.body.message@ == "withdraw successful"@,
        },
{
    match outcome {
        WithdrawOutcome::Negative => Reply {
            status: 400,
            body: WithdrawResponse { success: false, message: String::from_str("amount cant be negative") },
        },
        WithdrawOutcome::Failed => Reply {
            status: 409,
            body: WithdrawResponse { success: false, message: String::from_str("failed to withdraw") },
        },
        WithdrawOutcome::Done => Reply {
            status: 200,
            body: WithdrawResponse { success: true, message: String::from_str("withdraw successful") },
        },
    }
}

} // verus!
