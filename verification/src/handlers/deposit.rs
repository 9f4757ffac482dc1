use vstd::prelude::*;
use vstd::string::*;

use crate::handlers::reply::Reply;

verus! {

pub struct DepositRequest {
    pub amount: i64,
}

pub struct DepositResponse {
    pub success: bool,
    pub message: String,
}

/// How a deposit request ended.
pub enum DepositOutcome {
    /// The amount is negative.
    Negative,
    /// The balance could not be updated.
    Failed,
    /// The amount was added to the balance.
    Done,
}

/// Whether a deposit request may go on: its amount is not negative.
pub fn deposit_check(req: &DepositRequest) -> (r: bool)
    ensures
        r == (req.amount >= 0),
{
    req.amount >= 0
}

/// The answer to a deposit request that ended with `outcome`.
pub fn deposit_reply(outcome: DepositOutcome) -> (r: Reply<DepositResponse>)
    ensures
        match outcome {
            DepositOutcome::Negative => r.status == 400 && !r.body.success && r.body.message@ == "amount cant be negative"@,
            DepositOutcome::Failed => r.status == 409 && !r.body.success && r.body.message@ == "failed to deposit"@,
            DepositOutcome::Done => r.status == 200 && r.body.success && r.body.message@ == "deposit successful"@,
        },
{
    match outcome {
        DepositOutcome::Negative => Reply {
            status: 400,
            body: DepositResponse { success: false, message: String::from_str("amount cant be negative") },
        },
        DepositOutcome::Failed => Reply {
            status: 409,
            body: DepositResponse { success: false, message: String::from_str("failed to deposit") },
        },
        DepositOutcome::Done => Reply {
            status: 200,
            body: DepositResponse { success: true, message: String::from_str("deposit successful") },
        },
    }
}

} // verus!
