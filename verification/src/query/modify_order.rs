use vstd::prelude::*;

verus! {

/// Which terms of an order an update sets.
pub enum TermsUpdate {
    Both,
    TakeProfit,
    StopLoss,
}

/// The update a modify request makes, given whether it carries a take-profit
/// and a stop-loss (non-zero values): both, one of them, or none at all.
pub fn terms_update(tp_set: bool, sl_set: bool) -> (r: Option<TermsUpdate>)
    ensures
        r == if tp_set && sl_set {
            Some(TermsUpdate::Both)
        } else if tp_set {
            Some(TermsUpdate::TakeProfit)
        } else if sl_set {
            Some(TermsUpdate::StopLoss)
        } else {
            None
        },
{
    if tp_set && sl_set {
        Some(TermsUpdate::Both)
    } else if tp_set {
        Some(TermsUpdate::TakeProfit)
    } else if sl_set {
        Some(TermsUpdate::StopLoss)
    } else {
        None
    }
}

} // verus!
