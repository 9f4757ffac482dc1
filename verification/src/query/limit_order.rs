use vstd::prelude::*;

verus! {

pub struct LimitOrderResponse {
    pub success: bool,
}

/// Which optional terms an order is stored with.
pub enum OrderColumns {
    /// Neither take-profit nor stop-loss.
    Plain,
    /// A stop-loss only.
    StopLoss,
    /// A take-profit only.
    TakeProfit,
    /// Both.
    Both,
}

/// The columns an order is stored with, given whether its take-profit and
/// its stop-loss are set (non-zero): an unset value is left out.
pub fn order_columns(tp_set: bool, sl_set: bool) -> (r: OrderColumns)
    ensures
        r == if !tp_set && !sl_set {
            OrderColumns::Plain
        } else if !tp_set {
            OrderColumns::StopLoss
        } else if !sl_set {
            OrderColumns::TakeProfit
        } else {
            OrderColumns::Both
        },
{
    if !tp_set && !sl_set {
        OrderColumns::Plain
    } else if !tp_set {
        OrderColumns::StopLoss
    } else if !sl_set {
        OrderColumns::TakeProfit
    } else {
        OrderColumns::Both
    }
}

} // verus!
