use vstd::prelude::*;

verus! {

/// The checks on a limit order request that do not concern its amounts: a
/// symbol and an order type are given, the side is 0 or 1, and the leverage
/// is not 0. (The quantity and the price must also be above 0; those are
/// floating point and checked where they are read.)
pub fn limit_fields_valid(symbol: &str, side: u32, order_type: &str, leverage: u32) -> (r: bool)
    ensures
        r == (symbol@.len() > 0 && side <= 1 && order_type@.len() > 0 && leverage != 0),
{
    symbol.unicode_len() > 0 && side <= 1 && order_type.unicode_len() > 0 && leverage != 0
}

/// The checks on a market order request that do not concern its amounts: a
/// symbol and an order type are given and the side is 0 or 1. (The quantity
/// must also be above 0, and the take-profit and stop-loss not below 0; those
/// are floating point and checked where they are read.)
pub fn market_fields_valid(symbol: &str, side: u8, order_type: &str) -> (r: bool)
    ensures
        r == (symbol@.len() > 0 && side <= 1 && order_type@.len() > 0),
{
    symbol.unicode_len() > 0 && side <= 1 && order_type.unicode_len() > 0
}

} // verus!
