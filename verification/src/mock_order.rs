use vstd::prelude::*;
use vstd::string::*;

use crate::order_book::{
    LimitOrderEventPayload, Market, MarketPayload, MarketView, UNIT, spec_add_limit_order, spec_market,
};
use crate::text::{all_digits, decimal, digits_value, is_digit, lemma_decimal_reads_back, push_decimal};

verus! {

/// The id of the mock user that order `i` is placed for: users 1 to 10 take
/// turns.
pub open spec fn mock_user_text(i: nat) -> Seq<char> {
    "mock_user_"@ + decimal(i % 10 + 1)
}

/// The id of mock order `i` with tag `tag`.
pub open spec fn mock_order_text(tag: Seq<char>, i: nat) -> Seq<char> {
    "mock_"@ + tag + "_"@ + decimal(i)
}

/// `mock_user_<n>` with `n` the turn of user for order `i`, from 1 to 10.
pub fn user_id(i: usize) -> (r: String)
    ensures
        r@ == mock_user_text(i as nat),
{
    let mut s = String::from_str("mock_user_");
    push_decimal(&mut s, (i % 10) + 1);
    s
}

/// `mock_<tag>_<i>`.
pub fn order_id(tag: &str, i: usize) -> (r: String)
    ensures
        r@ == mock_order_text(tag@, i as nat),
{
    let mut s = String::from_str("mock_");
    s.append(tag);
    s.append("_");
    push_decimal(&mut s, i);
    proof {
        assert(s@ =~= mock_order_text(tag@, i as nat));
    }
    s
}

proof fn lemma_split_before_digits(a1: Seq<char>, d1: Seq<char>, a2: Seq<char>, d2: Seq<char>)
    requires
        a1 + d1 == a2 + d2,
        a1.len() > 0,
        a2.len() > 0,
        a1.last() == '_',
        a2.last() == '_',
        all_digits(d1),
        all_digits(d2),
    ensures
        a1 == a2,
        d1 == d2,
{
    let s = a1 + d1;
    let s2 = a2 + d2;
    assert(s.len() == s2.len());
    if d1.len() < d2.len() {
        let p = a1.len() - 1;
        assert(a2.len() <= p < s2.len());
        assert(s[p] == '_');
        assert(s2[p] == d2[p - a2.len()]);
        assert(is_digit(d2[p - a2.len()]));
    } else if d2.len() < d1.len() {
        let p = a2.len() - 1;
        assert(a1.len() <= p < s.len());
        assert(s2[p] == '_');
        assert(s[p] == d1[p - a1.len()]);
        assert(is_digit(d1[p - a1.len()]));
    }
    assert(a1 =~= s.subrange(0, a1.len() as int));
    assert(a2 =~= s2.subrange(0, a2.len() as int));
    assert(d1 =~= s.subrange(a1.len() as int, s.len() as int));
    assert(d2 =~= s2.subrange(a2.len() as int, s2.len() as int));
}

/// Mock order ids are all distinct: two are the same text exactly when they
/// were made with the same tag and the same number.
pub proof fn law_order_ids_are_distinct(t1: Seq<char>, i1: nat, t2: Seq<char>, i2: nat)
    ensures
        mock_order_text(t1, i1) == mock_order_text(t2, i2) <==> (t1 == t2 && i1 == i2),
{
    if mock_order_text(t1, i1) == mock_order_text(t2, i2) {
        reveal_strlit("mock_");
        reveal_strlit("_");
        let a1 = "mock_"@ + t1 + "_"@;
        let a2 = "mock_"@ + t2 + "_"@;
        lemma_decimal_reads_back(i1);
        lemma_decimal_reads_back(i2);
        assert(a1.last() == '_');
        assert(a2.last() == '_');
        lemma_split_before_digits(a1, decimal(i1), a2, decimal(i2));
        assert(t1 =~= a1.subrange(5, a1.len() - 1));
        assert(t2 =~= a2.subrange(5, a2.len() - 1));
    }
}

/// Whether `o` is the buy order number `i` (0 to 49) of the seeded book:
/// priced 100 + 2i, quantity 0.1 to 0.5 by turns, take-profit 10% above
/// the price and stop-loss 5% below it.
pub open spec fn seeded_buy(o: LimitOrderEventPayload, i: nat) -> bool {
    let price = (100 + 2 * i) * UNIT;
    &&& o.user_id@ == mock_user_text(i)
    &&& o.order_id@ == mock_order_text("buy"@, i)
    &&& o.side == 1
    &&& o.quantity == (i % 5 + 1) * (UNIT / 10)
    &&& o.price == price
    &&& o.tp == price * 11 / 10
    &&& o.sl == price * 95 / 100
}

/// Whether `o` is the sell order number `i` (0 to 49) of the seeded book:
/// priced 200 - 2i, for users of turn `i + 50`, take-profit 10% below the
/// price and stop-loss 5% above it.
pub open spec fn seeded_sell(o: LimitOrderEventPayload, i: nat) -> bool {
    let price = (200 - 2 * i) * UNIT;
    &&& o.user_id@ == mock_user_text(i + 50)
    &&& o.order_id@ == mock_order_text("sell"@, i)
    &&& o.side == 2
    &&& o.quantity == (i % 5 + 1) * (UNIT / 10)
    &&& o.price == price
    &&& o.tp == price * 9 / 10
    &&& o.sl == price * 105 / 100
}

/// The market after the limit orders `orders` are placed in turn.
pub open spec fn add_all(m: MarketView, orders: Seq<LimitOrderEventPayload>) -> MarketView
    decreases orders.len(),
{
    if orders.len() == 0 {
        m
    } else {
        spec_add_limit_order(add_all(m, orders.drop_last()), orders.last()).0
    }
}

/// Whether `p` is the market order number `i` of the seeded flow: buys and
/// sells by turns, for 0.5 to 0.9 units.
pub open spec fn seeded_market(p: MarketPayload, i: nat) -> bool {
    &&& p.user_id@ == mock_user_text(i)
    &&& p.order_id@ == mock_order_text("mkt"@, i)
    &&& p.quantity == (5 + i % 5) * (UNIT / 10)
    &&& p.tp == 0
    &&& p.sl == 0
    &&& p.side == if i % 2 == 0 {
        1u32
    } else {
        2u32
    }
}

/// The market after the market orders `orders` are placed in turn.
pub open spec fn market_all(m: MarketView, orders: Seq<MarketPayload>) -> MarketView
    decreases orders.len(),
{
    if orders.len() == 0 {
        m
    } else {
        spec_market(market_all(m, orders.drop_last()), orders.last()).0
    }
}

/// The seeded book placed in a market, as a predicate on the orders used.
pub open spec fn seeds_limit_orders(m: MarketView, after: MarketView, orders: Seq<LimitOrderEventPayload>) -> bool {
    &&& orders.len() == 100
    &&& forall|i: int| 0 <= i < 50 ==> seeded_buy(#[trigger] orders[i], i as nat)
    &&& forall|i: int| 50 <= i < 100 ==> seeded_sell(#[trigger] orders[i], (i - 50) as nat)
    &&& after == add_all(m, orders)
}

/// The seeded market flow placed in a market, as a predicate on the orders used.
pub open spec fn seeds_market_orders(m: MarketView, after: MarketView, orders: Seq<MarketPayload>, count: nat) -> bool {
    &&& orders.len() == count
    &&& forall|i: int| 0 <= i < count ==> seeded_market(#[trigger] orders[i], i as nat)
    &&& after == market_all(m, orders)
}

/// `n` tenths of a unit.
fn tenths(n: u64) -> (r: u64)
    requires
        n <= 10,
    ensures
        r == n * (UNIT / 10),
{
    n * (UNIT / 10)
}

/// Places 50 buy orders priced 100 to 198 and then 50 sell orders priced 200
/// down to 102 in `market`.
pub fn seed_limit_orders(market: &mut Market)
    requires
        old(market).wf(),
    ensures
        final(market).wf(),
        exists|orders: Seq<LimitOrderEventPayload>| #[trigger] seeds_limit_orders(old(market)@, final(market)@, orders),
{
    let ghost m0 = market@;
    let ghost mut placed: Seq<LimitOrderEventPayload> = Seq::empty();
    let mut i: usize = 0;
    while i < 50
        invariant
            i <= 50,
            market.wf(),
            m0 == old(market)@,
            placed.len() == i,
            forall|j: int| 0 <= j < i ==> seeded_buy(#[trigger] placed[j], j as nat),
            market@ == add_all(m0, placed),
        decreases 50 - i,
    {
        let price: u64 = (100 + 2 * i as u64) * UNIT;
        let order = LimitOrderEventPayload {
            user_id: user_id(i),
            order_id: order_id("buy", i),
            side: 1,
            quantity: tenths((i % 5) as u64 + 1),
            price,
            tp: price / 10 * 11,
            sl: price / 100 * 95,
        };
        proof {
            assert(price * 11 / 10 == price / 10 * 11) by (nonlinear_arith)
                requires
                    price % 10 == 0,
            ;
            assert(price * 95 / 100 == price / 100 * 95) by (nonlinear_arith)
                requires
                    price % 100 == 0,
            ;
            assert(seeded_buy(order, i as nat));
            assert(placed.push(order).drop_last() =~= placed);
            placed = placed.push(order);
        }
        let _ = market.add_limit_order(order);
        i = i + 1;
    }
    let mut k: usize = 0;
    while k < 50
        invariant
            k <= 50,
            market.wf(),
            m0 == old(market)@,
            placed.len() == 50 + k,
            forall|j: int| 0 <= j < 50 ==> seeded_buy(#[trigger] placed[j], j as nat),
            forall|j: int| 50 <= j < 50 + k ==> seeded_sell(#[trigger] placed[j], (j - 50) as nat),
            market@ == add_all(m0, placed),
        decreases 50 - k,
    {
        let price: u64 = (200 - 2 * k as u64) * UNIT;
        let order = LimitOrderEventPayload {
            user_id: user_id(k + 50),
            order_id: order_id("sell", k),
            side: 2,
            quantity: tenths((k % 5) as u64 + 1),
            price,
            tp: price / 10 * 9,
            sl: price / 100 * 105,
        };
        proof {
            assert(price * 9 / 10 == price / 10 * 9) by (nonlinear_arith)
                requires
                    price % 10 == 0,
            ;
            assert(price * 105 / 100 == price / 100 * 105) by (nonlinear_arith)
                requires
                    price % 100 == 0,
            ;
            assert(seeded_sell(order, k as nat));
            assert(placed.push(order).drop_last() =~= placed);
            placed = placed.push(order);
        }
        let _ = market.add_limit_order(order);
        k = k + 1;
    }
    assert(seeds_limit_orders(m0, market@, placed));
}

/// Places `count` market orders in `market`, buying and selling by turns.
pub fn seed_market_orders(market: &mut Market, count: usize)
    requires
        old(market).wf(),
    ensures
        final(market).wf(),
        exists|orders: Seq<MarketPayload>| #[trigger] seeds_market_orders(old(market)@, final(market)@, orders, count as nat),
{
    let ghost m0 = market@;
    let ghost mut placed: Seq<MarketPayload> = Seq::empty();
    let mut i: usize = 0;
    while i < count
        invariant
            i <= count,
            market.wf(),
            m0 == old(market)@,
            placed.len() == i,
            forall|j: int| 0 <= j < i ==> seeded_market(#[trigger] placed[j], j as nat),
            market@ == market_all(m0, placed),
        decreases count - i,
    {
        let side: u32 = if i % 2 == 0 { 1 } else { 2 };
        let payload = MarketPayload {
            user_id: user_id(i),
            order_id: order_id("mkt", i),
            quantity: tenths(5 + (i % 5) as u64),
            tp: 0,
            sl: 0,
            side,
        };
        proof {
            assert(seeded_market(payload, i as nat));
            assert(placed.push(payload).drop_last() =~= placed);
            placed = placed.push(payload);
        }
        let _ = market.market(payload);
        i = i + 1;
    }
    assert(seeds_market_orders(m0, market@, placed, count as nat));
}

} // verus!
