use exchange::engine::{Engine, EngineEvent, EngineReply};
use exchange::mock_order::{order_id, seed_limit_orders, seed_market_orders, user_id};
use exchange::order_book::{
    CloseAllPayload, ClosePayload, LimitOrderEventPayload, Market, MarketPayload, ModifyPayload, UNIT,
};

fn order(user: &str, id: &str, side: u32, quantity: u64, price: u64) -> LimitOrderEventPayload {
    LimitOrderEventPayload {
        user_id: user.to_string(),
        order_id: id.to_string(),
        side,
        quantity,
        price,
        tp: price + 10,
        sl: price - 10,
    }
}

fn level(m: &Vec<exchange::order_book::PriceLevel>, i: usize) -> (u64, Vec<(String, u64)>) {
    (m[i].price, m[i].orders.iter().map(|o| (o.order_id.clone(), o.quantity)).collect())
}

fn orders_of(m: &Market, user: &str) -> Option<Vec<String>> {
    m.user_orders.orders_of(&user.to_string()).map(|mut v| {
        v.sort();
        v
    })
}

fn buy_market(user: &str, id: &str, quantity: u64) -> MarketPayload {
    MarketPayload { user_id: user.to_string(), order_id: id.to_string(), quantity, tp: 0, sl: 0, side: 1 }
}

fn sell_market(user: &str, id: &str, quantity: u64) -> MarketPayload {
    MarketPayload { user_id: user.to_string(), order_id: id.to_string(), quantity, tp: 0, sl: 0, side: 2 }
}

#[test]
fn new_market_is_empty() {
    let m = Market::new("BTC-PERP".to_string());
    assert_eq!(m.symbol, "BTC-PERP");
    assert_eq!(m.last_price, 0);
    assert!(m.buy_order.is_empty());
    assert!(m.sell_order.is_empty());
    assert!(orders_of(&m, "u1").is_none());
}

#[test]
fn unmatched_buy_rests_in_book() {
    let mut m = Market::new("BTC".to_string());
    let r = m.add_limit_order(order("u1", "b1", 1, 5, 100)).ok().unwrap();
    assert!(r.success);
    assert_eq!(r.message, "order in orderbook");
    assert_eq!(r.remaining_quantity, None);
    assert_eq!(level(&m.buy_order, 0), (100, vec![("b1".to_string(), 5)]));
    assert_eq!(m.buy_order_lookup.get(&"b1".to_string()), Some(&(100, 110, 90)));
    assert_eq!(orders_of(&m, "u1"), Some(vec!["b1".to_string()]));
}

#[test]
fn buy_levels_run_highest_first_and_sell_levels_lowest_first() {
    let mut m = Market::new("BTC".to_string());
    let _ = m.add_limit_order(order("u1", "b1", 1, 1, 90));
    let _ = m.add_limit_order(order("u1", "b2", 1, 1, 95));
    let _ = m.add_limit_order(order("u1", "b3", 1, 1, 90));
    let _ = m.add_limit_order(order("u2", "s1", 2, 1, 120));
    let _ = m.add_limit_order(order("u2", "s2", 2, 1, 110));
    assert_eq!(level(&m.buy_order, 0), (95, vec![("b2".to_string(), 1)]));
    assert_eq!(level(&m.buy_order, 1), (90, vec![("b1".to_string(), 1), ("b3".to_string(), 1)]));
    assert_eq!(level(&m.sell_order, 0).0, 110);
    assert_eq!(level(&m.sell_order, 1).0, 120);
}

#[test]
fn crossing_buy_consumes_level_and_rests_remainder() {
    let mut m = Market::new("BTC".to_string());
    let _ = m.add_limit_order(order("u1", "s1", 2, 5, 100));
    let r = m.add_limit_order(order("u2", "b1", 1, 8, 105)).ok().unwrap();
    assert!(r.success);
    assert_eq!(r.message, "order filled with remaining qty.");
    assert_eq!(r.remaining_quantity, Some(3));
    assert_eq!(m.last_price, 100);
    assert!(m.sell_order.is_empty());
    assert_eq!(level(&m.buy_order, 0), (105, vec![("b1".to_string(), 3)]));
    assert!(!m.sell_order_lookup.contains_key(&"s1".to_string()));
    assert_eq!(orders_of(&m, "u1"), Some(vec![]));
}

#[test]
fn crossing_buy_sweeps_every_level_it_meets() {
    let mut m = Market::new("BTC".to_string());
    let _ = m.add_limit_order(order("u1", "s1", 2, 1, 100));
    let _ = m.add_limit_order(order("u2", "s2", 2, 1, 101));
    let _ = m.add_limit_order(order("u4", "s3", 2, 1, 103));
    let r = m.add_limit_order(order("u3", "b1", 1, 2, 101)).ok().unwrap();
    assert_eq!(r.message, "order fully filled.");
    assert_eq!(r.remaining_quantity, None);
    assert_eq!(m.last_price, 101);
    assert_eq!(m.sell_order.len(), 1);
    assert_eq!(level(&m.sell_order, 0), (103, vec![("s3".to_string(), 1)]));
    assert!(m.buy_order.is_empty());
    // a larger buy sweeps what meets it and rests the rest, facing no level it meets
    let r = m.add_limit_order(order("u3", "b2", 1, 5, 104)).ok().unwrap();
    assert_eq!(r.remaining_quantity, Some(4));
    assert!(m.sell_order.is_empty());
    assert_eq!(level(&m.buy_order, 0), (104, vec![("b2".to_string(), 4)]));
    assert_eq!(m.last_price, 103);
}

#[test]
fn orders_used_up_by_a_limit_fill_are_forgotten() {
    let mut m = Market::new("BTC".to_string());
    let _ = m.add_limit_order(order("u1", "s1", 2, 2, 100));
    let _ = m.add_limit_order(order("u1", "s2", 2, 5, 100));
    let _ = m.add_limit_order(order("u2", "b1", 1, 3, 100));
    assert_eq!(level(&m.sell_order, 0), (100, vec![("s2".to_string(), 4)]));
    assert!(!m.sell_order_lookup.contains_key(&"s1".to_string()));
    assert!(m.sell_order_lookup.contains_key(&"s2".to_string()));
    assert_eq!(orders_of(&m, "u1"), Some(vec!["s2".to_string()]));
    let r = m.modify(ModifyPayload {
        symbol: "BTC".to_string(),
        side: 2,
        order_id: "s1".to_string(),
        has_updated_tp_val: true,
        has_updated_sl_val: false,
        tp: Some(1),
        sl: None,
    }).unwrap();
    assert!(!r.success);
}

#[test]
fn crossing_buy_fully_filled() {
    let mut m = Market::new("BTC".to_string());
    let _ = m.add_limit_order(order("u1", "s1", 2, 10, 100));
    let r = m.add_limit_order(order("u2", "b1", 1, 4, 100)).ok().unwrap();
    assert_eq!(r.message, "order fully filled.");
    assert_eq!(r.remaining_quantity, None);
    assert_eq!(level(&m.sell_order, 0), (100, vec![("s1".to_string(), 6)]));
    assert!(m.buy_order.is_empty());
}

#[test]
fn fill_skips_orders_of_the_same_user() {
    let mut m = Market::new("BTC".to_string());
    let _ = m.add_limit_order(order("u1", "s1", 2, 3, 100));
    let _ = m.add_limit_order(order("u2", "s2", 2, 4, 100));
    let r = m.add_limit_order(order("u1", "b1", 1, 5, 100)).ok().unwrap();
    assert_eq!(r.message, "order filled with remaining qty.");
    assert_eq!(r.remaining_quantity, Some(1));
    assert_eq!(level(&m.sell_order, 0), (100, vec![("s1".to_string(), 3)]));
    assert_eq!(level(&m.buy_order, 0), (100, vec![("b1".to_string(), 1)]));
}

#[test]
fn crossing_sell_fills_against_highest_buy() {
    let mut m = Market::new("BTC".to_string());
    let _ = m.add_limit_order(order("u1", "b1", 1, 2, 90));
    let _ = m.add_limit_order(order("u2", "b2", 1, 3, 95));
    let r = m.add_limit_order(order("u3", "s1", 2, 2, 92)).ok().unwrap();
    assert_eq!(r.message, "order fully filled.");
    assert_eq!(m.last_price, 95);
    assert_eq!(level(&m.buy_order, 0), (95, vec![("b2".to_string(), 1)]));
    assert_eq!(level(&m.buy_order, 1), (90, vec![("b1".to_string(), 2)]));
    assert!(m.sell_order.is_empty());
}

#[test]
fn sell_above_every_buy_rests() {
    let mut m = Market::new("BTC".to_string());
    let _ = m.add_limit_order(order("u1", "b1", 1, 2, 95));
    let r = m.add_limit_order(order("u3", "s1", 2, 2, 100)).ok().unwrap();
    assert_eq!(r.message, "order in orderbook");
    assert_eq!(level(&m.sell_order, 0), (100, vec![("s1".to_string(), 2)]));
    assert_eq!(m.sell_order_lookup.get(&"s1".to_string()), Some(&(100, 110, 90)));
}

#[test]
fn modify_updates_terms() {
    let mut m = Market::new("BTC".to_string());
    let _ = m.add_limit_order(order("u1", "b1", 1, 2, 100));
    let r = m
        .modify(ModifyPayload {
            symbol: "BTC".to_string(),
            side: 1,
            order_id: "b1".to_string(),
            has_updated_tp_val: true,
            has_updated_sl_val: false,
            tp: Some(120),
            sl: None,
        })
        .unwrap();
    assert!(r.success);
    assert_eq!(r.message, "both updated");
    assert_eq!((r.tp, r.sl), (Some(120), Some(90)));
    assert_eq!(m.buy_order_lookup.get(&"b1".to_string()), Some(&(100, 120, 90)));
    let r = m
        .modify(ModifyPayload {
            symbol: "BTC".to_string(),
            side: 1,
            order_id: "b1".to_string(),
            has_updated_tp_val: false,
            has_updated_sl_val: false,
            tp: Some(1),
            sl: Some(80),
        })
        .unwrap();
    assert_eq!(r.message, "sl updated");
    assert_eq!((r.tp, r.sl), (None, Some(80)));
    assert_eq!(m.buy_order_lookup.get(&"b1".to_string()), Some(&(100, 120, 80)));
}

#[test]
fn modify_of_unknown_order_fails() {
    let mut m = Market::new("BTC".to_string());
    let r = m
        .modify(ModifyPayload {
            symbol: "BTC".to_string(),
            side: 2,
            order_id: "nope".to_string(),
            has_updated_tp_val: true,
            has_updated_sl_val: true,
            tp: Some(1),
            sl: Some(2),
        })
        .unwrap();
    assert!(!r.success);
    assert_eq!(r.message, "has no tp, sl value to update");
    assert_eq!((r.tp, r.sl), (None, None));
}

#[test]
fn close_removes_order_level_and_user() {
    let mut m = Market::new("BTC".to_string());
    let _ = m.add_limit_order(order("u1", "b1", 1, 2, 100));
    let _ = m.add_limit_order(order("u1", "b2", 1, 3, 100));
    let close = |id: &str| ClosePayload {
        symbol: "BTC".to_string(),
        side: 1,
        quantity: 0,
        order_id: id.to_string(),
        user_id: "u1".to_string(),
    };
    let r = m.close(close("b1"));
    assert!(r.success);
    assert_eq!(r.order_id, Some("b1".to_string()));
    assert_eq!(r.message, "order removed");
    assert_eq!(level(&m.buy_order, 0), (100, vec![("b2".to_string(), 3)]));
    assert!(!m.buy_order_lookup.contains_key(&"b1".to_string()));
    assert_eq!(orders_of(&m, "u1"), Some(vec!["b2".to_string()]));
    let _ = m.close(close("b2"));
    assert!(m.buy_order.is_empty());
    assert!(orders_of(&m, "u1").is_none());
}

#[test]
fn close_all_removes_every_order_of_user() {
    let mut m = Market::new("BTC".to_string());
    let _ = m.add_limit_order(order("u1", "b1", 1, 2, 100));
    let _ = m.add_limit_order(order("u2", "b2", 1, 3, 100));
    let _ = m.add_limit_order(order("u1", "s1", 2, 1, 200));
    let r = m.close_all(CloseAllPayload { user_id: "u1".to_string() });
    assert!(r.success);
    assert_eq!(r.message, "all order removed");
    assert_eq!(level(&m.buy_order, 0), (100, vec![("b2".to_string(), 3)]));
    assert!(m.sell_order.is_empty());
    assert!(!m.buy_order_lookup.contains_key(&"b1".to_string()));
    assert!(!m.sell_order_lookup.contains_key(&"s1".to_string()));
    assert!(orders_of(&m, "u1").is_none());
    assert_eq!(orders_of(&m, "u2"), Some(vec!["b2".to_string()]));
}

#[test]
fn market_buy_sweeps_levels() {
    let mut m = Market::new("BTC".to_string());
    let _ = m.add_limit_order(order("u1", "s1", 2, 2, 100));
    let _ = m.add_limit_order(order("u2", "s2", 2, 3, 101));
    let r = m.market(buy_market("u3", "m1", 4));
    assert!(r.success);
    assert_eq!(r.message, "market order filled");
    assert_eq!(r.price, 101);
    assert_eq!(r.order_id, "m1");
    assert_eq!(level(&m.sell_order, 0), (101, vec![("s2".to_string(), 1)]));
    assert!(!m.sell_order_lookup.contains_key(&"s1".to_string()));
    assert!(m.sell_order_lookup.contains_key(&"s2".to_string()));
    assert_eq!(orders_of(&m, "u1"), Some(vec![]));
}

#[test]
fn market_buy_without_enough_liquidity_fails() {
    let mut m = Market::new("BTC".to_string());
    let _ = m.add_limit_order(order("u1", "s1", 2, 2, 100));
    let r = m.market(buy_market("u3", "m1", 5));
    assert!(!r.success);
    assert_eq!(r.message, "no liquidity on sell side");
    assert_eq!(r.price, 100);
    assert!(m.sell_order.is_empty());
}

#[test]
fn market_sell_starts_at_highest_buy() {
    let mut m = Market::new("BTC".to_string());
    let _ = m.add_limit_order(order("u1", "b1", 1, 2, 90));
    let _ = m.add_limit_order(order("u2", "b2", 1, 3, 95));
    let r = m.market(sell_market("u3", "m1", 4));
    assert!(r.success);
    assert_eq!(r.price, 90);
    assert_eq!(level(&m.buy_order, 0), (90, vec![("b1".to_string(), 1)]));
    let r = m.market(sell_market("u3", "m2", 9));
    assert!(!r.success);
    assert_eq!(r.message, "no liquidity on buy side");
}

#[test]
fn market_order_for_nothing_succeeds_on_empty_book() {
    let mut m = Market::new("BTC".to_string());
    let r = m.market(buy_market("u3", "m1", 0));
    assert!(r.success);
    assert_eq!(r.price, 0);
}

#[test]
fn mock_ids() {
    assert_eq!(user_id(0), "mock_user_1");
    assert_eq!(user_id(9), "mock_user_10");
    assert_eq!(user_id(13), "mock_user_4");
    assert_eq!(order_id("buy", 7), "mock_buy_7");
    assert_eq!(order_id("mkt", 120), "mock_mkt_120");
}

#[test]
fn seeded_book() {
    let mut m = Market::new("BTC-PERP".to_string());
    seed_limit_orders(&mut m);
    // every sell but the first sweeps the buys down to its price
    assert_eq!(m.last_price, 102 * UNIT);
    assert_eq!(m.buy_order.len(), 1);
    assert_eq!(level(&m.buy_order, 0), (100 * UNIT, vec![("mock_buy_0".to_string(), UNIT / 10)]));
    assert_eq!(m.sell_order.len(), 1);
    assert_eq!(level(&m.sell_order, 0), (200 * UNIT, vec![("mock_sell_0".to_string(), UNIT / 10)]));
    assert_eq!(m.buy_order_lookup.keys(), vec!["mock_buy_0".to_string()]);
    assert_eq!(m.sell_order_lookup.keys(), vec!["mock_sell_0".to_string()]);
    seed_market_orders(&mut m, 6);
    assert_eq!(m.last_price, 100 * UNIT);
    assert!(m.buy_order.is_empty());
    assert!(m.sell_order.is_empty());
}

#[test]
fn engine_routes_by_symbol() {
    let mut e = Engine::new();
    let r = e.handle(EngineEvent::Limit { symbol: "BTC".to_string(), order: order("u1", "b1", 1, 2, 100) });
    match r {
        EngineReply::Limit { success, message, remaining_quantity } => {
            assert!(success);
            assert_eq!(message, "order in orderbook");
            assert_eq!(remaining_quantity, None);
        },
        _ => panic!("limit reply expected"),
    }
    let _ = e.handle(EngineEvent::Limit { symbol: "ETH".to_string(), order: order("u1", "e1", 2, 2, 300) });
    let r = e.handle(EngineEvent::Market { symbol: "BTC".to_string(), request: sell_market("u2", "m1", 1) });
    match r {
        EngineReply::Market { message, price } => {
            assert_eq!(message, "market order filled");
            assert_eq!(price, 100);
        },
        _ => panic!("market reply expected"),
    }
    let r = e.handle(EngineEvent::Close(ClosePayload {
        symbol: "DOGE".to_string(),
        side: 1,
        quantity: 0,
        order_id: "b1".to_string(),
        user_id: "u1".to_string(),
    }));
    assert!(matches!(r, EngineReply::Silent));
    assert!(!e.markets.contains_key(&"DOGE".to_string()));
    let _ = e.handle(EngineEvent::CloseAll(CloseAllPayload { user_id: "u1".to_string() }));
    let btc = e.markets.get(&"BTC".to_string()).unwrap();
    assert!(btc.buy_order.is_empty());
    let eth = e.markets.get(&"ETH".to_string()).unwrap();
    assert!(eth.sell_order.is_empty());
}

fn snapshot(m: &Market) -> (u64, Vec<(u64, Vec<(String, u64)>)>, Vec<(u64, Vec<(String, u64)>)>, Vec<String>, Vec<String>) {
    let side = |s: &Vec<exchange::order_book::PriceLevel>| (0..s.len()).map(|i| level(s, i)).collect::<Vec<_>>();
    let mut buys = m.buy_order_lookup.keys();
    buys.sort();
    let mut sells = m.sell_order_lookup.keys();
    sells.sort();
    (m.last_price, side(&m.buy_order), side(&m.sell_order), buys, sells)
}

#[test]
fn close_undoes_a_resting_order() {
    let mut m = Market::new("BTC".to_string());
    let _ = m.add_limit_order(order("u1", "b1", 1, 3, 90));
    let _ = m.add_limit_order(order("u2", "s1", 2, 4, 120));
    let before = snapshot(&m);
    let before_u1 = orders_of(&m, "u1");
    // a new level
    let r = m.add_limit_order(order("u1", "b2", 1, 2, 95)).ok().unwrap();
    assert_eq!(r.message, "order in orderbook");
    m.close(ClosePayload { symbol: "BTC".to_string(), side: 1, quantity: 2, order_id: "b2".to_string(), user_id: "u1".to_string() });
    assert_eq!(snapshot(&m), before);
    assert_eq!(orders_of(&m, "u1"), before_u1);
    // an existing level
    let _ = m.add_limit_order(order("u1", "b3", 1, 7, 90));
    m.close(ClosePayload { symbol: "BTC".to_string(), side: 1, quantity: 7, order_id: "b3".to_string(), user_id: "u1".to_string() });
    assert_eq!(snapshot(&m), before);
    assert_eq!(orders_of(&m, "u1"), before_u1);
    // a user with no order before
    let _ = m.add_limit_order(order("u3", "s2", 2, 1, 130));
    m.close(ClosePayload { symbol: "BTC".to_string(), side: 2, quantity: 1, order_id: "s2".to_string(), user_id: "u3".to_string() });
    assert_eq!(snapshot(&m), before);
    assert_eq!(orders_of(&m, "u3"), None);
}

#[test]
fn close_all_gives_the_same_book_as_closing_one_by_one() {
    let build = || {
        let mut m = Market::new("BTC".to_string());
        let _ = m.add_limit_order(order("u1", "b1", 1, 3, 90));
        let _ = m.add_limit_order(order("u2", "b2", 1, 2, 90));
        let _ = m.add_limit_order(order("u1", "b3", 1, 5, 85));
        let _ = m.add_limit_order(order("u1", "s1", 2, 1, 120));
        let _ = m.add_limit_order(order("u2", "s2", 2, 6, 125));
        m
    };
    let mut all = build();
    all.close_all(CloseAllPayload { user_id: "u1".to_string() });
    for ids in [["b1", "b3", "s1"], ["s1", "b3", "b1"], ["b3", "s1", "b1"]] {
        let mut one = build();
        for (id, side) in ids.iter().map(|id| (*id, if id.starts_with('b') { 1 } else { 2 })) {
            one.close(ClosePayload { symbol: "BTC".to_string(), side, quantity: 0, order_id: id.to_string(), user_id: "u1".to_string() });
        }
        assert_eq!(snapshot(&one), snapshot(&all));
    }
    assert_eq!(level(&all.buy_order, 0), (90, vec![("b2".to_string(), 2)]));
    assert_eq!(all.buy_order.len(), 1);
    assert_eq!(level(&all.sell_order, 0), (125, vec![("s2".to_string(), 6)]));
    assert_eq!(orders_of(&all, "u1"), None);
}

#[test]
fn mock_order_ids_are_distinct() {
    let mut ids: Vec<String> = Vec::new();
    for tag in ["buy", "sell", "mkt", "a_1", "a"] {
        for i in [0, 1, 2, 11, 12, 112, 121] {
            ids.push(order_id(tag, i));
        }
    }
    let n = ids.len();
    ids.sort();
    ids.dedup();
    assert_eq!(ids.len(), n);
    assert_eq!(order_id("buy", 12), "mock_buy_12");
}

/// Every resting order is recorded at its price and listed for its user, every
/// recorded id rests, and each listed id of the given users rests for that user.
fn agrees(m: &Market, users: &[&str]) -> bool {
    let mut resting: Vec<(String, String, u64, bool)> = Vec::new();
    for l in m.buy_order.iter() {
        for o in l.orders.iter() {
            resting.push((o.order_id.clone(), o.user_id.clone(), o.price, true));
        }
    }
    for l in m.sell_order.iter() {
        for o in l.orders.iter() {
            resting.push((o.order_id.clone(), o.user_id.clone(), o.price, false));
        }
    }
    let mut ids: Vec<&String> = resting.iter().map(|r| &r.0).collect();
    ids.sort();
    ids.dedup();
    if ids.len() != resting.len() {
        return false;
    }
    for (id, user, price, buy) in resting.iter() {
        let lookup = if *buy { &m.buy_order_lookup } else { &m.sell_order_lookup };
        match lookup.get(id) {
            Some(t) if t.0 == *price => {},
            _ => return false,
        }
        match orders_of(m, user) {
            Some(v) if v.contains(id) => {},
            _ => return false,
        }
    }
    for (lookup, buy) in [(&m.buy_order_lookup, true), (&m.sell_order_lookup, false)] {
        for k in lookup.keys() {
            if !resting.iter().any(|r| r.0 == k && r.3 == buy) {
                return false;
            }
        }
    }
    for u in users {
        if let Some(v) = orders_of(m, u) {
            for id in v {
                if !resting.iter().any(|r| r.0 == id && r.1 == *u) {
                    return false;
                }
            }
        }
    }
    true
}

#[test]
fn book_lookups_and_user_lists_stay_in_agreement() {
    let users = ["u1", "u2", "u3"];
    let mut m = Market::new("BTC".to_string());
    assert!(agrees(&m, &users));
    let _ = m.add_limit_order(order("u1", "s1", 2, 2, 100));
    let _ = m.add_limit_order(order("u2", "s2", 2, 3, 101));
    let _ = m.add_limit_order(order("u1", "b1", 1, 4, 95));
    assert!(agrees(&m, &users));
    let _ = m.add_limit_order(order("u3", "b2", 1, 3, 101));
    assert!(agrees(&m, &users));
    let _ = m.market(sell_market("u2", "m1", 2));
    assert!(agrees(&m, &users));
    m.close(ClosePayload { symbol: "BTC".to_string(), side: 2, quantity: 0, order_id: "s2".to_string(), user_id: "u2".to_string() });
    assert!(agrees(&m, &users));
    let _ = m.add_limit_order(order("u1", "s3", 2, 1, 120));
    m.close_all(CloseAllPayload { user_id: "u1".to_string() });
    assert!(agrees(&m, &users));
    assert_eq!(orders_of(&m, "u1"), None);
    // a close that names the wrong side strikes the id from the list while the order rests
    let _ = m.add_limit_order(order("u3", "b3", 1, 1, 90));
    m.close(ClosePayload { symbol: "BTC".to_string(), side: 2, quantity: 0, order_id: "b3".to_string(), user_id: "u3".to_string() });
    assert!(!agrees(&m, &users));
}
