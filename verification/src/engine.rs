use vstd::prelude::*;

use crate::id_map::{IdView, StrMap};
use crate::order_book::{
    AddLimitOrderResponse, ClosePayload, CloseAllPayload, LevelView, LimitOrderEventPayload, Market,
    MarketPayload, MarketView, ModifyPayload, OrderTerms, add_response_tells, closes_all_in_order, lists_orders_of, spec_close_all,
    spec_add_limit_order, spec_close, spec_market, spec_modify,
};

verus! {

/// A request that reaches the matching engine.
pub enum EngineEvent {
    /// A limit order for the market of `symbol`.
    Limit { symbol: String, order: LimitOrderEventPayload },
    /// A market order for the market of `symbol`.
    Market { symbol: String, request: MarketPayload },
    /// A change of take-profit and stop-loss.
    Modify(ModifyPayload),
    /// The closing of one order.
    Close(ClosePayload),
    /// The closing of every order of a user, in every market.
    CloseAll(CloseAllPayload),
}

/// What the engine answers to an event.
pub enum EngineReply {
    /// The answer to a limit order.
    Limit { success: bool, message: String, remaining_quantity: Option<u64> },
    /// The answer to a market order: what happened and the last price matched.
    Market { message: String, price: u64 },
    /// Events that are not answered.
    Silent,
}

/// `after` is market `m` once every order of `user` is closed: the ids are
/// taken in some order, and any order of them gives `after`.
pub open spec fn closes_all_of(m: MarketView, user: IdView, after: MarketView) -> bool {
    &&& exists|ids: Seq<IdView>| #[trigger] closes_all_in_order(m, user, after, ids)
    &&& forall|ids: Seq<IdView>| #[trigger] lists_orders_of(m, user, ids) ==> after == spec_close_all(m, user, ids)
}

/// The markets of the engine, one per symbol.
pub struct Engine {
    pub markets: StrMap<Market>,
}

/// A market of `symbol` with an empty book.
pub open spec fn empty_market(symbol: Seq<char>) -> MarketView {
    MarketView {
        symbol,
        last_price: 0,
        buys: Seq::<LevelView>::empty(),
        sells: Seq::<LevelView>::empty(),
        user_orders: Map::<IdView, Set<IdView>>::empty(),
        buy_lookup: Map::<IdView, OrderTerms>::empty(),
        sell_lookup: Map::<IdView, OrderTerms>::empty(),
    }
}

/// The market of `symbol`, or a new empty one when there is none yet.
pub open spec fn market_or_new(e: Map<IdView, MarketView>, symbol: Seq<char>) -> MarketView {
    if e.contains_key(symbol) {
        e[symbol]
    } else {
        empty_market(symbol)
    }
}

impl View for Engine {
    type V = Map<IdView, MarketView>;

    closed spec fn view(&self) -> Map<IdView, MarketView> {
        self.markets@.map_values(|m: Market| m@)
    }
}

impl Engine {
    /// Every market is well formed and filed under its own symbol.
    pub closed spec fn wf(&self) -> bool {
        &&& self.markets.wf()
        &&& forall|k: IdView| #[trigger] self.markets@.contains_key(k) ==> self.markets@[k].wf() && self.markets@[k]@.symbol == k
    }

    pub fn new() -> (r: Self)
        ensures
            r.wf(),
            r@ == Map::<IdView, MarketView>::empty(),
    {
        let r = Engine { markets: StrMap::new() };
        assert(r@ =~= Map::<IdView, MarketView>::empty());
        r
    }

    /// Takes the market of `symbol` out of the engine, or makes a new one.
    fn take_market(&mut self, symbol: &String) -> (m: Market)
        requires
            old(self).wf(),
        ensures
            final(self).wf(),
            final(self)@ == old(self)@.remove(symbol@),
            m.wf(),
            m@ == market_or_new(old(self)@, symbol@),
    {
        let ghost e = self@;
        let r = match self.markets.remove(symbol) {
            Some(m) => m,
            None => Market::new(symbol.clone()),
        };
        assert(self@ =~= e.remove(symbol@));
        assert(r@ =~= market_or_new(e, symbol@));
        r
    }

    /// Files `market` under `symbol`.
    fn put_market(&mut self, symbol: String, market: Market)
        requires
            old(self).wf(),
            market.wf(),
            market@.symbol == symbol@,
        ensures
            final(self).wf(),
            final(self)@ == old(self)@.insert(symbol@, market@),
    {
        let ghost e = self@;
        self.markets.insert(symbol, market);
        assert(self@ =~= e.insert(symbol@, market@));
    }

    /// Handles one event: limit and market orders go to the market of their
    /// symbol, which is made when missing; modify and close requests go to
    /// that market only when it exists; closing all orders of a user reaches
    /// every market.
    pub fn handle(&mut self, event: EngineEvent) -> (r: EngineReply)
        requires
            old(self).wf(),
        ensures
            final(self).wf(),
            match event {
                EngineEvent::Limit { symbol, order } => {
                    let (after, outcome) = spec_add_limit_order(market_or_new(old(self)@, symbol@), order);
                    &&& final(self)@ == old(self)@.insert(symbol@, after)
                    &&& r matches EngineReply::Limit { success, message, remaining_quantity }
                        && add_response_tells(AddLimitOrderResponse { success, message, remaining_quantity }, outcome)
                },
                EngineEvent::Market { symbol, request } => {
                    let (after, filled) = spec_market(market_or_new(old(self)@, symbol@), request);
                    &&& final(self)@ == old(self)@.insert(symbol@, after)
                    &&& r matches EngineReply::Market { message, price } && price == after.last_price && message@ == if filled {
                        "market order filled"@
                    } else if request.side == 1 {
                        "no liquidity on sell side"@
                    } else {
                        "no liquidity on buy side"@
                    }
                },
                EngineEvent::Modify(p) => {
                    &&& r is Silent
                    &&& final(self)@ == if old(self)@.contains_key(p.symbol@) {
                        old(self)@.insert(p.symbol@, spec_modify(old(self)@[p.symbol@], p))
                    } else {
                        old(self)@
                    }
                },
                EngineEvent::Close(p) => {
                    &&& r is Silent
                    &&& final(self)@ == if old(self)@.contains_key(p.symbol@) {
                        old(self)@.insert(p.symbol@, spec_close(old(self)@[p.symbol@], p))
                    } else {
                        old(self)@
                    }
                },
                EngineEvent::CloseAll(p) => {
                    &&& r is Silent
                    &&& final(self)@.dom() == old(self)@.dom()
                    &&& forall|k: IdView| #[trigger] old(self)@.contains_key(k) ==> closes_all_of(old(self)@[k], p.user_id@, final(self)@[k])
                },
            },
    {
        match event {
            EngineEvent::Limit { symbol, order } => {
                let mut market = self.take_market(&symbol);
                let result = market.add_limit_order(order);
                self.put_market(symbol, market);
                match result {
                    Ok(resp) => EngineReply::Limit {
                        success: true,
                        message: resp.message,
                        remaining_quantity: resp.remaining_quantity,
                    },
                    Err(resp) => EngineReply::Limit {
                        success: false,
                        message: resp.message,
                        remaining_quantity: resp.remaining_quantity,
                    },
                }
            },
            EngineEvent::Market { symbol, request } => {
                let mut market = self.take_market(&symbol);
                let resp = market.market(request);
                self.put_market(symbol, market);
                EngineReply::Market { message: resp.message, price: resp.price }
            },
            EngineEvent::Modify(p) => {
                if self.markets.contains_key(&p.symbol) {
                    let mut market = self.take_market(&p.symbol);
                    let symbol = p.symbol.clone();
                    let _ = market.modify(p);
                    self.put_market(symbol, market);
                }
                EngineReply::Silent
            },
            EngineEvent::Close(p) => {
                if self.markets.contains_key(&p.symbol) {
                    let mut market = self.take_market(&p.symbol);
                    let symbol = p.symbol.clone();
                    let _ = market.close(p);
                    self.put_market(symbol, market);
                }
                EngineReply::Silent
            },
            EngineEvent::CloseAll(p) => {
                let ghost e = self@;
                let symbols = self.markets.keys();
                let n = symbols.len();
                let mut i: usize = 0;
                while i < n
                    invariant
                        n == symbols@.len(),
                        i <= n,
                        self.wf(),
                        e == old(self)@,
                        self@.dom() == e.dom(),
                        forall|a: int, b: int| 0 <= a < n && 0 <= b < n && a != b ==> symbols@[a]@ != symbols@[b]@,
                        forall|a: int| 0 <= a < n ==> e.contains_key(#[trigger] symbols@[a]@),
                        forall|k: IdView| e.contains_key(k) ==> exists|a: int| 0 <= a < n && symbols@[a]@ == k,
                        forall|a: int| 0 <= a < i ==> closes_all_of(e[#[trigger] symbols@[a]@], p.user_id@, self@[symbols@[a]@]),
                        forall|a: int| i <= a < n ==> self@[#[trigger] symbols@[a]@] == e[symbols@[a]@],
                    decreases n - i,
                {
                    let symbol = symbols[i].clone();
                    let ghost before = self@;
                    let mut market = self.take_market(&symbol);
                    let ghost m0 = market@;
                    let _ = market.close_all(CloseAllPayload { user_id: p.user_id.clone() });
                    assert(closes_all_of(m0, p.user_id@, market@));
                    self.put_market(symbol, market);
                    i = i + 1;
                    proof {
                        assert forall|a: int| 0 <= a < i implies closes_all_of(e[#[trigger] symbols@[a]@], p.user_id@, self@[symbols@[a]@]) by {
                            if a < i - 1 {
                                assert(symbols@[a]@ != symbols@[i - 1]@);
                                assert(self@[symbols@[a]@] == before[symbols@[a]@]);
                            } else {
                                assert(self@[symbols@[a]@] == market@);
                                assert(before[symbols@[a]@] == e[symbols@[a]@]);
                            }
                        }
                        assert forall|a: int| i <= a < n implies self@[#[trigger] symbols@[a]@] == e[symbols@[a]@] by {
                            assert(symbols@[a]@ != symbols@[i - 1]@);
                        }
                        assert(self@.dom() =~= e.dom());
                    }
                }
                proof {
                    assert forall|k: IdView| #[trigger] e.contains_key(k) implies closes_all_of(e[k], p.user_id@, self@[k]) by {
                        let a = choose|a: int| 0 <= a < n && symbols@[a]@ == k;
                    }
                }
                EngineReply::Silent
            },
        }
    }
}

} // verus!
