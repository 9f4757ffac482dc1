use vstd::prelude::*;

use crate::id_map::{IdView, StrMap, UserOrders, with_order, without_order};

verus! {

/// A limit order as the book holds it. Amounts (`quantity`, `price`, `tp`,
/// `sl`) are whole numbers of the market's smallest unit; `side` 1 is a buy,
/// any other value a sell.
pub struct LimitOrderEventPayload {
    pub user_id: String,
    pub order_id: String,
    pub side: u32,
    pub quantity: u64,
    pub price: u64,
    pub tp: u64,
    pub sl: u64,
}

impl LimitOrderEventPayload {
    /// A field-for-field copy of the order.
    pub fn duplicate(&self) -> (r: Self)
        ensures
            r == *self,
    {
        LimitOrderEventPayload {
            user_id: self.user_id.clone(),
            order_id: self.order_id.clone(),
            side: self.side,
            quantity: self.quantity,
            price: self.price,
            tp: self.tp,
            sl: self.sl,
        }
    }
}

/// The same order with another quantity.
pub open spec fn with_quantity(o: LimitOrderEventPayload, q: u64) -> LimitOrderEventPayload {
    LimitOrderEventPayload { quantity: q, ..o }
}

/// All orders resting at one price, oldest first.
pub struct PriceLevel {
    pub price: u64,
    pub orders: Vec<LimitOrderEventPayload>,
}

/// A price level seen as its price and the sequence of its orders.
pub type LevelView = (u64, Seq<LimitOrderEventPayload>);

/// One side of the book as a sequence of level views, best level first.
pub open spec fn side_view(v: Seq<PriceLevel>) -> Seq<LevelView> {
    Seq::new(v.len(), |i: int| (v[i].price, v[i].orders@))
}

/// Whether price `a` comes before price `b` on the given side: buyers are
/// served from the highest price down, sellers from the lowest price up.
pub open spec fn better(is_buy: bool, a: u64, b: u64) -> bool {
    if is_buy {
        a > b
    } else {
        a < b
    }
}

/// The levels of a side are strictly ordered best first (so no price occurs
/// twice), none of them is empty, and every order in a level has the level's
/// price and belongs to the side.
pub open spec fn side_wf(s: Seq<LevelView>, is_buy: bool) -> bool {
    &&& forall|i: int, j: int| 0 <= i < j < s.len() ==> better(is_buy, #[trigger] s[i].0, #[trigger] s[j].0)
    &&& forall|i: int| 0 <= i < s.len() ==> (#[trigger] s[i]).1.len() > 0
    &&& forall|i: int, k: int|
        0 <= i < s.len() && 0 <= k < s[i].1.len() ==> (#[trigger] s[i].1[k]).price == s[i].0 && (s[i].1[k].side
            == 1) == is_buy
}

/// Some level of the side has price `x`.
pub open spec fn has_price(s: Seq<LevelView>, x: u64) -> bool {
    exists|q: int| 0 <= q < s.len() && s[q].0 == x
}

/// The side after order `o` comes to rest on it: appended to the level at its
/// price, or alone in a new level placed where its price belongs.
pub open spec fn rest_levels(s: Seq<LevelView>, is_buy: bool, o: LimitOrderEventPayload) -> Seq<LevelView>
    decreases s.len(),
{
    if s.len() == 0 {
        seq![(o.price, seq![o])]
    } else if s[0].0 == o.price {
        s.update(0, (s[0].0, s[0].1.push(o)))
    } else if better(is_buy, o.price, s[0].0) {
        seq![(o.price, seq![o])] + s
    } else {
        seq![s[0]] + rest_levels(s.drop_first(), is_buy, o)
    }
}

proof fn lemma_rest_levels_skip(s: Seq<LevelView>, is_buy: bool, o: LimitOrderEventPayload, i: int)
    requires
        0 <= i <= s.len(),
        forall|j: int| 0 <= j < i ==> better(is_buy, #[trigger] s[j].0, o.price),
    ensures
        rest_levels(s, is_buy, o) == s.take(i) + rest_levels(s.skip(i), is_buy, o),
    decreases i,
{
    if i == 0 {
        assert(s.take(0) + s.skip(0) =~= s);
        assert(s.take(0) + rest_levels(s.skip(0), is_buy, o) =~= rest_levels(s, is_buy, o));
    } else {
        let t = s.drop_first();
        assert forall|j: int| 0 <= j < i - 1 implies better(is_buy, #[trigger] t[j].0, o.price) by {
            assert(t[j] == s[j + 1]);
        }
        lemma_rest_levels_skip(t, is_buy, o, i - 1);
        assert(better(is_buy, s[0].0, o.price));
        assert(s[0].0 != o.price);
        assert(!better(is_buy, o.price, s[0].0));
        assert(t.skip(i - 1) =~= s.skip(i));
        assert(seq![s[0]] + t.take(i - 1) =~= s.take(i));
        assert(rest_levels(s, is_buy, o) =~= s.take(i) + rest_levels(s.skip(i), is_buy, o));
    }
}

proof fn lemma_rest_levels_wf(s: Seq<LevelView>, is_buy: bool, o: LimitOrderEventPayload)
    requires
        side_wf(s, is_buy),
        (o.side == 1) == is_buy,
    ensures
        side_wf(rest_levels(s, is_buy, o), is_buy),
        rest_levels(s, is_buy, o).len() > 0,
        forall|i: int|
            0 <= i < rest_levels(s, is_buy, o).len() ==> (#[trigger] rest_levels(s, is_buy, o)[i]).0 == o.price
                || has_price(s, rest_levels(s, is_buy, o)[i].0),
    decreases s.len(),
{
    let r = rest_levels(s, is_buy, o);
    if s.len() == 0 {
    } else if s[0].0 == o.price {
        assert forall|i: int, k: int| 0 <= i < r.len() && 0 <= k < r[i].1.len() implies (#[trigger] r[i].1[k]).price == r[i].0
            && (r[i].1[k].side == 1) == is_buy by {
            if i == 0 && k < s[0].1.len() {
                assert(r[0].1[k] == s[0].1[k]);
            }
        }
        assert forall|i: int| 0 <= i < r.len() implies (#[trigger] r[i]).0 == o.price || has_price(s, r[i].0) by {
            assert(r[i].0 == s[i].0);
        }
    } else if better(is_buy, o.price, s[0].0) {
        assert forall|i: int, j: int| 0 <= i < j < r.len() implies better(is_buy, #[trigger] r[i].0, #[trigger] r[j].0) by {
            assert(r[j] == s[j - 1]);
            if i > 0 {
                assert(r[i] == s[i - 1]);
            }
        }
        assert forall|i: int| 0 <= i < r.len() implies (#[trigger] r[i]).1.len() > 0 by {
            if i > 0 {
                assert(r[i] == s[i - 1]);
            }
        }
        assert forall|i: int, k: int| 0 <= i < r.len() && 0 <= k < r[i].1.len() implies (#[trigger] r[i].1[k]).price == r[i].0
            && (r[i].1[k].side == 1) == is_buy by {
            if i > 0 {
                assert(r[i] == s[i - 1]);
            }
        }
        assert forall|i: int| 0 <= i < r.len() implies (#[trigger] r[i]).0 == o.price || has_price(s, r[i].0) by {
            if i > 0 {
                assert(r[i] == s[i - 1]);
            }
        }
    } else {
        let t = s.drop_first();
        lemma_tail_wf(s, is_buy);
        lemma_rest_levels_wf(t, is_buy, o);
        let rt = rest_levels(t, is_buy, o);
        assert(r == seq![s[0]] + rt);
        assert forall|i: int, j: int| 0 <= i < j < r.len() implies better(is_buy, #[trigger] r[i].0, #[trigger] r[j].0) by {
            assert(r[j] == rt[j - 1]);
            if i > 0 {
                assert(r[i] == rt[i - 1]);
            } else {
                assert(rt[j - 1].0 == o.price || has_price(t, rt[j - 1].0));
                if rt[j - 1].0 != o.price {
                    let q = choose|q: int| 0 <= q < t.len() && t[q].0 == rt[j - 1].0;
                    assert(t[q] == s[q + 1]);
                }
            }
        }
        assert forall|i: int| 0 <= i < r.len() implies (#[trigger] r[i]).1.len() > 0 by {
            if i > 0 {
                assert(r[i] == rt[i - 1]);
            }
        }
        assert forall|i: int, k: int| 0 <= i < r.len() && 0 <= k < r[i].1.len() implies (#[trigger] r[i].1[k]).price == r[i].0
            && (r[i].1[k].side == 1) == is_buy by {
            if i > 0 {
                assert(r[i] == rt[i - 1]);
            }
        }
        assert forall|i: int| 0 <= i < r.len() implies (#[trigger] r[i]).0 == o.price || has_price(s, r[i].0) by {
            if i > 0 {
                assert(r[i] == rt[i - 1]);
                if r[i].0 != o.price {
                    let q = choose|q: int| 0 <= q < t.len() && t[q].0 == r[i].0;
                    assert(t[q] == s[q + 1]);
                }
            } else {
                assert(s[0].0 == r[0].0);
            }
        }
    }
}

/// The total quantity of a sequence of orders.
pub open spec fn total_qty(s: Seq<LimitOrderEventPayload>) -> nat
    decreases s.len(),
{
    if s.len() == 0 {
        0
    } else {
        total_qty(s.drop_last()) + s.last().quantity as nat
    }
}

/// One step of filling an incoming order of `user`, with `acc.1` still to
/// fill, against resting order `o`: orders of the same user and orders met
/// after the incoming order is filled stay; an order larger than what is left
/// stays with its quantity reduced; any other order is consumed whole.
pub open spec fn fill_step(acc: (Seq<LimitOrderEventPayload>, nat), o: LimitOrderEventPayload, user: IdView) -> (
    Seq<LimitOrderEventPayload>,
    nat,
) {
    let (kept, q) = acc;
    if o.user_id@ == user || q == 0 {
        (kept.push(o), q)
    } else if q < o.quantity {
        (kept.push(with_quantity(o, (o.quantity - q) as u64)), 0)
    } else {
        (kept, (q - o.quantity) as nat)
    }
}

/// Filling against the orders of `s` in turn: the orders that stay and the
/// quantity still unfilled.
pub open spec fn fill_run(s: Seq<LimitOrderEventPayload>, user: IdView, q: nat) -> (Seq<LimitOrderEventPayload>, nat)
    decreases s.len(),
{
    if s.len() == 0 {
        (Seq::empty(), q)
    } else {
        fill_step(fill_run(s.drop_last(), user, q), s.last(), user)
    }
}

/// Filling an incoming order of `user` for `q` against one price level.
/// When the level holds more than `q` the orders are taken in turn and what
/// stays forms the level (`Some`); otherwise the whole level is consumed
/// (`None`). The second component is the quantity still unfilled.
pub open spec fn fill_level(s: Seq<LimitOrderEventPayload>, user: IdView, q: nat) -> (Option<Seq<LimitOrderEventPayload>>, nat) {
    if total_qty(s) > q {
        (Some(fill_run(s, user, q).0), fill_run(s, user, q).1)
    } else {
        (None, (q - total_qty(s)) as nat)
    }
}

/// The orders that filling an incoming order of `user` for `q` against the
/// orders of `s` in turn consumes whole.
pub open spec fn fill_gone(s: Seq<LimitOrderEventPayload>, user: IdView, q: nat) -> Seq<LimitOrderEventPayload>
    decreases s.len(),
{
    if s.len() == 0 {
        Seq::empty()
    } else {
        let r = fill_run(s.drop_last(), user, q).1;
        let o = s.last();
        if o.user_id@ == user || r == 0 || r < o.quantity {
            fill_gone(s.drop_last(), user, q)
        } else {
            fill_gone(s.drop_last(), user, q).push(o)
        }
    }
}

/// The orders of one level that a fill consumes whole: those that the orders
/// taken in turn use up, or the whole level when it is consumed.
pub open spec fn level_gone(s: Seq<LimitOrderEventPayload>, user: IdView, q: nat) -> Seq<LimitOrderEventPayload> {
    if total_qty(s) > q {
        fill_gone(s, user, q)
    } else {
        s
    }
}

proof fn lemma_total_qty_bound(s: Seq<LimitOrderEventPayload>)
    ensures
        total_qty(s) <= s.len() * 0xffff_ffff_ffff_ffffnat,
    decreases s.len(),
{
    if s.len() > 0 {
        lemma_total_qty_bound(s.drop_last());
        assert((s.len() - 1) * 0xffff_ffff_ffff_ffffnat + 0xffff_ffff_ffff_ffffnat == s.len() * 0xffff_ffff_ffff_ffffnat)
            by (nonlinear_arith);
    }
}

proof fn lemma_total_qty_concat(a: Seq<LimitOrderEventPayload>, b: Seq<LimitOrderEventPayload>)
    ensures
        total_qty(a + b) == total_qty(a) + total_qty(b),
    decreases b.len(),
{
    if b.len() == 0 {
        assert(a + b =~= a);
    } else {
        lemma_total_qty_concat(a, b.drop_last());
        assert((a + b).drop_last() =~= a + b.drop_last());
    }
}

/// What a fill leaves behind: the quantity that left the level is exactly the
/// quantity filled, no more is filled than was asked, and every order that
/// stays keeps its user, id, price, side and terms.
proof fn lemma_fill_run(s: Seq<LimitOrderEventPayload>, user: IdView, q: nat)
    ensures
        fill_run(s, user, q).1 <= q,
        total_qty(s) == total_qty(fill_run(s, user, q).0) + (q - fill_run(s, user, q).1),
        fill_run(s, user, q).0.len() <= s.len(),
        forall|k: int|
            0 <= k < fill_run(s, user, q).0.len() ==> exists|j: int|
                0 <= j < s.len() && #[trigger] fill_run(s, user, q).0[k] == with_quantity(s[j], fill_run(s, user, q).0[k].quantity),
    decreases s.len(),
{
    if s.len() > 0 {
        let t = s.drop_last();
        lemma_fill_run(t, user, q);
        let (kept, r) = fill_run(t, user, q);
        let o = s.last();
        let res = fill_run(s, user, q);
        assert forall|k: int| 0 <= k < res.0.len() implies exists|j: int|
            0 <= j < s.len() && #[trigger] res.0[k] == with_quantity(s[j], res.0[k].quantity) by {
            if k < kept.len() {
                assert(res.0[k] == kept[k]);
                let j = choose|j: int| 0 <= j < t.len() && #[trigger] kept[k] == with_quantity(t[j], kept[k].quantity);
                assert(t[j] == s[j]);
            } else {
                assert(res.0[k] == with_quantity(s[s.len() - 1], res.0[k].quantity));
            }
        }
        if o.user_id@ == user || r == 0 || r < o.quantity {
            assert(res.0.drop_last() == kept);
        }
    }
}

/// Every order that stays after a fill still carries price `p` and the side
/// of the level when all orders of the level did.
proof fn lemma_fill_run_keeps_level(s: Seq<LimitOrderEventPayload>, user: IdView, q: nat, p: u64, is_buy: bool)
    requires
        forall|k: int| 0 <= k < s.len() ==> (#[trigger] s[k]).price == p && (s[k].side == 1) == is_buy,
    ensures
        forall|k: int|
            0 <= k < fill_run(s, user, q).0.len() ==> (#[trigger] fill_run(s, user, q).0[k]).price == p && (fill_run(
                s,
                user,
                q,
            ).0[k].side == 1) == is_buy,
{
    lemma_fill_run(s, user, q);
    assert forall|k: int| 0 <= k < fill_run(s, user, q).0.len() implies (#[trigger] fill_run(s, user, q).0[k]).price == p
        && (fill_run(s, user, q).0[k].side == 1) == is_buy by {
        let j = choose|j: int|
            0 <= j < s.len() && #[trigger] fill_run(s, user, q).0[k] == with_quantity(s[j], fill_run(s, user, q).0[k].quantity);
    }
}

/// Fills an incoming order of `user` for `q` against the orders of one level.
fn fill_against(orders: Vec<LimitOrderEventPayload>, user: &String, q: u64) -> (r: (
    Option<Vec<LimitOrderEventPayload>>,
    u64,
    Vec<LimitOrderEventPayload>,
))
    ensures
        ({
            let (kept, rem) = fill_level(orders@, user@, q as nat);
            &&& rem == r.1
            &&& match r.0 {
                Some(v) => kept == Some(v@),
                None => kept is None,
            }
            &&& r.2@ == level_gone(orders@, user@, q as nat)
        }),
{
    let ghost s = orders@;
    let n = orders.len();
    let mut total: u128 = 0;
    let mut i: usize = 0;
    while i < n
        invariant
            n == orders@.len(),
            s == orders@,
            i <= n,
            total == total_qty(s.take(i as int)),
        decreases n - i,
    {
        proof {
            assert(s.take(i + 1).drop_last() =~= s.take(i as int));
            lemma_total_qty_bound(s.take(i + 1));
            assert((i + 1) * 0xffff_ffff_ffff_ffffnat < 0x1_0000_0000_0000_0000_0000_0000_0000_0000nat) by (nonlinear_arith)
                requires
                    i + 1 <= 0xffff_ffff_ffff_ffffnat,
            ;
        }
        total = total + orders[i].quantity as u128;
        i = i + 1;
    }
    assert(s.take(n as int) =~= s);
    if total > q as u128 {
        let mut kept: Vec<LimitOrderEventPayload> = Vec::new();
        let mut gone: Vec<LimitOrderEventPayload> = Vec::new();
        let mut left: u64 = q;
        let mut rest = orders;
        let mut j: usize = 0;
        while j < n
            invariant
                n == s.len(),
                j <= n,
                rest@ == s.skip(j as int),
                (kept@, left as nat) == fill_run(s.take(j as int), user@, q as nat),
                gone@ == fill_gone(s.take(j as int), user@, q as nat),
            decreases n - j,
        {
            let mut o = rest.remove(0);
            proof {
                assert(o == s[j as int]);
                assert(rest@ =~= s.skip(j + 1));
                assert(s.take(j + 1).drop_last() =~= s.take(j as int));
                assert(s.take(j + 1).last() == s[j as int]);
            }
            if o.user_id == *user || left == 0 {
                kept.push(o);
            } else if left < o.quantity {
                o.quantity = o.quantity - left;
                left = 0;
                kept.push(o);
            } else {
                left = left - o.quantity;
                gone.push(o);
            }
            j = j + 1;
        }
        assert(s.take(n as int) =~= s);
        (Some(kept), left, gone)
    } else {
        (None, q - total as u64, orders)
    }
}

/// The side after an incoming order of `user` for `q` is filled against its
/// best level.
pub open spec fn side_after_fill(s: Seq<LevelView>, user: IdView, q: nat) -> Seq<LevelView> {
    match fill_level(s[0].1, user, q).0 {
        Some(kept) => s.update(0, (s[0].0, kept)),
        None => s.drop_first(),
    }
}

proof fn lemma_fill_level_nonempty(s: Seq<LimitOrderEventPayload>, user: IdView, q: nat)
    ensures
        fill_level(s, user, q).1 <= q,
        fill_level(s, user, q).0 matches Some(kept) ==> kept.len() > 0,
{
    lemma_fill_run(s, user, q);
    if total_qty(s) > q {
        let kept = fill_run(s, user, q).0;
        if kept.len() == 0 {
            assert(total_qty(kept) == 0);
        }
    }
}

proof fn lemma_side_after_fill_wf(s: Seq<LevelView>, is_buy: bool, user: IdView, q: nat)
    requires
        side_wf(s, is_buy),
        s.len() > 0,
    ensures
        side_wf(side_after_fill(s, user, q), is_buy),
{
    let r = side_after_fill(s, user, q);
    lemma_fill_level_nonempty(s[0].1, user, q);
    match fill_level(s[0].1, user, q).0 {
        Some(kept) => {
            assert forall|k: int| 0 <= k < s[0].1.len() implies (#[trigger] s[0].1[k]).price == s[0].0 && (s[0].1[k].side == 1)
                == is_buy by {}
            lemma_fill_run_keeps_level(s[0].1, user, q, s[0].0, is_buy);
            assert forall|i: int, k: int| 0 <= i < r.len() && 0 <= k < r[i].1.len() implies (#[trigger] r[i].1[k]).price
                == r[i].0 && (r[i].1[k].side == 1) == is_buy by {
                if i == 0 {
                    assert(r[0].1 == kept);
                }
            }
        },
        None => {
            lemma_tail_wf(s, is_buy);
        },
    }
}

/// Fills an incoming order of `user` for `q` against the best level of one
/// side; hands back the level's price, the quantity still unfilled and the
/// orders consumed whole, or `None` when the side holds no level.
fn fill_side(levels: &mut Vec<PriceLevel>, user: &String, q: u64) -> (r: Option<(u64, u64, Vec<LimitOrderEventPayload>)>)
    ensures
        old(levels)@.len() == 0 ==> r is None && final(levels)@ == old(levels)@,
        old(levels)@.len() > 0 ==> {
            let s = side_view(old(levels)@);
            &&& r matches Some((p, left, gone)) && p == s[0].0 && left == fill_level(s[0].1, user@, q as nat).1
                && gone@ == level_gone(s[0].1, user@, q as nat)
            &&& side_view(final(levels)@) == side_after_fill(s, user@, q as nat)
        },
{
    if levels.len() == 0 {
        return None;
    }
    let ghost s = side_view(levels@);
    let level = levels.remove(0);
    let price = level.price;
    proof {
        lemma_fill_level_nonempty(level.orders@, user@, q as nat);
    }
    let (kept, left, gone) = fill_against(level.orders, user, q);
    match kept {
        Some(orders) => {
            levels.insert(0, PriceLevel { price, orders });
            assert(side_view(levels@) =~= side_after_fill(s, user@, q as nat));
        },
        None => {
            assert(side_view(levels@) =~= side_after_fill(s, user@, q as nat));
        },
    }
    Some((price, left, gone))
}

fn is_better(is_buy: bool, a: u64, b: u64) -> (r: bool)
    ensures
        r == better(is_buy, a, b),
{
    if is_buy {
        a > b
    } else {
        a < b
    }
}

/// Puts order `o` to rest on one side of the book.
fn rest_on_side(levels: &mut Vec<PriceLevel>, is_buy: bool, o: LimitOrderEventPayload)
    ensures
        side_view(final(levels)@) == rest_levels(side_view(old(levels)@), is_buy, o),
{
    let ghost s = side_view(levels@);
    let p = o.price;
    let mut i: usize = 0;
    while i < levels.len() && is_better(is_buy, levels[i].price, p)
        invariant
            i <= levels@.len(),
            s == side_view(levels@),
            forall|j: int| 0 <= j < i ==> better(is_buy, #[trigger] s[j].0, p),
        decreases levels@.len() - i,
    {
        i = i + 1;
    }
    proof {
        lemma_rest_levels_skip(s, is_buy, o, i as int);
    }
    if i < levels.len() && levels[i].price == p {
        let mut level = levels.remove(i);
        level.orders.push(o);
        levels.insert(i, level);
        proof {
            assert(side_view(levels@) =~= s.take(i as int) + rest_levels(s.skip(i as int), is_buy, o));
        }
    } else {
        let mut orders: Vec<LimitOrderEventPayload> = Vec::new();
        orders.push(o);
        levels.insert(i, PriceLevel { price: p, orders });
        proof {
            assert(orders@ =~= seq![o]);
            if i < s.len() {
                assert(s[i as int].0 != p);
                assert(!better(is_buy, s[i as int].0, p));
                assert(better(is_buy, p, s[i as int].0));
            }
            assert(side_view(levels@) =~= s.take(i as int) + rest_levels(s.skip(i as int), is_buy, o));
        }
    }
}

/// Amounts of one whole unit of a price or quantity: amounts are kept to
/// eight decimal places.
pub const UNIT: u64 = 100_000_000;

/// The price, take-profit and stop-loss an order was placed with.
pub type OrderTerms = (u64, u64, u64);

/// Reply to an order placed with [`Market::add_limit_order`].
pub struct AddLimitOrderResponse {
    pub success: bool,
    pub message: String,
    /// The quantity that came to rest after a partial fill.
    pub remaining_quantity: Option<u64>,
}

/// Order book of one trading symbol.
pub struct Market {
    pub symbol: String,
    /// Price of the level that was last matched against.
    pub last_price: u64,
    /// Buy levels, highest price first.
    pub buy_order: Vec<PriceLevel>,
    /// Sell levels, lowest price first.
    pub sell_order: Vec<PriceLevel>,
    /// The orders each user placed.
    pub user_orders: UserOrders,
    /// Terms of each buy order, by order id.
    pub buy_order_lookup: StrMap<OrderTerms>,
    /// Terms of each sell order, by order id.
    pub sell_order_lookup: StrMap<OrderTerms>,
}

/// The abstract state of a market.
#[verifier::ext_equal]
pub struct MarketView {
    pub symbol: Seq<char>,
    pub last_price: u64,
    pub buys: Seq<LevelView>,
    pub sells: Seq<LevelView>,
    pub user_orders: Map<IdView, Set<IdView>>,
    pub buy_lookup: Map<IdView, OrderTerms>,
    pub sell_lookup: Map<IdView, OrderTerms>,
}

impl View for Market {
    type V = MarketView;

    open spec fn view(&self) -> MarketView {
        MarketView {
            symbol: self.symbol@,
            last_price: self.last_price,
            buys: side_view(self.buy_order@),
            sells: side_view(self.sell_order@),
            user_orders: self.user_orders@,
            buy_lookup: self.buy_order_lookup@,
            sell_lookup: self.sell_order_lookup@,
        }
    }
}

/// Some order resting on side `s` has id `id`.
pub open spec fn rests_on(s: Seq<LevelView>, id: IdView) -> bool {
    exists|i: int, k: int| 0 <= i < s.len() && 0 <= k < s[i].1.len() && (#[trigger] s[i].1[k]).order_id@ == id
}

/// Every id that a lookup records belongs to an order that rests on its
/// side: no lookup keeps an order that has left the book.
pub open spec fn lookups_current(m: MarketView) -> bool {
    &&& forall|id: IdView| #[trigger] m.buy_lookup.contains_key(id) ==> rests_on(m.buys, id)
    &&& forall|id: IdView| #[trigger] m.sell_lookup.contains_key(id) ==> rests_on(m.sells, id)
}

/// A well-formed market view: both sides ordered best level first, with no
/// empty level, every order at its level's price and on its level's side.
pub open spec fn market_wf(m: MarketView) -> bool {
    &&& side_wf(m.buys, true)
    &&& side_wf(m.sells, false)
}

/// The market after order `o` comes to rest in the book, with its terms
/// recorded and its id listed for its user.
pub open spec fn rest_order(m: MarketView, o: LimitOrderEventPayload) -> MarketView {
    let terms = (o.price, o.tp, o.sl);
    let users = with_order(m.user_orders, o.user_id@, o.order_id@);
    if o.side == 1 {
        MarketView {
            buys: rest_levels(m.buys, true, o),
            buy_lookup: m.buy_lookup.insert(o.order_id@, terms),
            user_orders: users,
            ..m
        }
    } else {
        MarketView {
            sells: rest_levels(m.sells, false, o),
            sell_lookup: m.sell_lookup.insert(o.order_id@, terms),
            user_orders: users,
            ..m
        }
    }
}

/// How a limit order was handled.
pub enum AddOutcome {
    /// Nothing matched; the order rests in the book.
    Rested,
    /// Part of the order matched; this much rests in the book.
    PartiallyFilled(u64),
    /// The order matched in full.
    Filled,
}

/// Whether a limit order of side `is_buy` at `price` meets the best level of
/// the other side: a buy meets a sell level priced at or below it, a sell
/// meets a buy level priced at or above it.
pub open spec fn crosses(other: Seq<LevelView>, is_buy: bool, price: u64) -> bool {
    other.len() > 0 && if is_buy {
        other[0].0 <= price
    } else {
        other[0].0 >= price
    }
}

/// The side of market `m` that an incoming order of side `is_buy` meets.
pub open spec fn opposite(m: MarketView, is_buy: bool) -> Seq<LevelView> {
    if is_buy {
        m.sells
    } else {
        m.buys
    }
}

/// One step of filling limit order `o`, with `q` still to fill, against the
/// best level of the other side (which must hold a level): the market after
/// it, the quantity still unfilled, and whether the level was consumed whole.
/// The level's price becomes the last price, and every order consumed whole
/// leaves the lookup and its user's list.
pub open spec fn fill_best(m: MarketView, o: LimitOrderEventPayload, q: nat) -> (MarketView, nat, bool) {
    let is_buy = o.side == 1;
    let other = opposite(m, is_buy);
    let (kept, left) = fill_level(other[0].1, o.user_id@, q);
    let gone = level_gone(other[0].1, o.user_id@, q);
    let other2 = side_after_fill(other, o.user_id@, q);
    let users = forget_users(m.user_orders, gone);
    let m2 = if is_buy {
        MarketView {
            sells: other2,
            sell_lookup: forget_lookup(m.sell_lookup, gone),
            user_orders: users,
            last_price: other[0].0,
            ..m
        }
    } else {
        MarketView {
            buys: other2,
            buy_lookup: forget_lookup(m.buy_lookup, gone),
            user_orders: users,
            last_price: other[0].0,
            ..m
        }
    };
    (m2, left, kept is None)
}

/// Filling limit order `o`, with `q` still to fill, level after level: after
/// a level consumed whole the next level is filled against as long as some of
/// the order is left and that level still meets the order's price. The market
/// after it and the quantity still unfilled.
pub open spec fn fill_sweep(m: MarketView, o: LimitOrderEventPayload, q: nat) -> (MarketView, nat)
    decreases opposite(m, o.side == 1).len(),
{
    if opposite(m, o.side == 1).len() == 0 {
        (m, q)
    } else {
        let (m2, left, whole) = fill_best(m, o, q);
        if whole && left > 0 && crosses(opposite(m2, o.side == 1), o.side == 1, o.price) {
            fill_sweep(m2, o, left)
        } else {
            (m2, left)
        }
    }
}

/// The market after limit order `o`, and how the order was handled. An order
/// that meets the other side is filled against it level after level while it
/// still meets it; what is left of it then rests in the book at its own price.
pub open spec fn spec_add_limit_order(m: MarketView, o: LimitOrderEventPayload) -> (MarketView, AddOutcome) {
    let is_buy = o.side == 1;
    if !crosses(opposite(m, is_buy), is_buy, o.price) {
        (rest_order(m, o), AddOutcome::Rested)
    } else {
        let (m2, left) = fill_sweep(m, o, o.quantity as nat);
        if left > 0 {
            (rest_order(m2, with_quantity(o, left as u64)), AddOutcome::PartiallyFilled(left as u64))
        } else {
            (m2, AddOutcome::Filled)
        }
    }
}

proof fn lemma_fill_best(m: MarketView, o: LimitOrderEventPayload, q: nat)
    requires
        market_wf(m),
        opposite(m, o.side == 1).len() > 0,
    ensures
        market_wf(fill_best(m, o, q).0),
        fill_best(m, o, q).1 <= q,
        fill_best(m, o, q).2 ==> opposite(fill_best(m, o, q).0, o.side == 1).len() == opposite(m, o.side == 1).len() - 1,
        opposite(fill_best(m, o, q).0, !(o.side == 1)) == opposite(m, !(o.side == 1)),
        fill_best(m, o, q).0.symbol == m.symbol,
{
    let other = opposite(m, o.side == 1);
    lemma_fill_level_nonempty(other[0].1, o.user_id@, q);
    lemma_side_after_fill_wf(other, !(o.side == 1), o.user_id@, q);
}

proof fn lemma_fill_sweep(m: MarketView, o: LimitOrderEventPayload, q: nat)
    requires
        market_wf(m),
    ensures
        market_wf(fill_sweep(m, o, q).0),
        fill_sweep(m, o, q).1 <= q,
        fill_sweep(m, o, q).0.symbol == m.symbol,
    decreases opposite(m, o.side == 1).len(),
{
    if opposite(m, o.side == 1).len() > 0 {
        lemma_fill_best(m, o, q);
        let (m2, left, whole) = fill_best(m, o, q);
        if whole && left > 0 && crosses(opposite(m2, o.side == 1), o.side == 1, o.price) {
            lemma_fill_sweep(m2, o, left);
        }
    }
}

/// The reply that tells of `outcome`.
pub open spec fn add_response_tells(r: AddLimitOrderResponse, outcome: AddOutcome) -> bool {
    &&& r.success
    &&& match outcome {
        AddOutcome::Rested => r.remaining_quantity is None && r.message@ == "order in orderbook"@,
        AddOutcome::PartiallyFilled(q) => r.remaining_quantity == Some(q) && r.message@
            == "order filled with remaining qty."@,
        AddOutcome::Filled => r.remaining_quantity is None && r.message@ == "order fully filled."@,
    }
}

proof fn lemma_rest_order_wf(m: MarketView, o: LimitOrderEventPayload)
    requires
        market_wf(m),
    ensures
        market_wf(rest_order(m, o)),
{
    if o.side == 1 {
        lemma_rest_levels_wf(m.buys, true, o);
    } else {
        lemma_rest_levels_wf(m.sells, false, o);
    }
}

/// Request to change the take-profit and stop-loss of a resting order.
pub struct ModifyPayload {
    pub symbol: String,
    pub side: u32,
    pub order_id: String,
    pub has_updated_tp_val: bool,
    pub has_updated_sl_val: bool,
    pub tp: Option<u64>,
    pub sl: Option<u64>,
}

pub struct ModifyResponse {
    pub success: bool,
    pub tp: Option<u64>,
    pub sl: Option<u64>,
    pub message: String,
}

/// Request to close one order.
pub struct ClosePayload {
    pub symbol: String,
    pub side: u32,
    pub quantity: u64,
    pub order_id: String,
    pub user_id: String,
}

pub struct CloseResponse {
    pub success: bool,
    pub order_id: Option<String>,
    pub message: String,
}

/// Request to close every order of a user.
pub struct CloseAllPayload {
    pub user_id: String,
}

pub struct CloseAllResponse {
    pub success: bool,
    pub message: String,
}

/// The terms of an order after a modify request: when the request carries a
/// new take-profit or a new stop-loss, each value it carries replaces the old
/// one; otherwise only a carried stop-loss is taken.
pub open spec fn modified_terms(t: OrderTerms, p: ModifyPayload) -> OrderTerms {
    let sl = match p.sl {
        Some(v) => v,
        None => t.2,
    };
    if p.has_updated_tp_val || p.has_updated_sl_val {
        (
            t.0,
            match p.tp {
                Some(v) => v,
                None => t.1,
            },
            sl,
        )
    } else {
        (t.0, t.1, sl)
    }
}

/// The market after a modify request: only the terms of the order change.
pub open spec fn spec_modify(m: MarketView, p: ModifyPayload) -> MarketView {
    let id = p.order_id@;
    if p.side == 1 {
        if m.buy_lookup.contains_key(id) {
            MarketView { buy_lookup: m.buy_lookup.insert(id, modified_terms(m.buy_lookup[id], p)), ..m }
        } else {
            m
        }
    } else {
        if m.sell_lookup.contains_key(id) {
            MarketView { sell_lookup: m.sell_lookup.insert(id, modified_terms(m.sell_lookup[id], p)), ..m }
        } else {
            m
        }
    }
}

/// The reply to a modify request on market `m`.
pub open spec fn modify_response_tells(r: ModifyResponse, m: MarketView, p: ModifyPayload) -> bool {
    let lookup = if p.side == 1 {
        m.buy_lookup
    } else {
        m.sell_lookup
    };
    let id = p.order_id@;
    if !lookup.contains_key(id) {
        !r.success && r.tp is None && r.sl is None && r.message@ == "has no tp, sl value to update"@
    } else {
        let t = modified_terms(lookup[id], p);
        if p.has_updated_tp_val || p.has_updated_sl_val {
            r.success && r.tp == Some(t.1) && r.sl == Some(t.2) && r.message@ == "both updated"@
        } else {
            r.success && r.tp is None && r.sl == Some(t.2) && r.message@ == "sl updated"@
        }
    }
}

/// The orders of `s` other than those with id `id`.
pub open spec fn drop_from_level(s: Seq<LimitOrderEventPayload>, id: IdView) -> Seq<LimitOrderEventPayload>
    decreases s.len(),
{
    if s.len() == 0 {
        s
    } else if s.last().order_id@ == id {
        drop_from_level(s.drop_last(), id)
    } else {
        drop_from_level(s.drop_last(), id).push(s.last())
    }
}

/// The side after the orders with id `id` leave the level at `price`; the
/// level goes when nothing is left in it.
pub open spec fn drop_order(s: Seq<LevelView>, price: u64, id: IdView) -> Seq<LevelView> {
    if has_price(s, price) {
        let i = choose|i: int| 0 <= i < s.len() && s[i].0 == price;
        let kept = drop_from_level(s[i].1, id);
        if kept.len() == 0 {
            s.remove(i)
        } else {
            s.update(i, (price, kept))
        }
    } else {
        s
    }
}

/// The market after close request `p`: the order leaves the lookup and the
/// book of its side, and the user's list; a user left with no order goes.
pub open spec fn spec_close(m: MarketView, p: ClosePayload) -> MarketView {
    let id = p.order_id@;
    let m1 = if p.side == 1 {
        if m.buy_lookup.contains_key(id) {
            MarketView { buy_lookup: m.buy_lookup.remove(id), buys: drop_order(m.buys, m.buy_lookup[id].0, id), ..m }
        } else {
            m
        }
    } else {
        if m.sell_lookup.contains_key(id) {
            MarketView {
                sell_lookup: m.sell_lookup.remove(id),
                sells: drop_order(m.sells, m.sell_lookup[id].0, id),
                ..m
            }
        } else {
            m
        }
    };
    MarketView { user_orders: without_order(m1.user_orders, p.user_id@, id, true), ..m1 }
}

/// The market after order id `id` is removed from both sides: from each
/// lookup that holds it, and from the book level at the price recorded there.
pub open spec fn forget_everywhere(m: MarketView, id: IdView) -> MarketView {
    let m1 = if m.buy_lookup.contains_key(id) {
        MarketView { buy_lookup: m.buy_lookup.remove(id), buys: drop_order(m.buys, m.buy_lookup[id].0, id), ..m }
    } else {
        m
    };
    if m1.sell_lookup.contains_key(id) {
        MarketView {
            sell_lookup: m1.sell_lookup.remove(id),
            sells: drop_order(m1.sells, m1.sell_lookup[id].0, id),
            ..m1
        }
    } else {
        m1
    }
}

/// [`forget_everywhere`] applied to each id of `ids` in turn.
pub open spec fn forget_all(m: MarketView, ids: Seq<IdView>) -> MarketView
    decreases ids.len(),
{
    if ids.len() == 0 {
        m
    } else {
        forget_everywhere(forget_all(m, ids.drop_last()), ids.last())
    }
}

/// The market after every order of `user` is closed, the ids being taken in
/// the order `ids`.
pub open spec fn spec_close_all(m: MarketView, user: IdView, ids: Seq<IdView>) -> MarketView {
    if m.user_orders.contains_key(user) {
        forget_all(MarketView { user_orders: m.user_orders.remove(user), ..m }, ids)
    } else {
        m
    }
}

/// `ids` lists each order of `user` in market `m` once.
pub open spec fn lists_orders_of(m: MarketView, user: IdView, ids: Seq<IdView>) -> bool {
    m.user_orders.contains_key(user) ==> ids.no_duplicates() && ids.to_set() == m.user_orders[user]
}

/// `after` is market `m` once every order of `user` is closed, the ids being
/// taken in the order `ids`, which lists each order of the user once.
pub open spec fn closes_all_in_order(m: MarketView, user: IdView, after: MarketView, ids: Seq<IdView>) -> bool {
    &&& lists_orders_of(m, user, ids)
    &&& after == spec_close_all(m, user, ids)
}

proof fn lemma_drop_from_level(s: Seq<LimitOrderEventPayload>, id: IdView)
    ensures
        drop_from_level(s, id).len() <= s.len(),
        forall|k: int| 0 <= k < drop_from_level(s, id).len() ==> exists|j: int| 0 <= j < s.len() && #[trigger] drop_from_level(s, id)[k] == s[j],
        forall|k: int| 0 <= k < drop_from_level(s, id).len() ==> (#[trigger] drop_from_level(s, id)[k]).order_id@ != id,
    decreases s.len(),
{
    if s.len() > 0 {
        let t = s.drop_last();
        lemma_drop_from_level(t, id);
        let d = drop_from_level(s, id);
        assert forall|k: int| 0 <= k < d.len() implies exists|j: int| 0 <= j < s.len() && #[trigger] d[k] == s[j] by {
            if k < drop_from_level(t, id).len() {
                assert(d[k] == drop_from_level(t, id)[k]);
                let j = choose|j: int| 0 <= j < t.len() && #[trigger] drop_from_level(t, id)[k] == t[j];
                assert(t[j] == s[j]);
            } else {
                assert(d[k] == s[s.len() - 1]);
            }
        }
        assert forall|k: int| 0 <= k < d.len() implies (#[trigger] d[k]).order_id@ != id by {
            if k < drop_from_level(t, id).len() {
                assert(d[k] == drop_from_level(t, id)[k]);
            }
        }
    }
}

proof fn lemma_drop_order_wf(s: Seq<LevelView>, is_buy: bool, price: u64, id: IdView)
    requires
        side_wf(s, is_buy),
    ensures
        side_wf(drop_order(s, price, id), is_buy),
{
    if has_price(s, price) {
        let i = choose|i: int| 0 <= i < s.len() && s[i].0 == price;
        let kept = drop_from_level(s[i].1, id);
        lemma_drop_from_level(s[i].1, id);
        let r = drop_order(s, price, id);
        if kept.len() == 0 {
            assert forall|a: int, b: int| 0 <= a < b < r.len() implies better(is_buy, #[trigger] r[a].0, #[trigger] r[b].0) by {
                let a2 = if a < i { a } else { a + 1 };
                let b2 = if b < i { b } else { b + 1 };
                assert(r[a] == s[a2] && r[b] == s[b2]);
            }
            assert forall|a: int| 0 <= a < r.len() implies (#[trigger] r[a]).1.len() > 0 by {
                let a2 = if a < i { a } else { a + 1 };
                assert(r[a] == s[a2]);
            }
            assert forall|a: int, k: int| 0 <= a < r.len() && 0 <= k < r[a].1.len() implies (#[trigger] r[a].1[k]).price
                == r[a].0 && (r[a].1[k].side == 1) == is_buy by {
                let a2 = if a < i { a } else { a + 1 };
                assert(r[a] == s[a2]);
            }
        } else {
            assert forall|a: int, k: int| 0 <= a < r.len() && 0 <= k < r[a].1.len() implies (#[trigger] r[a].1[k]).price
                == r[a].0 && (r[a].1[k].side == 1) == is_buy by {
                if a == i {
                    let j = choose|j: int| 0 <= j < s[i].1.len() && #[trigger] kept[k] == s[i].1[j];
                    assert(s[i].1[j].price == s[i].0);
                }
            }
        }
    }
}

/// Removes the orders with id `id` from the level at `price`, and the level
/// itself when nothing is left in it.
fn drop_order_from_side(levels: &mut Vec<PriceLevel>, price: u64, id: &String, Ghost(is_buy): Ghost<bool>)
    requires
        side_wf(side_view(old(levels)@), is_buy),
    ensures
        side_view(final(levels)@) == drop_order(side_view(old(levels)@), price, id@),
{
    let ghost s = side_view(levels@);
    let mut i: usize = 0;
    while i < levels.len() && levels[i].price != price
        invariant
            i <= levels@.len(),
            s == side_view(levels@),
            forall|j: int| 0 <= j < i ==> (#[trigger] s[j]).0 != price,
        decreases levels@.len() - i,
    {
        i = i + 1;
    }
    if i == levels.len() {
        assert(!has_price(s, price));
        return;
    }
    proof {
        assert(s[i as int].0 == price);
        assert(has_price(s, price));
        let c = choose|c: int| 0 <= c < s.len() && s[c].0 == price;
        if c != i {
            if c < i {
                assert(better(is_buy, s[c].0, s[i as int].0));
            } else {
                assert(better(is_buy, s[i as int].0, s[c].0));
            }
        }
    }
    let level = levels.remove(i);
    let ghost orders = level.orders@;
    let mut kept: Vec<LimitOrderEventPayload> = Vec::new();
    let mut rest = level.orders;
    let n = rest.len();
    let mut j: usize = 0;
    while j < n
        invariant
            n == orders.len(),
            j <= n,
            rest@ == orders.skip(j as int),
            kept@ == drop_from_level(orders.take(j as int), id@),
        decreases n - j,
    {
        let o = rest.remove(0);
        proof {
            assert(o == orders[j as int]);
            assert(rest@ =~= orders.skip(j + 1));
            assert(orders.take(j + 1).drop_last() =~= orders.take(j as int));
        }
        if o.order_id != *id {
            kept.push(o);
        }
        j = j + 1;
    }
    assert(orders.take(n as int) =~= orders);
    if kept.len() > 0 {
        levels.insert(i, PriceLevel { price, orders: kept });
    }
    assert(side_view(levels@) =~= drop_order(s, price, id@));
}

/// A market order: filled at once from the best levels of the other side.
pub struct MarketPayload {
    pub user_id: String,
    pub order_id: String,
    pub quantity: u64,
    pub tp: u64,
    pub sl: u64,
    /// 1 buys from the sell side; any other value sells to the buy side.
    pub side: u32,
}

pub struct MarketResponse {
    pub success: bool,
    /// The last price matched against.
    pub price: u64,
    pub order_id: String,
    pub message: String,
}

/// One step of taking `acc.2` from resting order `o`: an order no larger than
/// what is left is consumed whole; a larger one stays, reduced by what is left.
pub open spec fn take_step(acc: (Seq<LimitOrderEventPayload>, Seq<LimitOrderEventPayload>, nat), o: LimitOrderEventPayload) -> (
    Seq<LimitOrderEventPayload>,
    Seq<LimitOrderEventPayload>,
    nat,
) {
    let (kept, consumed, q) = acc;
    if o.quantity <= q {
        (kept, consumed.push(o), (q - o.quantity) as nat)
    } else {
        (kept.push(with_quantity(o, (o.quantity - q) as u64)), consumed, 0)
    }
}

/// Taking `q` from the orders of `s` in turn: the orders that stay, the
/// orders consumed whole, and the quantity still to take.
pub open spec fn take_run(s: Seq<LimitOrderEventPayload>, q: nat) -> (Seq<LimitOrderEventPayload>, Seq<LimitOrderEventPayload>, nat)
    decreases s.len(),
{
    if s.len() == 0 {
        (Seq::empty(), Seq::empty(), q)
    } else {
        take_step(take_run(s.drop_last(), q), s.last())
    }
}

/// A market order for `q` swept through the side `s`, best level first: the
/// side that is left, the quantity still unfilled, the orders consumed whole
/// in the order they were met, and the price of the last level reached.
pub open spec fn sweep(s: Seq<LevelView>, q: nat) -> (Seq<LevelView>, nat, Seq<LimitOrderEventPayload>, Option<u64>)
    decreases s.len(),
{
    if q == 0 || s.len() == 0 {
        (s, q, Seq::empty(), None)
    } else if total_qty(s[0].1) > q {
        let (kept, consumed, r) = take_run(s[0].1, q);
        (
            if kept.len() > 0 {
                s.update(0, (s[0].0, kept))
            } else {
                s.drop_first()
            },
            r,
            consumed,
            Some(s[0].0),
        )
    } else {
        let rest = sweep(s.drop_first(), (q - total_qty(s[0].1)) as nat);
        (rest.0, rest.1, s[0].1 + rest.2, if rest.3 is Some { rest.3 } else { Some(s[0].0) })
    }
}

/// The lookup once the consumed orders `c` are forgotten.
pub open spec fn forget_lookup(m: Map<IdView, OrderTerms>, c: Seq<LimitOrderEventPayload>) -> Map<IdView, OrderTerms>
    decreases c.len(),
{
    if c.len() == 0 {
        m
    } else {
        forget_lookup(m, c.drop_last()).remove(c.last().order_id@)
    }
}

/// The user lists once the consumed orders `c` are struck from them; users
/// stay listed even with no order left.
pub open spec fn forget_users(u: Map<IdView, Set<IdView>>, c: Seq<LimitOrderEventPayload>) -> Map<IdView, Set<IdView>>
    decreases c.len(),
{
    if c.len() == 0 {
        u
    } else {
        without_order(forget_users(u, c.drop_last()), c.last().user_id@, c.last().order_id@, false)
    }
}

/// The market after market order `p`, and whether it was filled in full.
/// A buy sweeps the sell side, a sell sweeps the buy side, until the order is
/// filled or the side runs out; every order consumed whole leaves the lookup
/// and its user's list.
pub open spec fn spec_market(m: MarketView, p: MarketPayload) -> (MarketView, bool) {
    let is_buy = p.side == 1;
    let side = if is_buy {
        m.sells
    } else {
        m.buys
    };
    let sw = sweep(side, p.quantity as nat);
    let lp = match sw.3 {
        Some(x) => x,
        None => m.last_price,
    };
    let users = forget_users(m.user_orders, sw.2);
    let m2 = if is_buy {
        MarketView { sells: sw.0, sell_lookup: forget_lookup(m.sell_lookup, sw.2), user_orders: users, last_price: lp, ..m }
    } else {
        MarketView { buys: sw.0, buy_lookup: forget_lookup(m.buy_lookup, sw.2), user_orders: users, last_price: lp, ..m }
    };
    (m2, sw.1 == 0)
}

proof fn lemma_take_run(s: Seq<LimitOrderEventPayload>, q: nat)
    ensures
        take_run(s, q).2 <= q,
        total_qty(s) == total_qty(take_run(s, q).0) + (q - take_run(s, q).2),
        take_run(s, q).2 > 0 ==> take_run(s, q).0.len() == 0,
        forall|k: int|
            0 <= k < take_run(s, q).0.len() ==> exists|j: int|
                0 <= j < s.len() && #[trigger] take_run(s, q).0[k] == with_quantity(s[j], take_run(s, q).0[k].quantity),
    decreases s.len(),
{
    if s.len() > 0 {
        let t = s.drop_last();
        lemma_take_run(t, q);
        let prev = take_run(t, q);
        let res = take_run(s, q);
        assert forall|k: int| 0 <= k < res.0.len() implies exists|j: int|
            0 <= j < s.len() && #[trigger] res.0[k] == with_quantity(s[j], res.0[k].quantity) by {
            if k < prev.0.len() {
                assert(res.0[k] == prev.0[k]);
                let j = choose|j: int| 0 <= j < t.len() && #[trigger] prev.0[k] == with_quantity(t[j], prev.0[k].quantity);
                assert(t[j] == s[j]);
            } else {
                assert(res.0[k] == with_quantity(s[s.len() - 1], res.0[k].quantity));
            }
        }
        if s.last().quantity > prev.2 {
            assert(res.0.drop_last() == prev.0);
        }
    }
}

proof fn lemma_take_run_full(s: Seq<LimitOrderEventPayload>, q: nat, p: u64, is_buy: bool)
    requires
        total_qty(s) > q,
        forall|k: int| 0 <= k < s.len() ==> (#[trigger] s[k]).price == p && (s[k].side == 1) == is_buy,
    ensures
        take_run(s, q).2 == 0,
        take_run(s, q).0.len() > 0,
        forall|k: int|
            0 <= k < take_run(s, q).0.len() ==> (#[trigger] take_run(s, q).0[k]).price == p && (take_run(s, q).0[k].side
                == 1) == is_buy,
{
    lemma_take_run(s, q);
    let kept = take_run(s, q).0;
    if kept.len() == 0 {
        assert(total_qty(kept) == 0);
    }
    assert forall|k: int| 0 <= k < kept.len() implies (#[trigger] kept[k]).price == p && (kept[k].side == 1) == is_buy by {
        let j = choose|j: int| 0 <= j < s.len() && #[trigger] kept[k] == with_quantity(s[j], kept[k].quantity);
    }
}

proof fn lemma_sweep_wf(s: Seq<LevelView>, is_buy: bool, q: nat)
    requires
        side_wf(s, is_buy),
    ensures
        side_wf(sweep(s, q).0, is_buy),
    decreases s.len(),
{
    if q == 0 || s.len() == 0 {
    } else if total_qty(s[0].1) > q {
        assert forall|k: int| 0 <= k < s[0].1.len() implies (#[trigger] s[0].1[k]).price == s[0].0 && (s[0].1[k].side == 1)
            == is_buy by {}
        lemma_take_run_full(s[0].1, q, s[0].0, is_buy);
        let r = sweep(s, q).0;
        assert forall|i: int, k: int| 0 <= i < r.len() && 0 <= k < r[i].1.len() implies (#[trigger] r[i].1[k]).price == r[i].0
            && (r[i].1[k].side == 1) == is_buy by {
            if i == 0 {
                assert(r[0].1 == take_run(s[0].1, q).0);
            }
        }
    } else {
        let t = s.drop_first();
        lemma_tail_wf(s, is_buy);
        lemma_sweep_wf(t, is_buy, (q - total_qty(s[0].1)) as nat);
    }
}

/// Strikes a consumed order from the lookup and from its user's list.
fn forget_consumed(lookup: &mut StrMap<OrderTerms>, users: &mut UserOrders, o: &LimitOrderEventPayload)
    requires
        old(lookup).wf(),
        old(users).wf(),
    ensures
        final(lookup).wf(),
        final(users).wf(),
        final(lookup)@ == old(lookup)@.remove(o.order_id@),
        final(users)@ == without_order(old(users)@, o.user_id@, o.order_id@, false),
{
    lookup.remove(&o.order_id);
    users.remove_order(&o.user_id, &o.order_id, false);
}

/// Strikes each order of `gone` from the lookup and from its user's list.
fn forget_all_consumed(lookup: &mut StrMap<OrderTerms>, users: &mut UserOrders, gone: &Vec<LimitOrderEventPayload>)
    requires
        old(lookup).wf(),
        old(users).wf(),
    ensures
        final(lookup).wf(),
        final(users).wf(),
        final(lookup)@ == forget_lookup(old(lookup)@, gone@),
        final(users)@ == forget_users(old(users)@, gone@),
{
    let ghost l0 = lookup@;
    let ghost u0 = users@;
    let mut i: usize = 0;
    while i < gone.len()
        invariant
            i <= gone@.len(),
            lookup.wf(),
            users.wf(),
            lookup@ == forget_lookup(l0, gone@.take(i as int)),
            users@ == forget_users(u0, gone@.take(i as int)),
        decreases gone@.len() - i,
    {
        proof {
            assert(gone@.take(i + 1).drop_last() =~= gone@.take(i as int));
            assert(gone@.take(i + 1).last() == gone@[i as int]);
        }
        forget_consumed(lookup, users, &gone[i]);
        i = i + 1;
    }
    assert(gone@.take(gone@.len() as int) =~= gone@);
}

/// Sums the quantities of a level.
fn level_total(orders: &Vec<LimitOrderEventPayload>) -> (t: u128)
    ensures
        t == total_qty(orders@),
{
    let ghost s = orders@;
    let n = orders.len();
    let mut total: u128 = 0;
    let mut i: usize = 0;
    while i < n
        invariant
            n == orders@.len(),
            s == orders@,
            i <= n,
            total == total_qty(s.take(i as int)),
        decreases n - i,
    {
        proof {
            assert(s.take(i + 1).drop_last() =~= s.take(i as int));
            lemma_total_qty_bound(s.take(i + 1));
            assert((i + 1) * 0xffff_ffff_ffff_ffffnat < 0x1_0000_0000_0000_0000_0000_0000_0000_0000nat) by (nonlinear_arith)
                requires
                    i + 1 <= 0xffff_ffff_ffff_ffffnat,
            ;
        }
        total = total + orders[i].quantity as u128;
        i = i + 1;
    }
    assert(s.take(n as int) =~= s);
    total
}

proof fn lemma_total_qty_prefix(s: Seq<LimitOrderEventPayload>, j: int)
    requires
        0 <= j <= s.len(),
    ensures
        total_qty(s.take(j)) <= total_qty(s),
{
    lemma_total_qty_concat(s.take(j), s.skip(j));
    assert(s.take(j) + s.skip(j) =~= s);
}

/// Sweeps a market order for `q` through one side, best level first; hands
/// back whether the order was filled in full.
fn sweep_side(
    levels: &mut Vec<PriceLevel>,
    lookup: &mut StrMap<OrderTerms>,
    users: &mut UserOrders,
    last_price: &mut u64,
    q: u64,
    Ghost(is_buy): Ghost<bool>,
) -> (filled: bool)
    requires
        side_wf(side_view(old(levels)@), is_buy),
        old(lookup).wf(),
        old(users).wf(),
    ensures
        ({
            let sw = sweep(side_view(old(levels)@), q as nat);
            &&& side_view(final(levels)@) == sw.0
            &&& filled == (sw.1 == 0)
            &&& *final(last_price) == match sw.3 {
                Some(x) => x,
                None => *old(last_price),
            }
            &&& final(lookup)@ == forget_lookup(old(lookup)@, sw.2)
            &&& final(users)@ == forget_users(old(users)@, sw.2)
        }),
        final(lookup).wf(),
        final(users).wf(),
{
    let ghost s0 = side_view(levels@);
    let ghost lp0 = *last_price;
    let ghost l0 = lookup@;
    let ghost u0 = users@;
    let ghost fin = sweep(s0, q as nat);
    let ghost mut consumed: Seq<LimitOrderEventPayload> = Seq::empty();
    let mut remaining = q;
    assert(consumed + fin.2 =~= fin.2);
    while remaining > 0
        invariant
            lookup.wf(),
            users.wf(),
            side_wf(side_view(levels@), is_buy),
            fin == sweep(s0, q as nat),
            s0 == side_view(old(levels)@),
            lp0 == *old(last_price),
            l0 == old(lookup)@,
            u0 == old(users)@,
            sweep(side_view(levels@), remaining as nat).0 == fin.0,
            sweep(side_view(levels@), remaining as nat).1 == fin.1,
            consumed + sweep(side_view(levels@), remaining as nat).2 == fin.2,
            (match sweep(side_view(levels@), remaining as nat).3 {
                Some(x) => x,
                None => *last_price,
            }) == (match fin.3 {
                Some(x) => x,
                None => lp0,
            }),
            lookup@ == forget_lookup(l0, consumed),
            users@ == forget_users(u0, consumed),
        decreases levels@.len(),
    {
        if levels.len() == 0 {
            proof {
                assert(side_view(levels@) =~= Seq::<LevelView>::empty());
                assert(consumed + Seq::<LimitOrderEventPayload>::empty() =~= consumed);
            }
            return false;
        }
        let ghost cur = side_view(levels@);
        let level = levels.remove(0);
        let price = level.price;
        *last_price = price;
        let total = level_total(&level.orders);
        let ghost orders = level.orders@;
        assert(orders == cur[0].1);
        let n = level.orders.len();
        let mut rest = level.orders;
        if total > remaining as u128 {
            proof {
                assert forall|k: int| 0 <= k < orders.len() implies (#[trigger] orders[k]).price == price && (orders[k].side
                    == 1) == is_buy by {}
                lemma_take_run_full(orders, remaining as nat, price, is_buy);
            }
            let ghost rem0 = remaining as nat;
            let ghost mut here: Seq<LimitOrderEventPayload> = Seq::empty();
            let mut new_orders: Vec<LimitOrderEventPayload> = Vec::new();
            let mut j: usize = 0;
            while j < n
                invariant
                    n == orders.len(),
                    j <= n,
                    rest@ == orders.skip(j as int),
                    (new_orders@, here, remaining as nat) == take_run(orders.take(j as int), rem0),
                    lookup.wf(),
                    users.wf(),
                    lookup@ == forget_lookup(l0, consumed + here),
                    users@ == forget_users(u0, consumed + here),
                decreases n - j,
            {
                let mut o = rest.remove(0);
                proof {
                    assert(o == orders[j as int]);
                    assert(rest@ =~= orders.skip(j + 1));
                    assert(orders.take(j + 1).drop_last() =~= orders.take(j as int));
                    assert(orders.take(j + 1).last() == orders[j as int]);
                }
                if o.quantity <= remaining {
                    remaining = remaining - o.quantity;
                    forget_consumed(lookup, users, &o);
                    proof {
                        assert((consumed + here.push(o)).drop_last() =~= consumed + here);
                        here = here.push(o);
                    }
                } else {
                    o.quantity = o.quantity - remaining;
                    remaining = 0;
                    new_orders.push(o);
                }
                j = j + 1;
            }
            assert(orders.take(n as int) =~= orders);
            if new_orders.len() > 0 {
                levels.insert(0, PriceLevel { price, orders: new_orders });
            }
            proof {
                let tr = take_run(orders, rem0);
                assert(sweep(cur, rem0) == (
                    if tr.0.len() > 0 { cur.update(0, (cur[0].0, tr.0)) } else { cur.drop_first() },
                    tr.2,
                    tr.1,
                    Some(cur[0].0),
                ));
                assert(side_view(levels@) =~= fin.0);
                assert(fin.2 == consumed + here);
                assert(remaining == 0);
            }
            return true;
        } else {
            let ghost rem0 = remaining as nat;
            let mut j: usize = 0;
            while j < n
                invariant
                    n == orders.len(),
                    j <= n,
                    total == total_qty(orders),
                    total <= rem0,
                    rest@ == orders.skip(j as int),
                    remaining as nat == rem0 - total_qty(orders.take(j as int)),
                    lookup.wf(),
                    users.wf(),
                    lookup@ == forget_lookup(l0, consumed + orders.take(j as int)),
                    users@ == forget_users(u0, consumed + orders.take(j as int)),
                decreases n - j,
            {
                let o = rest.remove(0);
                proof {
                    assert(o == orders[j as int]);
                    assert(rest@ =~= orders.skip(j + 1));
                    assert(orders.take(j + 1).drop_last() =~= orders.take(j as int));
                    assert((consumed + orders.take(j + 1)).drop_last() =~= consumed + orders.take(j as int));
                    lemma_total_qty_prefix(orders, j + 1);
                }
                remaining = remaining - o.quantity;
                forget_consumed(lookup, users, &o);
                j = j + 1;
            }
            proof {
                assert(orders.take(n as int) =~= orders);
                let rest_sw = sweep(cur.drop_first(), remaining as nat);
                assert(side_view(levels@) =~= cur.drop_first());
                assert(consumed + orders + rest_sw.2 =~= consumed + (orders + rest_sw.2));
                consumed = consumed + orders;
            }
        }
    }
    proof {
        assert(consumed + Seq::<LimitOrderEventPayload>::empty() =~= consumed);
    }
    true
}

impl Market {
    /// The invariant every operation keeps: the book is well formed, and no
    /// lookup records an order that has left the book.
    pub open spec fn wf(&self) -> bool {
        &&& self.user_orders.wf()
        &&& self.buy_order_lookup.wf()
        &&& self.sell_order_lookup.wf()
        &&& market_wf(self@)
        &&& lookups_current(self@)
    }

    /// An empty book for `symbol`.
    pub fn new(symbol: String) -> (r: Self)
        ensures
            r.wf(),
            r@.symbol == symbol@,
            r@.last_price == 0,
            r@.buys == Seq::<LevelView>::empty(),
            r@.sells == Seq::<LevelView>::empty(),
            r@.user_orders == Map::<IdView, Set<IdView>>::empty(),
            r@.buy_lookup == Map::<IdView, OrderTerms>::empty(),
            r@.sell_lookup == Map::<IdView, OrderTerms>::empty(),
            book_agrees(r@),
    {
        let r = Market {
            symbol,
            last_price: 0,
            buy_order: Vec::new(),
            sell_order: Vec::new(),
            user_orders: UserOrders::new(),
            buy_order_lookup: StrMap::new(),
            sell_order_lookup: StrMap::new(),
        };
        assert(side_view(r.buy_order@) =~= Seq::<LevelView>::empty());
        assert(side_view(r.sell_order@) =~= Seq::<LevelView>::empty());
        assert(resting(Seq::<LevelView>::empty()) == Seq::<LimitOrderEventPayload>::empty());
        assert forall|id: IdView| #[trigger] id_count(resting(r@.buys), id) + id_count(resting(r@.sells), id) <= 1 by {
            assert(id_count(Seq::<LimitOrderEventPayload>::empty(), id) == 0);
        }
        r
    }

    /// Puts `o` to rest in the book.
    fn rest(&mut self, o: LimitOrderEventPayload)
        requires
            old(self).wf(),
        ensures
            final(self).wf(),
            final(self)@ == rest_order(old(self)@, o),
    {
        let ghost m = self@;
        proof {
            lemma_rest_order_current(m, o);
        }
        proof {
            lemma_rest_order_wf(m, o);
        }
        let terms = (o.price, o.tp, o.sl);
        self.user_orders.add(o.user_id.clone(), o.order_id.clone());
        if o.side == 1 {
            self.buy_order_lookup.insert(o.order_id.clone(), terms);
            rest_on_side(&mut self.buy_order, true, o);
        } else {
            self.sell_order_lookup.insert(o.order_id.clone(), terms);
            rest_on_side(&mut self.sell_order, false, o);
        }
        assert(self@ =~= rest_order(m, o));
    }

    /// Whether an incoming order of side `side` at `price` meets the best
    /// level of the other side.
    fn crossing(&self, side: u32, price: u64) -> (r: bool)
        ensures
            r == crosses(opposite(self@, side == 1), side == 1, price),
    {
        if side == 1 {
            self.sell_order.len() > 0 && !(self.sell_order[0].price > price)
        } else {
            self.buy_order.len() > 0 && !(self.buy_order[0].price < price)
        }
    }

    /// Fills `o`, with `q` still to fill, against the best level of the other
    /// side, and forgets the orders it consumes whole; hands back the quantity
    /// still unfilled and whether the level was consumed whole, or `None`,
    /// with the market unchanged, when the other side holds no level.
    fn fill_order(&mut self, o: &LimitOrderEventPayload, q: u64) -> (r: Option<(u64, bool)>)
        requires
            old(self).wf(),
        ensures
            final(self).wf(),
            opposite(old(self)@, o.side == 1).len() == 0 ==> r is None && final(self)@ == old(self)@,
            opposite(old(self)@, o.side == 1).len() > 0 ==> {
                &&& final(self)@ == fill_best(old(self)@, *o, q as nat).0
                &&& r == Some((fill_best(old(self)@, *o, q as nat).1 as u64, fill_best(old(self)@, *o, q as nat).2))
            },
    {
        let ghost m = self@;
        proof {
            if opposite(m, o.side == 1).len() > 0 {
                lemma_fill_best_current(m, *o, q as nat);
                lemma_fill_best(m, *o, q as nat);
                lemma_fill_level_nonempty(opposite(m, o.side == 1)[0].1, o.user_id@, q as nat);
            }
        }
        if o.side == 1 {
            let n0 = self.sell_order.len();
            let ghost m_sell_order = self.sell_order@;
            let (price, left, gone) = match fill_side(&mut self.sell_order, &o.user_id, q) {
                Some(t) => t,
                None => {
                    assert(self@ =~= m);
                    return None;
                },
            };
            let whole = self.sell_order.len() < n0;
            proof {
                assert(side_view(self.sell_order@).len() == self.sell_order@.len());
                assert(side_view(m_sell_order).len() == n0);
                assert(whole == (fill_level(m.sells[0].1, o.user_id@, q as nat).0 is None));
            }
            forget_all_consumed(&mut self.sell_order_lookup, &mut self.user_orders, &gone);
            self.last_price = price;
            assert(self@ =~= fill_best(m, *o, q as nat).0);
            Some((left, whole))
        } else {
            let n0 = self.buy_order.len();
            let ghost m_buy_order = self.buy_order@;
            let (price, left, gone) = match fill_side(&mut self.buy_order, &o.user_id, q) {
                Some(t) => t,
                None => {
                    assert(self@ =~= m);
                    return None;
                },
            };
            let whole = self.buy_order.len() < n0;
            proof {
                assert(side_view(self.buy_order@).len() == self.buy_order@.len());
                assert(side_view(m_buy_order).len() == n0);
                assert(whole == (fill_level(m.buys[0].1, o.user_id@, q as nat).0 is None));
            }
            forget_all_consumed(&mut self.buy_order_lookup, &mut self.user_orders, &gone);
            self.last_price = price;
            assert(self@ =~= fill_best(m, *o, q as nat).0);
            Some((left, whole))
        }
    }

    /// Fills `o`, with `q` still to fill, level after level as long as it
    /// meets the other side; hands back the quantity still unfilled.
    fn sweep_limit(&mut self, o: &LimitOrderEventPayload, q: u64) -> (left: u64)
        requires
            old(self).wf(),
        ensures
            final(self).wf(),
            (final(self)@, left as nat) == fill_sweep(old(self)@, *o, q as nat),
        decreases opposite(old(self)@, o.side == 1).len(),
    {
        let ghost m = self@;
        proof {
            if opposite(m, o.side == 1).len() > 0 {
                lemma_fill_best(m, *o, q as nat);
            }
        }
        match self.fill_order(o, q) {
            None => q,
            Some((left, whole)) => {
                if whole && left > 0 && self.crossing(o.side, o.price) {
                    self.sweep_limit(o, left)
                } else {
                    left
                }
            },
        }
    }

    /// Places a limit order. When it meets the other side it is filled
    /// against it level after level while it still meets it, and what is left
    /// of it rests in the book at its own price; otherwise it rests in the
    /// book whole.
    pub fn add_limit_order(&mut self, payload: LimitOrderEventPayload) -> (r: Result<
        AddLimitOrderResponse,
        AddLimitOrderResponse,
    >)
        requires
            old(self).wf(),
        ensures
            final(self).wf(),
            final(self)@ == spec_add_limit_order(old(self)@, payload).0,
            final(self)@.symbol == old(self)@.symbol,
            r matches Ok(resp) && add_response_tells(resp, spec_add_limit_order(old(self)@, payload).1),
    {
        let ghost m = self@;
        if !self.crossing(payload.side, payload.price) {
            self.rest(payload);
            return Ok(
                AddLimitOrderResponse {
                    success: true,
                    remaining_quantity: None,
                    message: "order in orderbook".to_string(),
                },
            );
        }
        proof {
            lemma_fill_sweep(m, payload, payload.quantity as nat);
        }
        let remaining_quantity = self.sweep_limit(&payload, payload.quantity);
        if remaining_quantity > 0 {
            let rest = LimitOrderEventPayload { quantity: remaining_quantity, ..payload };
            assert(rest == with_quantity(payload, remaining_quantity));
            self.rest(rest);
            return Ok(
                AddLimitOrderResponse {
                    success: true,
                    remaining_quantity: Some(remaining_quantity),
                    message: "order filled with remaining qty.".to_string(),
                },
            );
        }
        Ok(
            AddLimitOrderResponse {
                success: true,
                remaining_quantity: None,
                message: "order fully filled.".to_string(),
            },
        )
    }

    /// Changes the take-profit and stop-loss recorded for a resting order.
    pub fn modify(&mut self, payload: ModifyPayload) -> (r: Option<ModifyResponse>)
        requires
            old(self).wf(),
        ensures
            final(self).wf(),
            final(self)@ == spec_modify(old(self)@, payload),
            r matches Some(resp) && modify_response_tells(resp, old(self)@, payload),
    {
        let ghost m = self@;
        let found = if payload.side == 1 {
            self.buy_order_lookup.get(&payload.order_id)
        } else {
            self.sell_order_lookup.get(&payload.order_id)
        };
        let (price, mut tp, mut sl) = match found {
            Some(t) => *t,
            None => {
                return Some(
                    ModifyResponse {
                        success: false,
                        tp: None,
                        sl: None,
                        message: "has no tp, sl value to update".to_string(),
                    },
                );
            },
        };
        let response;
        if payload.has_updated_tp_val || payload.has_updated_sl_val {
            if let Some(v) = payload.tp {
                tp = v;
            }
            if let Some(v) = payload.sl {
                sl = v;
            }
            response = ModifyResponse {
                success: true,
                tp: Some(tp),
                sl: Some(sl),
                message: "both updated".to_string(),
            };
        } else if !payload.has_updated_tp_val || payload.has_updated_sl_val {
            if let Some(v) = payload.sl {
                sl = v;
            }
            response = ModifyResponse {
                success: true,
                tp: None,
                sl: Some(sl),
                message: "sl updated".to_string(),
            };
        } else if payload.has_updated_tp_val || !payload.has_updated_sl_val {
            if let Some(v) = payload.tp {
                tp = v;
            }
            response = ModifyResponse { success: true, tp: Some(tp), sl: None, message: "".to_string() };
        } else {
            response = ModifyResponse {
                success: false,
                tp: None,
                sl: None,
                message: "tp updated".to_string(),
            };
        }
        if payload.side == 1 {
            self.buy_order_lookup.insert(payload.order_id, (price, tp, sl));
        } else {
            self.sell_order_lookup.insert(payload.order_id, (price, tp, sl));
        }
        assert(self@ =~= spec_modify(m, payload));
        Some(response)
    }

    /// Closes one order: it leaves the lookup and the book of its side, and
    /// the list of its user; a user left with no order is forgotten.
    pub fn close(&mut self, payload: ClosePayload) -> (r: CloseResponse)
        requires
            old(self).wf(),
        ensures
            final(self).wf(),
            final(self)@ == spec_close(old(self)@, payload),
            r.success,
            r.order_id == Some(payload.order_id),
            r.message@ == "order removed"@,
    {
        let ghost m = self@;
        proof {
            lemma_close_current(m, payload);
        }
        if payload.side == 1 {
            if let Some((price, _, _)) = self.buy_order_lookup.remove(&payload.order_id) {
                proof {
                    lemma_drop_order_wf(m.buys, true, price, payload.order_id@);
                }
                drop_order_from_side(&mut self.buy_order, price, &payload.order_id, Ghost(true));
            }
        } else {
            if let Some((price, _, _)) = self.sell_order_lookup.remove(&payload.order_id) {
                proof {
                    lemma_drop_order_wf(m.sells, false, price, payload.order_id@);
                }
                drop_order_from_side(&mut self.sell_order, price, &payload.order_id, Ghost(false));
            }
        }
        self.user_orders.remove_order(&payload.user_id, &payload.order_id, true);
        assert(self@ =~= spec_close(m, payload));
        CloseResponse { success: true, order_id: Some(payload.order_id), message: "order removed".to_string() }
    }

    /// Fills a market order at once from the best levels of the other side,
    /// level after level, until it is filled or that side runs out.
    pub fn market(&mut self, payload: MarketPayload) -> (r: MarketResponse)
        requires
            old(self).wf(),
        ensures
            final(self).wf(),
            final(self)@ == spec_market(old(self)@, payload).0,
            r.success == spec_market(old(self)@, payload).1,
            r.price == final(self)@.last_price,
            r.order_id == payload.order_id,
            r.message@ == if r.success {
                "market order filled"@
            } else if payload.side == 1 {
                "no liquidity on sell side"@
            } else {
                "no liquidity on buy side"@
            },
    {
        let ghost m = self@;
        proof {
            lemma_market_current(m, payload);
        }
        if payload.side == 1 {
            proof {
                lemma_sweep_wf(m.sells, false, payload.quantity as nat);
            }
            let filled = sweep_side(
                &mut self.sell_order,
                &mut self.sell_order_lookup,
                &mut self.user_orders,
                &mut self.last_price,
                payload.quantity,
                Ghost(false),
            );
            assert(self@ =~= spec_market(m, payload).0);
            if !filled {
                return MarketResponse {
                    success: false,
                    price: self.last_price,
                    order_id: payload.order_id,
                    message: "no liquidity on sell side".to_string(),
                };
            }
        } else {
            proof {
                lemma_sweep_wf(m.buys, true, payload.quantity as nat);
            }
            let filled = sweep_side(
                &mut self.buy_order,
                &mut self.buy_order_lookup,
                &mut self.user_orders,
                &mut self.last_price,
                payload.quantity,
                Ghost(true),
            );
            assert(self@ =~= spec_market(m, payload).0);
            if !filled {
                return MarketResponse {
                    success: false,
                    price: self.last_price,
                    order_id: payload.order_id,
                    message: "no liquidity on buy side".to_string(),
                };
            }
        }
        MarketResponse {
            success: true,
            price: self.last_price,
            order_id: payload.order_id,
            message: "market order filled".to_string(),
        }
    }

    /// Removes order id `id` from both sides.
    fn forget(&mut self, id: &String)
        requires
            old(self).wf(),
        ensures
            final(self).wf(),
            final(self)@ == forget_everywhere(old(self)@, id@),
    {
        let ghost m = self@;
        proof {
            lemma_forget_current(m, id@);
        }
        if let Some((price, _, _)) = self.buy_order_lookup.remove(id) {
            proof {
                lemma_drop_order_wf(m.buys, true, price, id@);
            }
            drop_order_from_side(&mut self.buy_order, price, id, Ghost(true));
        }
        let ghost m1 = self@;
        if let Some((price, _, _)) = self.sell_order_lookup.remove(id) {
            proof {
                lemma_drop_order_wf(m1.sells, false, price, id@);
            }
            drop_order_from_side(&mut self.sell_order, price, id, Ghost(false));
        }
        assert(self@ =~= forget_everywhere(m, id@));
    }

    /// Closes every order of a user, in both books.
    pub fn close_all(&mut self, payload: CloseAllPayload) -> (r: CloseAllResponse)
        requires
            old(self).wf(),
        ensures
            final(self).wf(),
            exists|ids: Seq<IdView>| #[trigger] closes_all_in_order(old(self)@, payload.user_id@, final(self)@, ids),
            forall|ids: Seq<IdView>|
                #[trigger] lists_orders_of(old(self)@, payload.user_id@, ids) ==> final(self)@ == spec_close_all(
                    old(self)@,
                    payload.user_id@,
                    ids,
                ),
            final(self)@.symbol == old(self)@.symbol,
            final(self)@.last_price == old(self)@.last_price,
            r.success,
            r.message@ == "all order removed"@,
    {
        let ghost m = self@;
        let ghost mut done: Seq<IdView> = Seq::empty();
        if let Some(order_ids) = self.user_orders.take(&payload.user_id) {
            let ghost all = order_ids@.map_values(|s: String| s@);
            let ghost m0 = self@;
            assert(m0 == MarketView { user_orders: m.user_orders.remove(payload.user_id@), ..m });
            let n = order_ids.len();
            let mut i: usize = 0;
            while i < n
                invariant
                    n == order_ids@.len(),
                    i <= n,
                    self.wf(),
                    all == order_ids@.map_values(|s: String| s@),
                    done == all.take(i as int),
                    self@ == forget_all(m0, done),
                decreases n - i,
            {
                self.forget(&order_ids[i]);
                proof {
                    assert(all.take(i + 1).drop_last() =~= all.take(i as int));
                    done = all.take(i + 1);
                }
                i = i + 1;
            }
            assert(all.take(n as int) =~= all);
            assert(self@ == spec_close_all(m, payload.user_id@, all));
            proof {
                done = all;
            }
        } else {
            assert(self@ == spec_close_all(m, payload.user_id@, done));
            assert(!m.user_orders.contains_key(payload.user_id@));
        }
        assert(closes_all_in_order(m, payload.user_id@, self@, done));
        proof {
            if m.user_orders.contains_key(payload.user_id@) {
                lemma_forget_all(MarketView { user_orders: m.user_orders.remove(payload.user_id@), ..m }, done);
            }
            assert forall|ids: Seq<IdView>| #[trigger] lists_orders_of(m, payload.user_id@, ids) implies self@
                == spec_close_all(m, payload.user_id@, ids) by {
                law_close_all_order_free(m, payload.user_id@, self@, done, spec_close_all(m, payload.user_id@, ids), ids);
            }
        }
        CloseAllResponse { success: true, message: "all order removed".to_string() }
    }
}

} // verus!

verus! {

/// The total quantity resting on a side.
pub open spec fn side_total(s: Seq<LevelView>) -> nat
    decreases s.len(),
{
    if s.len() == 0 {
        0
    } else {
        total_qty(s[0].1) + side_total(s.drop_first())
    }
}

proof fn lemma_fill_best_totals(m: MarketView, o: LimitOrderEventPayload, q: nat)
    requires
        opposite(m, o.side == 1).len() > 0,
    ensures
        fill_best(m, o, q).1 <= q,
        side_total(opposite(m, o.side == 1)) == side_total(opposite(fill_best(m, o, q).0, o.side == 1)) + (q
            - fill_best(m, o, q).1),
{
    let other = opposite(m, o.side == 1);
    lemma_fill_run(other[0].1, o.user_id@, q);
    let after = side_after_fill(other, o.user_id@, q);
    if total_qty(other[0].1) > q {
        assert(after.drop_first() =~= other.drop_first());
    }
}

proof fn lemma_fill_sweep_totals(m: MarketView, o: LimitOrderEventPayload, q: nat)
    ensures
        fill_sweep(m, o, q).1 <= q,
        side_total(opposite(m, o.side == 1)) == side_total(opposite(fill_sweep(m, o, q).0, o.side == 1)) + (q
            - fill_sweep(m, o, q).1),
    decreases opposite(m, o.side == 1).len(),
{
    if opposite(m, o.side == 1).len() > 0 {
        lemma_fill_best_totals(m, o, q);
        let (m2, left, whole) = fill_best(m, o, q);
        if whole && left > 0 && crosses(opposite(m2, o.side == 1), o.side == 1, o.price) {
            assert(opposite(m2, o.side == 1).len() < opposite(m, o.side == 1).len());
            lemma_fill_sweep_totals(m2, o, left);
        }
    }
}

/// A limit order that meets the other side fills exactly as much as leaves
/// that side: the quantity that was asked minus the quantity still unfilled
/// equals what the side held before minus what it holds after, over all the
/// levels the order was filled against.
pub proof fn law_fill_conserves_quantity(m: MarketView, o: LimitOrderEventPayload)
    requires
        crosses(opposite(m, o.side == 1), o.side == 1, o.price),
    ensures
        ({
            let (after, left) = fill_sweep(m, o, o.quantity as nat);
            &&& left <= o.quantity
            &&& side_total(opposite(m, o.side == 1)) == side_total(opposite(after, o.side == 1)) + (o.quantity - left)
        }),
{
    lemma_fill_sweep_totals(m, o, o.quantity as nat);
}

proof fn lemma_forget_lookup_gone(l: Map<IdView, OrderTerms>, c: Seq<LimitOrderEventPayload>)
    ensures
        forall|k: int| 0 <= k < c.len() ==> !forget_lookup(l, c).contains_key(#[trigger] c[k].order_id@),
        forall|x: IdView| #[trigger] forget_lookup(l, c).contains_key(x) ==> l.contains_key(x),
    decreases c.len(),
{
    if c.len() > 0 {
        let t = c.drop_last();
        lemma_forget_lookup_gone(l, t);
        assert forall|x: IdView| #[trigger] forget_lookup(l, c).contains_key(x) implies l.contains_key(x) by {
            assert(forget_lookup(l, t).contains_key(x));
        }
        assert forall|k: int| 0 <= k < c.len() implies !forget_lookup(l, c).contains_key(#[trigger] c[k].order_id@) by {
            if k < c.len() - 1 {
                assert(t[k] == c[k]);
            }
        }
    }
}

proof fn lemma_forget_users_gone(u: Map<IdView, Set<IdView>>, c: Seq<LimitOrderEventPayload>)
    ensures
        forall|k: int|
            0 <= k < c.len() ==> !(forget_users(u, c).contains_key(#[trigger] c[k].user_id@) && forget_users(u, c)[c[k].user_id@].contains(
                c[k].order_id@,
            )),
    decreases c.len(),
{
    if c.len() > 0 {
        let t = c.drop_last();
        lemma_forget_users_gone(u, t);
        let before = forget_users(u, t);
        let after = forget_users(u, c);
        assert forall|k: int|
            0 <= k < c.len() implies !(after.contains_key(#[trigger] c[k].user_id@) && after[c[k].user_id@].contains(
                c[k].order_id@,
            )) by {
            if k < c.len() - 1 {
                assert(t[k] == c[k]);
                if after.contains_key(c[k].user_id@) {
                    assert(before.contains_key(c[k].user_id@));
                    assert(after[c[k].user_id@].subset_of(before[c[k].user_id@]));
                }
            }
        }
    }
}

/// Every order that a limit order consumes whole at a level leaves the lookup
/// of its side and its user's list.
pub proof fn law_limit_fill_forgets_consumed(m: MarketView, o: LimitOrderEventPayload, q: nat)
    requires
        opposite(m, o.side == 1).len() > 0,
    ensures
        ({
            let gone = level_gone(opposite(m, o.side == 1)[0].1, o.user_id@, q);
            let after = fill_best(m, o, q).0;
            let lookup = if o.side == 1 { after.sell_lookup } else { after.buy_lookup };
            forall|k: int|
                0 <= k < gone.len() ==> !lookup.contains_key(#[trigger] gone[k].order_id@) && !(after.user_orders.contains_key(
                    gone[k].user_id@,
                ) && after.user_orders[gone[k].user_id@].contains(gone[k].order_id@))
        }),
{
    let gone = level_gone(opposite(m, o.side == 1)[0].1, o.user_id@, q);
    if o.side == 1 {
        lemma_forget_lookup_gone(m.sell_lookup, gone);
    } else {
        lemma_forget_lookup_gone(m.buy_lookup, gone);
    }
    lemma_forget_users_gone(m.user_orders, gone);
}

/// Every order that a market order consumes whole leaves the lookup of its
/// side and its user's list.
pub proof fn law_market_forgets_consumed(m: MarketView, p: MarketPayload)
    ensures
        ({
            let gone = sweep(opposite(m, p.side == 1), p.quantity as nat).2;
            let after = spec_market(m, p).0;
            let lookup = if p.side == 1 { after.sell_lookup } else { after.buy_lookup };
            forall|k: int|
                0 <= k < gone.len() ==> !lookup.contains_key(#[trigger] gone[k].order_id@) && !(after.user_orders.contains_key(
                    gone[k].user_id@,
                ) && after.user_orders[gone[k].user_id@].contains(gone[k].order_id@))
        }),
{
    let gone = sweep(opposite(m, p.side == 1), p.quantity as nat).2;
    if p.side == 1 {
        lemma_forget_lookup_gone(m.sell_lookup, gone);
    } else {
        lemma_forget_lookup_gone(m.buy_lookup, gone);
    }
    lemma_forget_users_gone(m.user_orders, gone);
}

/// Every order of level `s` belongs to `user`.
pub open spec fn only_orders_of(s: Seq<LimitOrderEventPayload>, user: IdView) -> bool {
    forall|k: int| 0 <= k < s.len() ==> (#[trigger] s[k]).user_id@ == user
}

proof fn lemma_fill_run_unfilled_keeps_own(s: Seq<LimitOrderEventPayload>, user: IdView, q: nat)
    ensures
        fill_run(s, user, q).1 <= q,
        fill_run(s, user, q).1 > 0 ==> only_orders_of(fill_run(s, user, q).0, user),
    decreases s.len(),
{
    if s.len() > 0 {
        let t = s.drop_last();
        lemma_fill_run_unfilled_keeps_own(t, user, q);
        let (kept, r) = fill_run(t, user, q);
        let res = fill_run(s, user, q);
        if res.1 > 0 {
            assert forall|k: int| 0 <= k < res.0.len() implies (#[trigger] res.0[k]).user_id@ == user by {
                if k < kept.len() {
                    assert(res.0[k] == kept[k]);
                }
            }
        }
    }
}

proof fn lemma_fill_sweep_stops(m: MarketView, o: LimitOrderEventPayload, q: nat)
    requires
        opposite(m, o.side == 1).len() > 0,
    ensures
        ({
            let (after, left) = fill_sweep(m, o, q);
            let other = opposite(after, o.side == 1);
            left > 0 ==> !crosses(other, o.side == 1, o.price) || only_orders_of(other[0].1, o.user_id@)
        }),
    decreases opposite(m, o.side == 1).len(),
{
    let other = opposite(m, o.side == 1);
    let (m2, left, whole) = fill_best(m, o, q);
    if whole && left > 0 && crosses(opposite(m2, o.side == 1), o.side == 1, o.price) {
        assert(opposite(m2, o.side == 1).len() < other.len());
        lemma_fill_sweep_stops(m2, o, left);
    } else if left > 0 && !whole {
        lemma_fill_run_unfilled_keeps_own(other[0].1, o.user_id@, q);
        assert(opposite(m2, o.side == 1)[0].1 == fill_run(other[0].1, o.user_id@, q).0);
    }
}

/// A limit order that comes to rest, whole or in part, faces no level of the
/// other side that it meets, save one that holds only orders of its own user
/// (which a fill passes over).
pub proof fn law_resting_order_does_not_cross(m: MarketView, o: LimitOrderEventPayload)
    requires
        spec_add_limit_order(m, o).1 != AddOutcome::Filled,
    ensures
        ({
            let other = opposite(spec_add_limit_order(m, o).0, o.side == 1);
            !crosses(other, o.side == 1, o.price) || only_orders_of(other[0].1, o.user_id@)
        }),
{
    if crosses(opposite(m, o.side == 1), o.side == 1, o.price) {
        lemma_fill_sweep_stops(m, o, o.quantity as nat);
    }
}

proof fn lemma_fill_run_keeps_own(s: Seq<LimitOrderEventPayload>, user: IdView, q: nat)
    ensures
        forall|k: int| 0 <= k < s.len() && (#[trigger] s[k]).user_id@ == user ==> fill_run(s, user, q).0.contains(s[k]),
    decreases s.len(),
{
    if s.len() > 0 {
        let t = s.drop_last();
        lemma_fill_run_keeps_own(t, user, q);
        let before = fill_run(t, user, q).0;
        let after = fill_run(s, user, q).0;
        assert forall|x: LimitOrderEventPayload| before.contains(x) implies after.contains(x) by {
            let j = choose|j: int| 0 <= j < before.len() && before[j] == x;
            assert(after[j] == x);
        }
        assert forall|k: int| 0 <= k < s.len() && (#[trigger] s[k]).user_id@ == user implies after.contains(s[k]) by {
            if k < s.len() - 1 {
                assert(t[k] == s[k]);
            } else {
                assert(after[after.len() - 1] == s[k]);
            }
        }
    }
}

/// When a limit order meets a level that holds more than it asks, the level
/// stays, and every order of the incoming order's own user at that level
/// stays in it as it was.
pub proof fn law_fill_spares_own_orders(s: Seq<LimitOrderEventPayload>, user: IdView, q: nat)
    requires
        total_qty(s) > q,
    ensures
        fill_level(s, user, q).0 matches Some(kept) && forall|k: int|
            0 <= k < s.len() && (#[trigger] s[k]).user_id@ == user ==> kept.contains(s[k]),
{
    lemma_fill_run_keeps_own(s, user, q);
}

proof fn lemma_sweep_totals(s: Seq<LevelView>, q: nat)
    ensures
        sweep(s, q).1 == if side_total(s) >= q {
            0
        } else {
            (q - side_total(s)) as nat
        },
        side_total(s) == side_total(sweep(s, q).0) + (q - sweep(s, q).1),
    decreases s.len(),
{
    if q == 0 || s.len() == 0 {
    } else if total_qty(s[0].1) > q {
        lemma_take_run(s[0].1, q);
        let (kept, consumed, r) = take_run(s[0].1, q);
        if r > 0 {
            assert(total_qty(kept) == 0);
        }
        if kept.len() > 0 {
            assert(s.update(0, (s[0].0, kept)).drop_first() =~= s.drop_first());
        } else {
            assert(total_qty(kept) == 0);
        }
    } else {
        lemma_sweep_totals(s.drop_first(), (q - total_qty(s[0].1)) as nat);
    }
}

/// A market order is filled in full exactly when the side it sweeps holds at
/// least its quantity, and that side loses exactly the quantity filled: the
/// order's quantity, or all the side held when that was less.
pub proof fn law_market_fills_what_the_book_holds(m: MarketView, p: MarketPayload)
    ensures
        ({
            let is_buy = p.side == 1;
            let before = if is_buy { m.sells } else { m.buys };
            let r = spec_market(m, p);
            let after = if is_buy { r.0.sells } else { r.0.buys };
            &&& r.1 <==> side_total(before) >= p.quantity
            &&& side_total(before) - side_total(after) == if side_total(before) >= p.quantity {
                p.quantity as int
            } else {
                side_total(before) as int
            }
        }),
{
    let before = if p.side == 1 {
        m.sells
    } else {
        m.buys
    };
    lemma_sweep_totals(before, p.quantity as nat);
}

proof fn lemma_rest_levels_holds(s: Seq<LevelView>, is_buy: bool, o: LimitOrderEventPayload)
    ensures
        exists|i: int|
            0 <= i < rest_levels(s, is_buy, o).len() && (#[trigger] rest_levels(s, is_buy, o)[i]).0 == o.price
                && rest_levels(s, is_buy, o)[i].1.len() > 0 && rest_levels(s, is_buy, o)[i].1.last() == o,
    decreases s.len(),
{
    let r = rest_levels(s, is_buy, o);
    if s.len() == 0 {
        assert(r[0].1.last() == o);
    } else if s[0].0 == o.price {
        assert(r[0].1.last() == o);
    } else if better(is_buy, o.price, s[0].0) {
        assert(r[0].1.last() == o);
    } else {
        lemma_rest_levels_holds(s.drop_first(), is_buy, o);
        let rt = rest_levels(s.drop_first(), is_buy, o);
        let i = choose|i: int| 0 <= i < rt.len() && (#[trigger] rt[i]).0 == o.price && rt[i].1.len() > 0 && rt[i].1.last() == o;
        assert(r[i + 1] == rt[i]);
    }
}

/// A limit order that meets nothing rests in the book: it is the newest order
/// of the level at its price on its side, its terms are recorded under its
/// id, and its id is listed for its user.
pub proof fn law_unmatched_order_rests(m: MarketView, o: LimitOrderEventPayload)
    requires
        spec_add_limit_order(m, o).1 == AddOutcome::Rested,
    ensures
        o.side == 1 ==> exists|i: int|
            0 <= i < spec_add_limit_order(m, o).0.buys.len() && (#[trigger] spec_add_limit_order(m, o).0.buys[i]).0 == o.price
                && spec_add_limit_order(m, o).0.buys[i].1.len() > 0 && spec_add_limit_order(m, o).0.buys[i].1.last() == o,
        o.side != 1 ==> exists|i: int|
            0 <= i < spec_add_limit_order(m, o).0.sells.len() && (#[trigger] spec_add_limit_order(m, o).0.sells[i]).0 == o.price
                && spec_add_limit_order(m, o).0.sells[i].1.len() > 0 && spec_add_limit_order(m, o).0.sells[i].1.last() == o,
        o.side == 1 ==> spec_add_limit_order(m, o).0.buy_lookup.contains_key(o.order_id@)
            && spec_add_limit_order(m, o).0.buy_lookup[o.order_id@] == (o.price, o.tp, o.sl),
        o.side != 1 ==> spec_add_limit_order(m, o).0.sell_lookup.contains_key(o.order_id@)
            && spec_add_limit_order(m, o).0.sell_lookup[o.order_id@] == (o.price, o.tp, o.sl),
        spec_add_limit_order(m, o).0.user_orders.contains_key(o.user_id@),
        spec_add_limit_order(m, o).0.user_orders[o.user_id@].contains(o.order_id@),
{
    let other = if o.side == 1 {
        m.sells
    } else {
        m.buys
    };
    if crosses(other, o.side == 1, o.price) {
        let left = fill_level(other[0].1, o.user_id@, o.quantity as nat).1;
        if left > 0 {
            assert(spec_add_limit_order(m, o).1 == AddOutcome::PartiallyFilled(left as u64));
        } else {
            assert(spec_add_limit_order(m, o).1 == AddOutcome::Filled);
        }
    }
    let after = spec_add_limit_order(m, o).0;
    assert(after == rest_order(m, o));
    assert(after.user_orders[o.user_id@].contains(o.order_id@));
    if o.side == 1 {
        lemma_rest_levels_holds(m.buys, true, o);
        let r = rest_levels(m.buys, true, o);
        let i = choose|i: int| 0 <= i < r.len() && (#[trigger] r[i]).0 == o.price && r[i].1.len() > 0 && r[i].1.last() == o;
        assert(after.buys[i] == r[i]);
    } else {
        lemma_rest_levels_holds(m.sells, false, o);
        let r = rest_levels(m.sells, false, o);
        let i = choose|i: int| 0 <= i < r.len() && (#[trigger] r[i]).0 == o.price && r[i].1.len() > 0 && r[i].1.last() == o;
        assert(after.sells[i] == r[i]);
    }
}

proof fn lemma_drop_order_gone(s: Seq<LevelView>, is_buy: bool, price: u64, id: IdView)
    requires
        side_wf(s, is_buy),
    ensures
        forall|i: int, k: int|
            0 <= i < drop_order(s, price, id).len() && drop_order(s, price, id)[i].0 == price && 0 <= k < drop_order(
                s,
                price,
                id,
            )[i].1.len() ==> (#[trigger] drop_order(s, price, id)[i].1[k]).order_id@ != id,
{
    let r = drop_order(s, price, id);
    if has_price(s, price) {
        let c = choose|c: int| 0 <= c < s.len() && s[c].0 == price;
        let kept = drop_from_level(s[c].1, id);
        lemma_drop_from_level(s[c].1, id);
        assert forall|i: int, k: int| 0 <= i < r.len() && r[i].0 == price && 0 <= k < r[i].1.len() implies (#[trigger] r[i].1[k]).order_id@
            != id by {
            if kept.len() == 0 {
                let i2 = if i < c { i } else { i + 1 };
                assert(r[i] == s[i2]);
                if i2 < c {
                    assert(better(is_buy, s[i2].0, s[c].0));
                } else {
                    assert(better(is_buy, s[c].0, s[i2].0));
                }
            } else if i != c {
                assert(r[i] == s[i]);
                if i < c {
                    assert(better(is_buy, s[i].0, s[c].0));
                } else {
                    assert(better(is_buy, s[c].0, s[i].0));
                }
            }
        }
    } else {
        assert forall|i: int, k: int| 0 <= i < r.len() && r[i].0 == price && 0 <= k < r[i].1.len() implies (#[trigger] r[i].1[k]).order_id@
            != id by {
            assert(has_price(s, price));
        }
    }
}

/// Closing an order that its side's lookup knows leaves no trace of it there:
/// its id is gone from that lookup and from its user's list, and no order
/// with that id rests at the price the lookup recorded.
pub proof fn law_close_removes_order(m: MarketView, p: ClosePayload)
    requires
        market_wf(m),
    ensures
        spec_close(m, p).user_orders.contains_key(p.user_id@) ==> !spec_close(m, p).user_orders[p.user_id@].contains(
            p.order_id@,
        ),
        p.side == 1 && m.buy_lookup.contains_key(p.order_id@) ==> {
            &&& !spec_close(m, p).buy_lookup.contains_key(p.order_id@)
            &&& forall|i: int, k: int|
                0 <= i < spec_close(m, p).buys.len() && spec_close(m, p).buys[i].0 == m.buy_lookup[p.order_id@].0 && 0 <= k
                    < spec_close(m, p).buys[i].1.len() ==> (#[trigger] spec_close(m, p).buys[i].1[k]).order_id@ != p.order_id@
        },
        p.side != 1 && m.sell_lookup.contains_key(p.order_id@) ==> {
            &&& !spec_close(m, p).sell_lookup.contains_key(p.order_id@)
            &&& forall|i: int, k: int|
                0 <= i < spec_close(m, p).sells.len() && spec_close(m, p).sells[i].0 == m.sell_lookup[p.order_id@].0 && 0
                    <= k < spec_close(m, p).sells[i].1.len() ==> (#[trigger] spec_close(m, p).sells[i].1[k]).order_id@
                    != p.order_id@
        },
{
    if p.side == 1 && m.buy_lookup.contains_key(p.order_id@) {
        lemma_drop_order_gone(m.buys, true, m.buy_lookup[p.order_id@].0, p.order_id@);
    } else if p.side != 1 && m.sell_lookup.contains_key(p.order_id@) {
        lemma_drop_order_gone(m.sells, false, m.sell_lookup[p.order_id@].0, p.order_id@);
    }
}

/// No order of level `s` carries id `id`.
pub open spec fn level_lacks(s: Seq<LimitOrderEventPayload>, id: IdView) -> bool {
    forall|k: int| 0 <= k < s.len() ==> (#[trigger] s[k]).order_id@ != id
}

/// No order resting on side `s` carries id `id`.
pub open spec fn side_lacks(s: Seq<LevelView>, id: IdView) -> bool {
    forall|i: int| 0 <= i < s.len() ==> level_lacks(#[trigger] s[i].1, id)
}

proof fn lemma_drop_from_level_absent(s: Seq<LimitOrderEventPayload>, id: IdView)
    requires
        level_lacks(s, id),
    ensures
        drop_from_level(s, id) == s,
    decreases s.len(),
{
    if s.len() > 0 {
        let t = s.drop_last();
        assert(level_lacks(t, id)) by {
            assert forall|k: int| 0 <= k < t.len() implies (#[trigger] t[k]).order_id@ != id by {
                assert(t[k] == s[k]);
            }
        }
        lemma_drop_from_level_absent(t, id);
        assert(s.last() == s[s.len() - 1]);
        assert(t.push(s.last()) =~= s);
    }
}

/// In a well-formed side the level at price `s[i].0` is level `i`, so the
/// order dropped at that price leaves that level.
proof fn lemma_drop_order_at(s: Seq<LevelView>, is_buy: bool, i: int, id: IdView)
    requires
        side_wf(s, is_buy),
        0 <= i < s.len(),
    ensures
        drop_order(s, s[i].0, id) == if drop_from_level(s[i].1, id).len() == 0 {
            s.remove(i)
        } else {
            s.update(i, (s[i].0, drop_from_level(s[i].1, id)))
        },
{
    assert(has_price(s, s[i].0));
    let c = choose|c: int| 0 <= c < s.len() && s[c].0 == s[i].0;
    if c < i {
        assert(better(is_buy, s[c].0, s[i].0));
    } else if c > i {
        assert(better(is_buy, s[i].0, s[c].0));
    }
    assert(c == i);
}

/// Dropping an order from a level other than the first keeps the first.
proof fn lemma_drop_order_cons(a: LevelView, r: Seq<LevelView>, is_buy: bool, price: u64, id: IdView)
    requires
        side_wf(seq![a] + r, is_buy),
        a.0 != price,
    ensures
        drop_order(seq![a] + r, price, id) == seq![a] + drop_order(r, price, id),
{
    let s = seq![a] + r;
    assert(s.drop_first() =~= r);
    lemma_tail_wf(s, is_buy);
    if has_price(r, price) {
        let j = choose|j: int| 0 <= j < r.len() && r[j].0 == price;
        assert(s[j + 1] == r[j]);
        lemma_drop_order_at(r, is_buy, j, id);
        lemma_drop_order_at(s, is_buy, j + 1, id);
        if drop_from_level(r[j].1, id).len() == 0 {
            assert(s.remove(j + 1) =~= seq![a] + r.remove(j));
        } else {
            assert(s.update(j + 1, (price, drop_from_level(r[j].1, id))) =~= seq![a] + r.update(j, (price, drop_from_level(r[j].1, id))));
        }
    } else {
        assert(!has_price(s, price)) by {
            if has_price(s, price) {
                let q = choose|q: int| 0 <= q < s.len() && s[q].0 == price;
                assert(q > 0);
                assert(r[q - 1] == s[q]);
            }
        }
    }
}

/// An order that rests on a side and is dropped again leaves the side as it
/// was, when no other order on it has the same id.
proof fn lemma_rest_then_drop(s: Seq<LevelView>, is_buy: bool, o: LimitOrderEventPayload)
    requires
        side_wf(s, is_buy),
        (o.side == 1) == is_buy,
        side_lacks(s, o.order_id@),
    ensures
        drop_order(rest_levels(s, is_buy, o), o.price, o.order_id@) == s,
    decreases s.len(),
{
    let id = o.order_id@;
    let r = rest_levels(s, is_buy, o);
    lemma_rest_levels_wf(s, is_buy, o);
    if s.len() == 0 {
        lemma_drop_order_at(r, is_buy, 0, id);
        assert(r[0].1 == seq![o]);
        assert(seq![o].drop_last() =~= Seq::<LimitOrderEventPayload>::empty());
        assert(drop_from_level(seq![o], id) == drop_from_level(Seq::<LimitOrderEventPayload>::empty(), id));
        assert(r.remove(0) =~= s);
    } else if s[0].0 == o.price {
        lemma_drop_order_at(r, is_buy, 0, id);
        let l = s[0].1;
        assert(r[0].1 == l.push(o));
        assert(l.push(o).drop_last() =~= l);
        assert(level_lacks(l, id));
        lemma_drop_from_level_absent(l, id);
        assert(drop_from_level(l.push(o), id) == l);
        assert(r.update(0, (s[0].0, l)) =~= s);
    } else if better(is_buy, o.price, s[0].0) {
        lemma_drop_order_at(r, is_buy, 0, id);
        assert(r[0].1 == seq![o]);
        assert(seq![o].drop_last() =~= Seq::<LimitOrderEventPayload>::empty());
        assert(drop_from_level(seq![o], id) == drop_from_level(Seq::<LimitOrderEventPayload>::empty(), id));
        assert(r.remove(0) =~= s);
    } else {
        let t = s.drop_first();
        lemma_tail_wf(s, is_buy);
        assert(side_lacks(t, id)) by {
            assert forall|i: int| 0 <= i < t.len() implies level_lacks(#[trigger] t[i].1, id) by {
                assert(t[i] == s[i + 1]);
            }
        }
        lemma_rest_then_drop(t, is_buy, o);
        assert(r == seq![s[0]] + rest_levels(t, is_buy, o));
        lemma_drop_order_cons(s[0], rest_levels(t, is_buy, o), is_buy, o.price, id);
        assert(seq![s[0]] + t =~= s);
    }
}

/// Closing a limit order right after it came to rest without meeting the
/// other side gives back the market as it was before the order: the order
/// leaves its level (and the level, if it was new), its terms are forgotten,
/// and its user's list is as before. This holds when the order's id was new
/// to the market and its user, if listed, had other orders.
pub proof fn law_close_undoes_resting_order(m: MarketView, o: LimitOrderEventPayload, p: ClosePayload)
    requires
        market_wf(m),
        spec_add_limit_order(m, o).1 == AddOutcome::Rested,
        p.order_id@ == o.order_id@,
        p.user_id@ == o.user_id@,
        (p.side == 1) == (o.side == 1),
        !m.buy_lookup.contains_key(o.order_id@),
        !m.sell_lookup.contains_key(o.order_id@),
        side_lacks(if o.side == 1 { m.buys } else { m.sells }, o.order_id@),
        m.user_orders.contains_key(o.user_id@) ==> !m.user_orders[o.user_id@].contains(o.order_id@)
            && !m.user_orders[o.user_id@].is_empty(),
    ensures
        spec_close(spec_add_limit_order(m, o).0, p) == m,
{
    let id = o.order_id@;
    let user = o.user_id@;
    let other = if o.side == 1 { m.sells } else { m.buys };
    if crosses(other, o.side == 1, o.price) {
        let left = fill_level(other[0].1, user, o.quantity as nat).1;
        if left > 0 {
            assert(spec_add_limit_order(m, o).1 == AddOutcome::PartiallyFilled(left as u64));
        } else {
            assert(spec_add_limit_order(m, o).1 == AddOutcome::Filled);
        }
    }
    let after = spec_add_limit_order(m, o).0;
    assert(after == rest_order(m, o));
    let r = spec_close(after, p);
    let u1 = with_order(m.user_orders, user, id);
    assert(u1[user].remove(id) =~= if m.user_orders.contains_key(user) { m.user_orders[user] } else { Set::<IdView>::empty() });
    if m.user_orders.contains_key(user) {
        assert(without_order(u1, user, id, true) =~= m.user_orders);
    } else {
        assert(without_order(u1, user, id, true) =~= m.user_orders);
    }
    if o.side == 1 {
        lemma_rest_then_drop(m.buys, true, o);
        assert(after.buy_lookup[id].0 == o.price);
        assert(after.buy_lookup.remove(id) =~= m.buy_lookup);
    } else {
        lemma_rest_then_drop(m.sells, false, o);
        assert(after.sell_lookup[id].0 == o.price);
        assert(after.sell_lookup.remove(id) =~= m.sell_lookup);
    }
    assert(r =~= m);
}

proof fn lemma_forget_all(m: MarketView, ids: Seq<IdView>)
    ensures
        forget_all(m, ids).user_orders == m.user_orders,
        forget_all(m, ids).symbol == m.symbol,
        forget_all(m, ids).last_price == m.last_price,
        forall|k: int| 0 <= k < ids.len() ==> !forget_all(m, ids).buy_lookup.contains_key(#[trigger] ids[k]),
        forall|k: int| 0 <= k < ids.len() ==> !forget_all(m, ids).sell_lookup.contains_key(#[trigger] ids[k]),
        forall|x: IdView| forget_all(m, ids).buy_lookup.contains_key(x) ==> m.buy_lookup.contains_key(x),
        forall|x: IdView| forget_all(m, ids).sell_lookup.contains_key(x) ==> m.sell_lookup.contains_key(x),
    decreases ids.len(),
{
    if ids.len() > 0 {
        lemma_forget_all(m, ids.drop_last());
        assert forall|k: int| 0 <= k < ids.len() implies !forget_all(m, ids).buy_lookup.contains_key(#[trigger] ids[k]) by {
            if k < ids.len() - 1 {
                assert(ids.drop_last()[k] == ids[k]);
            }
        }
        assert forall|k: int| 0 <= k < ids.len() implies !forget_all(m, ids).sell_lookup.contains_key(#[trigger] ids[k]) by {
            if k < ids.len() - 1 {
                assert(ids.drop_last()[k] == ids[k]);
            }
        }
    }
}

proof fn lemma_tail_wf(s: Seq<LevelView>, is_buy: bool)
    requires
        side_wf(s, is_buy),
        s.len() > 0,
    ensures
        side_wf(s.drop_first(), is_buy),
{
    let t = s.drop_first();
    assert forall|i: int, j: int| 0 <= i < j < t.len() implies better(is_buy, #[trigger] t[i].0, #[trigger] t[j].0) by {
        assert(t[i] == s[i + 1] && t[j] == s[j + 1]);
    }
    assert forall|i: int| 0 <= i < t.len() implies (#[trigger] t[i]).1.len() > 0 by {
        assert(t[i] == s[i + 1]);
    }
    assert forall|i: int, k: int| 0 <= i < t.len() && 0 <= k < t[i].1.len() implies (#[trigger] t[i].1[k]).price == t[i].0
        && (t[i].1[k].side == 1) == is_buy by {
        assert(t[i] == s[i + 1]);
    }
}

/// No two levels of `s` have the same price.
spec fn distinct_prices(s: Seq<LevelView>) -> bool {
    forall|i: int, j: int| 0 <= i < j < s.len() ==> #[trigger] s[i].0 != #[trigger] s[j].0
}

/// [`drop_order`] walked level by level.
spec fn drop_rec(s: Seq<LevelView>, price: u64, id: IdView) -> Seq<LevelView>
    decreases s.len(),
{
    if s.len() == 0 {
        s
    } else if s[0].0 == price {
        let kept = drop_from_level(s[0].1, id);
        if kept.len() == 0 {
            s.drop_first()
        } else {
            seq![(price, kept)] + s.drop_first()
        }
    } else {
        seq![s[0]] + drop_rec(s.drop_first(), price, id)
    }
}

proof fn lemma_drop_order_rec(s: Seq<LevelView>, is_buy: bool, price: u64, id: IdView)
    requires
        side_wf(s, is_buy),
    ensures
        drop_order(s, price, id) == drop_rec(s, price, id),
    decreases s.len(),
{
    if s.len() == 0 {
    } else if s[0].0 == price {
        lemma_drop_order_at(s, is_buy, 0, id);
        let kept = drop_from_level(s[0].1, id);
        if kept.len() == 0 {
            assert(s.remove(0) =~= s.drop_first());
        } else {
            assert(s.update(0, (price, kept)) =~= seq![(price, kept)] + s.drop_first());
        }
    } else {
        let t = s.drop_first();
        lemma_tail_wf(s, is_buy);
        lemma_drop_order_rec(t, is_buy, price, id);
        assert(seq![s[0]] + t =~= s);
        lemma_drop_order_cons(s[0], t, is_buy, price, id);
    }
}

proof fn lemma_drop_rec_absent(s: Seq<LevelView>, price: u64, id: IdView)
    requires
        forall|j: int| 0 <= j < s.len() ==> (#[trigger] s[j]).0 != price,
    ensures
        drop_rec(s, price, id) == s,
    decreases s.len(),
{
    if s.len() > 0 {
        let t = s.drop_first();
        assert forall|j: int| 0 <= j < t.len() implies (#[trigger] t[j]).0 != price by {
            assert(t[j] == s[j + 1]);
        }
        lemma_drop_rec_absent(t, price, id);
        assert(seq![s[0]] + t =~= s);
    }
}

proof fn lemma_drop_rec_cons(a: LevelView, u: Seq<LevelView>, price: u64, id: IdView)
    ensures
        drop_rec(seq![a] + u, price, id) == if a.0 == price {
            if drop_from_level(a.1, id).len() == 0 {
                u
            } else {
                seq![(price, drop_from_level(a.1, id))] + u
            }
        } else {
            seq![a] + drop_rec(u, price, id)
        },
{
    let s = seq![a] + u;
    assert(s[0] == a);
    assert(s.drop_first() =~= u);
}

proof fn lemma_drop_from_level_push(u: Seq<LimitOrderEventPayload>, e: LimitOrderEventPayload, id: IdView)
    ensures
        drop_from_level(u.push(e), id) == if e.order_id@ == id {
            drop_from_level(u, id)
        } else {
            drop_from_level(u, id).push(e)
        },
{
    assert(u.push(e).drop_last() =~= u);
    assert(u.push(e).last() == e);
}

proof fn lemma_drop_from_level_commute(l: Seq<LimitOrderEventPayload>, x: IdView, y: IdView)
    ensures
        drop_from_level(drop_from_level(l, x), y) == drop_from_level(drop_from_level(l, y), x),
    decreases l.len(),
{
    if l.len() > 0 {
        let u = l.drop_last();
        let e = l.last();
        assert(u.push(e) =~= l);
        lemma_drop_from_level_commute(u, x, y);
        lemma_drop_from_level_push(u, e, x);
        lemma_drop_from_level_push(u, e, y);
        lemma_drop_from_level_push(drop_from_level(u, x), e, y);
        lemma_drop_from_level_push(drop_from_level(u, y), e, x);
    }
}

proof fn lemma_drop_rec_commute(s: Seq<LevelView>, px: u64, x: IdView, py: u64, y: IdView)
    requires
        distinct_prices(s),
    ensures
        drop_rec(drop_rec(s, px, x), py, y) == drop_rec(drop_rec(s, py, y), px, x),
    decreases s.len(),
{
    if s.len() > 0 {
        let h = s[0];
        let t = s.drop_first();
        let p = h.0;
        assert(seq![h] + t =~= s);
        assert(distinct_prices(t)) by {
            assert forall|i: int, j: int| 0 <= i < j < t.len() implies #[trigger] t[i].0 != #[trigger] t[j].0 by {
                assert(t[i] == s[i + 1] && t[j] == s[j + 1]);
            }
        }
        assert forall|j: int| 0 <= j < t.len() implies (#[trigger] t[j]).0 != p by {
            assert(t[j] == s[j + 1]);
        }
        let k1 = drop_from_level(h.1, x);
        let k2 = drop_from_level(h.1, y);
        lemma_drop_from_level_commute(h.1, x, y);
        if p == px && p == py {
            lemma_drop_rec_absent(t, py, y);
            lemma_drop_rec_absent(t, px, x);
            lemma_drop_rec_cons((p, k1), t, py, y);
            lemma_drop_rec_cons((p, k2), t, px, x);
        } else if p == px {
            lemma_drop_rec_cons(h, t, py, y);
            lemma_drop_rec_cons((p, k1), drop_rec(t, py, y), py, y);
            lemma_drop_rec_cons((p, k1), t, py, y);
            lemma_drop_rec_cons(h, drop_rec(t, py, y), px, x);
        } else if p == py {
            lemma_drop_rec_cons(h, t, px, x);
            lemma_drop_rec_cons((p, k2), drop_rec(t, px, x), px, x);
            lemma_drop_rec_cons((p, k2), t, px, x);
            lemma_drop_rec_cons(h, drop_rec(t, px, x), py, y);
        } else {
            lemma_drop_rec_commute(t, px, x, py, y);
            lemma_drop_rec_cons(h, drop_rec(t, px, x), py, y);
            lemma_drop_rec_cons(h, drop_rec(t, py, y), px, x);
        }
    }
}

/// The side after order `id` is dropped at the price that `lookup` records
/// for it, when it records one.
spec fn forget_side(s: Seq<LevelView>, lookup: Map<IdView, OrderTerms>, id: IdView) -> Seq<LevelView> {
    if lookup.contains_key(id) {
        drop_order(s, lookup[id].0, id)
    } else {
        s
    }
}

proof fn lemma_forget_side_commute(s: Seq<LevelView>, is_buy: bool, lookup: Map<IdView, OrderTerms>, x: IdView, y: IdView)
    requires
        side_wf(s, is_buy),
    ensures
        side_wf(forget_side(s, lookup, x), is_buy),
        forget_side(forget_side(s, lookup, x), lookup, y) == forget_side(forget_side(s, lookup, y), lookup, x),
{
    let sx = forget_side(s, lookup, x);
    let sy = forget_side(s, lookup, y);
    if lookup.contains_key(x) {
        lemma_drop_order_wf(s, is_buy, lookup[x].0, x);
        lemma_drop_order_rec(s, is_buy, lookup[x].0, x);
    }
    if lookup.contains_key(y) {
        lemma_drop_order_wf(s, is_buy, lookup[y].0, y);
        lemma_drop_order_rec(s, is_buy, lookup[y].0, y);
    }
    if lookup.contains_key(x) && lookup.contains_key(y) {
        lemma_drop_order_rec(sx, is_buy, lookup[y].0, y);
        lemma_drop_order_rec(sy, is_buy, lookup[x].0, x);
        assert(distinct_prices(s)) by {
            assert forall|i: int, j: int| 0 <= i < j < s.len() implies #[trigger] s[i].0 != #[trigger] s[j].0 by {
                assert(better(is_buy, s[i].0, s[j].0));
            }
        }
        lemma_drop_rec_commute(s, lookup[x].0, x, lookup[y].0, y);
    }
}

proof fn lemma_forget_wf(m: MarketView, id: IdView)
    requires
        market_wf(m),
    ensures
        market_wf(forget_everywhere(m, id)),
        forget_everywhere(m, id).buys == forget_side(m.buys, m.buy_lookup, id),
        forget_everywhere(m, id).sells == forget_side(m.sells, m.sell_lookup, id),
        forget_everywhere(m, id).buy_lookup == m.buy_lookup.remove(id),
        forget_everywhere(m, id).sell_lookup == m.sell_lookup.remove(id),
        forget_everywhere(m, id).user_orders == m.user_orders,
        forget_everywhere(m, id).symbol == m.symbol,
        forget_everywhere(m, id).last_price == m.last_price,
{
    lemma_forget_side_commute(m.buys, true, m.buy_lookup, id, id);
    lemma_forget_side_commute(m.sells, false, m.sell_lookup, id, id);
    if !m.buy_lookup.contains_key(id) {
        assert(m.buy_lookup.remove(id) =~= m.buy_lookup);
    }
    if !m.sell_lookup.contains_key(id) {
        assert(m.sell_lookup.remove(id) =~= m.sell_lookup);
    }
}

proof fn lemma_forget_commute(m: MarketView, x: IdView, y: IdView)
    requires
        market_wf(m),
        x != y,
    ensures
        forget_everywhere(forget_everywhere(m, x), y) == forget_everywhere(forget_everywhere(m, y), x),
{
    let mx = forget_everywhere(m, x);
    let my = forget_everywhere(m, y);
    lemma_forget_wf(m, x);
    lemma_forget_wf(m, y);
    lemma_forget_wf(mx, y);
    lemma_forget_wf(my, x);
    lemma_forget_side_commute(m.buys, true, m.buy_lookup, x, y);
    lemma_forget_side_commute(m.sells, false, m.sell_lookup, x, y);
    assert(forget_side(mx.buys, mx.buy_lookup, y) == forget_side(mx.buys, m.buy_lookup, y));
    assert(forget_side(my.buys, my.buy_lookup, x) == forget_side(my.buys, m.buy_lookup, x));
    assert(forget_side(mx.sells, mx.sell_lookup, y) == forget_side(mx.sells, m.sell_lookup, y));
    assert(forget_side(my.sells, my.sell_lookup, x) == forget_side(my.sells, m.sell_lookup, x));
    assert(m.buy_lookup.remove(x).remove(y) =~= m.buy_lookup.remove(y).remove(x));
    assert(m.sell_lookup.remove(x).remove(y) =~= m.sell_lookup.remove(y).remove(x));
    assert(forget_everywhere(mx, y) =~= forget_everywhere(my, x));
}

proof fn lemma_forget_all_wf(m: MarketView, ids: Seq<IdView>)
    requires
        market_wf(m),
    ensures
        market_wf(forget_all(m, ids)),
    decreases ids.len(),
{
    if ids.len() > 0 {
        lemma_forget_all_wf(m, ids.drop_last());
        lemma_forget_wf(forget_all(m, ids.drop_last()), ids.last());
    }
}

/// Forgetting the ids of `ids` in turn is forgetting `ids[k]` last.
proof fn lemma_forget_all_move(m: MarketView, ids: Seq<IdView>, k: int)
    requires
        market_wf(m),
        ids.no_duplicates(),
        0 <= k < ids.len(),
    ensures
        forget_all(m, ids) == forget_everywhere(forget_all(m, ids.remove(k)), ids[k]),
    decreases ids.len(),
{
    let n = ids.len();
    if k == n - 1 {
        assert(ids.remove(k) =~= ids.drop_last());
    } else {
        let d = ids.drop_last();
        assert(d.no_duplicates()) by {
            assert forall|i: int, j: int| 0 <= i < d.len() && 0 <= j < d.len() && i != j implies d[i] != d[j] by {
                assert(d[i] == ids[i] && d[j] == ids[j]);
            }
        }
        assert(d[k] == ids[k]);
        lemma_forget_all_move(m, d, k);
        let a = forget_all(m, d.remove(k));
        lemma_forget_all_wf(m, d.remove(k));
        lemma_forget_commute(a, ids[k], ids.last());
        assert(d.remove(k).push(ids.last()) =~= ids.remove(k));
        let r = ids.remove(k);
        assert(r.drop_last() =~= d.remove(k));
        assert(r.last() == ids.last());
    }
}

proof fn lemma_to_set_drop(a: Seq<IdView>, k: int)
    requires
        a.no_duplicates(),
        0 <= k < a.len(),
    ensures
        a.remove(k).to_set() == a.to_set().remove(a[k]),
        a.remove(k).no_duplicates(),
{
    let r = a.remove(k);
    assert forall|x: IdView| r.to_set().contains(x) <==> a.to_set().remove(a[k]).contains(x) by {
        if r.to_set().contains(x) {
            let i = choose|i: int| 0 <= i < r.len() && r[i] == x;
            let i2 = if i < k { i } else { i + 1 };
            assert(a[i2] == x);
            assert(a.to_set().contains(x));
        }
        if a.to_set().remove(a[k]).contains(x) {
            let i = choose|i: int| 0 <= i < a.len() && a[i] == x;
            assert(i != k);
            let i2 = if i < k { i } else { i - 1 };
            assert(r[i2] == x);
            assert(r.to_set().contains(x));
        }
    }
    assert(r.to_set() =~= a.to_set().remove(a[k]));
    assert forall|i: int, j: int| 0 <= i < r.len() && 0 <= j < r.len() && i != j implies r[i] != r[j] by {
        let i2 = if i < k { i } else { i + 1 };
        let j2 = if j < k { j } else { j + 1 };
        assert(r[i] == a[i2] && r[j] == a[j2]);
    }
}

/// Forgetting the same ids, each once, in two orders gives the same market.
proof fn lemma_forget_all_perm(m: MarketView, a: Seq<IdView>, b: Seq<IdView>)
    requires
        market_wf(m),
        a.no_duplicates(),
        b.no_duplicates(),
        a.to_set() == b.to_set(),
    ensures
        forget_all(m, a) == forget_all(m, b),
    decreases a.len(),
{
    if a.len() == 0 {
        if b.len() > 0 {
            assert(b.to_set().contains(b[0]));
        }
    } else {
        let z = a.last();
        assert(a.to_set().contains(z));
        assert(b.to_set().contains(z));
        let k = choose|k: int| 0 <= k < b.len() && b[k] == z;
        lemma_forget_all_move(m, b, k);
        lemma_to_set_drop(a, a.len() - 1);
        lemma_to_set_drop(b, k);
        assert(a.remove(a.len() - 1) =~= a.drop_last());
        lemma_forget_all_perm(m, a.drop_last(), b.remove(k));
    }
}

/// Closing all orders of a user gives one market whatever order the user's
/// order ids are taken in.
pub proof fn law_close_all_order_free(
    m: MarketView,
    user: IdView,
    after1: MarketView,
    ids1: Seq<IdView>,
    after2: MarketView,
    ids2: Seq<IdView>,
)
    requires
        market_wf(m),
        closes_all_in_order(m, user, after1, ids1),
        closes_all_in_order(m, user, after2, ids2),
    ensures
        after1 == after2,
{
    if m.user_orders.contains_key(user) {
        lemma_forget_all_perm(MarketView { user_orders: m.user_orders.remove(user), ..m }, ids1, ids2);
    }
}

proof fn lemma_rest_levels_keeps(s: Seq<LevelView>, is_buy: bool, o: LimitOrderEventPayload)
    ensures
        forall|id: IdView| rests_on(s, id) ==> #[trigger] rests_on(rest_levels(s, is_buy, o), id),
        rests_on(rest_levels(s, is_buy, o), o.order_id@),
    decreases s.len(),
{
    let r = rest_levels(s, is_buy, o);
    lemma_rest_levels_holds(s, is_buy, o);
    let i0 = choose|i: int| 0 <= i < r.len() && (#[trigger] r[i]).0 == o.price && r[i].1.len() > 0 && r[i].1.last() == o;
    assert(r[i0].1[r[i0].1.len() - 1].order_id@ == o.order_id@);
    if s.len() == 0 {
    } else if s[0].0 == o.price {
        assert forall|id: IdView| rests_on(s, id) implies #[trigger] rests_on(r, id) by {
            let (i, k) = choose|i: int, k: int| 0 <= i < s.len() && 0 <= k < s[i].1.len() && (#[trigger] s[i].1[k]).order_id@ == id;
            if i == 0 {
                assert(r[0].1[k] == s[0].1[k]);
            } else {
                assert(r[i] == s[i]);
            }
        }
    } else if better(is_buy, o.price, s[0].0) {
        assert forall|id: IdView| rests_on(s, id) implies #[trigger] rests_on(r, id) by {
            let (i, k) = choose|i: int, k: int| 0 <= i < s.len() && 0 <= k < s[i].1.len() && (#[trigger] s[i].1[k]).order_id@ == id;
            assert(r[i + 1] == s[i]);
        }
    } else {
        let t = s.drop_first();
        lemma_rest_levels_keeps(t, is_buy, o);
        let rt = rest_levels(t, is_buy, o);
        assert(r == seq![s[0]] + rt);
        assert forall|id: IdView| rests_on(s, id) implies #[trigger] rests_on(r, id) by {
            let (i, k) = choose|i: int, k: int| 0 <= i < s.len() && 0 <= k < s[i].1.len() && (#[trigger] s[i].1[k]).order_id@ == id;
            if i == 0 {
                assert(r[0] == s[0]);
            } else {
                assert(t[i - 1] == s[i]);
                assert(t[i - 1].1[k].order_id@ == id);
                assert(rests_on(t, id));
                assert(rests_on(rt, id));
                let (i2, k2) = choose|i2: int, k2: int| 0 <= i2 < rt.len() && 0 <= k2 < rt[i2].1.len() && (#[trigger] rt[i2].1[k2]).order_id@ == id;
                assert(r[i2 + 1] == rt[i2]);
            }
        }
    }
}

proof fn lemma_rest_order_current(m: MarketView, o: LimitOrderEventPayload)
    requires
        lookups_current(m),
    ensures
        lookups_current(rest_order(m, o)),
{
    let r = rest_order(m, o);
    if o.side == 1 {
        lemma_rest_levels_keeps(m.buys, true, o);
        assert forall|id: IdView| #[trigger] r.buy_lookup.contains_key(id) implies rests_on(r.buys, id) by {
            if id != o.order_id@ {
                assert(rests_on(m.buys, id));
            }
        }
    } else {
        lemma_rest_levels_keeps(m.sells, false, o);
        assert forall|id: IdView| #[trigger] r.sell_lookup.contains_key(id) implies rests_on(r.sells, id) by {
            if id != o.order_id@ {
                assert(rests_on(m.sells, id));
            }
        }
    }
}

/// Some order of level `s` has id `id`.
pub open spec fn level_has_id(s: Seq<LimitOrderEventPayload>, id: IdView) -> bool {
    exists|k: int| 0 <= k < s.len() && (#[trigger] s[k]).order_id@ == id
}

/// Every order of a level that a fill does not consume whole stays in it,
/// by id.
proof fn lemma_fill_partition(s: Seq<LimitOrderEventPayload>, user: IdView, q: nat)
    ensures
        forall|j: int|
            0 <= j < s.len() ==> level_has_id(fill_run(s, user, q).0, (#[trigger] s[j]).order_id@) || level_has_id(
                fill_gone(s, user, q),
                s[j].order_id@,
            ),
    decreases s.len(),
{
    if s.len() > 0 {
        let t = s.drop_last();
        lemma_fill_partition(t, user, q);
        let kt = fill_run(t, user, q).0;
        let gt = fill_gone(t, user, q);
        let ks = fill_run(s, user, q).0;
        let gs = fill_gone(s, user, q);
        let o = s.last();
        let r = fill_run(t, user, q).1;
        if o.user_id@ == user || r == 0 || r < o.quantity {
            assert(ks == kt.push(if o.user_id@ == user || r == 0 { o } else { with_quantity(o, (o.quantity - r) as u64) }));
            assert(gs == gt);
        } else {
            assert(ks == kt);
            assert(gs == gt.push(o));
        }
        assert forall|j: int| 0 <= j < s.len() implies level_has_id(ks, (#[trigger] s[j]).order_id@) || level_has_id(
            gs,
            s[j].order_id@,
        ) by {
            if j < s.len() - 1 {
                assert(t[j] == s[j]);
                if level_has_id(kt, t[j].order_id@) {
                    let k = choose|k: int| 0 <= k < kt.len() && (#[trigger] kt[k]).order_id@ == t[j].order_id@;
                    assert(ks[k] == kt[k]);
                } else {
                    let k = choose|k: int| 0 <= k < gt.len() && (#[trigger] gt[k]).order_id@ == t[j].order_id@;
                    assert(gs[k] == gt[k]);
                }
            } else {
                if o.user_id@ == user || r == 0 || r < o.quantity {
                    assert(ks[ks.len() - 1].order_id@ == o.order_id@);
                } else {
                    assert(gs[gs.len() - 1] == o);
                }
            }
        }
    }
}

proof fn lemma_fill_best_current(m: MarketView, o: LimitOrderEventPayload, q: nat)
    requires
        market_wf(m),
        lookups_current(m),
        opposite(m, o.side == 1).len() > 0,
    ensures
        lookups_current(fill_best(m, o, q).0),
{
    let is_buy = o.side == 1;
    let other = opposite(m, is_buy);
    let lvl = other[0].1;
    let gone = level_gone(lvl, o.user_id@, q);
    let other2 = side_after_fill(other, o.user_id@, q);
    let lk = if is_buy { m.sell_lookup } else { m.buy_lookup };
    let lk2 = forget_lookup(lk, gone);
    lemma_forget_lookup_gone(lk, gone);
    lemma_fill_partition(lvl, o.user_id@, q);
    assert forall|id: IdView| #[trigger] lk2.contains_key(id) implies rests_on(other2, id) by {
        assert(lk.contains_key(id));
        assert(rests_on(other, id));
        let (i, k) = choose|i: int, k: int| 0 <= i < other.len() && 0 <= k < other[i].1.len() && (#[trigger] other[i].1[k]).order_id@ == id;
        match fill_level(lvl, o.user_id@, q).0 {
            Some(kept) => {
                if i == 0 {
                    assert(total_qty(lvl) > q);
                    assert(kept == fill_run(lvl, o.user_id@, q).0);
                    assert(lvl[k] == other[0].1[k]);
                    if level_has_id(gone, lvl[k].order_id@) {
                        let k2 = choose|k2: int| 0 <= k2 < gone.len() && (#[trigger] gone[k2]).order_id@ == lvl[k].order_id@;
                        assert(!lk2.contains_key(gone[k2].order_id@));
                    }
                    assert(level_has_id(kept, lvl[k].order_id@));
                    let k2 = choose|k2: int| 0 <= k2 < kept.len() && (#[trigger] kept[k2]).order_id@ == lvl[k].order_id@;
                    assert(other2[0].1[k2] == kept[k2]);
                } else {
                    assert(other2[i] == other[i]);
                }
            },
            None => {
                assert(gone == lvl);
                if i == 0 {
                    assert(!lk2.contains_key(gone[k].order_id@));
                }
                assert(other2[i - 1] == other[i]);
            },
        }
    }
}

proof fn lemma_fill_sweep_current(m: MarketView, o: LimitOrderEventPayload, q: nat)
    requires
        market_wf(m),
        lookups_current(m),
    ensures
        lookups_current(fill_sweep(m, o, q).0),
    decreases opposite(m, o.side == 1).len(),
{
    if opposite(m, o.side == 1).len() > 0 {
        lemma_fill_best(m, o, q);
        lemma_fill_best_current(m, o, q);
        let (m2, left, whole) = fill_best(m, o, q);
        if whole && left > 0 && crosses(opposite(m2, o.side == 1), o.side == 1, o.price) {
            lemma_fill_sweep_current(m2, o, left);
        }
    }
}

/// Placing a limit order leaves no lookup recording an order that has left
/// the book.
proof fn lemma_add_limit_order_current(m: MarketView, o: LimitOrderEventPayload)
    requires
        market_wf(m),
        lookups_current(m),
    ensures
        lookups_current(spec_add_limit_order(m, o).0),
{
    if !crosses(opposite(m, o.side == 1), o.side == 1, o.price) {
        lemma_rest_order_current(m, o);
    } else {
        lemma_fill_sweep_current(m, o, o.quantity as nat);
        let (m2, left) = fill_sweep(m, o, o.quantity as nat);
        if left > 0 {
            lemma_rest_order_current(m2, with_quantity(o, left as u64));
        }
    }
}

proof fn lemma_take_partition(s: Seq<LimitOrderEventPayload>, q: nat)
    ensures
        forall|j: int|
            0 <= j < s.len() ==> level_has_id(take_run(s, q).0, (#[trigger] s[j]).order_id@) || level_has_id(
                take_run(s, q).1,
                s[j].order_id@,
            ),
    decreases s.len(),
{
    if s.len() > 0 {
        let t = s.drop_last();
        lemma_take_partition(t, q);
        let (kt, ct, r) = take_run(t, q);
        let (ks, cs, _) = take_run(s, q);
        let o = s.last();
        assert forall|j: int| 0 <= j < s.len() implies level_has_id(ks, (#[trigger] s[j]).order_id@) || level_has_id(
            cs,
            s[j].order_id@,
        ) by {
            if j < s.len() - 1 {
                assert(t[j] == s[j]);
                if level_has_id(kt, t[j].order_id@) {
                    let k = choose|k: int| 0 <= k < kt.len() && (#[trigger] kt[k]).order_id@ == t[j].order_id@;
                    assert(ks[k] == kt[k]);
                } else {
                    let k = choose|k: int| 0 <= k < ct.len() && (#[trigger] ct[k]).order_id@ == t[j].order_id@;
                    assert(cs[k] == ct[k]);
                }
            } else {
                if o.quantity <= r {
                    assert(cs[cs.len() - 1] == o);
                } else {
                    assert(ks[ks.len() - 1].order_id@ == o.order_id@);
                }
            }
        }
    }
}

proof fn lemma_sweep_keeps(s: Seq<LevelView>, q: nat)
    ensures
        forall|id: IdView|
            rests_on(s, id) && !level_has_id(sweep(s, q).2, id) ==> #[trigger] rests_on(sweep(s, q).0, id),
    decreases s.len(),
{
    if q == 0 || s.len() == 0 {
    } else if total_qty(s[0].1) > q {
        let (kept, consumed, r) = take_run(s[0].1, q);
        let out = sweep(s, q).0;
        lemma_take_partition(s[0].1, q);
        assert forall|id: IdView| rests_on(s, id) && !level_has_id(sweep(s, q).2, id) implies #[trigger] rests_on(out, id) by {
            let (i, k) = choose|i: int, k: int| 0 <= i < s.len() && 0 <= k < s[i].1.len() && (#[trigger] s[i].1[k]).order_id@ == id;
            if i == 0 {
                assert(s[0].1[k] == s[i].1[k]);
                assert(level_has_id(kept, id));
                let k2 = choose|k2: int| 0 <= k2 < kept.len() && (#[trigger] kept[k2]).order_id@ == id;
                assert(out[0].1[k2] == kept[k2]);
            } else if kept.len() > 0 {
                assert(out[i] == s[i]);
            } else {
                assert(out[i - 1] == s[i]);
            }
        }
    } else {
        let t = s.drop_first();
        let q2 = (q - total_qty(s[0].1)) as nat;
        lemma_sweep_keeps(t, q2);
        let rest = sweep(t, q2);
        let gone = sweep(s, q).2;
        assert(gone == s[0].1 + rest.2);
        assert forall|id: IdView| rests_on(s, id) && !level_has_id(gone, id) implies #[trigger] rests_on(sweep(s, q).0, id) by {
            let (i, k) = choose|i: int, k: int| 0 <= i < s.len() && 0 <= k < s[i].1.len() && (#[trigger] s[i].1[k]).order_id@ == id;
            if i == 0 {
                assert(gone[k] == s[0].1[k]);
            } else {
                assert(t[i - 1] == s[i]);
                assert(t[i - 1].1[k].order_id@ == id);
                if level_has_id(rest.2, id) {
                    let k2 = choose|k2: int| 0 <= k2 < rest.2.len() && (#[trigger] rest.2[k2]).order_id@ == id;
                    assert(gone[s[0].1.len() + k2] == rest.2[k2]);
                }
            }
        }
    }
}

proof fn lemma_market_current(m: MarketView, p: MarketPayload)
    requires
        lookups_current(m),
    ensures
        lookups_current(spec_market(m, p).0),
{
    let side = opposite(m, p.side == 1);
    let sw = sweep(side, p.quantity as nat);
    lemma_sweep_keeps(side, p.quantity as nat);
    let lk = if p.side == 1 { m.sell_lookup } else { m.buy_lookup };
    lemma_forget_lookup_gone(lk, sw.2);
    assert forall|id: IdView| #[trigger] forget_lookup(lk, sw.2).contains_key(id) implies rests_on(sw.0, id) by {
        assert(lk.contains_key(id));
        if level_has_id(sw.2, id) {
            let k = choose|k: int| 0 <= k < sw.2.len() && (#[trigger] sw.2[k]).order_id@ == id;
        }
        assert(rests_on(side, id));
    }
}

proof fn lemma_drop_from_level_keeps(s: Seq<LimitOrderEventPayload>, id: IdView)
    ensures
        forall|j: int| 0 <= j < s.len() && (#[trigger] s[j]).order_id@ != id ==> level_has_id(drop_from_level(s, id), s[j].order_id@),
    decreases s.len(),
{
    if s.len() > 0 {
        let t = s.drop_last();
        lemma_drop_from_level_keeps(t, id);
        let dt = drop_from_level(t, id);
        let ds = drop_from_level(s, id);
        assert forall|j: int| 0 <= j < s.len() && (#[trigger] s[j]).order_id@ != id implies level_has_id(ds, s[j].order_id@) by {
            if j < s.len() - 1 {
                assert(t[j] == s[j]);
                let k = choose|k: int| 0 <= k < dt.len() && (#[trigger] dt[k]).order_id@ == t[j].order_id@;
                if s.last().order_id@ == id {
                    assert(ds == dt);
                } else {
                    assert(ds == dt.push(s.last()));
                    assert(ds[k] == dt[k]);
                }
            } else {
                assert(ds == dt.push(s.last()));
                assert(ds[dt.len() as int] == s[j]);
            }
        }
    }
}

proof fn lemma_drop_rec_keeps(s: Seq<LevelView>, price: u64, id: IdView)
    ensures
        forall|x: IdView| x != id && rests_on(s, x) ==> #[trigger] rests_on(drop_rec(s, price, id), x),
    decreases s.len(),
{
    if s.len() > 0 {
        let t = s.drop_first();
        let out = drop_rec(s, price, id);
        if s[0].0 == price {
            let kept = drop_from_level(s[0].1, id);
            lemma_drop_from_level_keeps(s[0].1, id);
            assert forall|x: IdView| x != id && rests_on(s, x) implies #[trigger] rests_on(out, x) by {
                let (i, k) = choose|i: int, k: int| 0 <= i < s.len() && 0 <= k < s[i].1.len() && (#[trigger] s[i].1[k]).order_id@ == x;
                if i == 0 {
                    assert(s[0].1[k] == s[i].1[k]);
                    assert(level_has_id(kept, x));
                    let k2 = choose|k2: int| 0 <= k2 < kept.len() && (#[trigger] kept[k2]).order_id@ == x;
                    assert(out[0].1[k2] == kept[k2]);
                } else if kept.len() == 0 {
                    assert(out[i - 1] == s[i]);
                } else {
                    assert(out[i] == s[i]);
                }
            }
        } else {
            lemma_drop_rec_keeps(t, price, id);
            let rt = drop_rec(t, price, id);
            assert forall|x: IdView| x != id && rests_on(s, x) implies #[trigger] rests_on(out, x) by {
                let (i, k) = choose|i: int, k: int| 0 <= i < s.len() && 0 <= k < s[i].1.len() && (#[trigger] s[i].1[k]).order_id@ == x;
                if i == 0 {
                    assert(out[0] == s[0]);
                } else {
                    assert(t[i - 1] == s[i]);
                    assert(t[i - 1].1[k].order_id@ == x);
                    assert(rests_on(rt, x));
                    let (i2, k2) = choose|i2: int, k2: int| 0 <= i2 < rt.len() && 0 <= k2 < rt[i2].1.len() && (#[trigger] rt[i2].1[k2]).order_id@ == x;
                    assert(out[i2 + 1] == rt[i2]);
                }
            }
        }
    }
}

proof fn lemma_drop_order_keeps(s: Seq<LevelView>, is_buy: bool, price: u64, id: IdView)
    requires
        side_wf(s, is_buy),
    ensures
        side_wf(drop_order(s, price, id), is_buy),
        forall|x: IdView| x != id && rests_on(s, x) ==> #[trigger] rests_on(drop_order(s, price, id), x),
{
    lemma_drop_order_wf(s, is_buy, price, id);
    lemma_drop_order_rec(s, is_buy, price, id);
    lemma_drop_rec_keeps(s, price, id);
}

proof fn lemma_close_current(m: MarketView, p: ClosePayload)
    requires
        market_wf(m),
        lookups_current(m),
    ensures
        lookups_current(spec_close(m, p)),
{
    let id = p.order_id@;
    if p.side == 1 && m.buy_lookup.contains_key(id) {
        lemma_drop_order_keeps(m.buys, true, m.buy_lookup[id].0, id);
    } else if p.side != 1 && m.sell_lookup.contains_key(id) {
        lemma_drop_order_keeps(m.sells, false, m.sell_lookup[id].0, id);
    }
}

proof fn lemma_forget_current(m: MarketView, id: IdView)
    requires
        market_wf(m),
        lookups_current(m),
    ensures
        lookups_current(forget_everywhere(m, id)),
{
    if m.buy_lookup.contains_key(id) {
        lemma_drop_order_keeps(m.buys, true, m.buy_lookup[id].0, id);
    }
    if m.sell_lookup.contains_key(id) {
        lemma_drop_order_keeps(m.sells, false, m.sell_lookup[id].0, id);
    }
}

proof fn lemma_forget_all_current(m: MarketView, ids: Seq<IdView>)
    requires
        market_wf(m),
        lookups_current(m),
    ensures
        lookups_current(forget_all(m, ids)),
    decreases ids.len(),
{
    if ids.len() > 0 {
        lemma_forget_all_current(m, ids.drop_last());
        lemma_forget_all_wf(m, ids.drop_last());
        lemma_forget_current(forget_all(m, ids.drop_last()), ids.last());
    }
}

proof fn lemma_modify_current(m: MarketView, p: ModifyPayload)
    requires
        lookups_current(m),
    ensures
        lookups_current(spec_modify(m, p)),
{
    law_modify_keeps_book(m, p);
    let r = spec_modify(m, p);
    assert forall|id: IdView| #[trigger] r.buy_lookup.contains_key(id) implies rests_on(r.buys, id) by {
        assert(r.buy_lookup.dom().contains(id));
        assert(m.buy_lookup.contains_key(id));
    }
    assert forall|id: IdView| #[trigger] r.sell_lookup.contains_key(id) implies rests_on(r.sells, id) by {
        assert(r.sell_lookup.dom().contains(id));
        assert(m.sell_lookup.contains_key(id));
    }
}

/// The orders resting on side `s`, level after level.
pub open spec fn resting(s: Seq<LevelView>) -> Seq<LimitOrderEventPayload>
    decreases s.len(),
{
    if s.len() == 0 {
        Seq::empty()
    } else {
        s[0].1 + resting(s.drop_first())
    }
}

/// How many orders of `l` have id `id`.
pub open spec fn id_count(l: Seq<LimitOrderEventPayload>, id: IdView) -> nat
    decreases l.len(),
{
    if l.len() == 0 {
        0
    } else {
        id_count(l.drop_last(), id) + if l.last().order_id@ == id {
            1nat
        } else {
            0nat
        }
    }
}

/// `x` rests on one of the two sides of `m`.
pub open spec fn rests_in(m: MarketView, x: LimitOrderEventPayload) -> bool {
    resting(m.buys).contains(x) || resting(m.sells).contains(x)
}

/// The book, the lookups and the user lists of `m` agree: no id rests twice;
/// every resting order is recorded in its side's lookup at its price and
/// listed for its user; every id a lookup records rests on its side; and
/// every id a user's list holds belongs to an order of that user that rests.
pub open spec fn book_agrees(m: MarketView) -> bool {
    &&& forall|id: IdView| #[trigger] id_count(resting(m.buys), id) + id_count(resting(m.sells), id) <= 1
    &&& forall|x: LimitOrderEventPayload|
        #[trigger] resting(m.buys).contains(x) ==> m.buy_lookup.contains_key(x.order_id@) && m.buy_lookup[x.order_id@].0
            == x.price && m.user_orders.contains_key(x.user_id@) && m.user_orders[x.user_id@].contains(x.order_id@)
    &&& forall|x: LimitOrderEventPayload|
        #[trigger] resting(m.sells).contains(x) ==> m.sell_lookup.contains_key(x.order_id@) && m.sell_lookup[x.order_id@].0
            == x.price && m.user_orders.contains_key(x.user_id@) && m.user_orders[x.user_id@].contains(x.order_id@)
    &&& forall|id: IdView| #[trigger] m.buy_lookup.contains_key(id) ==> id_count(resting(m.buys), id) > 0
    &&& forall|id: IdView| #[trigger] m.sell_lookup.contains_key(id) ==> id_count(resting(m.sells), id) > 0
    &&& forall|us: IdView, id: IdView|
        m.user_orders.contains_key(us) && #[trigger] m.user_orders[us].contains(id) ==> exists|x: LimitOrderEventPayload|
            #[trigger] rests_in(m, x) && x.order_id@ == id && x.user_id@ == us
}

proof fn lemma_id_count_concat(a: Seq<LimitOrderEventPayload>, b: Seq<LimitOrderEventPayload>, id: IdView)
    ensures
        id_count(a + b, id) == id_count(a, id) + id_count(b, id),
    decreases b.len(),
{
    if b.len() > 0 {
        lemma_id_count_concat(a, b.drop_last(), id);
        assert((a + b).drop_last() =~= a + b.drop_last());
        assert((a + b).last() == b.last());
    } else {
        assert(a + b =~= a);
    }
}

proof fn lemma_id_count_contains(l: Seq<LimitOrderEventPayload>, x: LimitOrderEventPayload)
    requires
        l.contains(x),
    ensures
        id_count(l, x.order_id@) > 0,
    decreases l.len(),
{
    let t = l.drop_last();
    if l.last() != x {
        let k = choose|k: int| 0 <= k < l.len() && l[k] == x;
        assert(k < l.len() - 1);
        assert(t[k] == x);
        lemma_id_count_contains(t, x);
    }
}

proof fn lemma_id_count_witness(l: Seq<LimitOrderEventPayload>, id: IdView)
    requires
        id_count(l, id) > 0,
    ensures
        exists|k: int| 0 <= k < l.len() && (#[trigger] l[k]).order_id@ == id,
    decreases l.len(),
{
    let t = l.drop_last();
    if l.last().order_id@ != id {
        lemma_id_count_witness(t, id);
        let k = choose|k: int| 0 <= k < t.len() && (#[trigger] t[k]).order_id@ == id;
        assert(l[k] == t[k]);
    } else {
        assert(l[l.len() - 1].order_id@ == id);
    }
}

proof fn lemma_contains_concat(a: Seq<LimitOrderEventPayload>, b: Seq<LimitOrderEventPayload>)
    ensures
        forall|x: LimitOrderEventPayload| #[trigger] (a + b).contains(x) <==> a.contains(x) || b.contains(x),
{
    assert forall|x: LimitOrderEventPayload| #[trigger] (a + b).contains(x) <==> a.contains(x) || b.contains(x) by {
        if (a + b).contains(x) {
            let k = choose|k: int| 0 <= k < (a + b).len() && (a + b)[k] == x;
            if k < a.len() {
                assert(a[k] == x);
            } else {
                assert(b[k - a.len()] == x);
            }
        }
        if a.contains(x) {
            let k = choose|k: int| 0 <= k < a.len() && a[k] == x;
            assert((a + b)[k] == x);
        }
        if b.contains(x) {
            let k = choose|k: int| 0 <= k < b.len() && b[k] == x;
            assert((a + b)[a.len() + k] == x);
        }
    }
}

/// The orders of a side once an order rests on it: the old ones and the new.
proof fn lemma_rest_levels_resting(s: Seq<LevelView>, is_buy: bool, w: LimitOrderEventPayload)
    ensures
        forall|x: LimitOrderEventPayload| #[trigger] resting(rest_levels(s, is_buy, w)).contains(x) <==> resting(s).contains(x) || x == w,
        forall|id: IdView|
            #[trigger] id_count(resting(rest_levels(s, is_buy, w)), id) == id_count(resting(s), id) + if w.order_id@ == id {
                1nat
            } else {
                0nat
            },
    decreases s.len(),
{
    let r = rest_levels(s, is_buy, w);
    let one = seq![w];
    assert(one.drop_last() =~= Seq::<LimitOrderEventPayload>::empty());
    assert(one.last() == w);
    assert forall|id: IdView| #[trigger] id_count(one, id) == if w.order_id@ == id {
        1nat
    } else {
        0nat
    } by {
        assert(id_count(Seq::<LimitOrderEventPayload>::empty(), id) == 0);
    }
    if s.len() == 0 {
        assert(r.drop_first() =~= Seq::<LevelView>::empty());
        assert(resting(Seq::<LevelView>::empty()) == Seq::<LimitOrderEventPayload>::empty());
        assert(r[0].1 == one);
        assert(resting(r) == one + Seq::<LimitOrderEventPayload>::empty());
        assert(resting(r) =~= one);
        assert(resting(s) == Seq::<LimitOrderEventPayload>::empty());
        assert forall|x: LimitOrderEventPayload| #[trigger] resting(r).contains(x) <==> resting(s).contains(x) || x == w by {
            if x == w {
                assert(resting(r)[0] == w);
            }
        }
    } else if s[0].0 == w.price {
        let l = s[0].1;
        assert(r.drop_first() =~= s.drop_first());
        assert(resting(r) == l.push(w) + resting(s.drop_first()));
        lemma_contains_concat(l.push(w), resting(s.drop_first()));
        lemma_contains_concat(l, resting(s.drop_first()));
        assert forall|x: LimitOrderEventPayload| #[trigger] l.push(w).contains(x) <==> l.contains(x) || x == w by {
            if l.push(w).contains(x) {
                let k = choose|k: int| 0 <= k < l.push(w).len() && l.push(w)[k] == x;
                if k < l.len() {
                    assert(l[k] == x);
                }
            }
            if l.contains(x) {
                let k = choose|k: int| 0 <= k < l.len() && l[k] == x;
                assert(l.push(w)[k] == x);
            }
            if x == w {
                assert(l.push(w)[l.len() as int] == w);
            }
        }
        assert forall|id: IdView| #[trigger] id_count(resting(r), id) == id_count(resting(s), id) + if w.order_id@ == id {
            1nat
        } else {
            0nat
        } by {
            lemma_id_count_concat(l.push(w), resting(s.drop_first()), id);
            lemma_id_count_concat(l, resting(s.drop_first()), id);
            assert(l.push(w).drop_last() =~= l);
        }
    } else if better(is_buy, w.price, s[0].0) {
        assert(r.drop_first() =~= s);
        assert(resting(r) == one + resting(s));
        lemma_contains_concat(one, resting(s));
        assert forall|id: IdView| #[trigger] id_count(resting(r), id) == id_count(resting(s), id) + if w.order_id@ == id {
            1nat
        } else {
            0nat
        } by {
            lemma_id_count_concat(one, resting(s), id);
        }
    } else {
        let t = s.drop_first();
        lemma_rest_levels_resting(t, is_buy, w);
        let rt = rest_levels(t, is_buy, w);
        assert(r == seq![s[0]] + rt);
        assert(r.drop_first() =~= rt);
        assert(resting(r) == s[0].1 + resting(rt));
        lemma_contains_concat(s[0].1, resting(rt));
        lemma_contains_concat(s[0].1, resting(t));
        assert forall|id: IdView| #[trigger] id_count(resting(r), id) == id_count(resting(s), id) + if w.order_id@ == id {
            1nat
        } else {
            0nat
        } by {
            lemma_id_count_concat(s[0].1, resting(rt), id);
            lemma_id_count_concat(s[0].1, resting(t), id);
        }
    }
}

proof fn lemma_fill_counts(l: Seq<LimitOrderEventPayload>, user: IdView, q: nat)
    ensures
        forall|id: IdView|
            #[trigger] id_count(fill_run(l, user, q).0, id) + id_count(fill_gone(l, user, q), id) == id_count(l, id),
        forall|y: LimitOrderEventPayload|
            #[trigger] l.contains(y) ==> fill_gone(l, user, q).contains(y) || exists|x: LimitOrderEventPayload|
                #[trigger] fill_run(l, user, q).0.contains(x) && x == with_quantity(y, x.quantity),
        forall|x: LimitOrderEventPayload|
            #[trigger] fill_run(l, user, q).0.contains(x) ==> exists|y: LimitOrderEventPayload| #[trigger] l.contains(y) && x
                == with_quantity(y, x.quantity),
    decreases l.len(),
{
    lemma_fill_run(l, user, q);
    let ks = fill_run(l, user, q).0;
    assert forall|x: LimitOrderEventPayload| #[trigger] ks.contains(x) implies exists|y: LimitOrderEventPayload| #[trigger] l.contains(
        y,
    ) && x == with_quantity(y, x.quantity) by {
        let k = choose|k: int| 0 <= k < ks.len() && ks[k] == x;
        let j = choose|j: int| 0 <= j < l.len() && #[trigger] ks[k] == with_quantity(l[j], ks[k].quantity);
        assert(l.contains(l[j]));
    }
    if l.len() > 0 {
        let t = l.drop_last();
        lemma_fill_counts(t, user, q);
        let kt = fill_run(t, user, q).0;
        let gt = fill_gone(t, user, q);
        let gs = fill_gone(l, user, q);
        let o = l.last();
        let r = fill_run(t, user, q).1;
        let keep = o.user_id@ == user || r == 0 || r < o.quantity;
        let ko = if o.user_id@ == user || r == 0 { o } else { with_quantity(o, (o.quantity - r) as u64) };
        if keep {
            assert(ks == kt.push(ko));
            assert(gs == gt);
            assert(ks.drop_last() =~= kt);
            assert(ks.last() == ko);
        } else {
            assert(ks == kt);
            assert(gs == gt.push(o));
            assert(gs.drop_last() =~= gt);
            assert(gs.last() == o);
        }
        assert forall|id: IdView|
            #[trigger] id_count(ks, id) + id_count(gs, id) == id_count(l, id) by {
            assert(id_count(kt, id) + id_count(gt, id) == id_count(t, id));
            assert(ko.order_id == o.order_id);
        }
        assert forall|y: LimitOrderEventPayload| #[trigger] l.contains(y) implies gs.contains(y) || exists|x: LimitOrderEventPayload|
            #[trigger] ks.contains(x) && x == with_quantity(y, x.quantity) by {
            let j = choose|j: int| 0 <= j < l.len() && l[j] == y;
            if j < l.len() - 1 {
                assert(t[j] == y);
                assert(t.contains(y));
                if gt.contains(y) {
                    let k = choose|k: int| 0 <= k < gt.len() && gt[k] == y;
                    assert(gs[k] == y);
                } else {
                    let x = choose|x: LimitOrderEventPayload| #[trigger] kt.contains(x) && x == with_quantity(y, x.quantity);
                    let k = choose|k: int| 0 <= k < kt.len() && kt[k] == x;
                    assert(ks[k] == x);
                    assert(ks.contains(x));
                }
            } else {
                assert(y == o);
                if keep {
                    assert(ks[ks.len() - 1] == ko);
                    assert(ks.contains(ko));
                    assert(ko == with_quantity(o, ko.quantity));
                } else {
                    assert(gs[gs.len() - 1] == o);
                }
            }
        }
    }
}

/// What a fill step does to the orders resting on the side it fills
/// against: an id's count there plus its count among the orders consumed
/// whole is its count before; each order left was there before, maybe with
/// less quantity; each order that was there is consumed or left.
proof fn lemma_side_after_fill_resting(s: Seq<LevelView>, user: IdView, q: nat)
    requires
        s.len() > 0,
    ensures
        forall|id: IdView|
            #[trigger] id_count(resting(side_after_fill(s, user, q)), id) + id_count(level_gone(s[0].1, user, q), id)
                == id_count(resting(s), id),
        forall|y: LimitOrderEventPayload|
            #[trigger] resting(s).contains(y) ==> level_gone(s[0].1, user, q).contains(y) || exists|x: LimitOrderEventPayload|
                #[trigger] resting(side_after_fill(s, user, q)).contains(x) && x == with_quantity(y, x.quantity),
        forall|x: LimitOrderEventPayload|
            #[trigger] resting(side_after_fill(s, user, q)).contains(x) ==> exists|y: LimitOrderEventPayload|
                #[trigger] resting(s).contains(y) && x == with_quantity(y, x.quantity),
{
    let l = s[0].1;
    let t = s.drop_first();
    let r = side_after_fill(s, user, q);
    let gone = level_gone(l, user, q);
    assert(resting(s) == l + resting(t));
    lemma_contains_concat(l, resting(t));
    lemma_fill_counts(l, user, q);
    match fill_level(l, user, q).0 {
        Some(kept) => {
            assert(r.drop_first() =~= t);
            assert(r[0].1 == kept);
            assert(resting(r) == kept + resting(t));
            lemma_contains_concat(kept, resting(t));
            assert forall|id: IdView| #[trigger] id_count(resting(r), id) + id_count(gone, id) == id_count(resting(s), id) by {
                lemma_id_count_concat(kept, resting(t), id);
                lemma_id_count_concat(l, resting(t), id);
            }
            assert forall|y: LimitOrderEventPayload| #[trigger] resting(s).contains(y) implies gone.contains(y) || exists|
                x: LimitOrderEventPayload,
            | #[trigger] resting(r).contains(x) && x == with_quantity(y, x.quantity) by {
                if l.contains(y) {
                    if !gone.contains(y) {
                        let x = choose|x: LimitOrderEventPayload| #[trigger] kept.contains(x) && x == with_quantity(y, x.quantity);
                        assert(resting(r).contains(x));
                    }
                } else {
                    assert(resting(t).contains(y));
                    assert(y == with_quantity(y, y.quantity));
                    assert(resting(r).contains(y));
                }
            }
            assert forall|x: LimitOrderEventPayload| #[trigger] resting(r).contains(x) implies exists|y: LimitOrderEventPayload|
                #[trigger] resting(s).contains(y) && x == with_quantity(y, x.quantity) by {
                if kept.contains(x) {
                    let y = choose|y: LimitOrderEventPayload| #[trigger] l.contains(y) && x == with_quantity(y, x.quantity);
                    assert(resting(s).contains(y));
                } else {
                    assert(resting(t).contains(x));
                    assert(resting(s).contains(x));
                    assert(x == with_quantity(x, x.quantity));
                }
            }
        },
        None => {
            assert(gone == l);
            assert(r == t);
            assert forall|id: IdView| #[trigger] id_count(resting(r), id) + id_count(gone, id) == id_count(resting(s), id) by {
                lemma_id_count_concat(l, resting(t), id);
            }
            assert forall|y: LimitOrderEventPayload| #[trigger] resting(s).contains(y) implies gone.contains(y) || exists|
                x: LimitOrderEventPayload,
            | #[trigger] resting(r).contains(x) && x == with_quantity(y, x.quantity) by {
                if !l.contains(y) {
                    assert(resting(t).contains(y));
                    assert(y == with_quantity(y, y.quantity));
                }
            }
            assert forall|x: LimitOrderEventPayload| #[trigger] resting(r).contains(x) implies exists|y: LimitOrderEventPayload|
                #[trigger] resting(s).contains(y) && x == with_quantity(y, x.quantity) by {
                assert(resting(s).contains(x));
                assert(x == with_quantity(x, x.quantity));
            }
        },
    }
}

proof fn lemma_forget_users_keeps(u: Map<IdView, Set<IdView>>, c: Seq<LimitOrderEventPayload>)
    ensures
        forall|us: IdView, id: IdView|
            forget_users(u, c).contains_key(us) && #[trigger] forget_users(u, c)[us].contains(id) ==> u.contains_key(us)
                && u[us].contains(id),
        forall|us: IdView, id: IdView|
            u.contains_key(us) && #[trigger] u[us].contains(id) && id_count(c, id) == 0 ==> forget_users(u, c).contains_key(us)
                && forget_users(u, c)[us].contains(id),
    decreases c.len(),
{
    if c.len() > 0 {
        let t = c.drop_last();
        lemma_forget_users_keeps(u, t);
        let f = forget_users(u, t);
        let g = forget_users(u, c);
        let e = c.last();
        assert forall|us: IdView, id: IdView| g.contains_key(us) && #[trigger] g[us].contains(id) implies u.contains_key(us)
            && u[us].contains(id) by {
            assert(f.contains_key(us) && f[us].contains(id));
        }
        assert forall|us: IdView, id: IdView| u.contains_key(us) && #[trigger] u[us].contains(id) && id_count(c, id) == 0 implies g.contains_key(
            us,
        ) && g[us].contains(id) by {
            assert(id_count(t, id) == 0);
            assert(e.order_id@ != id);
            assert(f.contains_key(us) && f[us].contains(id));
        }
    }
}

proof fn lemma_forget_lookup_keeps(lk: Map<IdView, OrderTerms>, c: Seq<LimitOrderEventPayload>)
    ensures
        forall|id: IdView| #[trigger] forget_lookup(lk, c).contains_key(id) ==> lk.contains_key(id) && forget_lookup(lk, c)[id] == lk[id],
        forall|id: IdView| #[trigger] lk.contains_key(id) && id_count(c, id) == 0 ==> forget_lookup(lk, c).contains_key(id),
    decreases c.len(),
{
    if c.len() > 0 {
        let t = c.drop_last();
        lemma_forget_lookup_keeps(lk, t);
        assert forall|id: IdView| #[trigger] forget_lookup(lk, c).contains_key(id) implies lk.contains_key(id) && forget_lookup(lk, c)[id]
            == lk[id] by {
            assert(forget_lookup(lk, t).contains_key(id));
        }
        assert forall|id: IdView| #[trigger] lk.contains_key(id) && id_count(c, id) == 0 implies forget_lookup(lk, c).contains_key(id) by {
            assert(id_count(t, id) == 0);
        }
    }
}

proof fn lemma_fill_best_agrees(m: MarketView, o: LimitOrderEventPayload, q: nat)
    requires
        book_agrees(m),
        opposite(m, o.side == 1).len() > 0,
    ensures
        book_agrees(fill_best(m, o, q).0),
        opposite(fill_best(m, o, q).0, !(o.side == 1)) == opposite(m, !(o.side == 1)),
        forall|id: IdView| #[trigger] id_count(resting(fill_best(m, o, q).0.buys), id) <= id_count(resting(m.buys), id),
        forall|id: IdView| #[trigger] id_count(resting(fill_best(m, o, q).0.sells), id) <= id_count(resting(m.sells), id),
{
    let is_buy = o.side == 1;
    let other = opposite(m, is_buy);
    let own = opposite(m, !is_buy);
    let gone = level_gone(other[0].1, o.user_id@, q);
    let other2 = side_after_fill(other, o.user_id@, q);
    let lk = if is_buy { m.sell_lookup } else { m.buy_lookup };
    let m2 = fill_best(m, o, q).0;
    let lk2 = if is_buy { m2.sell_lookup } else { m2.buy_lookup };
    let u = m.user_orders;
    let u2 = m2.user_orders;
    assert(lk2 == forget_lookup(lk, gone));
    assert(u2 == forget_users(u, gone));
    assert(opposite(m2, is_buy) == other2);
    assert(opposite(m2, !is_buy) == own);
    lemma_side_after_fill_resting(other, o.user_id@, q);
    lemma_forget_users_keeps(u, gone);
    lemma_forget_lookup_keeps(lk, gone);
    lemma_forget_lookup_gone(lk, gone);
    lemma_forget_users_gone(u, gone);
    // an id resting on either side of the new market is consumed nowhere
    assert forall|id: IdView| id_count(resting(other2), id) > 0 || id_count(resting(own), id) > 0 implies id_count(gone, id) == 0 by {
        assert(id_count(resting(other2), id) + id_count(gone, id) == id_count(resting(other), id));
        assert(id_count(resting(m.buys), id) + id_count(resting(m.sells), id) <= 1);
    }
    assert forall|id: IdView| #[trigger] id_count(resting(m2.buys), id) + id_count(resting(m2.sells), id) <= 1 by {
        assert(id_count(resting(other2), id) + id_count(gone, id) == id_count(resting(other), id));
        assert(id_count(resting(m.buys), id) + id_count(resting(m.sells), id) <= 1);
    }
    assert forall|id: IdView| #[trigger] id_count(resting(m2.buys), id) <= id_count(resting(m.buys), id) by {
        assert(id_count(resting(other2), id) + id_count(gone, id) == id_count(resting(other), id));
    }
    assert forall|id: IdView| #[trigger] id_count(resting(m2.sells), id) <= id_count(resting(m.sells), id) by {
        assert(id_count(resting(other2), id) + id_count(gone, id) == id_count(resting(other), id));
    }
    // orders resting on the side filled against
    assert forall|x: LimitOrderEventPayload| #[trigger] resting(other2).contains(x) implies lk2.contains_key(x.order_id@)
        && lk2[x.order_id@].0 == x.price && u2.contains_key(x.user_id@) && u2[x.user_id@].contains(x.order_id@) by {
        let y = choose|y: LimitOrderEventPayload| #[trigger] resting(other).contains(y) && x == with_quantity(y, x.quantity);
        lemma_id_count_contains(resting(other2), x);
        assert(id_count(gone, x.order_id@) == 0);
        assert(lk.contains_key(y.order_id@) && u.contains_key(y.user_id@) && u[y.user_id@].contains(y.order_id@));
    }
    // orders resting on the taker's own side
    assert forall|x: LimitOrderEventPayload| #[trigger] resting(own).contains(x) implies u2.contains_key(x.user_id@)
        && u2[x.user_id@].contains(x.order_id@) by {
        lemma_id_count_contains(resting(own), x);
        assert(id_count(gone, x.order_id@) == 0);
        assert(u.contains_key(x.user_id@) && u[x.user_id@].contains(x.order_id@));
    }
    assert forall|id: IdView| #[trigger] lk2.contains_key(id) implies id_count(resting(other2), id) > 0 by {
        assert(lk.contains_key(id));
        if id_count(gone, id) > 0 {
            lemma_id_count_witness(gone, id);
            let k = choose|k: int| 0 <= k < gone.len() && (#[trigger] gone[k]).order_id@ == id;
            assert(!lk2.contains_key(gone[k].order_id@));
        }
        assert(id_count(resting(other2), id) + id_count(gone, id) == id_count(resting(other), id));
    }
    assert forall|us: IdView, id: IdView| u2.contains_key(us) && #[trigger] u2[us].contains(id) implies exists|x: LimitOrderEventPayload|
        #[trigger] rests_in(m2, x) && x.order_id@ == id && x.user_id@ == us by {
        assert(u.contains_key(us) && u[us].contains(id));
        let x = choose|x: LimitOrderEventPayload| #[trigger] rests_in(m, x) && x.order_id@ == id && x.user_id@ == us;
        if resting(own).contains(x) {
            assert(rests_in(m2, x));
        } else {
            assert(resting(other).contains(x));
            if gone.contains(x) {
                let k = choose|k: int| 0 <= k < gone.len() && gone[k] == x;
                assert(!(u2.contains_key(gone[k].user_id@) && u2[gone[k].user_id@].contains(gone[k].order_id@)));
            } else {
                let x2 = choose|x2: LimitOrderEventPayload| #[trigger] resting(other2).contains(x2) && x2 == with_quantity(x, x2.quantity);
                assert(rests_in(m2, x2));
            }
        }
    }
}

proof fn lemma_rest_order_agrees(m: MarketView, w: LimitOrderEventPayload)
    requires
        book_agrees(m),
        id_count(resting(m.buys), w.order_id@) == 0,
        id_count(resting(m.sells), w.order_id@) == 0,
    ensures
        book_agrees(rest_order(m, w)),
{
    let r = rest_order(m, w);
    let is_buy = w.side == 1;
    let own = opposite(m, !is_buy);
    let own2 = opposite(r, !is_buy);
    lemma_rest_levels_resting(own, is_buy, w);
    assert(own2 == rest_levels(own, is_buy, w));
    assert(opposite(r, is_buy) == opposite(m, is_buy));
    let u = m.user_orders;
    let u2 = r.user_orders;
    assert(u2 == with_order(u, w.user_id@, w.order_id@));
    assert forall|us: IdView, id: IdView| u.contains_key(us) && u[us].contains(id) implies u2.contains_key(us) && #[trigger] u2[us].contains(
        id,
    ) by {}
    assert forall|id: IdView| #[trigger] id_count(resting(r.buys), id) + id_count(resting(r.sells), id) <= 1 by {
        assert(id_count(resting(m.buys), id) + id_count(resting(m.sells), id) <= 1);
        assert(id_count(resting(own2), id) == id_count(resting(own), id) + if w.order_id@ == id { 1nat } else { 0nat });
    }
    assert(u2.contains_key(w.user_id@) && u2[w.user_id@].contains(w.order_id@));
    assert forall|x: LimitOrderEventPayload| #[trigger] resting(own2).contains(x) && x != w implies x.order_id@ != w.order_id@ by {
        assert(resting(own).contains(x));
        lemma_id_count_contains(resting(own), x);
    }
    assert forall|x: LimitOrderEventPayload| #[trigger] resting(opposite(m, is_buy)).contains(x) implies x.order_id@ != w.order_id@ by {
        lemma_id_count_contains(resting(opposite(m, is_buy)), x);
    }
    assert forall|us: IdView, id: IdView| u2.contains_key(us) && #[trigger] u2[us].contains(id) implies exists|x: LimitOrderEventPayload|
        #[trigger] rests_in(r, x) && x.order_id@ == id && x.user_id@ == us by {
        if us == w.user_id@ && id == w.order_id@ {
            assert(resting(own2).contains(w));
            assert(rests_in(r, w));
        } else {
            assert(u.contains_key(us) && u[us].contains(id));
            let x = choose|x: LimitOrderEventPayload| #[trigger] rests_in(m, x) && x.order_id@ == id && x.user_id@ == us;
            if resting(own).contains(x) {
                assert(resting(own2).contains(x));
            }
            assert(rests_in(r, x));
        }
    }
    assert forall|id: IdView| #[trigger] r.buy_lookup.contains_key(id) implies id_count(resting(r.buys), id) > 0 by {
        if is_buy {
            assert(id_count(resting(own2), id) == id_count(resting(own), id) + if w.order_id@ == id { 1nat } else { 0nat });
        }
    }
    assert forall|id: IdView| #[trigger] r.sell_lookup.contains_key(id) implies id_count(resting(r.sells), id) > 0 by {
        if !is_buy {
            assert(id_count(resting(own2), id) == id_count(resting(own), id) + if w.order_id@ == id { 1nat } else { 0nat });
        }
    }
}

proof fn lemma_fill_sweep_agrees(m: MarketView, o: LimitOrderEventPayload, q: nat)
    requires
        book_agrees(m),
    ensures
        book_agrees(fill_sweep(m, o, q).0),
        forall|id: IdView| #[trigger] id_count(resting(fill_sweep(m, o, q).0.buys), id) <= id_count(resting(m.buys), id),
        forall|id: IdView| #[trigger] id_count(resting(fill_sweep(m, o, q).0.sells), id) <= id_count(resting(m.sells), id),
    decreases opposite(m, o.side == 1).len(),
{
    if opposite(m, o.side == 1).len() > 0 {
        lemma_fill_best_agrees(m, o, q);
        let (m2, left, whole) = fill_best(m, o, q);
        if whole && left > 0 && crosses(opposite(m2, o.side == 1), o.side == 1, o.price) {
            assert(side_after_fill(opposite(m, o.side == 1), o.user_id@, q) == opposite(m2, o.side == 1));
            assert(opposite(m2, o.side == 1).len() < opposite(m, o.side == 1).len());
            lemma_fill_sweep_agrees(m2, o, left);
            let m3 = fill_sweep(m2, o, left).0;
            assert forall|id: IdView| #[trigger] id_count(resting(m3.buys), id) <= id_count(resting(m.buys), id) by {
                assert(id_count(resting(m2.buys), id) <= id_count(resting(m.buys), id));
            }
            assert forall|id: IdView| #[trigger] id_count(resting(m3.sells), id) <= id_count(resting(m.sells), id) by {
                assert(id_count(resting(m2.sells), id) <= id_count(resting(m.sells), id));
            }
        }
    }
}

/// Placing a limit order whose id rests nowhere keeps the book, the lookups
/// and the user lists in agreement (see [`book_agrees`]): the orders a fill
/// uses up leave the lookups and their users' lists, the orders it leaves
/// stay recorded and listed, and what rests of the new order is recorded in
/// its side's lookup and listed for its user.
pub proof fn law_limit_order_keeps_book_agreement(m: MarketView, o: LimitOrderEventPayload)
    requires
        book_agrees(m),
        id_count(resting(m.buys), o.order_id@) == 0,
        id_count(resting(m.sells), o.order_id@) == 0,
    ensures
        book_agrees(spec_add_limit_order(m, o).0),
{
    if !crosses(opposite(m, o.side == 1), o.side == 1, o.price) {
        lemma_rest_order_agrees(m, o);
    } else {
        lemma_fill_sweep_agrees(m, o, o.quantity as nat);
        let (m2, left) = fill_sweep(m, o, o.quantity as nat);
        if left > 0 {
            let w = with_quantity(o, left as u64);
            assert(id_count(resting(m2.buys), w.order_id@) <= id_count(resting(m.buys), o.order_id@));
            assert(id_count(resting(m2.sells), w.order_id@) <= id_count(resting(m.sells), o.order_id@));
            lemma_rest_order_agrees(m2, w);
        }
    }
}

proof fn lemma_take_counts(l: Seq<LimitOrderEventPayload>, q: nat)
    ensures
        forall|id: IdView| #[trigger] id_count(take_run(l, q).0, id) + id_count(take_run(l, q).1, id) == id_count(l, id),
        forall|y: LimitOrderEventPayload|
            #[trigger] l.contains(y) ==> take_run(l, q).1.contains(y) || exists|x: LimitOrderEventPayload|
                #[trigger] take_run(l, q).0.contains(x) && x == with_quantity(y, x.quantity),
        forall|x: LimitOrderEventPayload|
            #[trigger] take_run(l, q).0.contains(x) ==> exists|y: LimitOrderEventPayload| #[trigger] l.contains(y) && x
                == with_quantity(y, x.quantity),
    decreases l.len(),
{
    lemma_take_run(l, q);
    let ks = take_run(l, q).0;
    let cs = take_run(l, q).1;
    assert forall|x: LimitOrderEventPayload| #[trigger] ks.contains(x) implies exists|y: LimitOrderEventPayload| #[trigger] l.contains(
        y,
    ) && x == with_quantity(y, x.quantity) by {
        let k = choose|k: int| 0 <= k < ks.len() && ks[k] == x;
        let j = choose|j: int| 0 <= j < l.len() && #[trigger] ks[k] == with_quantity(l[j], ks[k].quantity);
        assert(l.contains(l[j]));
    }
    if l.len() > 0 {
        let t = l.drop_last();
        lemma_take_counts(t, q);
        let (kt, ct, r) = take_run(t, q);
        let o = l.last();
        let ko = with_quantity(o, (o.quantity - r) as u64);
        if o.quantity <= r {
            assert(ks == kt);
            assert(cs == ct.push(o));
            assert(cs.drop_last() =~= ct);
            assert(cs.last() == o);
        } else {
            assert(ks == kt.push(ko));
            assert(cs == ct);
            assert(ks.drop_last() =~= kt);
            assert(ks.last() == ko);
        }
        assert forall|id: IdView| #[trigger] id_count(ks, id) + id_count(cs, id) == id_count(l, id) by {
            assert(id_count(kt, id) + id_count(ct, id) == id_count(t, id));
        }
        assert forall|y: LimitOrderEventPayload| #[trigger] l.contains(y) implies cs.contains(y) || exists|x: LimitOrderEventPayload|
            #[trigger] ks.contains(x) && x == with_quantity(y, x.quantity) by {
            let j = choose|j: int| 0 <= j < l.len() && l[j] == y;
            if j < l.len() - 1 {
                assert(t[j] == y);
                assert(t.contains(y));
                if ct.contains(y) {
                    let k = choose|k: int| 0 <= k < ct.len() && ct[k] == y;
                    assert(cs[k] == y);
                } else {
                    let x = choose|x: LimitOrderEventPayload| #[trigger] kt.contains(x) && x == with_quantity(y, x.quantity);
                    let k = choose|k: int| 0 <= k < kt.len() && kt[k] == x;
                    assert(ks[k] == x);
                    assert(ks.contains(x));
                }
            } else {
                assert(y == o);
                if o.quantity <= r {
                    assert(cs[cs.len() - 1] == o);
                } else {
                    assert(ks[ks.len() - 1] == ko);
                    assert(ks.contains(ko));
                }
            }
        }
    }
}

proof fn lemma_sweep_resting(s: Seq<LevelView>, q: nat)
    ensures
        forall|id: IdView| #[trigger] id_count(resting(sweep(s, q).0), id) + id_count(sweep(s, q).2, id) == id_count(resting(s), id),
        forall|y: LimitOrderEventPayload|
            #[trigger] resting(s).contains(y) ==> sweep(s, q).2.contains(y) || exists|x: LimitOrderEventPayload|
                #[trigger] resting(sweep(s, q).0).contains(x) && x == with_quantity(y, x.quantity),
        forall|x: LimitOrderEventPayload|
            #[trigger] resting(sweep(s, q).0).contains(x) ==> exists|y: LimitOrderEventPayload| #[trigger] resting(s).contains(y) && x
                == with_quantity(y, x.quantity),
    decreases s.len(),
{
    let sw = sweep(s, q);
    if q == 0 || s.len() == 0 {
        assert forall|id: IdView| #[trigger] id_count(resting(sw.0), id) + id_count(sw.2, id) == id_count(resting(s), id) by {
            assert(id_count(Seq::<LimitOrderEventPayload>::empty(), id) == 0);
        }
        assert forall|y: LimitOrderEventPayload| #[trigger] resting(s).contains(y) implies sw.2.contains(y) || exists|
            x: LimitOrderEventPayload,
        | #[trigger] resting(sw.0).contains(x) && x == with_quantity(y, x.quantity) by {
            assert(y == with_quantity(y, y.quantity));
        }
        assert forall|x: LimitOrderEventPayload| #[trigger] resting(sw.0).contains(x) implies exists|y: LimitOrderEventPayload|
            #[trigger] resting(s).contains(y) && x == with_quantity(y, x.quantity) by {
            assert(x == with_quantity(x, x.quantity));
        }
    } else {
        let l = s[0].1;
        let t = s.drop_first();
        assert(resting(s) == l + resting(t));
        lemma_contains_concat(l, resting(t));
        if total_qty(l) > q {
            let (kept, consumed, r) = take_run(l, q);
            lemma_take_counts(l, q);
            if kept.len() > 0 {
                assert(sw.0.drop_first() =~= t);
                assert(sw.0[0].1 == kept);
                assert(resting(sw.0) == kept + resting(t));
            } else {
                assert(sw.0 == t);
                assert(kept =~= Seq::<LimitOrderEventPayload>::empty());
                assert(kept + resting(t) =~= resting(t));
            }
            assert(resting(sw.0) == kept + resting(t));
            lemma_contains_concat(kept, resting(t));
            assert forall|id: IdView| #[trigger] id_count(resting(sw.0), id) + id_count(sw.2, id) == id_count(resting(s), id) by {
                lemma_id_count_concat(kept, resting(t), id);
                lemma_id_count_concat(l, resting(t), id);
            }
            assert forall|y: LimitOrderEventPayload| #[trigger] resting(s).contains(y) implies sw.2.contains(y) || exists|
                x: LimitOrderEventPayload,
            | #[trigger] resting(sw.0).contains(x) && x == with_quantity(y, x.quantity) by {
                if l.contains(y) {
                    if !consumed.contains(y) {
                        let x = choose|x: LimitOrderEventPayload| #[trigger] kept.contains(x) && x == with_quantity(y, x.quantity);
                        assert(resting(sw.0).contains(x));
                    }
                } else {
                    assert(resting(t).contains(y));
                    assert(y == with_quantity(y, y.quantity));
                    assert(resting(sw.0).contains(y));
                }
            }
            assert forall|x: LimitOrderEventPayload| #[trigger] resting(sw.0).contains(x) implies exists|y: LimitOrderEventPayload|
                #[trigger] resting(s).contains(y) && x == with_quantity(y, x.quantity) by {
                if kept.contains(x) {
                    let y = choose|y: LimitOrderEventPayload| #[trigger] l.contains(y) && x == with_quantity(y, x.quantity);
                    assert(resting(s).contains(y));
                } else {
                    assert(resting(t).contains(x));
                    assert(resting(s).contains(x));
                    assert(x == with_quantity(x, x.quantity));
                }
            }
        } else {
            let q2 = (q - total_qty(l)) as nat;
            lemma_sweep_resting(t, q2);
            let rest = sweep(t, q2);
            assert(sw.0 == rest.0);
            assert(sw.2 == l + rest.2);
            lemma_contains_concat(l, rest.2);
            assert forall|id: IdView| #[trigger] id_count(resting(sw.0), id) + id_count(sw.2, id) == id_count(resting(s), id) by {
                lemma_id_count_concat(l, rest.2, id);
                lemma_id_count_concat(l, resting(t), id);
                assert(id_count(resting(rest.0), id) + id_count(rest.2, id) == id_count(resting(t), id));
            }
            assert forall|y: LimitOrderEventPayload| #[trigger] resting(s).contains(y) implies sw.2.contains(y) || exists|
                x: LimitOrderEventPayload,
            | #[trigger] resting(sw.0).contains(x) && x == with_quantity(y, x.quantity) by {
                if !l.contains(y) {
                    assert(resting(t).contains(y));
                }
            }
            assert forall|x: LimitOrderEventPayload| #[trigger] resting(sw.0).contains(x) implies exists|y: LimitOrderEventPayload|
                #[trigger] resting(s).contains(y) && x == with_quantity(y, x.quantity) by {
                let y = choose|y: LimitOrderEventPayload| #[trigger] resting(t).contains(y) && x == with_quantity(y, x.quantity);
                assert(resting(s).contains(y));
            }
        }
    }
}

/// A market order keeps the book, the lookups and the user lists in
/// agreement (see [`book_agrees`]): the orders it uses up leave the lookups
/// and their users' lists, and the orders it leaves stay recorded and listed.
pub proof fn law_market_keeps_book_agreement(m: MarketView, p: MarketPayload)
    requires
        book_agrees(m),
    ensures
        book_agrees(spec_market(m, p).0),
{
    let is_buy = p.side == 1;
    let other = opposite(m, is_buy);
    let own = opposite(m, !is_buy);
    let sw = sweep(other, p.quantity as nat);
    let gone = sw.2;
    let other2 = sw.0;
    let lk = if is_buy { m.sell_lookup } else { m.buy_lookup };
    let m2 = spec_market(m, p).0;
    let lk2 = if is_buy { m2.sell_lookup } else { m2.buy_lookup };
    let u = m.user_orders;
    let u2 = m2.user_orders;
    assert(lk2 == forget_lookup(lk, gone));
    assert(u2 == forget_users(u, gone));
    assert(opposite(m2, is_buy) == other2);
    assert(opposite(m2, !is_buy) == own);
    lemma_sweep_resting(other, p.quantity as nat);
    lemma_forget_users_keeps(u, gone);
    lemma_forget_lookup_keeps(lk, gone);
    lemma_forget_lookup_gone(lk, gone);
    lemma_forget_users_gone(u, gone);
    assert forall|id: IdView| id_count(resting(other2), id) > 0 || id_count(resting(own), id) > 0 implies id_count(gone, id) == 0 by {
        assert(id_count(resting(other2), id) + id_count(gone, id) == id_count(resting(other), id));
        assert(id_count(resting(m.buys), id) + id_count(resting(m.sells), id) <= 1);
    }
    assert forall|id: IdView| #[trigger] id_count(resting(m2.buys), id) + id_count(resting(m2.sells), id) <= 1 by {
        assert(id_count(resting(other2), id) + id_count(gone, id) == id_count(resting(other), id));
        assert(id_count(resting(m.buys), id) + id_count(resting(m.sells), id) <= 1);
    }
    assert forall|x: LimitOrderEventPayload| #[trigger] resting(other2).contains(x) implies lk2.contains_key(x.order_id@)
        && lk2[x.order_id@].0 == x.price && u2.contains_key(x.user_id@) && u2[x.user_id@].contains(x.order_id@) by {
        let y = choose|y: LimitOrderEventPayload| #[trigger] resting(other).contains(y) && x == with_quantity(y, x.quantity);
        lemma_id_count_contains(resting(other2), x);
        assert(id_count(gone, x.order_id@) == 0);
        assert(lk.contains_key(y.order_id@) && u.contains_key(y.user_id@) && u[y.user_id@].contains(y.order_id@));
    }
    assert forall|x: LimitOrderEventPayload| #[trigger] resting(own).contains(x) implies u2.contains_key(x.user_id@)
        && u2[x.user_id@].contains(x.order_id@) by {
        lemma_id_count_contains(resting(own), x);
        assert(id_count(gone, x.order_id@) == 0);
        assert(u.contains_key(x.user_id@) && u[x.user_id@].contains(x.order_id@));
    }
    assert forall|id: IdView| #[trigger] lk2.contains_key(id) implies id_count(resting(other2), id) > 0 by {
        assert(lk.contains_key(id));
        if id_count(gone, id) > 0 {
            lemma_id_count_witness(gone, id);
            let k = choose|k: int| 0 <= k < gone.len() && (#[trigger] gone[k]).order_id@ == id;
            assert(!lk2.contains_key(gone[k].order_id@));
        }
        assert(id_count(resting(other2), id) + id_count(gone, id) == id_count(resting(other), id));
    }
    assert forall|us: IdView, id: IdView| u2.contains_key(us) && #[trigger] u2[us].contains(id) implies exists|x: LimitOrderEventPayload|
        #[trigger] rests_in(m2, x) && x.order_id@ == id && x.user_id@ == us by {
        assert(u.contains_key(us) && u[us].contains(id));
        let x = choose|x: LimitOrderEventPayload| #[trigger] rests_in(m, x) && x.order_id@ == id && x.user_id@ == us;
        if resting(own).contains(x) {
            assert(rests_in(m2, x));
        } else {
            assert(resting(other).contains(x));
            if gone.contains(x) {
                let k = choose|k: int| 0 <= k < gone.len() && gone[k] == x;
                assert(!(u2.contains_key(gone[k].user_id@) && u2[gone[k].user_id@].contains(gone[k].order_id@)));
            } else {
                let x2 = choose|x2: LimitOrderEventPayload| #[trigger] resting(other2).contains(x2) && x2 == with_quantity(x, x2.quantity);
                assert(rests_in(m2, x2));
            }
        }
    }
}

/// A modify request keeps the book, the lookups and the user lists in
/// agreement (see [`book_agrees`]): only the take-profit and stop-loss of a
/// recorded order change.
pub proof fn law_modify_keeps_book_agreement(m: MarketView, p: ModifyPayload)
    requires
        book_agrees(m),
    ensures
        book_agrees(spec_modify(m, p)),
{
    law_modify_keeps_book(m, p);
    let r = spec_modify(m, p);
    assert forall|us: IdView, id: IdView| r.user_orders.contains_key(us) && #[trigger] r.user_orders[us].contains(id) implies exists|
        x: LimitOrderEventPayload,
    | #[trigger] rests_in(r, x) && x.order_id@ == id && x.user_id@ == us by {
        let x = choose|x: LimitOrderEventPayload| #[trigger] rests_in(m, x) && x.order_id@ == id && x.user_id@ == us;
        assert(rests_in(r, x));
    }
    assert forall|id: IdView| #[trigger] r.buy_lookup.contains_key(id) implies id_count(resting(r.buys), id) > 0 by {
        assert(r.buy_lookup.dom().contains(id));
        assert(m.buy_lookup.contains_key(id));
    }
    assert forall|id: IdView| #[trigger] r.sell_lookup.contains_key(id) implies id_count(resting(r.sells), id) > 0 by {
        assert(r.sell_lookup.dom().contains(id));
        assert(m.sell_lookup.contains_key(id));
    }
    assert forall|x: LimitOrderEventPayload| #[trigger] resting(r.buys).contains(x) implies r.buy_lookup.contains_key(x.order_id@)
        && r.buy_lookup[x.order_id@].0 == x.price by {
        assert(m.buy_lookup.contains_key(x.order_id@));
    }
    assert forall|x: LimitOrderEventPayload| #[trigger] resting(r.sells).contains(x) implies r.sell_lookup.contains_key(x.order_id@)
        && r.sell_lookup[x.order_id@].0 == x.price by {
        assert(m.sell_lookup.contains_key(x.order_id@));
    }
}

proof fn lemma_drop_from_level_resting(l: Seq<LimitOrderEventPayload>, id: IdView)
    ensures
        forall|x: LimitOrderEventPayload| #[trigger] drop_from_level(l, id).contains(x) <==> l.contains(x) && x.order_id@ != id,
        forall|y: IdView| #[trigger] id_count(drop_from_level(l, id), y) == if y == id { 0 } else { id_count(l, y) },
    decreases l.len(),
{
    if l.len() > 0 {
        let t = l.drop_last();
        let e = l.last();
        lemma_drop_from_level_resting(t, id);
        let dt = drop_from_level(t, id);
        let dl = drop_from_level(l, id);
        if e.order_id@ != id {
            assert(dl == dt.push(e));
            assert(dl.drop_last() =~= dt);
            assert(dl.last() == e);
        } else {
            assert(dl == dt);
        }
        assert forall|y: IdView| #[trigger] id_count(dl, y) == if y == id { 0 } else { id_count(l, y) } by {
            assert(id_count(dt, y) == if y == id { 0 } else { id_count(t, y) });
        }
        assert forall|x: LimitOrderEventPayload| #[trigger] dl.contains(x) <==> l.contains(x) && x.order_id@ != id by {
            if dl.contains(x) {
                let k = choose|k: int| 0 <= k < dl.len() && dl[k] == x;
                if k < dt.len() {
                    assert(dl[k] == dt[k]);
                    assert(dt[k] == x);
                    assert(dt.contains(x));
                    let j = choose|j: int| 0 <= j < t.len() && t[j] == x;
                    assert(l[j] == x);
                } else {
                    assert(x == e);
                    assert(l[l.len() - 1] == x);
                }
            }
            if l.contains(x) && x.order_id@ != id {
                let j = choose|j: int| 0 <= j < l.len() && l[j] == x;
                if j < l.len() - 1 {
                    assert(t[j] == x);
                    assert(t.contains(x));
                    assert(dt.contains(x));
                    let k = choose|k: int| 0 <= k < dt.len() && dt[k] == x;
                    assert(dl[k] == dt[k]);
                    assert(dl[k] == x);
                } else {
                    assert(dl[dt.len() as int] == x);
                }
            }
        }
    }
}

proof fn lemma_resting_level(s: Seq<LevelView>, x: LimitOrderEventPayload)
    requires
        resting(s).contains(x),
    ensures
        exists|i: int| 0 <= i < s.len() && (#[trigger] s[i]).1.contains(x),
    decreases s.len(),
{
    let t = s.drop_first();
    assert(resting(s) == s[0].1 + resting(t));
    lemma_contains_concat(s[0].1, resting(t));
    if !s[0].1.contains(x) {
        lemma_resting_level(t, x);
        let i = choose|i: int| 0 <= i < t.len() && (#[trigger] t[i]).1.contains(x);
        assert(s[i + 1] == t[i]);
    } else {
        assert(s[0].1.contains(x));
    }
}

proof fn lemma_drop_rec_resting(s: Seq<LevelView>, price: u64, id: IdView)
    requires
        forall|i: int, k: int| 0 <= i < s.len() && 0 <= k < s[i].1.len() ==> (#[trigger] s[i].1[k]).price == s[i].0,
        distinct_prices(s),
    ensures
        forall|x: LimitOrderEventPayload|
            #[trigger] resting(drop_rec(s, price, id)).contains(x) <==> resting(s).contains(x) && !(x.order_id@ == id && x.price
                == price),
        forall|y: IdView| y != id ==> #[trigger] id_count(resting(drop_rec(s, price, id)), y) == id_count(resting(s), y),
        (forall|x: LimitOrderEventPayload| #[trigger] resting(s).contains(x) && x.order_id@ == id ==> x.price == price) ==> id_count(
            resting(drop_rec(s, price, id)),
            id,
        ) == 0,
    decreases s.len(),
{
    if s.len() == 0 {
        assert(id_count(Seq::<LimitOrderEventPayload>::empty(), id) == 0);
        assert(resting(s) == Seq::<LimitOrderEventPayload>::empty());
        assert(drop_rec(s, price, id) == s);
    } else {
        let t = s.drop_first();
        let l = s[0].1;
        let r = drop_rec(s, price, id);
        assert forall|i: int, k: int| 0 <= i < t.len() && 0 <= k < t[i].1.len() implies (#[trigger] t[i].1[k]).price == t[i].0 by {
            assert(t[i] == s[i + 1]);
            assert(s[i + 1].1[k].price == s[i + 1].0);
        }
        assert(distinct_prices(t)) by {
            assert forall|i: int, j: int| 0 <= i < j < t.len() implies #[trigger] t[i].0 != #[trigger] t[j].0 by {
                assert(t[i] == s[i + 1] && t[j] == s[j + 1]);
            }
        }
        lemma_drop_rec_resting(t, price, id);
        assert(resting(s) == l + resting(t));
        lemma_contains_concat(l, resting(t));
        assert forall|x: LimitOrderEventPayload| #[trigger] l.contains(x) implies x.price == s[0].0 by {
            let k = choose|k: int| 0 <= k < l.len() && l[k] == x;
            assert(s[0].1[k].price == s[0].0);
        }
        if s[0].0 == price {
            let kept = drop_from_level(l, id);
            lemma_drop_from_level_resting(l, id);
            if kept.len() == 0 {
                assert(r == t);
                assert(kept =~= Seq::<LimitOrderEventPayload>::empty());
            } else {
                assert(r.drop_first() =~= t);
                assert(r[0].1 == kept);
            }
            assert(resting(r) =~= kept + resting(t));
            lemma_contains_concat(kept, resting(t));

            assert forall|y: IdView| y != id implies #[trigger] id_count(resting(r), y) == id_count(resting(s), y) by {
                lemma_id_count_concat(kept, resting(t), y);
                lemma_id_count_concat(l, resting(t), y);
            }
            assert forall|x: LimitOrderEventPayload| #[trigger] resting(t).contains(x) implies x.price != price by {
                lemma_resting_level(t, x);
                let i = choose|i: int| 0 <= i < t.len() && (#[trigger] t[i]).1.contains(x);
                let k = choose|k: int| 0 <= k < t[i].1.len() && t[i].1[k] == x;
                assert(t[i] == s[i + 1]);
                assert(s[i + 1].1[k].price == s[i + 1].0);
                assert(s[0].0 != s[i + 1].0);
            }
            if forall|x: LimitOrderEventPayload| #[trigger] resting(s).contains(x) && x.order_id@ == id ==> x.price == price {
                lemma_id_count_concat(kept, resting(t), id);
                if id_count(resting(t), id) > 0 {
                    lemma_id_count_witness(resting(t), id);
                    let k = choose|k: int| 0 <= k < resting(t).len() && (#[trigger] resting(t)[k]).order_id@ == id;
                    assert(resting(t).contains(resting(t)[k]));
                    assert(resting(s).contains(resting(t)[k]));
                }
            }
        } else {
            assert(r == seq![s[0]] + drop_rec(t, price, id));
            assert(r.drop_first() =~= drop_rec(t, price, id));
            assert(resting(r) == l + resting(drop_rec(t, price, id)));
            lemma_contains_concat(l, resting(drop_rec(t, price, id)));
            assert forall|x: LimitOrderEventPayload| #[trigger] resting(r).contains(x) <==> resting(s).contains(x) && !(x.order_id@
                == id && x.price == price) by {
                if l.contains(x) {
                    assert(x.price == s[0].0);
                }
            }
            assert forall|y: IdView| y != id implies #[trigger] id_count(resting(r), y) == id_count(resting(s), y) by {
                lemma_id_count_concat(l, resting(drop_rec(t, price, id)), y);
                lemma_id_count_concat(l, resting(t), y);
            }
            if forall|x: LimitOrderEventPayload| #[trigger] resting(s).contains(x) && x.order_id@ == id ==> x.price == price {
                assert forall|x: LimitOrderEventPayload| #[trigger] resting(t).contains(x) && x.order_id@ == id implies x.price == price by {
                    assert(resting(s).contains(x));
                }
                lemma_id_count_concat(l, resting(drop_rec(t, price, id)), id);
                if id_count(l, id) > 0 {
                    lemma_id_count_witness(l, id);
                    let k = choose|k: int| 0 <= k < l.len() && (#[trigger] l[k]).order_id@ == id;
                    assert(l.contains(l[k]));
                    assert(resting(s).contains(l[k]));
                }
            }
        }
    }
}

/// Close request `p` names its order truly: an order resting with its id
/// belongs to the user it names and lies on the side it names.
pub open spec fn close_names_order(m: MarketView, p: ClosePayload) -> bool {
    &&& forall|x: LimitOrderEventPayload|
        #[trigger] resting(m.buys).contains(x) && x.order_id@ == p.order_id@ ==> p.side == 1 && x.user_id@ == p.user_id@
    &&& forall|x: LimitOrderEventPayload|
        #[trigger] resting(m.sells).contains(x) && x.order_id@ == p.order_id@ ==> p.side != 1 && x.user_id@ == p.user_id@
}

/// A close request that names its order truly keeps the book, the lookups
/// and the user lists in agreement (see [`book_agrees`]). One that names the
/// wrong user or side does not: the original strikes the id from the named
/// user's list, or from its lists while the order stays in the book.
pub proof fn law_close_keeps_book_agreement(m: MarketView, p: ClosePayload)
    requires
        market_wf(m),
        book_agrees(m),
        close_names_order(m, p),
    ensures
        book_agrees(spec_close(m, p)),
{
    let id = p.order_id@;
    let is_buy = p.side == 1;
    let side = opposite(m, !is_buy);
    let other = opposite(m, is_buy);
    let lk = if is_buy { m.buy_lookup } else { m.sell_lookup };
    let r = spec_close(m, p);
    let u = m.user_orders;
    let u2 = r.user_orders;
    assert(u2 == without_order(u, p.user_id@, id, true));
    assert(opposite(r, is_buy) == other);
    assert forall|i: int, k: int| 0 <= i < side.len() && 0 <= k < side[i].1.len() implies (#[trigger] side[i].1[k]).price == side[i].0 by {
        assert(side_wf(side, is_buy));
    }
    // no order with the id rests on the other side
    assert forall|x: LimitOrderEventPayload| #[trigger] resting(other).contains(x) implies x.order_id@ != id by {}
    if lk.contains_key(id) {
        let price = lk[id].0;
        lemma_drop_order_rec(side, is_buy, price, id);
        assert(distinct_prices(side)) by {
            assert forall|i: int, j: int| 0 <= i < j < side.len() implies #[trigger] side[i].0 != #[trigger] side[j].0 by {
                assert(better(is_buy, side[i].0, side[j].0));
            }
        }
        lemma_drop_rec_resting(side, price, id);
        let side2 = drop_rec(side, price, id);
        assert(opposite(r, !is_buy) == side2);
        assert forall|x: LimitOrderEventPayload| #[trigger] resting(side).contains(x) && x.order_id@ == id implies x.price == price by {}
        assert(id_count(resting(side2), id) == 0);
        assert forall|x: LimitOrderEventPayload| #[trigger] resting(side2).contains(x) implies x.order_id@ != id by {
            lemma_id_count_contains(resting(side2), x);
        }
        assert forall|y: IdView| #[trigger] id_count(resting(r.buys), y) + id_count(resting(r.sells), y) <= 1 by {
            assert(id_count(resting(m.buys), y) + id_count(resting(m.sells), y) <= 1);
            if y != id {
                assert(id_count(resting(side2), y) == id_count(resting(side), y));
            }
        }
        assert forall|x: LimitOrderEventPayload| #[trigger] resting(side2).contains(x) implies u2.contains_key(x.user_id@)
            && u2[x.user_id@].contains(x.order_id@) by {
            assert(resting(side).contains(x));
            assert(u[x.user_id@].remove(id).contains(x.order_id@));
        }
        assert forall|x: LimitOrderEventPayload| #[trigger] resting(other).contains(x) implies u2.contains_key(x.user_id@)
            && u2[x.user_id@].contains(x.order_id@) by {
            assert(u[x.user_id@].remove(id).contains(x.order_id@));
        }
        assert forall|y: IdView| #[trigger] lk.remove(id).contains_key(y) implies id_count(resting(side2), y) > 0 by {
            assert(id_count(resting(side2), y) == id_count(resting(side), y));
        }
        assert forall|us: IdView, y: IdView| u2.contains_key(us) && #[trigger] u2[us].contains(y) implies exists|x: LimitOrderEventPayload|
            #[trigger] rests_in(r, x) && x.order_id@ == y && x.user_id@ == us by {
            assert(u.contains_key(us) && u[us].contains(y));
            let x = choose|x: LimitOrderEventPayload| #[trigger] rests_in(m, x) && x.order_id@ == y && x.user_id@ == us;
            if x.order_id@ == id {
                assert(resting(side).contains(x));
                assert(us == p.user_id@);
                assert(!u2[us].contains(id));
            }
            if resting(side).contains(x) {
                assert(resting(side2).contains(x));
            }
            assert(rests_in(r, x));
        }
    } else {
        assert(opposite(r, !is_buy) == side);
        assert(r.buys == m.buys && r.sells == m.sells);
        assert forall|x: LimitOrderEventPayload| #[trigger] resting(side).contains(x) implies x.order_id@ != id by {}
        assert forall|x: LimitOrderEventPayload| rests_in(m, x) implies u2.contains_key(x.user_id@) && #[trigger] u2[x.user_id@].contains(
            x.order_id@,
        ) by {
            assert(u[x.user_id@].remove(id).contains(x.order_id@));
        }
        assert forall|x: LimitOrderEventPayload| #[trigger] resting(r.buys).contains(x) implies u2.contains_key(x.user_id@)
            && u2[x.user_id@].contains(x.order_id@) by {
            assert(resting(m.buys).contains(x));
            assert(x.order_id@ != id);
            assert(u.contains_key(x.user_id@) && u[x.user_id@].contains(x.order_id@));
            assert(u[x.user_id@].remove(id).contains(x.order_id@));
        }
        assert forall|x: LimitOrderEventPayload| #[trigger] resting(r.sells).contains(x) implies u2.contains_key(x.user_id@)
            && u2[x.user_id@].contains(x.order_id@) by {
            assert(resting(m.sells).contains(x));
            assert(x.order_id@ != id);
            assert(u.contains_key(x.user_id@) && u[x.user_id@].contains(x.order_id@));
            assert(u[x.user_id@].remove(id).contains(x.order_id@));
        }
        assert forall|us: IdView, y: IdView| u2.contains_key(us) && #[trigger] u2[us].contains(y) implies exists|x: LimitOrderEventPayload|
            #[trigger] rests_in(r, x) && x.order_id@ == y && x.user_id@ == us by {
            assert(u.contains_key(us) && u[us].contains(y));
            let x = choose|x: LimitOrderEventPayload| #[trigger] rests_in(m, x) && x.order_id@ == y && x.user_id@ == us;
            assert(rests_in(r, x));
        }
    }
}

/// The part of [`book_agrees`] that concerns the book and the lookups only.
pub open spec fn lookups_agree(m: MarketView) -> bool {
    &&& forall|id: IdView| #[trigger] id_count(resting(m.buys), id) + id_count(resting(m.sells), id) <= 1
    &&& forall|x: LimitOrderEventPayload|
        #[trigger] resting(m.buys).contains(x) ==> m.buy_lookup.contains_key(x.order_id@) && m.buy_lookup[x.order_id@].0 == x.price
    &&& forall|x: LimitOrderEventPayload|
        #[trigger] resting(m.sells).contains(x) ==> m.sell_lookup.contains_key(x.order_id@) && m.sell_lookup[x.order_id@].0 == x.price
    &&& forall|id: IdView| #[trigger] m.buy_lookup.contains_key(id) ==> id_count(resting(m.buys), id) > 0
    &&& forall|id: IdView| #[trigger] m.sell_lookup.contains_key(id) ==> id_count(resting(m.sells), id) > 0
}

proof fn lemma_two_same_id(l: Seq<LimitOrderEventPayload>, y: LimitOrderEventPayload, z: LimitOrderEventPayload)
    requires
        l.contains(y),
        l.contains(z),
        y != z,
        y.order_id@ == z.order_id@,
    ensures
        id_count(l, y.order_id@) >= 2,
    decreases l.len(),
{
    let t = l.drop_last();
    let e = l.last();
    if e == y {
        let k = choose|k: int| 0 <= k < l.len() && l[k] == z;
        assert(k < l.len() - 1);
        assert(t[k] == z);
        lemma_id_count_contains(t, z);
    } else if e == z {
        let k = choose|k: int| 0 <= k < l.len() && l[k] == y;
        assert(k < l.len() - 1);
        assert(t[k] == y);
        lemma_id_count_contains(t, y);
    } else {
        let k1 = choose|k: int| 0 <= k < l.len() && l[k] == y;
        let k2 = choose|k: int| 0 <= k < l.len() && l[k] == z;
        assert(t[k1] == y && t[k2] == z);
        lemma_two_same_id(t, y, z);
    }
}

/// Side `s` once the order with id `id`, recorded at `p` in `lookup` when
/// recorded there, is dropped.
proof fn lemma_forget_side_agree(s: Seq<LevelView>, is_buy: bool, lookup: Map<IdView, OrderTerms>, id: IdView)
    requires
        side_wf(s, is_buy),
        forall|x: LimitOrderEventPayload| #[trigger] resting(s).contains(x) ==> lookup.contains_key(x.order_id@) && lookup[x.order_id@].0 == x.price,
    ensures
        forall|x: LimitOrderEventPayload| #[trigger] resting(forget_side(s, lookup, id)).contains(x) <==> resting(s).contains(x)
            && x.order_id@ != id,
        forall|y: IdView| #[trigger] id_count(resting(forget_side(s, lookup, id)), y) == if y == id { 0 } else { id_count(resting(s), y) },
{
    if lookup.contains_key(id) {
        let p = lookup[id].0;
        lemma_drop_order_rec(s, is_buy, p, id);
        assert(distinct_prices(s)) by {
            assert forall|i: int, j: int| 0 <= i < j < s.len() implies #[trigger] s[i].0 != #[trigger] s[j].0 by {
                assert(better(is_buy, s[i].0, s[j].0));
            }
        }
        lemma_drop_rec_resting(s, p, id);
        assert forall|x: LimitOrderEventPayload| #[trigger] resting(s).contains(x) && x.order_id@ == id implies x.price == p by {}
    } else {
        assert forall|x: LimitOrderEventPayload| #[trigger] resting(s).contains(x) implies x.order_id@ != id by {}
        assert forall|y: IdView| #[trigger] id_count(resting(s), y) == if y == id { 0 } else { id_count(resting(s), y) } by {
            if y == id && id_count(resting(s), y) > 0 {
                lemma_id_count_witness(resting(s), y);
                let k = choose|k: int| 0 <= k < resting(s).len() && (#[trigger] resting(s)[k]).order_id@ == y;
                assert(resting(s).contains(resting(s)[k]));
            }
        }
    }
}

proof fn lemma_forget_agree(m: MarketView, id: IdView)
    requires
        market_wf(m),
        lookups_agree(m),
    ensures
        market_wf(forget_everywhere(m, id)),
        lookups_agree(forget_everywhere(m, id)),
        forall|x: LimitOrderEventPayload| #[trigger] resting(forget_everywhere(m, id).buys).contains(x) <==> resting(m.buys).contains(x)
            && x.order_id@ != id,
        forall|x: LimitOrderEventPayload| #[trigger] resting(forget_everywhere(m, id).sells).contains(x) <==> resting(m.sells).contains(x)
            && x.order_id@ != id,
        forget_everywhere(m, id).buy_lookup == m.buy_lookup.remove(id),
        forget_everywhere(m, id).sell_lookup == m.sell_lookup.remove(id),
        forget_everywhere(m, id).user_orders == m.user_orders,
{
    lemma_forget_wf(m, id);
    let f = forget_everywhere(m, id);
    lemma_forget_side_agree(m.buys, true, m.buy_lookup, id);
    lemma_forget_side_agree(m.sells, false, m.sell_lookup, id);
    assert forall|y: IdView| #[trigger] id_count(resting(f.buys), y) + id_count(resting(f.sells), y) <= 1 by {
        assert(id_count(resting(m.buys), y) + id_count(resting(m.sells), y) <= 1);
    }
    assert forall|x: LimitOrderEventPayload| #[trigger] resting(f.buys).contains(x) implies f.buy_lookup.contains_key(x.order_id@)
        && f.buy_lookup[x.order_id@].0 == x.price by {
        assert(resting(m.buys).contains(x));
    }
    assert forall|x: LimitOrderEventPayload| #[trigger] resting(f.sells).contains(x) implies f.sell_lookup.contains_key(x.order_id@)
        && f.sell_lookup[x.order_id@].0 == x.price by {
        assert(resting(m.sells).contains(x));
    }
    assert forall|y: IdView| #[trigger] f.buy_lookup.contains_key(y) implies id_count(resting(f.buys), y) > 0 by {
        assert(m.buy_lookup.contains_key(y));
    }
    assert forall|y: IdView| #[trigger] f.sell_lookup.contains_key(y) implies id_count(resting(f.sells), y) > 0 by {
        assert(m.sell_lookup.contains_key(y));
    }
}

proof fn lemma_forget_all_agree(m: MarketView, ids: Seq<IdView>)
    requires
        market_wf(m),
        lookups_agree(m),
    ensures
        market_wf(forget_all(m, ids)),
        lookups_agree(forget_all(m, ids)),
        forall|x: LimitOrderEventPayload| #[trigger] resting(forget_all(m, ids).buys).contains(x) <==> resting(m.buys).contains(x)
            && !ids.contains(x.order_id@),
        forall|x: LimitOrderEventPayload| #[trigger] resting(forget_all(m, ids).sells).contains(x) <==> resting(m.sells).contains(x)
            && !ids.contains(x.order_id@),
        forall|y: IdView| #[trigger] forget_all(m, ids).buy_lookup.contains_key(y) ==> m.buy_lookup.contains_key(y) && forget_all(
            m,
            ids,
        ).buy_lookup[y] == m.buy_lookup[y],
        forall|y: IdView| #[trigger] forget_all(m, ids).sell_lookup.contains_key(y) ==> m.sell_lookup.contains_key(y) && forget_all(
            m,
            ids,
        ).sell_lookup[y] == m.sell_lookup[y],
        forget_all(m, ids).user_orders == m.user_orders,
    decreases ids.len(),
{
    if ids.len() > 0 {
        let t = ids.drop_last();
        lemma_forget_all_agree(m, t);
        let a = forget_all(m, t);
        lemma_forget_agree(a, ids.last());
        assert forall|y: IdView| #[trigger] ids.contains(y) <==> t.contains(y) || y == ids.last() by {
            if ids.contains(y) {
                let k = choose|k: int| 0 <= k < ids.len() && ids[k] == y;
                if k < ids.len() - 1 {
                    assert(t[k] == y);
                }
            }
            if t.contains(y) {
                let k = choose|k: int| 0 <= k < t.len() && t[k] == y;
                assert(ids[k] == y);
            }
            if y == ids.last() {
                assert(ids[ids.len() - 1] == y);
            }
        }
    }
}

/// Closing all orders of a user keeps the book, the lookups and the user
/// lists in agreement (see [`book_agrees`]), whatever order the user's ids
/// are taken in.
pub proof fn law_close_all_keeps_book_agreement(m: MarketView, user: IdView, after: MarketView, ids: Seq<IdView>)
    requires
        market_wf(m),
        book_agrees(m),
        closes_all_in_order(m, user, after, ids),
    ensures
        book_agrees(after),
{
    if m.user_orders.contains_key(user) {
        let m0 = MarketView { user_orders: m.user_orders.remove(user), ..m };
        lemma_forget_all_agree(m0, ids);
        let u = m.user_orders;
        let u2 = after.user_orders;
        assert(after == forget_all(m0, ids));
        assert(u2 == u.remove(user));
        assert(forall|y: IdView| #[trigger] ids.contains(y) <==> u[user].contains(y)) by {
            assert forall|y: IdView| #[trigger] ids.contains(y) <==> u[user].contains(y) by {
                assert(ids.to_set().contains(y) == ids.contains(y));
            }
        }
        assert forall|x: LimitOrderEventPayload| #[trigger] resting(after.buys).contains(x) implies u2.contains_key(x.user_id@)
            && u2[x.user_id@].contains(x.order_id@) by {
            assert(resting(m.buys).contains(x));
            if x.user_id@ == user {
                assert(u[user].contains(x.order_id@));
            }
        }
        assert forall|x: LimitOrderEventPayload| #[trigger] resting(after.sells).contains(x) implies u2.contains_key(x.user_id@)
            && u2[x.user_id@].contains(x.order_id@) by {
            assert(resting(m.sells).contains(x));
            if x.user_id@ == user {
                assert(u[user].contains(x.order_id@));
            }
        }
        assert forall|us: IdView, id: IdView| u2.contains_key(us) && #[trigger] u2[us].contains(id) implies exists|
            x: LimitOrderEventPayload,
        | #[trigger] rests_in(after, x) && x.order_id@ == id && x.user_id@ == us by {
            assert(us != user);
            assert(u.contains_key(us) && u[us].contains(id));
            let y = choose|y: LimitOrderEventPayload| #[trigger] rests_in(m, y) && y.order_id@ == id && y.user_id@ == us;
            if ids.contains(id) {
                assert(u[user].contains(id));
                let z = choose|z: LimitOrderEventPayload| #[trigger] rests_in(m, z) && z.order_id@ == id && z.user_id@ == user;
                assert(y != z);
                assert(id_count(resting(m.buys), id) + id_count(resting(m.sells), id) <= 1);
                if resting(m.buys).contains(y) && resting(m.buys).contains(z) {
                    lemma_two_same_id(resting(m.buys), y, z);
                } else if resting(m.sells).contains(y) && resting(m.sells).contains(z) {
                    lemma_two_same_id(resting(m.sells), y, z);
                } else if resting(m.buys).contains(y) {
                    lemma_id_count_contains(resting(m.buys), y);
                    lemma_id_count_contains(resting(m.sells), z);
                } else {
                    lemma_id_count_contains(resting(m.sells), y);
                    lemma_id_count_contains(resting(m.buys), z);
                }
            }
            assert(rests_in(after, y));
        }
    }
}

/// Closing all orders of a user forgets the user, and none of the user's
/// order ids is left in either lookup.
pub proof fn law_close_all_forgets_user(m: MarketView, user: IdView, after: MarketView, ids: Seq<IdView>)
    requires
        closes_all_in_order(m, user, after, ids),
    ensures
        !after.user_orders.contains_key(user),
        m.user_orders.contains_key(user) ==> forall|id: IdView|
            #[trigger] m.user_orders[user].contains(id) ==> !after.buy_lookup.contains_key(id) && !after.sell_lookup.contains_key(id),
{
    if m.user_orders.contains_key(user) {
        let m0 = MarketView { user_orders: m.user_orders.remove(user), ..m };
        lemma_forget_all(m0, ids);
        assert forall|id: IdView| #[trigger] m.user_orders[user].contains(id) implies !after.buy_lookup.contains_key(id)
            && !after.sell_lookup.contains_key(id) by {
            assert(ids.to_set().contains(id));
            let k = choose|k: int| 0 <= k < ids.len() && ids[k] == id;
        }
    }
}

/// A modify request changes nothing but the recorded terms: the book and the
/// user lists stay as they were, and the order's price stays too.
pub proof fn law_modify_keeps_book(m: MarketView, p: ModifyPayload)
    ensures
        spec_modify(m, p).buys == m.buys,
        spec_modify(m, p).sells == m.sells,
        spec_modify(m, p).user_orders == m.user_orders,
        spec_modify(m, p).buy_lookup.dom() == m.buy_lookup.dom(),
        spec_modify(m, p).sell_lookup.dom() == m.sell_lookup.dom(),
        forall|id: IdView| #[trigger] m.buy_lookup.contains_key(id) ==> spec_modify(m, p).buy_lookup[id].0 == m.buy_lookup[id].0,
        forall|id: IdView| #[trigger] m.sell_lookup.contains_key(id) ==> spec_modify(m, p).sell_lookup[id].0 == m.sell_lookup[id].0,
{
    let id = p.order_id@;
    if p.side == 1 && m.buy_lookup.contains_key(id) {
        assert(spec_modify(m, p).buy_lookup.dom() =~= m.buy_lookup.dom());
    }
    if p.side != 1 && m.sell_lookup.contains_key(id) {
        assert(spec_modify(m, p).sell_lookup.dom() =~= m.sell_lookup.dom());
    }
}

/// Every order resting on side `s` holds some quantity.
pub open spec fn quantities_positive(s: Seq<LevelView>) -> bool {
    forall|i: int, k: int| 0 <= i < s.len() && 0 <= k < s[i].1.len() ==> (#[trigger] s[i].1[k]).quantity > 0
}

proof fn lemma_fill_run_positive(s: Seq<LimitOrderEventPayload>, user: IdView, q: nat)
    requires
        forall|k: int| 0 <= k < s.len() ==> (#[trigger] s[k]).quantity > 0,
    ensures
        forall|k: int| 0 <= k < fill_run(s, user, q).0.len() ==> (#[trigger] fill_run(s, user, q).0[k]).quantity > 0,
    decreases s.len(),
{
    if s.len() > 0 {
        let t = s.drop_last();
        lemma_fill_run_positive(t, user, q);
        let prev = fill_run(t, user, q);
        let res = fill_run(s, user, q);
        assert(s.last() == s[s.len() - 1]);
        assert forall|k: int| 0 <= k < res.0.len() implies (#[trigger] res.0[k]).quantity > 0 by {
            if k < prev.0.len() {
                assert(res.0[k] == prev.0[k]);
            }
        }
    }
}

proof fn lemma_side_after_fill_positive(s: Seq<LevelView>, user: IdView, q: nat)
    requires
        s.len() > 0,
        quantities_positive(s),
    ensures
        quantities_positive(side_after_fill(s, user, q)),
{
    let r = side_after_fill(s, user, q);
    assert forall|k: int| 0 <= k < s[0].1.len() implies (#[trigger] s[0].1[k]).quantity > 0 by {}
    lemma_fill_run_positive(s[0].1, user, q);
    assert forall|i: int, k: int| 0 <= i < r.len() && 0 <= k < r[i].1.len() implies (#[trigger] r[i].1[k]).quantity > 0 by {
        match fill_level(s[0].1, user, q).0 {
            Some(kept) => {
                if i == 0 {
                    assert(r[0].1 == fill_run(s[0].1, user, q).0);
                } else {
                    assert(r[i] == s[i]);
                }
            },
            None => {
                assert(r[i] == s[i + 1]);
            },
        }
    }
}

/// One level of a limit-order fill leaves no order of the other side with
/// nothing in it: when every order resting there held some quantity, every
/// order that stays still does. An order that the fill uses up exactly is
/// consumed, never kept with quantity 0.
pub proof fn law_limit_fill_keeps_no_empty_order(m: MarketView, o: LimitOrderEventPayload, q: nat)
    requires
        opposite(m, o.side == 1).len() > 0,
        quantities_positive(opposite(m, o.side == 1)),
    ensures
        quantities_positive(opposite(fill_best(m, o, q).0, o.side == 1)),
        opposite(fill_best(m, o, q).0, !(o.side == 1)) == opposite(m, !(o.side == 1)),
{
    lemma_side_after_fill_positive(opposite(m, o.side == 1), o.user_id@, q);
}

proof fn lemma_fill_sweep_positive(m: MarketView, o: LimitOrderEventPayload, q: nat)
    requires
        quantities_positive(m.buys),
        quantities_positive(m.sells),
    ensures
        quantities_positive(fill_sweep(m, o, q).0.buys),
        quantities_positive(fill_sweep(m, o, q).0.sells),
        fill_sweep(m, o, q).1 <= q,
    decreases opposite(m, o.side == 1).len(),
{
    if opposite(m, o.side == 1).len() > 0 {
        law_limit_fill_keeps_no_empty_order(m, o, q);
        lemma_fill_level_nonempty(opposite(m, o.side == 1)[0].1, o.user_id@, q);
        let (m2, left, whole) = fill_best(m, o, q);
        if whole && left > 0 && crosses(opposite(m2, o.side == 1), o.side == 1, o.price) {
            assert(opposite(m2, o.side == 1) == opposite(m, o.side == 1).drop_first());
            lemma_fill_sweep_positive(m2, o, left);
        }
    }
}

proof fn lemma_rest_levels_positive(s: Seq<LevelView>, is_buy: bool, o: LimitOrderEventPayload)
    requires
        quantities_positive(s),
        o.quantity > 0,
    ensures
        quantities_positive(rest_levels(s, is_buy, o)),
    decreases s.len(),
{
    let r = rest_levels(s, is_buy, o);
    if s.len() == 0 {
        assert forall|i: int, k: int| 0 <= i < r.len() && 0 <= k < r[i].1.len() implies (#[trigger] r[i].1[k]).quantity > 0 by {
            assert(r[0].1 == seq![o]);
        }
    } else if s[0].0 == o.price {
        assert forall|i: int, k: int| 0 <= i < r.len() && 0 <= k < r[i].1.len() implies (#[trigger] r[i].1[k]).quantity > 0 by {
            if i == 0 {
                assert(r[0].1 == s[0].1.push(o));
                if k < s[0].1.len() {
                    assert(r[0].1[k] == s[0].1[k]);
                }
            } else {
                assert(r[i] == s[i]);
            }
        }
    } else if better(is_buy, o.price, s[0].0) {
        assert forall|i: int, k: int| 0 <= i < r.len() && 0 <= k < r[i].1.len() implies (#[trigger] r[i].1[k]).quantity > 0 by {
            if i == 0 {
                assert(r[0].1 == seq![o]);
            } else {
                assert(r[i] == s[i - 1]);
            }
        }
    } else {
        let t = s.drop_first();
        assert forall|i: int, k: int| 0 <= i < t.len() && 0 <= k < t[i].1.len() implies (#[trigger] t[i].1[k]).quantity > 0 by {
            assert(t[i] == s[i + 1]);
        }
        lemma_rest_levels_positive(t, is_buy, o);
        let rt = rest_levels(t, is_buy, o);
        assert forall|i: int, k: int| 0 <= i < r.len() && 0 <= k < r[i].1.len() implies (#[trigger] r[i].1[k]).quantity > 0 by {
            if i == 0 {
                assert(r[0] == s[0]);
            } else {
                assert(r[i] == rt[i - 1]);
            }
        }
    }
}

/// A limit order leaves no order in the book with nothing in it: when every
/// order resting before held some quantity, and so does the incoming order,
/// every order resting after it does too, on both sides. Orders that the
/// fill uses up exactly are consumed, and what rests of the incoming order is
/// what is still unfilled of it.
pub proof fn law_limit_order_keeps_quantities_positive(m: MarketView, o: LimitOrderEventPayload)
    requires
        quantities_positive(m.buys),
        quantities_positive(m.sells),
        o.quantity > 0,
    ensures
        quantities_positive(spec_add_limit_order(m, o).0.buys),
        quantities_positive(spec_add_limit_order(m, o).0.sells),
{
    let is_buy = o.side == 1;
    if !crosses(opposite(m, is_buy), is_buy, o.price) {
        lemma_rest_levels_positive(m.buys, true, o);
        lemma_rest_levels_positive(m.sells, false, o);
    } else {
        lemma_fill_sweep_positive(m, o, o.quantity as nat);
        let (m2, left) = fill_sweep(m, o, o.quantity as nat);
        if left > 0 {
            let w = with_quantity(o, left as u64);
            lemma_rest_levels_positive(m2.buys, true, w);
            lemma_rest_levels_positive(m2.sells, false, w);
        }
    }
}

proof fn lemma_take_run_positive(s: Seq<LimitOrderEventPayload>, q: nat)
    requires
        forall|k: int| 0 <= k < s.len() ==> (#[trigger] s[k]).quantity > 0,
    ensures
        forall|k: int| 0 <= k < take_run(s, q).0.len() ==> (#[trigger] take_run(s, q).0[k]).quantity > 0,
    decreases s.len(),
{
    if s.len() > 0 {
        let t = s.drop_last();
        lemma_take_run_positive(t, q);
        let prev = take_run(t, q);
        let res = take_run(s, q);
        assert(s.last() == s[s.len() - 1]);
        assert forall|k: int| 0 <= k < res.0.len() implies (#[trigger] res.0[k]).quantity > 0 by {
            if k < prev.0.len() {
                assert(res.0[k] == prev.0[k]);
            }
        }
    }
}

proof fn lemma_sweep_positive(s: Seq<LevelView>, q: nat)
    requires
        quantities_positive(s),
    ensures
        quantities_positive(sweep(s, q).0),
    decreases s.len(),
{
    if q == 0 || s.len() == 0 {
    } else if total_qty(s[0].1) > q {
        assert forall|k: int| 0 <= k < s[0].1.len() implies (#[trigger] s[0].1[k]).quantity > 0 by {}
        lemma_take_run_positive(s[0].1, q);
        let kept = take_run(s[0].1, q).0;
        let r = sweep(s, q).0;
        assert forall|i: int, k: int| 0 <= i < r.len() && 0 <= k < r[i].1.len() implies (#[trigger] r[i].1[k]).quantity > 0 by {
            if kept.len() > 0 {
                if i == 0 {
                    assert(r[0].1 == kept);
                } else {
                    assert(r[i] == s[i]);
                }
            } else {
                assert(r[i] == s[i + 1]);
            }
        }
    } else {
        let t = s.drop_first();
        assert forall|i: int, k: int| 0 <= i < t.len() && 0 <= k < t[i].1.len() implies (#[trigger] t[i].1[k]).quantity > 0 by {
            assert(t[i] == s[i + 1]);
        }
        lemma_sweep_positive(t, (q - total_qty(s[0].1)) as nat);
    }
}

/// A market order leaves no order in the book with nothing in it: when every
/// order resting before held some quantity, every order resting after it
/// does too, on both sides. An order that the market order uses up exactly is
/// consumed, never kept with quantity 0.
pub proof fn law_market_keeps_quantities_positive(m: MarketView, p: MarketPayload)
    requires
        quantities_positive(m.buys),
        quantities_positive(m.sells),
    ensures
        quantities_positive(spec_market(m, p).0.buys),
        quantities_positive(spec_market(m, p).0.sells),
{
    lemma_sweep_positive(m.buys, p.quantity as nat);
    lemma_sweep_positive(m.sells, p.quantity as nat);
}

proof fn lemma_take_run_consumes_first(s: Seq<LimitOrderEventPayload>, q: nat)
    requires
        s.len() > 0,
        s[0].quantity <= q,
    ensures
        take_run(s, q).1.contains(s[0]),
    decreases s.len(),
{
    let t = s.drop_last();
    if s.len() == 1 {
        assert(take_run(t, q) == (Seq::<LimitOrderEventPayload>::empty(), Seq::<LimitOrderEventPayload>::empty(), q));
        assert(take_run(s, q).1[0] == s[0]);
    } else {
        assert(t[0] == s[0]);
        lemma_take_run_consumes_first(t, q);
        let c = take_run(t, q).1;
        let j = choose|j: int| 0 <= j < c.len() && c[j] == s[0];
        assert(take_run(s, q).1[j] == s[0]);
    }
}

proof fn lemma_fill_gone_first(s: Seq<LimitOrderEventPayload>, user: IdView, q: nat)
    requires
        s.len() > 0,
        s[0].user_id@ != user,
        0 < s[0].quantity <= q,
    ensures
        fill_gone(s, user, q).contains(s[0]),
    decreases s.len(),
{
    let t = s.drop_last();
    if s.len() == 1 {
        assert(fill_run(t, user, q).1 == q);
        assert(fill_gone(t, user, q) == Seq::<LimitOrderEventPayload>::empty());
        assert(fill_gone(s, user, q)[0] == s[0]);
    } else {
        assert(t[0] == s[0]);
        lemma_fill_gone_first(t, user, q);
        let c = fill_gone(t, user, q);
        let j = choose|j: int| 0 <= j < c.len() && c[j] == s[0];
        assert(fill_gone(s, user, q)[j] == s[0]);
    }
}

/// A market order no smaller than the oldest order at the best level of the
/// other side consumes that order whole: it leaves the lookup of its side and
/// its user's list.
pub proof fn law_market_consumes_order_it_uses_up(m: MarketView, p: MarketPayload)
    requires
        opposite(m, p.side == 1).len() > 0,
        opposite(m, p.side == 1)[0].1.len() > 0,
        0 < opposite(m, p.side == 1)[0].1[0].quantity <= p.quantity,
    ensures
        ({
            let x = opposite(m, p.side == 1)[0].1[0];
            let after = spec_market(m, p).0;
            let lookup = if p.side == 1 { after.sell_lookup } else { after.buy_lookup };
            &&& sweep(opposite(m, p.side == 1), p.quantity as nat).2.contains(x)
            &&& !lookup.contains_key(x.order_id@)
            &&& !(after.user_orders.contains_key(x.user_id@) && after.user_orders[x.user_id@].contains(x.order_id@))
        }),
{
    let s = opposite(m, p.side == 1);
    let q = p.quantity as nat;
    let x = s[0].1[0];
    if total_qty(s[0].1) > q {
        lemma_take_run_consumes_first(s[0].1, q);
        assert(sweep(s, q).2 == take_run(s[0].1, q).1);
    } else {
        let rest = sweep(s.drop_first(), (q - total_qty(s[0].1)) as nat);
        assert(sweep(s, q).2 == s[0].1 + rest.2);
        assert((s[0].1 + rest.2)[0] == x);
    }
    let gone = sweep(s, q).2;
    assert(gone.contains(x));
    let k = choose|k: int| 0 <= k < gone.len() && gone[k] == x;
    assert(0 <= k < gone.len());
    let after = spec_market(m, p).0;
    if p.side == 1 {
        lemma_forget_lookup_gone(m.sell_lookup, gone);
        assert(after.sell_lookup == forget_lookup(m.sell_lookup, gone));
    } else {
        lemma_forget_lookup_gone(m.buy_lookup, gone);
        assert(after.buy_lookup == forget_lookup(m.buy_lookup, gone));
    }
    lemma_forget_users_gone(m.user_orders, gone);
    assert(after.user_orders == forget_users(m.user_orders, gone));
    assert(gone[k].order_id@ == x.order_id@);
    assert(gone[k].user_id@ == x.user_id@);
}

/// A limit order no smaller than the oldest order of another user at the
/// best level of the other side consumes that order whole: it leaves the
/// lookup of its side and its user's list.
pub proof fn law_limit_fill_consumes_order_it_uses_up(m: MarketView, o: LimitOrderEventPayload, q: nat)
    requires
        opposite(m, o.side == 1).len() > 0,
        opposite(m, o.side == 1)[0].1.len() > 0,
        opposite(m, o.side == 1)[0].1[0].user_id@ != o.user_id@,
        0 < opposite(m, o.side == 1)[0].1[0].quantity <= q,
    ensures
        ({
            let x = opposite(m, o.side == 1)[0].1[0];
            let after = fill_best(m, o, q).0;
            let lookup = if o.side == 1 { after.sell_lookup } else { after.buy_lookup };
            &&& level_gone(opposite(m, o.side == 1)[0].1, o.user_id@, q).contains(x)
            &&& !lookup.contains_key(x.order_id@)
            &&& !(after.user_orders.contains_key(x.user_id@) && after.user_orders[x.user_id@].contains(x.order_id@))
        }),
{
    let l = opposite(m, o.side == 1)[0].1;
    let x = l[0];
    if total_qty(l) > q {
        lemma_fill_gone_first(l, o.user_id@, q);
    } else {
        assert(l[0] == x);
    }
    let gone = level_gone(l, o.user_id@, q);
    let k = choose|k: int| 0 <= k < gone.len() && gone[k] == x;
    law_limit_fill_forgets_consumed(m, o, q);
    let after = fill_best(m, o, q).0;
    let lookup = if o.side == 1 { after.sell_lookup } else { after.buy_lookup };
    assert(!lookup.contains_key(gone[k].order_id@));
}

/// What a modify request records for an order that its side's lookup knows:
/// a stop-loss the request carries becomes the recorded stop-loss; a
/// take-profit it carries becomes the recorded take-profit when the request
/// says it updates either of them; a value it does not carry, or a
/// take-profit it does not say it updates, stays as it was; the price never
/// changes. A request for an order the lookup does not know changes nothing.
pub proof fn law_modify_records_carried_terms(m: MarketView, p: ModifyPayload)
    ensures
        ({
            let id = p.order_id@;
            let before = if p.side == 1 { m.buy_lookup } else { m.sell_lookup };
            let after = if p.side == 1 { spec_modify(m, p).buy_lookup } else { spec_modify(m, p).sell_lookup };
            let updates = p.has_updated_tp_val || p.has_updated_sl_val;
            &&& !before.contains_key(id) ==> spec_modify(m, p) == m
            &&& before.contains_key(id) ==> after.contains_key(id) && after[id].0 == before[id].0
            &&& before.contains_key(id) ==> (p.sl matches Some(v) ==> after[id].2 == v)
            &&& before.contains_key(id) && p.sl is None ==> after[id].2 == before[id].2
            &&& before.contains_key(id) && updates ==> (p.tp matches Some(v) ==> after[id].1 == v)
            &&& before.contains_key(id) && (p.tp is None || !updates) ==> after[id].1 == before[id].1
        }),
{
}

/// The reply to a modify request for an order that its side's lookup knows
/// tells the stop-loss now recorded, which is the one the request carried if
/// it carried one, and, when the request says it updates either value, the
/// take-profit now recorded, which is the one the request carried if it
/// carried one. For an order the lookup does not know the reply is a failure
/// with no values.
pub proof fn law_modify_reply_tells_recorded_terms(m: MarketView, p: ModifyPayload, r: ModifyResponse)
    requires
        modify_response_tells(r, m, p),
    ensures
        ({
            let id = p.order_id@;
            let before = if p.side == 1 { m.buy_lookup } else { m.sell_lookup };
            let after = if p.side == 1 { spec_modify(m, p).buy_lookup } else { spec_modify(m, p).sell_lookup };
            let updates = p.has_updated_tp_val || p.has_updated_sl_val;
            &&& !before.contains_key(id) ==> !r.success && r.tp is None && r.sl is None
            &&& before.contains_key(id) ==> r.success && r.sl == Some(after[id].2)
            &&& before.contains_key(id) ==> (p.sl matches Some(v) ==> r.sl == Some(v))
            &&& before.contains_key(id) && updates ==> r.tp == Some(after[id].1)
            &&& before.contains_key(id) && updates ==> (p.tp matches Some(v) ==> r.tp == Some(v))
            &&& before.contains_key(id) && !updates ==> r.tp is None
        }),
{
}

/// `w` is order `o` with quantity `q`: the same user, id, side, price,
/// take-profit and stop-loss.
pub open spec fn is_rest_of(w: LimitOrderEventPayload, o: LimitOrderEventPayload, q: u64) -> bool {
    &&& w.user_id == o.user_id
    &&& w.order_id == o.order_id
    &&& w.side == o.side
    &&& w.price == o.price
    &&& w.tp == o.tp
    &&& w.sl == o.sl
    &&& w.quantity == q
}

/// A limit order that is partly filled rests with what is left of it: the
/// newest order of the level at its price on its side is the order itself,
/// the same user, id, side, price, take-profit and stop-loss, with only its
/// quantity changed to what is still unfilled; its side's lookup records its
/// price, take-profit and stop-loss as placed, and its id is listed for its
/// user.
pub proof fn law_partially_filled_order_rests(m: MarketView, o: LimitOrderEventPayload, left: u64)
    requires
        spec_add_limit_order(m, o).1 == AddOutcome::PartiallyFilled(left),
    ensures
        ({
            let after = spec_add_limit_order(m, o).0;
            let lookup = if o.side == 1 { after.buy_lookup } else { after.sell_lookup };
            &&& o.side == 1 ==> exists|i: int|
                0 <= i < after.buys.len() && (#[trigger] after.buys[i]).0 == o.price && after.buys[i].1.len() > 0
                    && is_rest_of(after.buys[i].1.last(), o, left)
            &&& o.side != 1 ==> exists|i: int|
                0 <= i < after.sells.len() && (#[trigger] after.sells[i]).0 == o.price && after.sells[i].1.len() > 0
                    && is_rest_of(after.sells[i].1.last(), o, left)
            &&& lookup.contains_key(o.order_id@)
            &&& lookup[o.order_id@] == (o.price, o.tp, o.sl)
            &&& after.user_orders.contains_key(o.user_id@)
            &&& after.user_orders[o.user_id@].contains(o.order_id@)
        }),
{
    let is_buy = o.side == 1;
    assert(crosses(opposite(m, is_buy), is_buy, o.price));
    let (m2, l) = fill_sweep(m, o, o.quantity as nat);
    assert(l > 0);
    assert(left == l as u64);
    let w = with_quantity(o, left);
    let after = spec_add_limit_order(m, o).0;
    assert(after == rest_order(m2, w));
    assert(after.user_orders[o.user_id@].contains(o.order_id@));
    if is_buy {
        lemma_rest_levels_holds(m2.buys, true, w);
        let r = rest_levels(m2.buys, true, w);
        let i = choose|i: int| 0 <= i < r.len() && (#[trigger] r[i]).0 == w.price && r[i].1.len() > 0 && r[i].1.last() == w;
        assert(after.buys[i] == r[i]);
    } else {
        lemma_rest_levels_holds(m2.sells, false, w);
        let r = rest_levels(m2.sells, false, w);
        let i = choose|i: int| 0 <= i < r.len() && (#[trigger] r[i]).0 == w.price && r[i].1.len() > 0 && r[i].1.last() == w;
        assert(after.sells[i] == r[i]);
    }
}

} // verus!
