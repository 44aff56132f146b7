//! The sums of the price levels: what their orders still give and receive.
//!
//! The sums of a level agree with its orders when `sell_amount` is the sum
//! of what the orders resting there still give and `buy_amount` the sum of
//! what they still receive. Limit orders keep the sums in agreement as long
//! as no fill leaves dust in a level: a maker that has received all it asked
//! for and still had something to give is released from what it had left,
//! but the sums of its level are lowered by the fill alone. A cancellation
//! keeps them in agreement where the order was not filled at all or leaves
//! its level empty: the sums are lowered by the order's full amounts.

use vstd::prelude::*;
use crate::engine::{reduced, touched, EngineView};
use crate::invariants::{
    lemma_fill_book, lemma_fill_keeps_tidy, lemma_match_keeps_tidy, lemma_rests_once,
};
use crate::laws::lemma_match_grows;
use crate::types::MAX_PRICE;
use crate::laws::{after_fill, lemma_fill_shape};
use crate::price_list::{
    index_of, lemma_filter_keeps, lemma_rank_exists, other_than, rank, LevelView,
};
use crate::types::{AccountId, Balance, Host, Order, OrderStatus, OrderType, Price, H256};

verus! {

/// What an order still gives (`sell`) or still receives.
pub open spec fn open_amount(o: Order, sell: bool) -> int {
    if sell {
        o.remained_sell_amount as int
    } else {
        o.remained_buy_amount as int
    }
}

/// The sum of what the orders of a queue still give, or still receive.
pub open spec fn open_sum(q: Seq<H256>, orders: Map<H256, Order>, sell: bool) -> int
    decreases q.len(),
{
    if q.len() == 0 {
        0
    } else {
        open_sum(q.drop_last(), orders, sell) + open_amount(orders[q.last()], sell)
    }
}

/// The sum of a queue depends only on the orders in it.
pub proof fn lemma_sum_same(q: Seq<H256>, o1: Map<H256, Order>, o2: Map<H256, Order>, sell: bool)
    requires
        forall|k: int| 0 <= k < q.len() ==> o1[#[trigger] q[k]] == o2[q[k]],
    ensures
        open_sum(q, o1, sell) == open_sum(q, o2, sell),
    decreases q.len(),
{
    if q.len() > 0 {
        let t = q.drop_last();
        assert forall|k: int| 0 <= k < t.len() implies o1[#[trigger] t[k]] == o2[t[k]] by {
            assert(t[k] == q[k]);
        }
        lemma_sum_same(t, o1, o2, sell);
        assert(q.last() == q[q.len() - 1]);
    }
}

/// No order of a queue has more open than the queue's sum.
pub proof fn lemma_sum_bounds(q: Seq<H256>, orders: Map<H256, Order>, sell: bool)
    ensures
        0 <= open_sum(q, orders, sell),
        forall|k: int|
            0 <= k < q.len() ==> open_amount(orders[#[trigger] q[k]], sell) <= open_sum(
                q,
                orders,
                sell,
            ),
    decreases q.len(),
{
    if q.len() > 0 {
        let t = q.drop_last();
        lemma_sum_bounds(t, orders, sell);
        assert forall|k: int| 0 <= k < q.len() implies open_amount(orders[#[trigger] q[k]], sell)
            <= open_sum(q, orders, sell) by {
            if k < t.len() {
                assert(t[k] == q[k]);
            }
        }
    }
}

/// The sum of a queue is what its oldest order has open and the sum of the rest.
pub proof fn lemma_sum_first(q: Seq<H256>, orders: Map<H256, Order>, sell: bool)
    requires
        q.len() > 0,
    ensures
        open_sum(q, orders, sell) == open_amount(orders[q[0]], sell) + open_sum(
            q.skip(1),
            orders,
            sell,
        ),
    decreases q.len(),
{
    if q.len() == 1 {
        assert(q.drop_last() =~= Seq::<H256>::empty());
        assert(q.skip(1) =~= Seq::<H256>::empty());
    } else {
        let t = q.drop_last();
        lemma_sum_first(t, orders, sell);
        assert(t.skip(1) =~= q.skip(1).drop_last());
        assert(q.skip(1).last() == q.last());
        assert(t[0] == q[0]);
    }
}

/// The sum of a queue without one of its orders, which it held once, is the
/// sum of the queue less what that order has open.
pub proof fn lemma_sum_filter(q: Seq<H256>, orders: Map<H256, Order>, h: H256, sell: bool)
    requires
        q.no_duplicates(),
        q.contains(h),
    ensures
        open_sum(q.filter(other_than(h)), orders, sell) == open_sum(q, orders, sell) - open_amount(
            orders[h],
            sell,
        ),
    decreases q.len(),
{
    reveal(Seq::filter);
    let t = q.drop_last();
    let keep = other_than(h);
    assert(t.no_duplicates());
    if q.last() == h {
        assert(!t.contains(h)) by {
            if t.contains(h) {
                let k = choose|k: int| 0 <= k < t.len() && t[k] == h;
                assert(q[k] == h && q[q.len() - 1] == h);
            }
        }
        lemma_filter_keeps(t, h);
    } else {
        let k = choose|k: int| 0 <= k < q.len() && q[k] == h;
        assert(t[k] == h);
        lemma_sum_filter(t, orders, h, sell);
        let f = q.filter(keep);
        assert(f == t.filter(keep).push(q.last()));
        assert(f.drop_last() =~= t.filter(keep));
    }
}

impl EngineView {
    /// Whether the sums of a level agree with its orders.
    pub open spec fn level_agrees(self, l: LevelView) -> bool {
        &&& l.sell_amount == open_sum(l.orders, self.registry.orders, true)
        &&& l.buy_amount == open_sum(l.orders, self.registry.orders, false)
    }

    /// Whether the sums of every level of one side of a book agree with its
    /// orders.
    pub open spec fn side_agrees(self, tp: H256, t: OrderType) -> bool {
        forall|i: int|
            0 <= i < self.book_of(tp).side(t).len() ==> self.level_agrees(
                #[trigger] self.book_of(tp).side(t)[i],
            )
    }

    /// Whether the sums of every level of every book agree with its orders.
    pub open spec fn agreed(self) -> bool {
        forall|tp: H256, t: OrderType| #[trigger] self.side_agrees(tp, t)
    }

    /// Whether the next fill of `taker` leaves no dust in a level: where
    /// the maker has received all it asked for, it has nothing left to give,
    /// or it is the only order of its level, which then goes with it.
    pub open spec fn fill_dustless(self, tp: H256, base: H256, quote: H256, taker: Order) -> bool {
        let p = self.plan_for(tp, base, quote, taker);
        let m1 = reduced(touched(self.maker_for(tp, taker)), p.have_qty, p.give_qty).unwrap();
        m1.remained_buy_amount == 0 ==> m1.remained_sell_amount == 0 || self.book_of(tp).side(
            taker.otype.flip(),
        )[0].orders.len() == 1
    }

    /// Whether every fill of a matching leaves no dust in a level.
    pub open spec fn match_dustless(
        self,
        tp: H256,
        base: H256,
        quote: H256,
        taker: Order,
        host: Host,
        fuel: nat,
    ) -> bool
        decreases fuel,
    {
        if taker.status == OrderStatus::Filled || fuel == 0 {
            true
        } else {
            match self.book_of(tp).first_order(taker.otype.flip()) {
                None => true,
                Some((price, _)) => if !crate::arith::matches_price(
                    taker.price,
                    taker.otype,
                    price,
                ) {
                    true
                } else {
                    match self.fill(tp, base, quote, taker, host) {
                        Err(_) => true,
                        Ok((s, t)) => self.fill_dustless(tp, base, quote, taker)
                            && s.match_dustless(tp, base, quote, t, host, (fuel - 1) as nat),
                    }
                },
            }
        }
    }
}


/// A state whose books and resting orders are those of a state with agreeing
/// sums has agreeing sums.
pub proof fn lemma_same_orders_agree(s: EngineView, s2: EngineView)
    requires
        s.agreed(),
        s2.books == s.books,
        forall|tp: H256, t: OrderType, i: int, j: int|
            0 <= i < s.book_of(tp).side(t).len() && 0 <= j < s.book_of(tp).side(t)[i].orders.len()
                ==> s2.registry.orders[#[trigger] s.book_of(tp).side(t)[i].orders[j]]
                == s.registry.orders[s.book_of(tp).side(t)[i].orders[j]],
    ensures
        s2.agreed(),
{
    assert forall|tp: H256, t: OrderType| #[trigger] s2.side_agrees(tp, t) by {
        assert(s.side_agrees(tp, t));
        assert(s2.book_of(tp) == s.book_of(tp));
        let l = s.book_of(tp).side(t);
        assert forall|i: int| 0 <= i < l.len() implies s2.level_agrees(#[trigger] l[i]) by {
            assert(s.level_agrees(l[i]));
            assert forall|k: int| 0 <= k < l[i].orders.len() implies s.registry.orders[
            #[trigger] l[i].orders[k]] == s2.registry.orders[l[i].orders[k]] by {}
            lemma_sum_same(l[i].orders, s.registry.orders, s2.registry.orders, true);
            lemma_sum_same(l[i].orders, s.registry.orders, s2.registry.orders, false);
        }
    }
}

/// A fill that leaves no dust in a level keeps the sums of the levels in
/// agreement with their orders.
pub proof fn lemma_fill_keeps_sums(s: EngineView, tp: H256, base: H256, quote: H256, taker: Order, host: Host)
    requires
        s.config.price_factor > 0,
        s.tidy(),
        s.agreed(),
        s.book_of(tp).first_order(taker.otype.flip()).is_some(),
        s.fill(tp, base, quote, taker, host).is_ok(),
        s.rests_nowhere(taker.hash),
        s.fill_dustless(tp, base, quote, taker),
    ensures
        s.fill(tp, base, quote, taker, host).unwrap().0.agreed(),
{
    lemma_fill_shape(s, tp, base, quote, taker, host);
    lemma_fill_book(s, tp, base, quote, taker, host);
    let (s2, t2) = s.fill(tp, base, quote, taker, host).unwrap();
    let side = taker.otype.flip();
    let l = s.book_of(tp).side(side);
    let p = s.plan_for(tp, base, quote, taker);
    let maker = s.maker_for(tp, taker);
    let m1 = reduced(touched(maker), p.have_qty, p.give_qty).unwrap();
    let m2 = after_fill(maker, p.have_qty, p.give_qty);
    let o1 = s.registry.orders;
    let o2 = s2.registry.orders;
    let q = l[0].orders;
    let ll = l.update(0, l[0].lowered(p.have_qty, p.give_qty));
    let l2 = s2.book_of(tp).side(side);
    assert(s.side_agrees(tp, side));
    assert(s.level_agrees(l[0]));
    assert(s.side_tidy(tp, side));
    assert(q.no_duplicates());
    // the rest of the maker's queue is stored as before
    assert forall|k: int| 0 <= k < q.skip(1).len() implies o1[#[trigger] q.skip(1)[k]] == o2[q.skip(
        1,
    )[k]] by {
        assert(q.skip(1)[k] == l[0].orders[k + 1]);
    }
    lemma_sum_first(q, o1, true);
    lemma_sum_first(q, o1, false);
    lemma_sum_first(q, o2, true);
    lemma_sum_first(q, o2, false);
    lemma_sum_same(q.skip(1), o1, o2, true);
    lemma_sum_same(q.skip(1), o1, o2, false);
    lemma_sum_bounds(q.skip(1), o1, true);
    lemma_sum_bounds(q.skip(1), o1, false);
    assert(maker.remained_sell_amount >= p.have_qty);
    assert(maker.remained_buy_amount >= p.give_qty);
    assert(m1.remained_sell_amount == maker.remained_sell_amount - p.have_qty);
    assert(m1.remained_buy_amount == maker.remained_buy_amount - p.give_qty);
    assert(ll[0].sell_amount == l[0].sell_amount - p.have_qty);
    assert(ll[0].buy_amount == l[0].buy_amount - p.give_qty);
    assert forall|i: int| 0 <= i < l2.len() implies s2.level_agrees(#[trigger] l2[i]) by {
        if m2.remained_buy_amount == 0 {
            if q.len() == 1 {
                assert(l2[i] == l[i + 1]);
                assert(s.level_agrees(l[i + 1]));
                assert forall|k: int| 0 <= k < l[i + 1].orders.len() implies o1[
                #[trigger] l[i + 1].orders[k]] == o2[l[i + 1].orders[k]] by {}
                lemma_sum_same(l[i + 1].orders, o1, o2, true);
                lemma_sum_same(l[i + 1].orders, o1, o2, false);
            } else if i == 0 {
                assert(m1.remained_sell_amount == 0);
                assert(l2[0].orders == q.skip(1));
                assert(l2[0].sell_amount == ll[0].sell_amount);
                assert(l2[0].buy_amount == ll[0].buy_amount);
            } else {
                assert(l2[i] == l[i]);
                assert(s.level_agrees(l[i]));
                assert forall|k: int| 0 <= k < l[i].orders.len() implies o1[
                #[trigger] l[i].orders[k]] == o2[l[i].orders[k]] by {}
                lemma_sum_same(l[i].orders, o1, o2, true);
                lemma_sum_same(l[i].orders, o1, o2, false);
            }
        } else {
            assert(m2 == m1);
            if i == 0 {
                assert(l2[0].orders == q);
            } else {
                assert(l2[i] == l[i]);
                assert(s.level_agrees(l[i]));
                assert forall|k: int| 0 <= k < l[i].orders.len() implies o1[
                #[trigger] l[i].orders[k]] == o2[l[i].orders[k]] by {}
                lemma_sum_same(l[i].orders, o1, o2, true);
                lemma_sum_same(l[i].orders, o1, o2, false);
            }
        }
    }
    assert(s2.side_agrees(tp, side));
    assert forall|tp1: H256, t1: OrderType| #[trigger] s2.side_agrees(tp1, t1) by {
        if tp1 == tp && t1 == side {
        } else {
            assert(s.side_agrees(tp1, t1));
            assert(s2.book_of(tp1).side(t1) == s.book_of(tp1).side(t1)) by {
                if tp1 == tp {
                    assert(t1 == taker.otype);
                }
            }
            let lo = s.book_of(tp1).side(t1);
            assert forall|i: int| 0 <= i < lo.len() implies s2.level_agrees(#[trigger] lo[i]) by {
                assert(s.level_agrees(lo[i]));
                assert forall|k: int| 0 <= k < lo[i].orders.len() implies o1[
                #[trigger] lo[i].orders[k]] == o2[lo[i].orders[k]] by {}
                lemma_sum_same(lo[i].orders, o1, o2, true);
                lemma_sum_same(lo[i].orders, o1, o2, false);
            }
        }
    }
}


/// Matching whose fills leave no dust in a level keeps the sums of the
/// levels in agreement with their orders.
pub proof fn lemma_match_keeps_sums(
    s: EngineView,
    tp: H256,
    base: H256,
    quote: H256,
    taker: Order,
    host: Host,
    fuel: nat,
)
    requires
        s.config.price_factor > 0,
        s.tidy(),
        s.agreed(),
        s.rests_nowhere(taker.hash),
        taker.status != OrderStatus::Canceled,
        s.registry.orders.contains_key(taker.hash),
        s.registry.orders[taker.hash] == taker,
        s.match_all(tp, base, quote, taker, host, fuel).is_ok(),
        s.match_dustless(tp, base, quote, taker, host, fuel),
    ensures
        s.match_all(tp, base, quote, taker, host, fuel).unwrap().0.agreed(),
    decreases fuel,
{
    if taker.status != OrderStatus::Filled && fuel != 0 {
        match s.book_of(tp).first_order(taker.otype.flip()) {
            None => {},
            Some((price, _)) => {
                if crate::arith::matches_price(taker.price, taker.otype, price) {
                    lemma_fill_shape(s, tp, base, quote, taker, host);
                    lemma_fill_keeps_tidy(s, tp, base, quote, taker, host);
                    lemma_fill_keeps_sums(s, tp, base, quote, taker, host);
                    let (s1, t1) = s.fill(tp, base, quote, taker, host).unwrap();
                    lemma_match_keeps_sums(s1, tp, base, quote, t1, host, (fuel - 1) as nat);
                }
            },
        }
    }
}

/// An order that comes to rest with what it has open, or is closed, keeps
/// the sums of the levels in agreement with their orders.
pub proof fn lemma_settled_keeps_sums(s: EngineView, tp: H256, o: Order)
    requires
        s.tidy(),
        s.agreed(),
        s.rests_nowhere(o.hash),
        s.registry.orders.contains_key(o.hash),
        s.registry.orders[o.hash] == o,
        0 < o.price <= MAX_PRICE,
        s.settled(tp, o).is_ok(),
    ensures
        s.settled(tp, o).unwrap().agreed(),
{
    let s2 = s.settled(tp, o).unwrap();
    let orders = s.registry.orders;
    assert(s2.registry.orders == orders);
    if o.status == OrderStatus::Filled {
        assert forall|tp1: H256, t1: OrderType| #[trigger] s2.side_agrees(tp1, t1) by {
            assert(s.side_agrees(tp1, t1));
            assert(s2.book_of(tp1) == s.book_of(tp1));
        }
    } else {
        let b = s.book_of(tp);
        assert(b.wf());
        let b2 = b.append(o.price, o.hash, o.remained_sell_amount, o.remained_buy_amount, o.otype);
        assert(s2.book_of(tp) == b2);
        assert forall|tp1: H256, t1: OrderType| #[trigger] s2.side_agrees(tp1, t1) by {
            assert(s.side_agrees(tp1, t1));
            if tp1 != tp {
                assert(s2.book_of(tp1) == s.book_of(tp1));
            } else {
                let l = b.side(t1);
                let l2 = b2.side(t1);
                match b.side_of(o.price) {
                    Some(t0) => {
                        if t1 == t0 {
                            let i0 = index_of(l, o.price);
                            let x = l[i0].pushed(
                                o.hash,
                                o.remained_sell_amount,
                                o.remained_buy_amount,
                            );
                            assert(l2 == l.update(i0, x));
                            assert(s.level_agrees(l[i0]));
                            assert(x.orders.drop_last() =~= l[i0].orders);
                            assert(x.orders.last() == o.hash);
                            assert forall|i: int| 0 <= i < l2.len() implies s2.level_agrees(
                                #[trigger] l2[i],
                            ) by {
                                if i != i0 {
                                    assert(l2[i] == l[i]);
                                    assert(s.level_agrees(l[i]));
                                }
                            }
                        } else {
                            assert(l2 == l);
                        }
                    },
                    None => {
                        if t1 == o.otype {
                            let x = LevelView {
                                price: o.price,
                                buy_amount: o.remained_buy_amount,
                                sell_amount: o.remained_sell_amount,
                                orders: seq![o.hash],
                            };
                            lemma_rank_exists(l, o.price, o.otype);
                            let r = rank(l, o.price, o.otype);
                            assert(l2 == l.insert(r, x));
                            assert(x.orders.drop_last() =~= Seq::<H256>::empty());
                            assert(x.orders.last() == o.hash);
                            assert(open_sum(Seq::<H256>::empty(), orders, true) == 0);
                            assert(open_sum(Seq::<H256>::empty(), orders, false) == 0);
                            assert(open_sum(x.orders, orders, true) == o.remained_sell_amount);
                            assert(open_sum(x.orders, orders, false) == o.remained_buy_amount);
                            assert forall|i: int| 0 <= i < l2.len() implies s2.level_agrees(
                                #[trigger] l2[i],
                            ) by {
                                if i < r {
                                    assert(l2[i] == l[i]);
                                    assert(s.level_agrees(l[i]));
                                } else if i > r {
                                    assert(l2[i] == l[i - 1]);
                                    assert(s.level_agrees(l[i - 1]));
                                }
                            }
                        } else {
                            assert(l2 == l);
                        }
                    },
                }
            }
        }
    }
}

/// A limit order whose fills leave no dust in a level keeps the sums of
/// the levels in agreement with their orders: afterwards the `sell_amount`
/// of every level is the sum of what its orders still give, and its
/// `buy_amount` the sum of what they still receive.
pub proof fn lemma_limit_order_keeps_sums(
    s: EngineView,
    sender: AccountId,
    base: H256,
    quote: H256,
    otype: OrderType,
    price: Price,
    sell_amount: Balance,
    host: Host,
)
    requires
        s.config.price_factor > 0,
        s.tidy(),
        s.agreed(),
        s.create_limit_order(sender, base, quote, otype, price, sell_amount, host).is_ok(),
        ({
            let (s1, o) = s.place(sender, base, quote, otype, price, sell_amount, host).unwrap();
            let tp = s.market.pair_of[(base, quote)];
            s1.match_dustless(
                tp,
                s1.market.pairs[tp].base,
                s1.market.pairs[tp].quote,
                o,
                host,
                s1.book_of(tp).resting(otype.flip()),
            )
        }),
    ensures
        s.create_limit_order(sender, base, quote, otype, price, sell_amount, host).unwrap().agreed(),
{
    let (s1, o) = s.place(sender, base, quote, otype, price, sell_amount, host).unwrap();
    let tp = s.market.pair_of[(base, quote)];
    assert(!s.registry.orders.contains_key(o.hash));
    assert(s1.registry.orders == s.registry.orders.insert(o.hash, o));
    assert(s1.books == s.books);
    assert forall|tp1: H256, t1: OrderType, i: int, j: int|
        0 <= i < s.book_of(tp1).side(t1).len() && 0 <= j < s.book_of(tp1).side(
            t1,
        )[i].orders.len() implies s1.registry.orders[#[trigger] s.book_of(tp1).side(
        t1,
    )[i].orders[j]] == s.registry.orders[s.book_of(tp1).side(t1)[i].orders[j]]
        && s.book_of(tp1).side(t1)[i].orders[j] != o.hash by {
        assert(s.side_tidy(tp1, t1));
        let l = s.book_of(tp1).side(t1);
        assert(s.rests_well(tp1, l[i].price, l[i].orders[j]));
    }
    lemma_same_orders_agree(s, s1);
    crate::invariants::lemma_same_resting_tidy(s, s1);
    assert(s1.rests_nowhere(o.hash)) by {
        assert forall|tp1: H256, t1: OrderType, i: int, j: int|
            0 <= i < s1.book_of(tp1).side(t1).len() && 0 <= j < s1.book_of(tp1).side(
                t1,
            )[i].orders.len() implies #[trigger] s1.book_of(tp1).side(t1)[i].orders[j]
            != o.hash by {
            assert(s1.book_of(tp1) == s.book_of(tp1));
        }
    }
    let b0 = s1.market.pairs[tp].base;
    let q0 = s1.market.pairs[tp].quote;
    let fuel = s1.book_of(tp).resting(o.otype.flip());
    lemma_match_keeps_tidy(s1, tp, b0, q0, o, host, fuel);
    lemma_match_keeps_sums(s1, tp, b0, q0, o, host, fuel);
    lemma_match_grows(s1, tp, b0, q0, o, host, fuel);
    let (s2, o2) = s1.match_all(tp, b0, q0, o, host, fuel).unwrap();
    lemma_settled_keeps_sums(s2, tp, o2);
}

/// The cancellation of an order that has not been filled at all, or that
/// rests alone in its level, keeps the sums of the levels in agreement with
/// their orders.
pub proof fn lemma_cancel_keeps_sums(s: EngineView, sender: AccountId, order_hash: H256)
    requires
        s.tidy(),
        s.agreed(),
        s.cancel(sender, order_hash).is_ok(),
        ({
            let o = s.registry.orders[order_hash];
            let tp = s.market.pair_of[(o.base, o.quote)];
            ||| (o.remained_sell_amount == o.sell_amount && o.remained_buy_amount == o.buy_amount)
            ||| (s.book_of(tp).side_of(o.price).is_some() && s.book_of(tp).level(
                o.price,
            ).orders.filter(other_than(order_hash)).len() == 0)
        }),
    ensures
        s.cancel(sender, order_hash).unwrap().agreed(),
{
    let s2 = s.cancel(sender, order_hash).unwrap();
    let o = s.registry.orders[order_hash];
    assert(o.hash == order_hash);
    let tp = s.market.pair_of[(o.base, o.quote)];
    let b = s.book_of(tp);
    assert(b.wf());
    let b2 = b.remove_order(o.price, o.hash, o.sell_amount, o.buy_amount);
    assert(s2.book_of(tp) == b2);
    let o1 = s.registry.orders;
    let o2 = s2.registry.orders;
    let gone = Order { status: OrderStatus::Canceled, ..o };
    assert(o2 == o1.insert(order_hash, gone));
    assert forall|tp1: H256, t1: OrderType| #[trigger] s2.side_agrees(tp1, t1) by {
        assert(s.side_agrees(tp1, t1));
        assert(s.side_tidy(tp1, t1));
        let l = s.book_of(tp1).side(t1);
        let l2 = s2.book_of(tp1).side(t1);
        if tp1 != tp || b.side_of(o.price) != Some(t1) {
            if tp1 != tp {
                assert(s2.book_of(tp1) == s.book_of(tp1));
            }
            assert(l2 == l);
            assert forall|i: int| 0 <= i < l.len() implies s2.level_agrees(#[trigger] l[i]) by {
                assert(s.level_agrees(l[i]));
                assert forall|k: int| 0 <= k < l[i].orders.len() implies open_amount(
                    o1[#[trigger] l[i].orders[k]],
                    true,
                ) == open_amount(o2[l[i].orders[k]], true) && open_amount(
                    o1[l[i].orders[k]],
                    false,
                ) == open_amount(o2[l[i].orders[k]], false) by {}
                lemma_sum_alike(l[i].orders, o1, o2, true);
                lemma_sum_alike(l[i].orders, o1, o2, false);
            }
        } else {
            let i0 = index_of(l, o.price);
            let q0 = l[i0].orders;
            let q = q0.filter(other_than(o.hash));
            lemma_filter_keeps(q0, o.hash);
            assert(q0.no_duplicates());
            assert(q0.contains(o.hash));
            assert(s.level_agrees(l[i0]));
            lemma_sum_filter(q0, o1, o.hash, true);
            lemma_sum_filter(q0, o1, o.hash, false);
            lemma_sum_bounds(q, o1, true);
            lemma_sum_bounds(q, o1, false);
            assert forall|k: int| 0 <= k < q.len() implies o1[#[trigger] q[k]] == o2[q[k]] by {}
            lemma_sum_same(q, o1, o2, true);
            lemma_sum_same(q, o1, o2, false);
            assert forall|i: int| 0 <= i < l2.len() implies s2.level_agrees(#[trigger] l2[i]) by {
                let i1 = if q.len() == 0 && i >= i0 { i + 1 } else { i };
                if q.len() != 0 && i == i0 {
                    assert(l2[i] == l[i0].lowered(o.sell_amount, o.buy_amount).with_orders(q));
                } else {
                    assert(l2[i] == l[i1]);
                    assert(s.level_agrees(l[i1]));
                    assert forall|k: int| 0 <= k < l[i1].orders.len() implies o1[
                    #[trigger] l[i1].orders[k]] == o2[l[i1].orders[k]] by {
                        if l[i1].orders[k] == order_hash {
                            let k0 = choose|k0: int| 0 <= k0 < q0.len() && q0[k0] == order_hash;
                            lemma_rests_once(s, tp1, t1, i1, k, tp1, t1, i0, k0);
                        }
                    }
                    lemma_sum_same(l[i1].orders, o1, o2, true);
                    lemma_sum_same(l[i1].orders, o1, o2, false);
                }
            }
        }
    }
}

/// The sum of a queue depends only on what its orders have open.
pub proof fn lemma_sum_alike(q: Seq<H256>, o1: Map<H256, Order>, o2: Map<H256, Order>, sell: bool)
    requires
        forall|k: int|
            0 <= k < q.len() ==> open_amount(o1[#[trigger] q[k]], sell) == open_amount(
                o2[q[k]],
                sell,
            ),
    ensures
        open_sum(q, o1, sell) == open_sum(q, o2, sell),
    decreases q.len(),
{
    if q.len() > 0 {
        let t = q.drop_last();
        assert forall|k: int| 0 <= k < t.len() implies open_amount(o1[#[trigger] t[k]], sell)
            == open_amount(o2[t[k]], sell) by {
            assert(t[k] == q[k]);
        }
        lemma_sum_alike(t, o1, o2, sell);
        assert(q.last() == q[q.len() - 1]);
    }
}

} // verus!
