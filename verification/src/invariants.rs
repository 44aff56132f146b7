//! The order of the books: which orders rest in them.
//!
//! A book is tidy when every order resting in it is known, is not finished,
//! rests at its own price in the book of its own pair, and rests there once.
//! Limit orders and cancellations keep the books tidy. A market order does
//! not: the part of it that the book could not fill rests there, swept and
//! finished, until a later fill clears it away.

use vstd::prelude::*;
use crate::engine::EngineView;
use crate::laws::{after_fill, lemma_fill_shape};
use crate::arith::matches_price;
use crate::laws::lemma_match_grows;
use crate::price_list::{
    drained, has_price, index_of, is_done, ladder_drained, ladder_resting,
    lemma_append_wf, lemma_filter_keeps, lemma_index_unique, lemma_insert_wf,
    lemma_remove_order_wf, other_than, rank, BookView, LevelView,
};
use crate::types::{
    AccountId, Balance, BlockNumber, Host, Order, OrderStatus, OrderType, Price, H256, MAX_PRICE,
};

verus! {

/// Draining a ladder whose orders are all open, but perhaps the oldest order
/// of the best level, takes out that order if it is finished and nothing
/// else.
pub proof fn lemma_drain_takes_the_first(l: Seq<LevelView>, orders: Map<H256, Order>)
    requires
        l.len() > 0,
        l[0].orders.len() > 0,
        forall|i: int, j: int|
            0 <= i < l.len() && 0 <= j < l[i].orders.len() && (i, j) != (0int, 0int) ==> !is_done(
                orders,
                #[trigger] l[i].orders[j],
            ),
        forall|i: int| 0 <= i < l.len() ==> (#[trigger] l[i]).orders.len() > 0,
    ensures
        ladder_drained(l, orders) == (if is_done(orders, l[0].orders[0]) {
            if l[0].orders.len() == 1 {
                l.skip(1)
            } else {
                l.update(0, l[0].with_orders(l[0].orders.skip(1)))
            }
        } else {
            l
        }),
        is_done(orders, l[0].orders[0]) ==> ladder_resting(ladder_drained(l, orders)) + 1
            == ladder_resting(l),
{
    let q = l[0].orders;
    if is_done(orders, q[0]) {
        let q1 = q.skip(1);
        if q1.len() > 0 {
            assert(q1[0] == l[0].orders[1]);
            assert(!is_done(orders, q1[0]));
            assert(drained(q1, orders) == q1);
            assert(drained(q, orders) == q1);
            assert(l[0].with_orders(q1) == LevelView { orders: q1, ..l[0] });
            let l2 = l.update(0, l[0].with_orders(q1));
            assert(l2.skip(1) =~= l.skip(1));
        } else {
            assert(drained(q1, orders) == q1);
            assert(drained(q, orders) == q1);
            let r = l.skip(1);
            if r.len() > 0 {
                assert(r[0] == l[1]);
                assert(r[0].orders.len() > 0);
                assert(r[0].orders[0] == l[1].orders[0]);
                assert(!is_done(orders, r[0].orders[0]));
                assert(drained(r[0].orders, orders) == r[0].orders);
                assert(r.update(0, LevelView { orders: r[0].orders, ..r[0] }) =~= r);
            }
            assert(ladder_drained(r, orders) == r);
        }
    } else {
        assert(drained(q, orders) == q);
        assert(l.update(0, LevelView { orders: q, ..l[0] }) =~= l);
    }
}


impl EngineView {
    /// Every order is stored under its own identifier.
    pub open spec fn keyed(self) -> bool {
        forall|h: H256| #[trigger]
            self.registry.orders.contains_key(h) ==> self.registry.orders[h].hash == h
    }

    /// What a resting order owes its place: it is known and not finished, its
    /// price is the price of its level, and its pair is the pair of the book.
    pub open spec fn rests_well(self, tp: H256, price: Price, h: H256) -> bool {
        &&& self.registry.orders.contains_key(h)
        &&& !self.registry.orders[h].finished()
        &&& self.registry.orders[h].price == price
        &&& self.market.pair_of.contains_key(
            (self.registry.orders[h].base, self.registry.orders[h].quote),
        )
        &&& self.market.pair_of[(self.registry.orders[h].base, self.registry.orders[h].quote)]
            == tp
    }

    /// One side of a book is tidy: every order in it rests well, and no
    /// level holds an order twice.
    pub open spec fn side_tidy(self, tp: H256, t: OrderType) -> bool {
        let l = self.book_of(tp).side(t);
        &&& forall|i: int, j: int|
            0 <= i < l.len() && 0 <= j < l[i].orders.len() ==> self.rests_well(
                tp,
                l[i].price,
                #[trigger] l[i].orders[j],
            )
        &&& forall|i: int| 0 <= i < l.len() ==> (#[trigger] l[i]).orders.no_duplicates()
    }

    /// The books are tidy: every book is well formed, no finished order
    /// rests in any book, and every resting order rests once, at its own
    /// price and in the book of its own pair.
    pub open spec fn tidy(self) -> bool {
        &&& self.keyed()
        &&& self.book_of_is_wf()
        &&& forall|tp: H256, t: OrderType| #[trigger] self.side_tidy(tp, t)
    }

    /// Whether the order rests nowhere.
    pub open spec fn rests_nowhere(self, h: H256) -> bool {
        forall|tp: H256, t: OrderType, i: int, j: int|
            0 <= i < self.book_of(tp).side(t).len() && 0 <= j < self.book_of(tp).side(
                t,
            )[i].orders.len() ==> #[trigger] self.book_of(tp).side(t)[i].orders[j] != h
    }
}

/// In tidy books no finished order rests: an order that is finished is
/// absent from every level of every book.
pub proof fn lemma_finished_orders_rest_nowhere(s: EngineView, h: H256)
    requires
        s.tidy(),
        s.registry.orders.contains_key(h) ==> s.registry.orders[h].finished(),
    ensures
        s.rests_nowhere(h),
{
    assert forall|tp: H256, t: OrderType, i: int, j: int|
        0 <= i < s.book_of(tp).side(t).len() && 0 <= j < s.book_of(tp).side(
            t,
        )[i].orders.len() implies #[trigger] s.book_of(tp).side(t)[i].orders[j] != h by {
        assert(s.side_tidy(tp, t));
        let l = s.book_of(tp).side(t);
        assert(s.rests_well(tp, l[i].price, l[i].orders[j]));
    }
}

/// An order that rests in tidy books rests at one place only.
pub proof fn lemma_rests_once(
    s: EngineView,
    tp: H256,
    t: OrderType,
    i: int,
    j: int,
    tp2: H256,
    t2: OrderType,
    i2: int,
    j2: int,
)
    requires
        s.tidy(),
        0 <= i < s.book_of(tp).side(t).len(),
        0 <= j < s.book_of(tp).side(t)[i].orders.len(),
        0 <= i2 < s.book_of(tp2).side(t2).len(),
        0 <= j2 < s.book_of(tp2).side(t2)[i2].orders.len(),
        s.book_of(tp).side(t)[i].orders[j] == s.book_of(tp2).side(t2)[i2].orders[j2],
    ensures
        tp == tp2,
        t == t2,
        i == i2,
        j == j2,
{
    assert(s.side_tidy(tp, t));
    assert(s.side_tidy(tp2, t2));
    let l = s.book_of(tp).side(t);
    let l2 = s.book_of(tp2).side(t2);
    let h = l[i].orders[j];
    assert(s.rests_well(tp, l[i].price, h));
    assert(s.rests_well(tp2, l2[i2].price, l2[i2].orders[j2]));
    assert(tp == tp2);
    assert(l[i].price == l2[i2].price);
    let b = s.book_of(tp);
    assert(b.wf());
    if t != t2 {
        match t {
            OrderType::Buy => {
                assert(b.bids[i].price != b.asks[i2].price);
            },
            OrderType::Sell => {
                assert(b.bids[i2].price != b.asks[i].price);
            },
        }
    }
    lemma_index_unique(l, t, i);
    lemma_index_unique(l, t, i2);
}

/// A fill keeps the books tidy. The taker, which rests nowhere, still rests
/// nowhere, is stored as it stands and is not cancelled; and unless the fill
/// has filled the taker, one order fewer rests on the makers' side.
pub proof fn lemma_fill_keeps_tidy(s: EngineView, tp: H256, base: H256, quote: H256, taker: Order, host: Host)
    requires
        s.config.price_factor > 0,
        s.tidy(),
        s.book_of(tp).first_order(taker.otype.flip()).is_some(),
        s.fill(tp, base, quote, taker, host).is_ok(),
        s.rests_nowhere(taker.hash),
        taker.status != OrderStatus::Canceled,
        taker.status != OrderStatus::Filled,
    ensures
        ({
            let (s2, t2) = s.fill(tp, base, quote, taker, host).unwrap();
            &&& s2.tidy()
            &&& s2.rests_nowhere(t2.hash)
            &&& t2.status != OrderStatus::Canceled
            &&& t2.hash == taker.hash
            &&& s2.registry.orders.contains_key(t2.hash)
            &&& s2.registry.orders[t2.hash] == t2
            &&& t2.status != OrderStatus::Filled ==> s2.book_of(tp).resting(taker.otype.flip()) + 1
                == s.book_of(tp).resting(taker.otype.flip())
            &&& t2.status == OrderStatus::Filled <==> t2.finished()
        }),
{
    lemma_fill_shape(s, tp, base, quote, taker, host);
    let (s2, t2) = s.fill(tp, base, quote, taker, host).unwrap();
    let side = taker.otype.flip();
    let b = s.book_of(tp);
    let l = b.side(side);
    let mh = l[0].orders[0];
    let maker = s.maker_for(tp, taker);
    let p = s.plan_for(tp, base, quote, taker);
    let m2 = after_fill(maker, p.have_qty, p.give_qty);
    assert(s.side_tidy(tp, side));
    assert(b.wf());
    assert(s.rests_well(tp, l[0].price, mh));
    assert(maker.hash == mh);
    assert(mh != taker.hash);
    let orders2 = s2.registry.orders;
    assert(orders2[mh] == m2);
    assert(orders2[taker.hash] == t2);
    // every resting order but the maker is stored as before
    assert forall|tp1: H256, t1: OrderType, i: int, j: int|
        0 <= i < s.book_of(tp1).side(t1).len() && 0 <= j < s.book_of(tp1).side(t1)[i].orders.len()
            && (tp1, t1, i, j) != (tp, side, 0int, 0int) implies orders2[#[trigger] s.book_of(tp1).side(
        t1,
    )[i].orders[j]] == s.registry.orders[s.book_of(tp1).side(t1)[i].orders[j]] by {
        let h = s.book_of(tp1).side(t1)[i].orders[j];
        if h == mh {
            lemma_rests_once(s, tp1, t1, i, j, tp, side, 0, 0);
        }
    }
    let lowered = b.decrement(m2.price, p.have_qty, p.give_qty);
    assert(m2.price == l[0].price);
    lemma_index_unique(l, side, 0);
    match side {
        OrderType::Buy => {},
        OrderType::Sell => {
            if has_price(b.bids, l[0].price) {
                let k = index_of(b.bids, l[0].price);
                assert(b.bids[k].price != b.asks[0].price);
            }
        },
    }
    assert(b.side_of(l[0].price) == Some(side));
    let ll = lowered.side(side);
    assert(ll == l.update(0, l[0].lowered(p.have_qty, p.give_qty)));
    assert(lowered.side(taker.otype) == b.side(taker.otype));
    assert forall|i: int, j: int|
        0 <= i < ll.len() && 0 <= j < ll[i].orders.len() && (i, j) != (0int, 0int) implies !is_done(
        orders2,
        #[trigger] ll[i].orders[j],
    ) by {
        assert(ll[i].orders == l[i].orders);
        assert(s.rests_well(tp, l[i].price, l[i].orders[j]));
        assert(orders2[l[i].orders[j]] == s.registry.orders[l[i].orders[j]]);
    }
    assert forall|i: int| 0 <= i < ll.len() implies (#[trigger] ll[i]).orders.len() > 0 by {
        assert(ll[i].orders == l[i].orders);
    }
    lemma_drain_takes_the_first(ll, orders2);
    let b2 = s2.book_of(tp);
    assert(b2 == lowered.drain(side, orders2));
    let l2 = b2.side(side);
    assert(b2.side(taker.otype) == b.side(taker.otype));
    // the maker after the fill
    assert(m2.finished() <==> m2.remained_buy_amount == 0);
    assert(!m2.finished() ==> s2.rests_well(tp, l[0].price, mh));
    // the makers' side of the pair's book
    assert forall|i: int, j: int| 0 <= i < l2.len() && 0 <= j < l2[i].orders.len() implies s2.rests_well(
        tp,
        l2[i].price,
        #[trigger] l2[i].orders[j],
    ) by {
        if is_done(orders2, mh) {
            if ll[0].orders.len() == 1 {
                assert(l2[i] == ll[i + 1]);
                assert(l2[i].orders[j] == l[i + 1].orders[j]);
                assert(s.rests_well(tp, l[i + 1].price, l[i + 1].orders[j]));
                assert(orders2[l[i + 1].orders[j]] == s.registry.orders[l[i + 1].orders[j]]);
            } else if i == 0 {
                assert(l2[0].orders[j] == l[0].orders[j + 1]);
                assert(s.rests_well(tp, l[0].price, l[0].orders[j + 1]));
                assert(orders2[l[0].orders[j + 1]] == s.registry.orders[l[0].orders[j + 1]]);
            } else {
                assert(l2[i] == ll[i]);
                assert(s.rests_well(tp, l[i].price, l[i].orders[j]));
                assert(orders2[l[i].orders[j]] == s.registry.orders[l[i].orders[j]]);
            }
        } else {
            assert(l2[i].orders == l[i].orders);
            assert(l2[i].price == l[i].price);
            if (i, j) != (0int, 0int) {
                assert(s.rests_well(tp, l[i].price, l[i].orders[j]));
                assert(orders2[l[i].orders[j]] == s.registry.orders[l[i].orders[j]]);
            }
        }
    }
    assert forall|i: int| 0 <= i < l2.len() implies (#[trigger] l2[i]).orders.no_duplicates() by {
        if is_done(orders2, mh) {
            if ll[0].orders.len() == 1 {
                assert(l2[i] == ll[i + 1]);
                assert(l[i + 1].orders.no_duplicates());
            } else if i == 0 {
                assert(l[0].orders.no_duplicates());
                assert forall|x: int, y: int|
                    0 <= x < l2[0].orders.len() && 0 <= y < l2[0].orders.len() && x
                        != y implies l2[0].orders[x] != l2[0].orders[y] by {
                    assert(l2[0].orders[x] == l[0].orders[x + 1]);
                    assert(l2[0].orders[y] == l[0].orders[y + 1]);
                }
            } else {
                assert(l2[i] == ll[i]);
                assert(l[i].orders.no_duplicates());
            }
        } else {
            assert(l2[i].orders == l[i].orders);
            assert(l[i].orders.no_duplicates());
        }
    }
    assert(s2.side_tidy(tp, side));
    // the taker's side of the pair's book
    assert(s.side_tidy(tp, taker.otype));
    assert forall|i: int, j: int|
        0 <= i < b2.side(taker.otype).len() && 0 <= j < b2.side(
            taker.otype,
        )[i].orders.len() implies s2.rests_well(
        tp,
        b2.side(taker.otype)[i].price,
        #[trigger] b2.side(taker.otype)[i].orders[j],
    ) by {
        let lo = b.side(taker.otype);
        assert(s.rests_well(tp, lo[i].price, lo[i].orders[j]));
        assert(orders2[lo[i].orders[j]] == s.registry.orders[lo[i].orders[j]]);
    }
    assert(s2.side_tidy(tp, taker.otype));
    // the other books
    assert forall|tp1: H256, t1: OrderType| #[trigger] s2.side_tidy(tp1, t1) by {
        if tp1 != tp {
            assert(s2.book_of(tp1) == s.book_of(tp1));
            assert(s.side_tidy(tp1, t1));
            let lo = s.book_of(tp1).side(t1);
            assert forall|i: int, j: int|
                0 <= i < lo.len() && 0 <= j < lo[i].orders.len() implies s2.rests_well(
                tp1,
                lo[i].price,
                #[trigger] lo[i].orders[j],
            ) by {
                assert(s.rests_well(tp1, lo[i].price, lo[i].orders[j]));
                assert(orders2[lo[i].orders[j]] == s.registry.orders[lo[i].orders[j]]);
            }
        } else if t1 == side {
        } else {
            assert(t1 == taker.otype);
        }
    }
    assert forall|tp1: H256| (#[trigger] s2.book_of(tp1)).wf() by {
        if tp1 == tp {
            crate::price_list::lemma_drained_wf(lowered, side, orders2);
        } else {
            assert(s2.book_of(tp1) == s.book_of(tp1));
        }
    }
    assert(s2.keyed()) by {
        assert forall|h: H256| #[trigger] orders2.contains_key(h) implies orders2[h].hash == h by {
            if h != mh && h != taker.hash {
                assert(s.registry.orders.contains_key(h));
            }
        }
    }
    assert(ll.skip(1) =~= l.skip(1));
    assert(ladder_resting(ll) == ladder_resting(l));
    assert(t2.status != OrderStatus::Canceled);
    assert(t2.status == OrderStatus::Filled <==> t2.finished());
    if t2.status != OrderStatus::Filled {
        assert(t2.remained_buy_amount != 0);
        assert(m2.remained_buy_amount == 0);
        assert(is_done(orders2, mh));
        assert(ladder_resting(l2) + 1 == ladder_resting(l));
    }
    assert(s2.tidy());
    assert(s2.rests_nowhere(t2.hash)) by {
        assert forall|tp1: H256, t1: OrderType, i: int, j: int|
            0 <= i < s2.book_of(tp1).side(t1).len() && 0 <= j < s2.book_of(tp1).side(
                t1,
            )[i].orders.len() implies #[trigger] s2.book_of(tp1).side(t1)[i].orders[j]
            != t2.hash by {
            assert(s2.side_tidy(tp1, t1));
            if tp1 != tp || t1 != side {
                assert(s2.book_of(tp1).side(t1) == s.book_of(tp1).side(t1));
            } else if is_done(orders2, mh) {
                if ll[0].orders.len() == 1 {
                    assert(l2[i] == ll[i + 1]);
                    assert(l2[i].orders[j] == l[i + 1].orders[j]);
                } else if i == 0 {
                    assert(l2[0].orders[j] == l[0].orders[j + 1]);
                } else {
                    assert(l2[i].orders[j] == l[i].orders[j]);
                }
            } else {
                assert(l2[i].orders[j] == l[i].orders[j]);
            }
        }
    }
}


/// Matching keeps the books tidy, and it runs to its end: when it stops,
/// the taker is filled, or the other side of the book is empty, or the best
/// price there is one the taker does not accept. The bound on the number of
/// fills is never what stops it.
pub proof fn lemma_match_keeps_tidy(
    s: EngineView,
    tp: H256,
    base: H256,
    quote: H256,
    taker: Order,
    host: Host,
    fuel: nat,
)
    requires
        s.config.price_factor > 0,
        s.tidy(),
        s.rests_nowhere(taker.hash),
        taker.status != OrderStatus::Canceled,
        s.registry.orders.contains_key(taker.hash),
        s.registry.orders[taker.hash] == taker,
        taker.status != OrderStatus::Filled ==> fuel >= s.book_of(tp).resting(taker.otype.flip()),
        s.match_all(tp, base, quote, taker, host, fuel).is_ok(),
    ensures
        ({
            let (s2, t2) = s.match_all(tp, base, quote, taker, host, fuel).unwrap();
            &&& s2.tidy()
            &&& s2.rests_nowhere(t2.hash)
            &&& t2.status != OrderStatus::Canceled
            &&& s2.registry.orders.contains_key(t2.hash)
            &&& s2.registry.orders[t2.hash] == t2
            &&& taker.status != OrderStatus::Filled && t2.status == OrderStatus::Filled
                ==> t2.finished()
            &&& t2.status != OrderStatus::Filled ==> match s2.book_of(tp).first_order(
                t2.otype.flip(),
            ) {
                None => true,
                Some((price, _)) => !matches_price(t2.price, t2.otype, price),
            }
        }),
    decreases fuel,
{
    if taker.status != OrderStatus::Filled {
        match s.book_of(tp).first_order(taker.otype.flip()) {
            None => {},
            Some((price, _)) => {
                if matches_price(taker.price, taker.otype, price) {
                    let l = s.book_of(tp).side(taker.otype.flip());
                    assert(s.book_of(tp).wf());
                    assert(l[0].orders.len() > 0);
                    assert(ladder_resting(l) >= 1);
                    lemma_fill_keeps_tidy(s, tp, base, quote, taker, host);
                    let (s1, t1) = s.fill(tp, base, quote, taker, host).unwrap();
                    crate::laws::lemma_fill_shape(s, tp, base, quote, taker, host);
                    lemma_match_keeps_tidy(s1, tp, base, quote, t1, host, (fuel - 1) as nat);
                }
            },
        }
    }
}

/// An order that comes to rest after matching, or is closed, keeps the
/// books tidy.
pub proof fn lemma_settled_keeps_tidy(s: EngineView, tp: H256, o: Order)
    requires
        s.tidy(),
        s.rests_nowhere(o.hash),
        o.status != OrderStatus::Canceled,
        o.status == OrderStatus::Filled ==> o.finished(),
        s.registry.orders.contains_key(o.hash),
        s.registry.orders[o.hash] == o,
        s.market.pair_of.contains_key((o.base, o.quote)),
        s.market.pair_of[(o.base, o.quote)] == tp,
        0 < o.price <= MAX_PRICE,
        s.settled(tp, o).is_ok(),
    ensures
        s.settled(tp, o).unwrap().tidy(),
        o.status != OrderStatus::Filled ==> s.settled(tp, o).unwrap().book_of(tp).rests_at(
            o.price,
            o.hash,
        ),
{
    let s2 = s.settled(tp, o).unwrap();
    if o.status == OrderStatus::Filled {
        assert forall|tp1: H256, t1: OrderType| #[trigger] s2.side_tidy(tp1, t1) by {
            assert(s.side_tidy(tp1, t1));
            assert(s2.book_of(tp1) == s.book_of(tp1));
        }
        assert forall|tp1: H256| (#[trigger] s2.book_of(tp1)).wf() by {
            assert(s2.book_of(tp1) == s.book_of(tp1));
        }
    } else {
        let b = s.book_of(tp);
        assert(b.wf());
        let b2 = b.append(o.price, o.hash, o.remained_sell_amount, o.remained_buy_amount, o.otype);
        assert(s2.book_of(tp) == b2);
        lemma_append_wf(
            b,
            o.price,
            o.hash,
            o.remained_sell_amount,
            o.remained_buy_amount,
            o.otype,
        );
        assert(s2.rests_well(tp, o.price, o.hash));
        assert forall|tp1: H256| (#[trigger] s2.book_of(tp1)).wf() by {
            if tp1 != tp {
                assert(s2.book_of(tp1) == s.book_of(tp1));
            }
        }
        match b.side_of(o.price) {
            Some(t0) => {
                let l = b.side(t0);
                let i0 = index_of(l, o.price);
                let l2 = b2.side(t0);
                assert(l2 == l.update(
                    i0,
                    l[i0].pushed(o.hash, o.remained_sell_amount, o.remained_buy_amount),
                ));
                assert(s.side_tidy(tp, t0));
                assert forall|i: int, j: int|
                    0 <= i < l2.len() && 0 <= j < l2[i].orders.len() implies s2.rests_well(
                    tp,
                    l2[i].price,
                    #[trigger] l2[i].orders[j],
                ) by {
                    if i == i0 && j == l[i0].orders.len() {
                    } else {
                        assert(l2[i].orders[j] == l[i].orders[j]);
                        assert(s.rests_well(tp, l[i].price, l[i].orders[j]));
                    }
                }
                assert forall|i: int| 0 <= i < l2.len() implies (
                #[trigger] l2[i]).orders.no_duplicates() by {
                    assert(l[i].orders.no_duplicates());
                    if i == i0 {
                        assert forall|x: int, y: int|
                            0 <= x < l2[i].orders.len() && 0 <= y < l2[i].orders.len() && x
                                != y implies l2[i].orders[x] != l2[i].orders[y] by {
                            if x < l[i].orders.len() {
                                assert(l2[i].orders[x] == l[i].orders[x]);
                            }
                            if y < l[i].orders.len() {
                                assert(l2[i].orders[y] == l[i].orders[y]);
                            }
                        }
                    }
                }
                assert(s2.side_tidy(tp, t0));
                assert(l2[i0].orders[l[i0].orders.len() as int] == o.hash);
                assert(b2.side(t0.flip()) == b.side(t0.flip()));
                assert(s.side_tidy(tp, t0.flip()));
                assert(s2.side_tidy(tp, t0.flip()));
                lemma_index_unique(l2, t0, i0);
                match t0 {
                    OrderType::Buy => {},
                    OrderType::Sell => {
                        if has_price(b2.bids, o.price) {
                            let k = index_of(b2.bids, o.price);
                            assert(b2.bids[k].price != b2.asks[i0].price);
                        }
                    },
                }
                assert(b2.side_of(o.price) == Some(t0));
            },
            None => {
                let l = b.side(o.otype);
                let x = LevelView {
                    price: o.price,
                    buy_amount: o.remained_buy_amount,
                    sell_amount: o.remained_sell_amount,
                    orders: seq![o.hash],
                };
                lemma_insert_wf(l, o.otype, x);
                let r = rank(l, o.price, o.otype);
                let l2 = b2.side(o.otype);
                assert(l2 == l.insert(r, x));
                assert(s.side_tidy(tp, o.otype));
                assert forall|i: int, j: int|
                    0 <= i < l2.len() && 0 <= j < l2[i].orders.len() implies s2.rests_well(
                    tp,
                    l2[i].price,
                    #[trigger] l2[i].orders[j],
                ) by {
                    if i < r {
                        assert(l2[i] == l[i]);
                        assert(s.rests_well(tp, l[i].price, l[i].orders[j]));
                    } else if i > r {
                        assert(l2[i] == l[i - 1]);
                        assert(s.rests_well(tp, l[i - 1].price, l[i - 1].orders[j]));
                    }
                }
                assert forall|i: int| 0 <= i < l2.len() implies (
                #[trigger] l2[i]).orders.no_duplicates() by {
                    if i < r {
                        assert(l2[i] == l[i]);
                        assert(l[i].orders.no_duplicates());
                    } else if i > r {
                        assert(l2[i] == l[i - 1]);
                        assert(l[i - 1].orders.no_duplicates());
                    }
                }
                assert(s2.side_tidy(tp, o.otype));
                assert(b2.side(o.otype.flip()) == b.side(o.otype.flip()));
                assert(s.side_tidy(tp, o.otype.flip()));
                assert(s2.side_tidy(tp, o.otype.flip()));
                assert(l2[r] == x);
                lemma_index_unique(l2, o.otype, r);
                match o.otype {
                    OrderType::Buy => {},
                    OrderType::Sell => {
                        if has_price(b2.bids, o.price) {
                            let k = index_of(b2.bids, o.price);
                            assert(b2.bids[k].price != b2.asks[r].price);
                        }
                    },
                }
                assert(b2.side_of(o.price) == Some(o.otype));
                assert(x.orders[0] == o.hash);
            },
        }
        assert forall|tp1: H256, t1: OrderType| #[trigger] s2.side_tidy(tp1, t1) by {
            if tp1 != tp {
                assert(s.side_tidy(tp1, t1));
                assert(s2.book_of(tp1) == s.book_of(tp1));
            } else {
                assert(t1 == o.otype || t1 == o.otype.flip());
                match b.side_of(o.price) {
                    Some(t0) => {
                        assert(t1 == t0 || t1 == t0.flip());
                    },
                    None => {},
                }
            }
        }
    }
}

/// A limit order keeps the books tidy: afterwards no finished order rests
/// in any book, and every resting order rests once, at its own price, in the
/// book of its own pair.
pub proof fn lemma_limit_order_keeps_tidy(
    s: EngineView,
    sender: AccountId,
    base: H256,
    quote: H256,
    otype: OrderType,
    price: Price,
    sell_amount: Balance,
    host: Host,
)
    requires
        s.config.price_factor > 0,
        s.tidy(),
        s.create_limit_order(sender, base, quote, otype, price, sell_amount, host).is_ok(),
    ensures
        s.create_limit_order(sender, base, quote, otype, price, sell_amount, host).unwrap().tidy(),
{
    let (s1, o) = s.place(sender, base, quote, otype, price, sell_amount, host).unwrap();
    let tp = s.market.pair_of[(base, quote)];
    assert(!s.registry.orders.contains_key(o.hash));
    assert(s1.registry.orders == s.registry.orders.insert(o.hash, o));
    assert(s1.books == s.books);
    assert forall|tp1: H256, t1: OrderType| #[trigger] s1.side_tidy(tp1, t1) by {
        assert(s.side_tidy(tp1, t1));
        assert(s1.book_of(tp1) == s.book_of(tp1));
        let l = s.book_of(tp1).side(t1);
        assert forall|i: int, j: int|
            0 <= i < l.len() && 0 <= j < l[i].orders.len() implies s1.rests_well(
            tp1,
            l[i].price,
            #[trigger] l[i].orders[j],
        ) by {
            assert(s.rests_well(tp1, l[i].price, l[i].orders[j]));
        }
    }
    assert forall|tp1: H256| (#[trigger] s1.book_of(tp1)).wf() by {
        assert(s1.book_of(tp1) == s.book_of(tp1));
    }
    assert(s1.tidy());
    assert(s1.rests_nowhere(o.hash)) by {
        assert forall|tp1: H256, t1: OrderType, i: int, j: int|
            0 <= i < s1.book_of(tp1).side(t1).len() && 0 <= j < s1.book_of(tp1).side(
                t1,
            )[i].orders.len() implies #[trigger] s1.book_of(tp1).side(t1)[i].orders[j]
            != o.hash by {
            assert(s.side_tidy(tp1, t1));
            assert(s1.book_of(tp1) == s.book_of(tp1));
            let l = s.book_of(tp1).side(t1);
            assert(s.rests_well(tp1, l[i].price, l[i].orders[j]));
        }
    }
    let b0 = s1.market.pairs[tp].base;
    let q0 = s1.market.pairs[tp].quote;
    let fuel = s1.book_of(tp).resting(o.otype.flip());
    lemma_match_keeps_tidy(s1, tp, b0, q0, o, host, fuel);
    lemma_match_grows(s1, tp, b0, q0, o, host, fuel);
    let (s2, o2) = s1.match_all(tp, b0, q0, o, host, fuel).unwrap();
    lemma_settled_keeps_tidy(s2, tp, o2);
}

/// Whether the order is absent from one side of one book.
pub open spec fn absent_from(s: EngineView, tp: H256, t: OrderType, h: H256) -> bool {
    forall|i: int, j: int|
        0 <= i < s.book_of(tp).side(t).len() && 0 <= j < s.book_of(tp).side(t)[i].orders.len()
            ==> #[trigger] s.book_of(tp).side(t)[i].orders[j] != h
}

/// In tidy books an order rests only in the book of its pair, in the level at
/// its price.
proof fn lemma_rests_at_its_price(s: EngineView, tp1: H256, t1: OrderType, i: int, j: int)
    requires
        s.tidy(),
        0 <= i < s.book_of(tp1).side(t1).len(),
        0 <= j < s.book_of(tp1).side(t1)[i].orders.len(),
    ensures
        ({
            let h = s.book_of(tp1).side(t1)[i].orders[j];
            let o = s.registry.orders[h];
            &&& s.rests_well(tp1, s.book_of(tp1).side(t1)[i].price, h)
            &&& s.book_of(tp1).side_of(o.price) == Some(t1)
            &&& index_of(s.book_of(tp1).side(t1), o.price) == i
        }),
{
    assert(s.side_tidy(tp1, t1));
    let b = s.book_of(tp1);
    let l = b.side(t1);
    assert(s.rests_well(tp1, l[i].price, l[i].orders[j]));
    assert(b.wf());
    lemma_index_unique(l, t1, i);
    match t1 {
        OrderType::Buy => {},
        OrderType::Sell => {
            if has_price(b.bids, l[i].price) {
                let k = index_of(b.bids, l[i].price);
                assert(b.bids[k].price != b.asks[i].price);
            }
        },
    }
}

proof fn lemma_cancel_side(s: EngineView, sender: AccountId, order_hash: H256, tp1: H256, t1: OrderType)
    requires
        s.tidy(),
        s.cancel(sender, order_hash).is_ok(),
    ensures
        s.cancel(sender, order_hash).unwrap().side_tidy(tp1, t1),
        absent_from(s.cancel(sender, order_hash).unwrap(), tp1, t1, order_hash),
{
    let s2 = s.cancel(sender, order_hash).unwrap();
    let o = s.registry.orders[order_hash];
    assert(o.hash == order_hash);
    let tp = s.market.pair_of[(o.base, o.quote)];
    let b = s.book_of(tp);
    let b2 = b.remove_order(o.price, o.hash, o.sell_amount, o.buy_amount);
    assert(s2.book_of(tp) == b2);
    assert(s.side_tidy(tp1, t1));
    let l = s.book_of(tp1).side(t1);
    let l2 = s2.book_of(tp1).side(t1);
    if tp1 != tp || b.side_of(o.price) != Some(t1) {
        if tp1 != tp {
            assert(s2.book_of(tp1) == s.book_of(tp1));
        }
        assert(l2 == l);
        assert forall|i: int, j: int|
            0 <= i < l.len() && 0 <= j < l[i].orders.len() implies s2.rests_well(
            tp1,
            l[i].price,
            #[trigger] l[i].orders[j],
        ) && l[i].orders[j] != order_hash by {
            lemma_rests_at_its_price(s, tp1, t1, i, j);
        }
    } else {
        let i0 = index_of(l, o.price);
        let q = l[i0].orders.filter(other_than(o.hash));
        lemma_filter_keeps(l[i0].orders, o.hash);
        assert(l[i0].orders.no_duplicates());
        assert forall|i: int, j: int|
            0 <= i < l2.len() && 0 <= j < l2[i].orders.len() implies s2.rests_well(
            tp1,
            l2[i].price,
            #[trigger] l2[i].orders[j],
        ) && l2[i].orders[j] != order_hash by {
            if q.len() == 0 {
                let i1 = if i < i0 { i } else { i + 1 };
                assert(l2[i] == l[i1]);
                lemma_rests_at_its_price(s, tp1, t1, i1, j);
            } else if i != i0 {
                assert(l2[i] == l[i]);
                lemma_rests_at_its_price(s, tp1, t1, i, j);
            } else {
                assert(l2[i].orders == q);
                assert(l[i0].orders.contains(q[j]));
                let k = choose|k: int| 0 <= k < l[i0].orders.len() && l[i0].orders[k] == q[j];
                lemma_rests_at_its_price(s, tp1, t1, i0, k);
            }
        }
        assert forall|i: int| 0 <= i < l2.len() implies (#[trigger] l2[i]).orders.no_duplicates() by {
            if q.len() == 0 {
                let i1 = if i < i0 { i } else { i + 1 };
                assert(l2[i] == l[i1]);
                assert(l[i1].orders.no_duplicates());
            } else if i != i0 {
                assert(l2[i] == l[i]);
                assert(l[i].orders.no_duplicates());
            }
        }
    }
}

/// A cancellation keeps the books tidy, and the cancelled order rests
/// nowhere afterwards.
pub proof fn lemma_cancel_keeps_tidy(s: EngineView, sender: AccountId, order_hash: H256)
    requires
        s.tidy(),
        s.cancel(sender, order_hash).is_ok(),
    ensures
        s.cancel(sender, order_hash).unwrap().tidy(),
        s.cancel(sender, order_hash).unwrap().rests_nowhere(order_hash),
        s.cancel(sender, order_hash).unwrap().registry.orders[order_hash].status
            == OrderStatus::Canceled,
{
    let s2 = s.cancel(sender, order_hash).unwrap();
    let o = s.registry.orders[order_hash];
    let tp = s.market.pair_of[(o.base, o.quote)];
    let b = s.book_of(tp);
    assert(b.wf());
    lemma_remove_order_wf(b, o.price, o.hash, o.sell_amount, o.buy_amount);
    assert forall|tp1: H256| (#[trigger] s2.book_of(tp1)).wf() by {
        if tp1 != tp {
            assert(s2.book_of(tp1) == s.book_of(tp1));
        }
    }
    assert forall|tp1: H256, t1: OrderType| #[trigger] s2.side_tidy(tp1, t1) by {
        lemma_cancel_side(s, sender, order_hash, tp1, t1);
    }
    assert forall|tp1: H256, t1: OrderType, i: int, j: int|
        0 <= i < s2.book_of(tp1).side(t1).len() && 0 <= j < s2.book_of(tp1).side(
            t1,
        )[i].orders.len() implies #[trigger] s2.book_of(tp1).side(t1)[i].orders[j]
        != order_hash by {
        lemma_cancel_side(s, sender, order_hash, tp1, t1);
        assert(absent_from(s2, tp1, t1, order_hash));
    }
    assert(s2.keyed());
}

/// A new trade pair keeps the books tidy.
pub proof fn lemma_trade_pair_keeps_tidy(s: EngineView, sender: AccountId, base: H256, quote: H256, host: Host)
    requires
        s.tidy(),
        s.create_trade_pair(sender, base, quote, host).is_ok(),
    ensures
        s.create_trade_pair(sender, base, quote, host).unwrap().tidy(),
{
    let s2 = s.create_trade_pair(sender, base, quote, host).unwrap();
    assert forall|tp1: H256, t1: OrderType| #[trigger] s2.side_tidy(tp1, t1) by {
        assert(s.side_tidy(tp1, t1));
        assert(s2.book_of(tp1) == s.book_of(tp1));
        let l = s.book_of(tp1).side(t1);
        assert forall|i: int, j: int|
            0 <= i < l.len() && 0 <= j < l[i].orders.len() implies s2.rests_well(
            tp1,
            l[i].price,
            #[trigger] l[i].orders[j],
        ) by {
            assert(s.rests_well(tp1, l[i].price, l[i].orders[j]));
        }
    }
    assert forall|tp1: H256| (#[trigger] s2.book_of(tp1)).wf() by {
        assert(s2.book_of(tp1) == s.book_of(tp1));
    }
}

/// The block hooks keep the books tidy: they touch neither the orders nor
/// the books nor the pairs' tokens.
pub proof fn lemma_hooks_keep_tidy(s: EngineView, block_number: BlockNumber)
    requires
        s.tidy(),
    ensures
        (EngineView {
            market: s.market.initialized(block_number, s.config.blocks_per_day),
            ..s
        }).tidy(),
        (EngineView { market: s.market.finalized(block_number), ..s }).tidy(),
{
    let a = EngineView {
        market: s.market.initialized(block_number, s.config.blocks_per_day),
        ..s
    };
    let f = EngineView { market: s.market.finalized(block_number), ..s };
    if block_number > s.config.blocks_per_day {
        crate::market::lemma_evict_keeps(
            s.market,
            (block_number - s.config.blocks_per_day) as u64,
            s.market.pair_list.len(),
        );
    }
    crate::market::lemma_fold_keeps(s.market, block_number, s.market.pair_list.len());
    lemma_same_books_tidy(s, a);
    lemma_same_books_tidy(s, f);
}

/// A state with the same orders, books and pairs' tokens as a tidy one is
/// tidy.
pub proof fn lemma_same_books_tidy(s: EngineView, s2: EngineView)
    requires
        s.tidy(),
        s2.books == s.books,
        s2.registry.orders == s.registry.orders,
        s2.market.pair_of == s.market.pair_of,
    ensures
        s2.tidy(),
{
    assert forall|tp1: H256, t1: OrderType| #[trigger] s2.side_tidy(tp1, t1) by {
        assert(s.side_tidy(tp1, t1));
        assert(s2.book_of(tp1) == s.book_of(tp1));
        let l = s.book_of(tp1).side(t1);
        assert forall|i: int, j: int|
            0 <= i < l.len() && 0 <= j < l[i].orders.len() implies s2.rests_well(
            tp1,
            l[i].price,
            #[trigger] l[i].orders[j],
        ) by {
            assert(s.rests_well(tp1, l[i].price, l[i].orders[j]));
        }
    }
    assert forall|tp1: H256| (#[trigger] s2.book_of(tp1)).wf() by {
        assert(s2.book_of(tp1) == s.book_of(tp1));
    }
}

/// An exchange without orders and books is tidy.
pub proof fn lemma_empty_is_tidy(s: EngineView)
    requires
        s.books == Map::<H256, BookView>::empty(),
        s.registry.orders == Map::<H256, Order>::empty(),
    ensures
        s.tidy(),
{
    assert forall|tp1: H256, t1: OrderType| #[trigger] s.side_tidy(tp1, t1) by {
        assert(s.book_of(tp1).side(t1).len() == 0);
    }
}


/// What a fill does to tidy books. On the makers' side of the pair's book
/// the best level is lowered, and its oldest order, the maker, leaves if the
/// fill has completed it; nothing else moves. Of the orders resting in any
/// book only the maker's stored value changes.
pub proof fn lemma_fill_book(s: EngineView, tp: H256, base: H256, quote: H256, taker: Order, host: Host)
    requires
        s.config.price_factor > 0,
        s.tidy(),
        s.book_of(tp).first_order(taker.otype.flip()).is_some(),
        s.fill(tp, base, quote, taker, host).is_ok(),
        s.rests_nowhere(taker.hash),
    ensures
        ({
            let (s2, t2) = s.fill(tp, base, quote, taker, host).unwrap();
            let side = taker.otype.flip();
            let l = s.book_of(tp).side(side);
            let p = s.plan_for(tp, base, quote, taker);
            let maker = s.maker_for(tp, taker);
            let m2 = after_fill(maker, p.have_qty, p.give_qty);
            let ll = l.update(0, l[0].lowered(p.have_qty, p.give_qty));
            &&& l.len() > 0 && l[0].orders.len() > 0
            &&& maker == s.registry.orders[l[0].orders[0]]
            &&& maker.hash == l[0].orders[0]
            &&& s2.registry.orders[maker.hash] == m2
            &&& s2.book_of(tp).side(side) == (if m2.remained_buy_amount == 0 {
                if l[0].orders.len() == 1 {
                    ll.skip(1)
                } else {
                    ll.update(0, ll[0].with_orders(l[0].orders.skip(1)))
                }
            } else {
                ll
            })
            &&& s2.book_of(tp).side(taker.otype) == s.book_of(tp).side(taker.otype)
            &&& forall|tp1: H256| tp1 != tp ==> #[trigger] s2.book_of(tp1) == s.book_of(tp1)
            &&& forall|tp1: H256, t1: OrderType, i: int, j: int|
                0 <= i < s.book_of(tp1).side(t1).len() && 0 <= j < s.book_of(tp1).side(
                    t1,
                )[i].orders.len() && (tp1, t1, i, j) != (tp, side, 0int, 0int)
                    ==> s2.registry.orders[#[trigger] s.book_of(tp1).side(t1)[i].orders[j]]
                    == s.registry.orders[s.book_of(tp1).side(t1)[i].orders[j]]
        }),
{
    lemma_fill_shape(s, tp, base, quote, taker, host);
    let (s2, t2) = s.fill(tp, base, quote, taker, host).unwrap();
    let side = taker.otype.flip();
    let b = s.book_of(tp);
    let l = b.side(side);
    let mh = l[0].orders[0];
    let maker = s.maker_for(tp, taker);
    let p = s.plan_for(tp, base, quote, taker);
    let m2 = after_fill(maker, p.have_qty, p.give_qty);
    assert(s.side_tidy(tp, side));
    assert(b.wf());
    assert(s.rests_well(tp, l[0].price, mh));
    assert(maker.hash == mh);
    assert(mh != taker.hash);
    let orders2 = s2.registry.orders;
    assert(orders2[mh] == m2);
    assert forall|tp1: H256, t1: OrderType, i: int, j: int|
        0 <= i < s.book_of(tp1).side(t1).len() && 0 <= j < s.book_of(tp1).side(t1)[i].orders.len()
            && (tp1, t1, i, j) != (tp, side, 0int, 0int) implies orders2[#[trigger] s.book_of(tp1).side(
        t1,
    )[i].orders[j]] == s.registry.orders[s.book_of(tp1).side(t1)[i].orders[j]] by {
        let h = s.book_of(tp1).side(t1)[i].orders[j];
        if h == mh {
            lemma_rests_once(s, tp1, t1, i, j, tp, side, 0, 0);
        }
    }
    let lowered = b.decrement(m2.price, p.have_qty, p.give_qty);
    assert(m2.price == l[0].price);
    lemma_index_unique(l, side, 0);
    match side {
        OrderType::Buy => {},
        OrderType::Sell => {
            if has_price(b.bids, l[0].price) {
                let k = index_of(b.bids, l[0].price);
                assert(b.bids[k].price != b.asks[0].price);
            }
        },
    }
    assert(b.side_of(l[0].price) == Some(side));
    let ll = lowered.side(side);
    assert(ll == l.update(0, l[0].lowered(p.have_qty, p.give_qty)));
    assert(lowered.side(taker.otype) == b.side(taker.otype));
    assert forall|i: int, j: int|
        0 <= i < ll.len() && 0 <= j < ll[i].orders.len() && (i, j) != (0int, 0int) implies !is_done(
        orders2,
        #[trigger] ll[i].orders[j],
    ) by {
        assert(ll[i].orders == l[i].orders);
        assert(s.rests_well(tp, l[i].price, l[i].orders[j]));
        assert(orders2[l[i].orders[j]] == s.registry.orders[l[i].orders[j]]);
    }
    assert forall|i: int| 0 <= i < ll.len() implies (#[trigger] ll[i]).orders.len() > 0 by {
        assert(ll[i].orders == l[i].orders);
    }
    lemma_drain_takes_the_first(ll, orders2);
    assert(s2.book_of(tp) == lowered.drain(side, orders2));
    assert(m2.finished() <==> m2.remained_buy_amount == 0);
    assert(is_done(orders2, mh) <==> m2.remained_buy_amount == 0);
    assert forall|tp1: H256| tp1 != tp implies #[trigger] s2.book_of(tp1) == s.book_of(tp1) by {}
}


/// A state with the same books and pairs' tokens as a tidy one, in which
/// every resting order is stored as before and every order is stored under
/// its own identifier, is tidy.
pub proof fn lemma_same_resting_tidy(s: EngineView, s2: EngineView)
    requires
        s.tidy(),
        s2.keyed(),
        s2.books == s.books,
        s2.market.pair_of == s.market.pair_of,
        forall|h: H256| s.registry.orders.contains_key(h) ==> #[trigger] s2.registry.orders.contains_key(h),
        forall|tp: H256, t: OrderType, i: int, j: int|
            0 <= i < s.book_of(tp).side(t).len() && 0 <= j < s.book_of(tp).side(t)[i].orders.len()
                ==> s2.registry.orders[#[trigger] s.book_of(tp).side(t)[i].orders[j]]
                == s.registry.orders[s.book_of(tp).side(t)[i].orders[j]],
    ensures
        s2.tidy(),
{
    assert forall|tp1: H256, t1: OrderType| #[trigger] s2.side_tidy(tp1, t1) by {
        assert(s.side_tidy(tp1, t1));
        assert(s2.book_of(tp1) == s.book_of(tp1));
        let l = s.book_of(tp1).side(t1);
        assert forall|i: int, j: int|
            0 <= i < l.len() && 0 <= j < l[i].orders.len() implies s2.rests_well(
            tp1,
            l[i].price,
            #[trigger] l[i].orders[j],
        ) by {
            assert(s.rests_well(tp1, l[i].price, l[i].orders[j]));
        }
    }
    assert forall|tp1: H256| (#[trigger] s2.book_of(tp1)).wf() by {
        assert(s2.book_of(tp1) == s.book_of(tp1));
    }
}


/// Where an order that is not filled comes to rest. It is the last order of
/// the level at its price. Where a level stood at that price, the level
/// keeps its side and its queue, with the order behind it, and its sums have
/// grown by what the order still gives and receives. Where none stood, the
/// level is new on the order's own side, holds the order alone, and its sums
/// are what the order still gives and receives.
pub proof fn lemma_settled_rests_at_back(s: EngineView, tp: H256, o: Order)
    requires
        s.book_of(tp).wf(),
        0 < o.price <= MAX_PRICE,
        o.status != OrderStatus::Filled,
        s.settled(tp, o).is_ok(),
    ensures
        ({
            let b = s.book_of(tp);
            let b2 = s.settled(tp, o).unwrap().book_of(tp);
            &&& b2.wf()
            &&& b2.side_of(o.price).is_some()
            &&& b2.level(o.price).price == o.price
            &&& b2.level(o.price).orders.last() == o.hash
            &&& b.side_of(o.price).is_some() ==> b2.side_of(o.price) == b.side_of(o.price)
                && b2.level(o.price) == b.level(o.price).pushed(
                o.hash,
                o.remained_sell_amount,
                o.remained_buy_amount,
            ) && b.level(o.price).sell_amount + o.remained_sell_amount <= u128::MAX && b.level(
                o.price,
            ).buy_amount + o.remained_buy_amount <= u128::MAX
            &&& b.side_of(o.price).is_none() ==> b2.side_of(o.price) == Some(o.otype) && b2.level(
                o.price,
            ) == (LevelView {
                price: o.price,
                buy_amount: o.remained_buy_amount,
                sell_amount: o.remained_sell_amount,
                orders: seq![o.hash],
            })
        }),
{
    let s2 = s.settled(tp, o).unwrap();
    let b = s.book_of(tp);
    let b2 = b.append(o.price, o.hash, o.remained_sell_amount, o.remained_buy_amount, o.otype);
    assert(s2.book_of(tp) == b2);
    lemma_append_wf(b, o.price, o.hash, o.remained_sell_amount, o.remained_buy_amount, o.otype);
    match b.side_of(o.price) {
        Some(t0) => {
            let l = b.side(t0);
            let i0 = index_of(l, o.price);
            let l2 = b2.side(t0);
            assert(l2 == l.update(
                i0,
                l[i0].pushed(o.hash, o.remained_sell_amount, o.remained_buy_amount),
            ));
            lemma_index_unique(l2, t0, i0);
            match t0 {
                OrderType::Buy => {},
                OrderType::Sell => {
                    if has_price(b2.bids, o.price) {
                        let k = index_of(b2.bids, o.price);
                        assert(b2.bids[k].price != b2.asks[i0].price);
                    }
                },
            }
            assert(b2.side_of(o.price) == Some(t0));
        },
        None => {
            let l = b.side(o.otype);
            let x = LevelView {
                price: o.price,
                buy_amount: o.remained_buy_amount,
                sell_amount: o.remained_sell_amount,
                orders: seq![o.hash],
            };
            lemma_insert_wf(l, o.otype, x);
            let r = rank(l, o.price, o.otype);
            let l2 = b2.side(o.otype);
            assert(l2 == l.insert(r, x));
            assert(l2[r] == x);
            lemma_index_unique(l2, o.otype, r);
            match o.otype {
                OrderType::Buy => {},
                OrderType::Sell => {
                    if has_price(b2.bids, o.price) {
                        let k = index_of(b2.bids, o.price);
                        assert(b2.bids[k].price != b2.asks[r].price);
                    }
                },
            }
            assert(b2.side_of(o.price) == Some(o.otype));
            assert(x.orders.last() == o.hash);
        },
    }
}

/// Where a limit order ends up in tidy books. The order is stored as it
/// stands after matching. If it is not finished, it is the last order of the
/// level at its price in the book of its pair, as `lemma_settled_rests_at_back`
/// says, and it rests nowhere else; if it is finished, it rests nowhere.
pub proof fn lemma_limit_order_rests(
    s: EngineView,
    sender: AccountId,
    base: H256,
    quote: H256,
    otype: OrderType,
    price: Price,
    sell_amount: Balance,
    host: Host,
)
    requires
        s.config.price_factor > 0,
        s.tidy(),
        s.create_limit_order(sender, base, quote, otype, price, sell_amount, host).is_ok(),
    ensures
        ({
            let s2 = s.create_limit_order(sender, base, quote, otype, price, sell_amount, host).unwrap();
            let (s1, o) = s.place(sender, base, quote, otype, price, sell_amount, host).unwrap();
            let tp = s.market.pair_of[(base, quote)];
            let (sm, om) = s1.match_all(
                tp,
                s1.market.pairs[tp].base,
                s1.market.pairs[tp].quote,
                o,
                host,
                s1.book_of(tp).resting(otype.flip()),
            ).unwrap();
            &&& s2.tidy()
            &&& s2 == sm.settled(tp, om).unwrap()
            &&& s2.registry.orders.contains_key(o.hash)
            &&& s2.registry.orders[o.hash] == om
            &&& om.price == price && om.otype == otype && om.hash == o.hash
            &&& om.finished() <==> om.status == OrderStatus::Filled
            &&& om.finished() ==> s2.rests_nowhere(o.hash)
            &&& !om.finished() ==> s2.book_of(tp).rests_at(price, o.hash) && s2.book_of(tp).level(
                price,
            ).orders.last() == o.hash && sm.rests_nowhere(o.hash)
        }),
{
    lemma_limit_order_keeps_tidy(s, sender, base, quote, otype, price, sell_amount, host);
    let (s1, o) = s.place(sender, base, quote, otype, price, sell_amount, host).unwrap();
    let tp = s.market.pair_of[(base, quote)];
    assert(!s.registry.orders.contains_key(o.hash));
    assert(s1.registry.orders == s.registry.orders.insert(o.hash, o));
    assert(s1.books == s.books);
    lemma_same_resting_after_insert(s, s1, o);
    let b0 = s1.market.pairs[tp].base;
    let q0 = s1.market.pairs[tp].quote;
    let fuel = s1.book_of(tp).resting(o.otype.flip());
    lemma_match_keeps_tidy(s1, tp, b0, q0, o, host, fuel);
    lemma_match_grows(s1, tp, b0, q0, o, host, fuel);
    let (sm, om) = s1.match_all(tp, b0, q0, o, host, fuel).unwrap();
    let s2 = sm.settled(tp, om).unwrap();
    lemma_settled_keeps_tidy(sm, tp, om);
    assert(s2.registry.orders == sm.registry.orders);
    if om.status == OrderStatus::Filled {
        assert forall|tp1: H256, t1: OrderType, i: int, j: int|
            0 <= i < s2.book_of(tp1).side(t1).len() && 0 <= j < s2.book_of(tp1).side(
                t1,
            )[i].orders.len() implies #[trigger] s2.book_of(tp1).side(t1)[i].orders[j]
            != o.hash by {
            assert(s2.book_of(tp1) == sm.book_of(tp1));
        }
    } else {
        assert(sm.book_of(tp).wf());
        lemma_settled_rests_at_back(sm, tp, om);
    }
}

/// A tidy exchange that takes in a new order under a free identifier, and
/// changes neither its books nor its pairs, stays tidy, and the new order
/// rests nowhere.
pub proof fn lemma_same_resting_after_insert(s: EngineView, s1: EngineView, o: Order)
    requires
        s.tidy(),
        !s.registry.orders.contains_key(o.hash),
        s1.registry.orders == s.registry.orders.insert(o.hash, o),
        s1.books == s.books,
        s1.market.pair_of == s.market.pair_of,
    ensures
        s1.tidy(),
        s1.rests_nowhere(o.hash),
{
    assert forall|tp1: H256, t1: OrderType| #[trigger] s1.side_tidy(tp1, t1) by {
        assert(s.side_tidy(tp1, t1));
        assert(s1.book_of(tp1) == s.book_of(tp1));
        let l = s.book_of(tp1).side(t1);
        assert forall|i: int, j: int|
            0 <= i < l.len() && 0 <= j < l[i].orders.len() implies s1.rests_well(
            tp1,
            l[i].price,
            #[trigger] l[i].orders[j],
        ) by {
            assert(s.rests_well(tp1, l[i].price, l[i].orders[j]));
        }
    }
    assert forall|tp1: H256| (#[trigger] s1.book_of(tp1)).wf() by {
        assert(s1.book_of(tp1) == s.book_of(tp1));
    }
    assert forall|tp1: H256, t1: OrderType, i: int, j: int|
        0 <= i < s1.book_of(tp1).side(t1).len() && 0 <= j < s1.book_of(tp1).side(
            t1,
        )[i].orders.len() implies #[trigger] s1.book_of(tp1).side(t1)[i].orders[j] != o.hash by {
        assert(s.side_tidy(tp1, t1));
        assert(s1.book_of(tp1) == s.book_of(tp1));
        let l = s.book_of(tp1).side(t1);
        assert(s.rests_well(tp1, l[i].price, l[i].orders[j]));
    }
}

} // verus!
