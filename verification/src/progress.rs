//! Matching and market orders run to their ends.
//!
//! Matching is written with a bound on the number of fills, a market order
//! with a bound on the number of prices it visits. In every state that the
//! exchange can reach neither bound is ever what stops the work: a fill that
//! does not fill the taker completes the maker, which then leaves the book.
//!
//! An exchange is sound when its price factor is positive, every order is
//! stored under its own identifier and its books are well formed; it is
//! steady when, besides, every resting order is known. The empty exchange is
//! steady, and every call keeps it so.

use vstd::prelude::*;
use crate::engine::EngineView;
use crate::laws::{after_fill, lemma_fill_shape};
use crate::price_list::{
    better, drained, has_price, is_done, ladder_drained, ladder_resting, lemma_append_wf,
    lemma_drained_wf, lemma_holds_after, lemma_holds_after_append, lemma_holds_after_remove,
    lemma_remove_order_wf, LevelView,
};
use crate::types::{AccountId, Balance, Host, Order, OrderStatus, OrderType, Price, H256};

verus! {

/// Draining never adds an order to a ladder, and it takes at least the
/// oldest order of the best level if that order is finished.
pub proof fn lemma_drain_shrinks(l: Seq<LevelView>, orders: Map<H256, Order>)
    ensures
        ladder_resting(ladder_drained(l, orders)) <= ladder_resting(l),
        l.len() > 0 && l[0].orders.len() > 0 && is_done(orders, l[0].orders[0])
            ==> ladder_resting(ladder_drained(l, orders)) < ladder_resting(l),
    decreases l.len(),
{
    if l.len() > 0 {
        let q = l[0].orders;
        crate::price_list::lemma_drained_stops(q, orders);
        let rest = drained(q, orders);
        if q.len() > 0 && is_done(orders, q[0]) {
            crate::price_list::lemma_drained_stops(q.skip(1), orders);
        }
        if rest.len() == 0 {
            lemma_drain_shrinks(l.skip(1), orders);
        } else {
            let l2 = l.update(0, LevelView { orders: rest, ..l[0] });
            assert(l2.skip(1) =~= l.skip(1));
        }
    }
}

impl EngineView {
    /// What every state of the exchange keeps: a positive price factor, every
    /// order stored under its own identifier, and well-formed books.
    pub open spec fn sound(self) -> bool {
        &&& self.config.price_factor > 0
        &&& self.keyed()
        &&& self.book_of_is_wf()
    }
}

/// A fill keeps the exchange sound and never adds to the makers' side of the
/// book; unless it fills the taker, it takes at least one order from it.
pub proof fn lemma_fill_progress(s: EngineView, tp: H256, base: H256, quote: H256, taker: Order, host: Host)
    requires
        s.sound(),
        s.book_of(tp).first_order(taker.otype.flip()).is_some(),
        s.fill(tp, base, quote, taker, host).is_ok(),
    ensures
        ({
            let (s2, t2) = s.fill(tp, base, quote, taker, host).unwrap();
            let side = taker.otype.flip();
            &&& s2.sound()
            &&& t2.otype == taker.otype && t2.price == taker.price
            &&& s2.book_of(tp).resting(side) <= s.book_of(tp).resting(side)
            &&& t2.status != OrderStatus::Filled ==> s2.book_of(tp).resting(side) < s.book_of(
                tp,
            ).resting(side)
        }),
{
    lemma_fill_shape(s, tp, base, quote, taker, host);
    let (s2, t2) = s.fill(tp, base, quote, taker, host).unwrap();
    let side = taker.otype.flip();
    let b = s.book_of(tp);
    let l = b.side(side);
    let mh = l[0].orders[0];
    let maker = s.maker_for(tp, taker);
    let p = s.plan_for(tp, base, quote, taker);
    let m2 = after_fill(maker, p.have_qty, p.give_qty);
    let orders2 = s2.registry.orders;
    assert(b.wf());
    assert(maker.hash == mh);
    assert(orders2[mh] == m2);
    let lowered = b.decrement(m2.price, p.have_qty, p.give_qty);
    crate::price_list::lemma_decrement(b, m2.price, p.have_qty, p.give_qty);
    let ll = lowered.side(side);
    assert(ll.len() == l.len());
    assert(ll[0].orders == l[0].orders);
    lemma_drain_shrinks(ll, orders2);
    lemma_drained_wf(lowered, side, orders2);
    assert(s2.book_of(tp) == lowered.drain(side, orders2));
    assert forall|tp1: H256| (#[trigger] s2.book_of(tp1)).wf() by {
        if tp1 != tp {
            assert(s2.book_of(tp1) == s.book_of(tp1));
        }
    }
    assert(s2.keyed()) by {
        assert forall|h: H256| #[trigger] orders2.contains_key(h) implies orders2[h].hash == h by {
            if h != m2.hash && h != t2.hash {
                assert(s.registry.orders.contains_key(h));
            }
        }
    }
    if t2.status != OrderStatus::Filled {
        assert(m2.remained_buy_amount == 0);
        assert(m2.finished());
        assert(is_done(orders2, ll[0].orders[0]));
    }
}

/// The bound on the number of fills is never what stops matching: with at
/// least as many fills allowed as orders rest on the other side of the book,
/// matching gives the same result under every larger bound, and it keeps the
/// exchange sound.
pub proof fn lemma_match_runs_to_its_end(
    s: EngineView,
    tp: H256,
    base: H256,
    quote: H256,
    taker: Order,
    host: Host,
    fuel: nat,
    more: nat,
)
    requires
        s.sound(),
        fuel >= s.book_of(tp).resting(taker.otype.flip()),
    ensures
        s.match_all(tp, base, quote, taker, host, fuel) == s.match_all(
            tp,
            base,
            quote,
            taker,
            host,
            fuel + more,
        ),
        s.match_all(tp, base, quote, taker, host, fuel).is_ok() ==> s.match_all(
            tp,
            base,
            quote,
            taker,
            host,
            fuel,
        ).unwrap().0.sound(),
    decreases fuel,
{
    if taker.status != OrderStatus::Filled {
        match s.book_of(tp).first_order(taker.otype.flip()) {
            None => {},
            Some((price, _)) => {
                if crate::arith::matches_price(taker.price, taker.otype, price) {
                    let l = s.book_of(tp).side(taker.otype.flip());
                    assert(s.book_of(tp).wf());
                    assert(l[0].orders.len() > 0);
                    assert(ladder_resting(l) >= 1);
                    assert(fuel >= 1);
                    match s.fill(tp, base, quote, taker, host) {
                        Err(_) => {},
                        Ok((s1, t1)) => {
                            lemma_fill_progress(s, tp, base, quote, taker, host);
                            if t1.status == OrderStatus::Filled {
                                assert(s1.match_all(tp, base, quote, t1, host, (fuel - 1) as nat)
                                    == Ok::<(EngineView, Order), crate::types::Error>((s1, t1)));
                                assert(s1.match_all(
                                    tp,
                                    base,
                                    quote,
                                    t1,
                                    host,
                                    (fuel + more - 1) as nat,
                                ) == Ok::<(EngineView, Order), crate::types::Error>((s1, t1)));
                            } else {
                                lemma_match_runs_to_its_end(
                                    s1,
                                    tp,
                                    base,
                                    quote,
                                    t1,
                                    host,
                                    (fuel - 1) as nat,
                                    more,
                                );
                            }
                        },
                    }
                }
            },
        }
    }
}

/// An order that comes to rest, or is closed, keeps the exchange sound.
pub proof fn lemma_settled_keeps_sound(s: EngineView, tp: H256, o: Order)
    requires
        s.sound(),
        s.settled(tp, o).is_ok(),
    ensures
        s.settled(tp, o).unwrap().sound(),
{
    let s2 = s.settled(tp, o).unwrap();
    assert(s.book_of(tp).wf());
    if o.status != OrderStatus::Filled {
        lemma_append_wf(
            s.book_of(tp),
            o.price,
            o.hash,
            o.remained_sell_amount,
            o.remained_buy_amount,
            o.otype,
        );
    }
    assert forall|tp1: H256| (#[trigger] s2.book_of(tp1)).wf() by {
        if tp1 != tp || o.status == OrderStatus::Filled {
            assert(s2.book_of(tp1) == s.book_of(tp1));
        }
    }
}

/// A cancellation keeps the exchange sound.
pub proof fn lemma_cancel_keeps_sound(s: EngineView, sender: AccountId, order_hash: H256)
    requires
        s.sound(),
        s.cancel(sender, order_hash).is_ok(),
    ensures
        s.cancel(sender, order_hash).unwrap().sound(),
{
    let s2 = s.cancel(sender, order_hash).unwrap();
    let o = s.registry.orders[order_hash];
    let tp = s.market.pair_of[(o.base, o.quote)];
    assert(s.book_of(tp).wf());
    lemma_remove_order_wf(s.book_of(tp), o.price, o.hash, o.sell_amount, o.buy_amount);
    assert forall|tp1: H256| (#[trigger] s2.book_of(tp1)).wf() by {
        if tp1 != tp {
            assert(s2.book_of(tp1) == s.book_of(tp1));
        }
    }
}

/// A state with the same configuration, orders and books as a sound one is
/// sound: creating a trade pair, the block hooks and the ledger's own calls
/// keep the exchange sound.
pub proof fn lemma_same_books_sound(s: EngineView, s2: EngineView)
    requires
        s.sound(),
        s2.config == s.config,
        s2.books == s.books,
        s2.registry.orders == s.registry.orders,
    ensures
        s2.sound(),
{
    assert forall|tp1: H256| (#[trigger] s2.book_of(tp1)).wf() by {
        assert(s2.book_of(tp1) == s.book_of(tp1));
    }
}


impl EngineView {
    /// A sound exchange in which every resting order is known.
    pub open spec fn steady(self) -> bool {
        &&& self.sound()
        &&& forall|tp: H256, h: H256| #[trigger]
            self.book_of(tp).holds(h) ==> self.registry.orders.contains_key(h)
    }

    /// Whether the order rests in no book.
    pub open spec fn nowhere(self, h: H256) -> bool {
        forall|tp: H256| !#[trigger] self.book_of(tp).holds(h)
    }
}

/// A fill keeps the exchange steady; the taker, which rests in no book,
/// still rests in none and is stored as it stands.
pub proof fn lemma_fill_steady(s: EngineView, tp: H256, base: H256, quote: H256, taker: Order, host: Host)
    requires
        s.steady(),
        s.nowhere(taker.hash),
        s.book_of(tp).first_order(taker.otype.flip()).is_some(),
        s.fill(tp, base, quote, taker, host).is_ok(),
    ensures
        ({
            let (s2, t2) = s.fill(tp, base, quote, taker, host).unwrap();
            &&& s2.steady()
            &&& s2.nowhere(t2.hash)
            &&& t2.hash == taker.hash
            &&& s2.registry.orders.contains_key(t2.hash)
            &&& s2.registry.orders[t2.hash] == t2
            &&& taker.status != OrderStatus::Filled && t2.status == OrderStatus::Filled
                ==> t2.finished()
        }),
{
    lemma_fill_shape(s, tp, base, quote, taker, host);
    lemma_fill_progress(s, tp, base, quote, taker, host);
    let (s2, t2) = s.fill(tp, base, quote, taker, host).unwrap();
    let side = taker.otype.flip();
    let b = s.book_of(tp);
    let l = b.side(side);
    let mh = l[0].orders[0];
    assert(b.wf());
    assert(l[0].orders.len() > 0);
    assert(b.holds(mh));
    assert(mh != taker.hash);
    let maker = s.maker_for(tp, taker);
    assert(maker.hash == mh);
    let p = s.plan_for(tp, base, quote, taker);
    let lowered = b.decrement(maker.price, p.have_qty, p.give_qty);
    assert forall|tp1: H256, h: H256| #[trigger] s2.book_of(tp1).holds(h) implies s.book_of(
        tp1,
    ).holds(h) by {
        if tp1 == tp {
            lemma_holds_after(lowered, s2.registry.orders, h);
            lemma_holds_after(b, s2.registry.orders, h);
            assert(s2.book_of(tp) == lowered.drain(side, s2.registry.orders));
            assert(lowered.holds(h));
        } else {
            assert(s2.book_of(tp1) == s.book_of(tp1));
        }
    }
}

/// Matching keeps the exchange steady and runs to its end: it adds no
/// order to the other side of the book, it stops with the taker filled, or
/// with that side empty, or at a price the taker does not accept; and where
/// the best price was one the taker accepts and the taker is not filled in
/// the end, at least one order has left that side.
pub proof fn lemma_match_steady(
    s: EngineView,
    tp: H256,
    base: H256,
    quote: H256,
    taker: Order,
    host: Host,
    fuel: nat,
)
    requires
        s.steady(),
        s.nowhere(taker.hash),
        s.registry.orders.contains_key(taker.hash),
        s.registry.orders[taker.hash] == taker,
        fuel >= s.book_of(tp).resting(taker.otype.flip()),
        s.match_all(tp, base, quote, taker, host, fuel).is_ok(),
    ensures
        ({
            let (s2, t2) = s.match_all(tp, base, quote, taker, host, fuel).unwrap();
            let side = taker.otype.flip();
            &&& s2.steady()
            &&& s2.nowhere(t2.hash)
            &&& t2.hash == taker.hash && t2.price == taker.price && t2.otype == taker.otype
            &&& s2.registry.orders.contains_key(t2.hash)
            &&& s2.registry.orders[t2.hash] == t2
            &&& taker.status != OrderStatus::Filled && t2.status == OrderStatus::Filled
                ==> t2.finished()
            &&& s2.book_of(tp).resting(side) <= s.book_of(tp).resting(side)
            &&& t2.status != OrderStatus::Filled ==> match s2.book_of(tp).first_order(side) {
                None => true,
                Some((price, _)) => !crate::arith::matches_price(t2.price, t2.otype, price),
            }
            &&& t2.status != OrderStatus::Filled ==> match s.book_of(tp).first_order(side) {
                None => true,
                Some((price, _)) => crate::arith::matches_price(taker.price, taker.otype, price)
                    ==> s2.book_of(tp).resting(side) < s.book_of(tp).resting(side),
            }
        }),
    decreases fuel,
{
    if taker.status != OrderStatus::Filled {
        match s.book_of(tp).first_order(taker.otype.flip()) {
            None => {},
            Some((price, _)) => {
                if crate::arith::matches_price(taker.price, taker.otype, price) {
                    let l = s.book_of(tp).side(taker.otype.flip());
                    assert(s.book_of(tp).wf());
                    assert(l[0].orders.len() > 0);
                    assert(ladder_resting(l) >= 1);
                    lemma_fill_progress(s, tp, base, quote, taker, host);
                    lemma_fill_steady(s, tp, base, quote, taker, host);
                    let (s1, t1) = s.fill(tp, base, quote, taker, host).unwrap();
                    if t1.status != OrderStatus::Filled {
                        lemma_match_steady(s1, tp, base, quote, t1, host, (fuel - 1) as nat);
                    }
                }
            },
        }
    }
}

/// What a limit order does to a steady exchange. The exchange stays steady
/// and the pairs stay as they are; the new order is the last of its owner's
/// orders; and where the order named a price that the best level on the
/// other side of the book had, then unless the order is finished in the end,
/// at least one order has left that side.
pub proof fn lemma_limit_order_steady(
    s: EngineView,
    sender: AccountId,
    base: H256,
    quote: H256,
    otype: OrderType,
    price: Price,
    sell_amount: Balance,
    host: Host,
)
    requires
        s.steady(),
        s.create_limit_order(sender, base, quote, otype, price, sell_amount, host).is_ok(),
    ensures
        ({
            let s2 = s.create_limit_order(sender, base, quote, otype, price, sell_amount, host).unwrap();
            let tp = s.market.pair_of[(base, quote)];
            let l = crate::index::list_of(s2.registry.owned_orders, sender);
            &&& s2.steady()
            &&& s2.market.pair_of == s.market.pair_of
            &&& l.len() > 0
            &&& s2.registry.orders.contains_key(l.last())
            &&& match s.book_of(tp).first_order(otype.flip()) {
                None => true,
                Some((best, _)) => best == price && !s2.registry.orders[l.last()].finished()
                    ==> s2.book_of(tp).resting(otype.flip()) < s.book_of(tp).resting(
                    otype.flip(),
                ),
            }
        }),
{
    let (s1, o) = s.place(sender, base, quote, otype, price, sell_amount, host).unwrap();
    let tp = s.market.pair_of[(base, quote)];
    crate::laws::lemma_limit_order_grows(s, sender, base, quote, otype, price, sell_amount, host);
    assert(!s.registry.orders.contains_key(o.hash));
    assert(s1.registry.orders == s.registry.orders.insert(o.hash, o));
    assert(s1.books == s.books);
    assert forall|tp1: H256| (#[trigger] s1.book_of(tp1)).wf() by {
        assert(s1.book_of(tp1) == s.book_of(tp1));
    }
    assert forall|tp1: H256, h: H256| #[trigger] s1.book_of(tp1).holds(h) implies s1.registry.orders.contains_key(
        h,
    ) by {
        assert(s1.book_of(tp1) == s.book_of(tp1));
    }
    assert(s1.nowhere(o.hash)) by {
        assert forall|tp1: H256| !#[trigger] s1.book_of(tp1).holds(o.hash) by {
            assert(s1.book_of(tp1) == s.book_of(tp1));
        }
    }
    let side = otype.flip();
    let b0 = s1.market.pairs[tp].base;
    let q0 = s1.market.pairs[tp].quote;
    let fuel = s1.book_of(tp).resting(side);
    lemma_match_steady(s1, tp, b0, q0, o, host, fuel);
    crate::laws::lemma_match_grows(s1, tp, b0, q0, o, host, fuel);
    let (s2, o2) = s1.match_all(tp, b0, q0, o, host, fuel).unwrap();
    let s3 = s2.settled(tp, o2).unwrap();
    lemma_settled_keeps_sound(s2, tp, o2);
    let b = s2.book_of(tp);
    assert(b.wf());
    if o2.status != OrderStatus::Filled {
        // the other side has no level at the order's price
        let lo = b.side(side);
        if has_price(lo, o2.price) {
            let i = crate::price_list::index_of(lo, o2.price);
            if i > 0 {
                assert(better(lo[0].price, lo[i].price, side));
            }
            assert(crate::arith::matches_price(o2.price, o2.otype, lo[0].price));
        }
        let b3 = b.append(
            o2.price,
            o2.hash,
            o2.remained_sell_amount,
            o2.remained_buy_amount,
            o2.otype,
        );
        assert(s3.book_of(tp) == b3);
        assert(b3.side(side) == b.side(side));
        assert forall|tp1: H256, h: H256| #[trigger] s3.book_of(tp1).holds(h) implies s3.registry.orders.contains_key(
            h,
        ) by {
            if tp1 == tp {
                lemma_holds_after_append(
                    b,
                    o2.price,
                    o2.hash,
                    o2.remained_sell_amount,
                    o2.remained_buy_amount,
                    o2.otype,
                    h,
                );
                if h != o2.hash {
                    assert(s2.book_of(tp).holds(h));
                }
            } else {
                assert(s3.book_of(tp1) == s2.book_of(tp1));
                assert(s2.book_of(tp1).holds(h));
            }
        }
    } else {
        assert forall|tp1: H256, h: H256| #[trigger] s3.book_of(tp1).holds(h) implies s3.registry.orders.contains_key(
            h,
        ) by {
            assert(s3.book_of(tp1) == s2.book_of(tp1));
            assert(s2.book_of(tp1).holds(h));
        }
    }
    assert(s3.registry.orders == s2.registry.orders);
}

/// The bound on the number of prices is never what stops a market order:
/// with at least as many prices allowed as orders rest on the other side
/// of the book, a market order gives the same result under every larger
/// bound.
pub proof fn lemma_market_order_runs_to_its_end(
    s: EngineView,
    sender: AccountId,
    base: H256,
    quote: H256,
    otype: OrderType,
    amount: Balance,
    host: Host,
    fuel: nat,
    more: nat,
)
    requires
        s.steady(),
        s.ensure_pair(base, quote).is_ok() ==> fuel >= s.book_of(
            s.ensure_pair(base, quote).unwrap(),
        ).resting(otype.flip()),
    ensures
        s.market_order(sender, base, quote, otype, amount, host, fuel) == s.market_order(
            sender,
            base,
            quote,
            otype,
            amount,
            host,
            fuel + more,
        ),
    decreases fuel,
{
    match s.ensure_pair(base, quote) {
        Err(_) => {},
        Ok(tp) => match s.book_of(tp).first_order(otype.flip()) {
            None => {},
            Some((price, _)) => {
                let l0 = s.book_of(tp).side(otype.flip());
                assert(s.book_of(tp).wf());
                assert(l0[0].orders.len() > 0);
                assert(ladder_resting(l0) >= 1);
                assert(fuel >= 1);
                match crate::engine::market_amount(otype, amount, price, s.config.price_factor) {
                    Err(_) => {},
                    Ok(sell) => match s.create_limit_order(
                        sender,
                        base,
                        quote,
                        otype,
                        price,
                        sell,
                        host,
                    ) {
                        Err(_) => {},
                        Ok(s1) => {
                            lemma_limit_order_steady(
                                s,
                                sender,
                                base,
                                quote,
                                otype,
                                price,
                                sell,
                                host,
                            );
                            let l = crate::index::list_of(s1.registry.owned_orders, sender);
                            if s1.registry.orders.contains_key(l.last())
                                && !s1.registry.orders[l.last()].finished() {
                                let o = s1.registry.orders[l.last()];
                                match crate::engine::swept(o) {
                                    None => {},
                                    Some(c) => {
                                        let s2 = EngineView {
                                            registry: crate::registry::RegistryView {
                                                orders: s1.registry.orders.insert(l.last(), c),
                                                ..s1.registry
                                            },
                                            ..s1
                                        };
                                        assert forall|tp1: H256| (#[trigger] s2.book_of(tp1)).wf() by {
                                            assert(s2.book_of(tp1) == s1.book_of(tp1));
                                        }
                                        assert forall|tp1: H256, h: H256| #[trigger]
                                            s2.book_of(tp1).holds(
                                                h,
                                            ) implies s2.registry.orders.contains_key(h) by {
                                            assert(s2.book_of(tp1) == s1.book_of(tp1));
                                            assert(s1.book_of(tp1).holds(h));
                                        }
                                        assert(s2.book_of(tp) == s1.book_of(tp));
                                        lemma_market_order_runs_to_its_end(
                                            s2,
                                            sender,
                                            base,
                                            quote,
                                            otype,
                                            match otype {
                                                OrderType::Buy => o.remained_buy_amount,
                                                OrderType::Sell => o.remained_sell_amount,
                                            },
                                            host,
                                            (fuel - 1) as nat,
                                            more,
                                        );
                                    },
                                }
                            }
                        },
                    },
                }
            },
        },
    }
}


/// An exchange with a positive price factor and without orders and books is
/// steady.
pub proof fn lemma_empty_is_steady(s: EngineView)
    requires
        s.config.price_factor > 0,
        s.books == Map::<H256, crate::price_list::BookView>::empty(),
        s.registry.orders == Map::<H256, Order>::empty(),
    ensures
        s.steady(),
{
    assert forall|tp: H256, h: H256| #[trigger] s.book_of(tp).holds(h) implies s.registry.orders.contains_key(
        h,
    ) by {
        assert(s.book_of(tp).bids.len() == 0);
        assert(s.book_of(tp).asks.len() == 0);
    }
}


/// A cancellation keeps the exchange steady.
pub proof fn lemma_cancel_keeps_steady(s: EngineView, sender: AccountId, order_hash: H256)
    requires
        s.steady(),
        s.cancel(sender, order_hash).is_ok(),
    ensures
        s.cancel(sender, order_hash).unwrap().steady(),
{
    lemma_cancel_keeps_sound(s, sender, order_hash);
    let s2 = s.cancel(sender, order_hash).unwrap();
    let o = s.registry.orders[order_hash];
    let tp = s.market.pair_of[(o.base, o.quote)];
    assert forall|tp1: H256, h: H256| #[trigger] s2.book_of(tp1).holds(h) implies s2.registry.orders.contains_key(
        h,
    ) by {
        if tp1 == tp {
            lemma_holds_after_remove(s.book_of(tp), o.price, o.hash, o.sell_amount, o.buy_amount, h);
            assert(s.book_of(tp).holds(h));
        } else {
            assert(s2.book_of(tp1) == s.book_of(tp1));
            assert(s.book_of(tp1).holds(h));
        }
    }
}

/// A market order keeps the exchange steady.
pub proof fn lemma_market_order_keeps_steady(
    s: EngineView,
    sender: AccountId,
    base: H256,
    quote: H256,
    otype: OrderType,
    amount: Balance,
    host: Host,
    fuel: nat,
)
    requires
        s.steady(),
        s.market_order(sender, base, quote, otype, amount, host, fuel).is_ok(),
    ensures
        s.market_order(sender, base, quote, otype, amount, host, fuel).unwrap().steady(),
    decreases fuel,
{
    match s.ensure_pair(base, quote) {
        Err(_) => {},
        Ok(tp) => match s.book_of(tp).first_order(otype.flip()) {
            None => {},
            Some((price, _)) => {
                if fuel != 0 {
                    let sell = crate::engine::market_amount(
                        otype,
                        amount,
                        price,
                        s.config.price_factor,
                    ).unwrap();
                    lemma_limit_order_steady(s, sender, base, quote, otype, price, sell, host);
                    let s1 = s.create_limit_order(sender, base, quote, otype, price, sell, host).unwrap();
                    let l = crate::index::list_of(s1.registry.owned_orders, sender);
                    if s1.registry.orders.contains_key(l.last())
                        && !s1.registry.orders[l.last()].finished() {
                        let o = s1.registry.orders[l.last()];
                        let c = crate::engine::swept(o).unwrap();
                        let s2 = EngineView {
                            registry: crate::registry::RegistryView {
                                orders: s1.registry.orders.insert(l.last(), c),
                                ..s1.registry
                            },
                            ..s1
                        };
                        assert forall|tp1: H256| (#[trigger] s2.book_of(tp1)).wf() by {
                            assert(s2.book_of(tp1) == s1.book_of(tp1));
                        }
                        assert forall|tp1: H256, h: H256| #[trigger] s2.book_of(tp1).holds(
                            h,
                        ) implies s2.registry.orders.contains_key(h) by {
                            assert(s2.book_of(tp1) == s1.book_of(tp1));
                            assert(s1.book_of(tp1).holds(h));
                        }
                        lemma_market_order_keeps_steady(
                            s2,
                            sender,
                            base,
                            quote,
                            otype,
                            match otype {
                                OrderType::Buy => o.remained_buy_amount,
                                OrderType::Sell => o.remained_sell_amount,
                            },
                            host,
                            (fuel - 1) as nat,
                        );
                    }
                }
            },
        },
    }
}

/// A state with the same configuration, orders and books as a steady one is
/// steady: creating a trade pair, the block hooks and the ledger's own calls
/// keep the exchange steady.
pub proof fn lemma_same_books_steady(s: EngineView, s2: EngineView)
    requires
        s.steady(),
        s2.config == s.config,
        s2.books == s.books,
        s2.registry.orders == s.registry.orders,
    ensures
        s2.steady(),
{
    lemma_same_books_sound(s, s2);
    assert forall|tp1: H256, h: H256| #[trigger] s2.book_of(tp1).holds(h) implies s2.registry.orders.contains_key(
        h,
    ) by {
        assert(s2.book_of(tp1) == s.book_of(tp1));
        assert(s.book_of(tp1).holds(h));
    }
}


/// A fill leaves the taker its side and its price.
pub proof fn lemma_fill_progress_kind(s: EngineView, tp: H256, base: H256, quote: H256, taker: Order, host: Host)
    requires
        s.config.price_factor > 0,
        s.fill(tp, base, quote, taker, host).is_ok(),
    ensures
        s.fill(tp, base, quote, taker, host).unwrap().1.otype == taker.otype,
        s.fill(tp, base, quote, taker, host).unwrap().1.price == taker.price,
        s.fill(tp, base, quote, taker, host).unwrap().1.owner == taker.owner,
        s.fill(tp, base, quote, taker, host).unwrap().1.hash == taker.hash,
{
    lemma_fill_shape(s, tp, base, quote, taker, host);
}

} // verus!
