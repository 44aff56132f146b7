//! What holds of the exchange whatever is done with it: the shape of a
//! fill, the growth of the nonce, the freshness of identifiers, and the
//! conservation of tokens.

use vstd::prelude::*;
use crate::engine::{completed, exchanged, fill_plan, reduced, touched, EngineView, Fill};
use crate::hashing::{hash_of, trade_preimage};
use crate::tokens::LedgerView;
use crate::types::{
    AccountId, Balance, Event, Host, Order, OrderStatus, OrderType, Price, Trade, H256,
};

verus! {

/// An order after a fill took `sell` of what it gives and brought `buy` of
/// what it receives, brought to its end if it has received all it asked for.
pub open spec fn after_fill(o: Order, sell: Balance, buy: Balance) -> Order {
    let r = reduced(touched(o), sell, buy).unwrap();
    if r.remained_buy_amount == 0 {
        completed(r)
    } else {
        r
    }
}

impl EngineView {
    /// The maker of the next fill of `taker`: the oldest order of the best
    /// level on the other side of the book.
    pub open spec fn maker_for(self, tp: H256, taker: Order) -> Order {
        self.registry.orders[self.book_of(tp).first_order(taker.otype.flip()).unwrap().1]
    }

    /// The amounts and tokens of the next fill of `taker`.
    pub open spec fn plan_for(self, tp: H256, base: H256, quote: H256, taker: Order) -> Fill {
        fill_plan(base, quote, self.maker_for(tp, taker), taker, self.config.price_factor).unwrap()
    }
}

/// The ledger after the two sides of a fill have changed hands is balanced
/// if it was before, and no tokens were made or lost: between two different
/// accounts what the taker gives arrives at the maker and what the maker
/// gives arrives at the taker; no other balance changes.
pub proof fn lemma_exchange_conserves(l: LedgerView, taker: AccountId, maker: AccountId, p: Fill)
    requires
        l.balanced(),
        exchanged(l, taker, maker, p).is_ok(),
    ensures
        exchanged(l, taker, maker, p).unwrap().balanced(),
        exchanged(l, taker, maker, p).unwrap().nonce == l.nonce,
        exchanged(l, taker, maker, p).unwrap().tokens == l.tokens,
        exchanged(l, taker, maker, p).unwrap().owners == l.owners,
        forall|who: AccountId, t: H256|
            who != taker && who != maker ==> (#[trigger] exchanged(
                l,
                taker,
                maker,
                p,
            ).unwrap().account(who, t)).balance == l.account(who, t).balance,
        forall|who: AccountId, t: H256|
            t != p.give && t != p.have ==> (#[trigger] exchanged(l, taker, maker, p).unwrap().account(
                who,
                t,
            )).balance == l.account(who, t).balance,
        taker != maker && p.give != p.have ==> {
            let l2 = exchanged(l, taker, maker, p).unwrap();
            &&& l2.account(taker, p.give).balance == l.account(taker, p.give).balance - p.give_qty
            &&& l2.account(maker, p.give).balance == l.account(maker, p.give).balance + p.give_qty
            &&& l2.account(maker, p.have).balance == l.account(maker, p.have).balance - p.have_qty
            &&& l2.account(taker, p.have).balance == l.account(taker, p.have).balance + p.have_qty
        },
        taker == maker ==> forall|who: AccountId, t: H256|
            (#[trigger] exchanged(l, taker, maker, p).unwrap().account(who, t)).balance == l.account(
                who,
                t,
            ).balance,
{
    let l1 = l.unfreeze(taker, p.give, p.give_qty).unwrap();
    l.lemma_unfreeze_conserves(taker, p.give, p.give_qty);
    let l2 = l1.unfreeze(maker, p.have, p.have_qty).unwrap();
    l1.lemma_unfreeze_conserves(maker, p.have, p.have_qty);
    let l3 = l2.transfer(taker, maker, p.give, p.give_qty, None).unwrap();
    l2.lemma_transfer_conserves(taker, maker, p.give, p.give_qty, None);
    let l4 = l3.transfer(maker, taker, p.have, p.have_qty, None).unwrap();
    l3.lemma_transfer_conserves(maker, taker, p.have, p.have_qty, None);
    assert(exchanged(l, taker, maker, p).unwrap() == l4);
    assert forall|who: AccountId, t: H256| who != taker && who != maker implies (#[trigger] l4.account(
        who,
        t,
    )).balance == l.account(who, t).balance by {
        assert(l1.account(who, t).balance == l.account(who, t).balance);
        assert(l2.account(who, t).balance == l1.account(who, t).balance);
        assert(l3.account(who, t) == l2.account(who, t));
        assert(l4.account(who, t) == l3.account(who, t));
    }
    assert forall|who: AccountId, t: H256| t != p.give && t != p.have implies (#[trigger] l4.account(
        who,
        t,
    )).balance == l.account(who, t).balance by {
        assert(l1.account(who, t).balance == l.account(who, t).balance);
        assert(l2.account(who, t).balance == l1.account(who, t).balance);
        assert(l3.account(who, t) == l2.account(who, t));
        assert(l4.account(who, t) == l3.account(who, t));
    }
    if taker != maker && p.give != p.have {
        assert(l1.account(taker, p.give).balance == l.account(taker, p.give).balance);
        assert(l2.account(taker, p.give).balance == l1.account(taker, p.give).balance);
        assert(l4.account(taker, p.give) == l3.account(taker, p.give));
        assert(l1.account(maker, p.give).balance == l.account(maker, p.give).balance);
        assert(l2.account(maker, p.give).balance == l1.account(maker, p.give).balance);
        assert(l4.account(maker, p.give) == l3.account(maker, p.give));
        assert(l1.account(maker, p.have).balance == l.account(maker, p.have).balance);
        assert(l2.account(maker, p.have).balance == l1.account(maker, p.have).balance);
        assert(l3.account(maker, p.have) == l2.account(maker, p.have));
        assert(l1.account(taker, p.have).balance == l.account(taker, p.have).balance);
        assert(l2.account(taker, p.have).balance == l1.account(taker, p.have).balance);
        assert(l3.account(taker, p.have) == l2.account(taker, p.have));
    }
    if taker == maker {
        assert forall|who: AccountId, t: H256| (#[trigger] l4.account(who, t)).balance == l.account(
            who,
            t,
        ).balance by {
            assert(l1.account(who, t).balance == l.account(who, t).balance);
            assert(l2.account(who, t).balance == l1.account(who, t).balance);
            assert(l3.account(who, t).balance == l2.account(who, t).balance);
            assert(l4.account(who, t).balance == l3.account(who, t).balance);
        }
    }
}


/// The shape of a fill. A fill that succeeds has found the maker, reduced
/// both orders by the planned amounts and stored them, completed at least
/// one of the two, recorded one trade under an identifier that was free,
/// advanced the nonce by one, replaced the book of the pair by the one with
/// the maker's level lowered and the makers' side drained, and left the
/// configuration, the pairs and the other books as they were; a balanced
/// ledger is balanced afterwards.
pub proof fn lemma_fill_shape(s: EngineView, tp: H256, base: H256, quote: H256, taker: Order, host: Host)
    requires
        s.config.price_factor > 0,
        s.fill(tp, base, quote, taker, host).is_ok(),
    ensures
        ({
            let (s2, t2) = s.fill(tp, base, quote, taker, host).unwrap();
            let mh = s.book_of(tp).first_order(taker.otype.flip()).unwrap().1;
            let maker = s.maker_for(tp, taker);
            let p = s.plan_for(tp, base, quote, taker);
            let m2 = after_fill(maker, p.have_qty, p.give_qty);
            let th = hash_of(
                trade_preimage(host.random_seed, host.block_number, s.nonce, m2, t2),
            );
            let t = Trade::of(th, base, quote, m2, t2, p.base_qty, p.quote_qty);
            &&& s.registry.orders.contains_key(mh)
            &&& fill_plan(base, quote, maker, taker, s.config.price_factor).is_ok()
            &&& reduced(touched(taker), p.give_qty, p.have_qty).is_some()
            &&& reduced(touched(maker), p.have_qty, p.give_qty).is_some()
            &&& t2 == after_fill(taker, p.give_qty, p.have_qty)
            &&& t2.remained_buy_amount == 0 || m2.remained_buy_amount == 0
            &&& s2.config == s.config
            &&& s2.nonce == s.nonce + 1
            &&& s2.registry.orders == s.registry.orders.insert(t2.hash, t2).insert(m2.hash, m2)
            &&& !s.registry.trades.contains_key(th)
            &&& s2.registry.trades == s.registry.trades.insert(th, t)
            &&& s2.registry.owned_orders == s.registry.owned_orders
            &&& s2.registry.trade_pair_owned_orders == s.registry.trade_pair_owned_orders
            &&& s2.books == s.books.insert(
                tp,
                s.book_of(tp).decrement(m2.price, p.have_qty, p.give_qty).drain(
                    taker.otype.flip(),
                    s2.registry.orders,
                ),
            )
            &&& s2.market.pair_of == s.market.pair_of
            &&& s2.market.pair_list == s.market.pair_list
            &&& s2.market.pairs.dom() == s.market.pairs.dom()
            &&& s2.events == s.events.push(
                Event::TradeCreated {
                    owner: t2.owner,
                    base_token: base,
                    quote_token: quote,
                    trade_hash: th,
                    trade: t,
                },
            )
            &&& s.tokens.balanced() ==> s2.tokens.balanced()
        }),
{
    reveal(EngineView::fill);
    let maker = s.maker_for(tp, taker);
    let p = s.plan_for(tp, base, quote, taker);
    crate::arith::lemma_fill_completes_one_side(maker, taker, s.config.price_factor);
    let l = exchanged(s.tokens, taker.owner, maker.owner, p).unwrap();
    if s.tokens.balanced() {
        lemma_exchange_conserves(s.tokens, taker.owner, maker.owner, p);
        let t1 = reduced(touched(taker), p.give_qty, p.have_qty).unwrap();
        let m1 = reduced(touched(maker), p.have_qty, p.give_qty).unwrap();
        if t1.remained_buy_amount == 0 && t1.remained_sell_amount != 0 {
            l.lemma_unfreeze_conserves(t1.owner, p.give, t1.remained_sell_amount);
        }
        let s2 = (EngineView { tokens: l, ..s }).finish(tp, t1, p.give).unwrap().0;
        if m1.remained_buy_amount == 0 && m1.remained_sell_amount != 0 {
            s2.tokens.lemma_unfreeze_conserves(m1.owner, p.have, m1.remained_sell_amount);
        }
    }
    let (s9, t9) = s.fill(tp, base, quote, taker, host).unwrap();
    assert(s9.market.pairs.dom() =~= s.market.pairs.dom());
}

/// A fill advances the nonce by one, and matching never lowers it; neither
/// changes the configuration or the pairs, and both keep a balanced ledger
/// balanced.
pub proof fn lemma_match_grows(
    s: EngineView,
    tp: H256,
    base: H256,
    quote: H256,
    taker: Order,
    host: Host,
    fuel: nat,
)
    requires
        s.config.price_factor > 0,
        s.match_all(tp, base, quote, taker, host, fuel).is_ok(),
    ensures
        ({
            let (s2, t2) = s.match_all(tp, base, quote, taker, host, fuel).unwrap();
            &&& s2.nonce >= s.nonce
            &&& s2.config == s.config
            &&& s2.market.pair_of == s.market.pair_of
            &&& s2.market.pair_list == s.market.pair_list
            &&& s2.market.pairs.dom() == s.market.pairs.dom()
            &&& s2.registry.owned_orders == s.registry.owned_orders
            &&& s.tokens.balanced() ==> s2.tokens.balanced()
            &&& t2.hash == taker.hash && t2.owner == taker.owner && t2.otype == taker.otype
                && t2.price == taker.price && t2.base == taker.base && t2.quote == taker.quote
        }),
    decreases fuel,
{
    if taker.status != OrderStatus::Filled {
        match s.book_of(tp).first_order(taker.otype.flip()) {
            None => {},
            Some((price, _)) => {
                if crate::arith::matches_price(taker.price, taker.otype, price) && fuel != 0 {
                    lemma_fill_shape(s, tp, base, quote, taker, host);
                    let (s1, t1) = s.fill(tp, base, quote, taker, host).unwrap();
                    lemma_match_grows(s1, tp, base, quote, t1, host, (fuel - 1) as nat);
                }
            },
        }
    }
}

/// A limit order that is accepted takes a fresh identifier and raises the
/// nonce; its amounts sit on an exact point of the price lattice; the list
/// of its owner's orders grows by the new identifier; and a balanced ledger
/// stays balanced.
pub proof fn lemma_limit_order_grows(
    s: EngineView,
    sender: AccountId,
    base: H256,
    quote: H256,
    otype: OrderType,
    price: Price,
    sell_amount: Balance,
    host: Host,
)
    requires
        s.config.price_factor > 0,
        s.create_limit_order(sender, base, quote, otype, price, sell_amount, host).is_ok(),
    ensures
        ({
            let s2 = s.create_limit_order(sender, base, quote, otype, price, sell_amount, host).unwrap();
            let (s1, o) = s.place(sender, base, quote, otype, price, sell_amount, host).unwrap();
            &&& s.place(sender, base, quote, otype, price, sell_amount, host).is_ok()
            &&& !s.registry.orders.contains_key(o.hash)
            &&& s2.nonce > s.nonce
            &&& s2.config == s.config
            &&& crate::arith::round_trip(
                otype,
                price as int,
                sell_amount as int,
                s.config.price_factor as int,
            ) == sell_amount
            &&& o.buy_amount == crate::arith::counterparty(
                otype,
                price as int,
                sell_amount as int,
                s.config.price_factor as int,
            )
            &&& crate::index::list_of(s2.registry.owned_orders, sender) == crate::index::list_of(
                s.registry.owned_orders,
                sender,
            ).push(o.hash)
            &&& s.tokens.balanced() ==> s2.tokens.balanced()
        }),
{
    let (s1, o) = s.place(sender, base, quote, otype, price, sell_amount, host).unwrap();
    let tp = s.market.pair_of[(base, quote)];
    crate::arith::lemma_accepted_is_exact(otype, price, sell_amount, s.config.price_factor);
    if s.tokens.balanced() {
        s.tokens.lemma_freeze_conserves(
            sender,
            crate::engine::reserve_token(otype, base, quote),
            sell_amount,
        );
    }
    lemma_match_grows(
        s1,
        tp,
        s1.market.pairs[tp].base,
        s1.market.pairs[tp].quote,
        o,
        host,
        s1.book_of(tp).resting(o.otype.flip()),
    );
}

/// A cancellation leaves the nonce, the configuration and the pairs as they
/// are, changes no balance, and keeps a balanced ledger balanced.
pub proof fn lemma_cancel_keeps(s: EngineView, sender: AccountId, order_hash: H256)
    requires
        s.cancel(sender, order_hash).is_ok(),
    ensures
        s.cancel(sender, order_hash).unwrap().nonce == s.nonce,
        s.cancel(sender, order_hash).unwrap().config == s.config,
        s.cancel(sender, order_hash).unwrap().market == s.market,
        s.cancel(sender, order_hash).unwrap().registry.trades == s.registry.trades,
        s.tokens.balanced() ==> s.cancel(sender, order_hash).unwrap().tokens.balanced(),
        s.tokens.balanced() ==> forall|who: AccountId, t: H256|
            (#[trigger] s.cancel(sender, order_hash).unwrap().tokens.account(who, t)).balance
                == s.tokens.account(who, t).balance,
{
    let o = s.registry.orders[order_hash];
    if s.tokens.balanced() {
        s.tokens.lemma_unfreeze_conserves(
            sender,
            crate::engine::reserve_token(o.otype, o.base, o.quote),
            o.remained_sell_amount,
        );
    }
}

/// A new trade pair takes a fresh identifier and raises the nonce by one;
/// it joins the end of the list of pairs.
pub proof fn lemma_trade_pair_grows(s: EngineView, sender: AccountId, base: H256, quote: H256, host: Host)
    requires
        s.create_trade_pair(sender, base, quote, host).is_ok(),
    ensures
        ({
            let s2 = s.create_trade_pair(sender, base, quote, host).unwrap();
            let h = s.next_pair_hash(sender, base, quote, host);
            &&& !s.market.pairs.contains_key(h)
            &&& !s.market.pair_of.contains_key((base, quote))
            &&& !s.market.pair_of.contains_key((quote, base))
            &&& s2.nonce == s.nonce + 1
            &&& s2.market.pair_list == s.market.pair_list.push(h)
            &&& s2.market.pair_of == s.market.pair_of.insert((base, quote), h)
            &&& s2.tokens == s.tokens
            &&& s2.registry == s.registry
            &&& s2.books == s.books
        }),
{
}

/// A market order never lowers the nonce and keeps a balanced ledger
/// balanced.
pub proof fn lemma_market_order_grows(
    s: EngineView,
    sender: AccountId,
    base: H256,
    quote: H256,
    otype: OrderType,
    amount: Balance,
    host: Host,
    fuel: nat,
)
    requires
        s.config.price_factor > 0,
        s.market_order(sender, base, quote, otype, amount, host, fuel).is_ok(),
    ensures
        s.market_order(sender, base, quote, otype, amount, host, fuel).unwrap().nonce >= s.nonce,
        s.market_order(sender, base, quote, otype, amount, host, fuel).unwrap().config == s.config,
        s.tokens.balanced() ==> s.market_order(
            sender,
            base,
            quote,
            otype,
            amount,
            host,
            fuel,
        ).unwrap().tokens.balanced(),
    decreases fuel,
{
    match s.ensure_pair(base, quote) {
        Err(_) => {},
        Ok(tp) => match s.book_of(tp).first_order(otype.flip()) {
            None => {},
            Some((price, _)) => {
                if fuel != 0 {
                    let sell = crate::engine::market_amount(
                        otype,
                        amount,
                        price,
                        s.config.price_factor,
                    ).unwrap();
                    lemma_limit_order_grows(s, sender, base, quote, otype, price, sell, host);
                    let s1 = s.create_limit_order(sender, base, quote, otype, price, sell, host).unwrap();
                    let l = crate::index::list_of(s1.registry.owned_orders, sender);
                    if l.len() != 0 && s1.registry.orders.contains_key(l.last())
                        && !s1.registry.orders[l.last()].finished() {
                        let o = s1.registry.orders[l.last()];
                        let c = crate::engine::swept(o).unwrap();
                        let s2 = EngineView {
                            registry: crate::registry::RegistryView {
                                orders: s1.registry.orders.insert(l.last(), c),
                                ..s1.registry
                            },
                            ..s1
                        };
                        lemma_market_order_grows(
                            s2,
                            sender,
                            base,
                            quote,
                            otype,
                            match otype {
                                OrderType::Buy => o.remained_buy_amount,
                                OrderType::Sell => o.remained_sell_amount,
                            },
                            host,
                            (fuel - 1) as nat,
                        );
                    }
                }
            },
        },
    }
}


/// The bounds of an order: what is open never exceeds the totals, and a
/// filled order has nothing open.
pub open spec fn sane(o: Order) -> bool {
    &&& o.remained_sell_amount <= o.sell_amount
    &&& o.remained_buy_amount <= o.buy_amount
    &&& o.status == OrderStatus::Filled ==> o.remained_buy_amount == 0 && o.remained_sell_amount
        == 0
}

impl EngineView {
    /// Every stored order keeps its bounds.
    pub open spec fn orders_sane(self) -> bool {
        forall|h: H256| #[trigger]
            self.registry.orders.contains_key(h) ==> sane(self.registry.orders[h])
    }
}

/// A fill keeps the bounds of the orders.
pub proof fn lemma_fill_keeps_sane(s: EngineView, tp: H256, base: H256, quote: H256, taker: Order, host: Host)
    requires
        s.config.price_factor > 0,
        s.orders_sane(),
        sane(taker),
        s.fill(tp, base, quote, taker, host).is_ok(),
    ensures
        s.fill(tp, base, quote, taker, host).unwrap().0.orders_sane(),
        sane(s.fill(tp, base, quote, taker, host).unwrap().1),
{
    lemma_fill_shape(s, tp, base, quote, taker, host);
    let mh = s.book_of(tp).first_order(taker.otype.flip()).unwrap().1;
    assert(sane(s.registry.orders[mh]));
}

/// Matching keeps the bounds of the orders.
pub proof fn lemma_match_keeps_sane(
    s: EngineView,
    tp: H256,
    base: H256,
    quote: H256,
    taker: Order,
    host: Host,
    fuel: nat,
)
    requires
        s.config.price_factor > 0,
        s.orders_sane(),
        sane(taker),
        s.match_all(tp, base, quote, taker, host, fuel).is_ok(),
    ensures
        s.match_all(tp, base, quote, taker, host, fuel).unwrap().0.orders_sane(),
        sane(s.match_all(tp, base, quote, taker, host, fuel).unwrap().1),
    decreases fuel,
{
    if taker.status != OrderStatus::Filled {
        match s.book_of(tp).first_order(taker.otype.flip()) {
            None => {},
            Some((price, _)) => {
                if crate::arith::matches_price(taker.price, taker.otype, price) && fuel != 0 {
                    lemma_fill_shape(s, tp, base, quote, taker, host);
                    lemma_fill_keeps_sane(s, tp, base, quote, taker, host);
                    let (s1, t1) = s.fill(tp, base, quote, taker, host).unwrap();
                    lemma_match_keeps_sane(s1, tp, base, quote, t1, host, (fuel - 1) as nat);
                }
            },
        }
    }
}

/// A limit order keeps the bounds of the orders.
pub proof fn lemma_limit_order_keeps_sane(
    s: EngineView,
    sender: AccountId,
    base: H256,
    quote: H256,
    otype: OrderType,
    price: Price,
    sell_amount: Balance,
    host: Host,
)
    requires
        s.config.price_factor > 0,
        s.orders_sane(),
        s.create_limit_order(sender, base, quote, otype, price, sell_amount, host).is_ok(),
    ensures
        s.create_limit_order(
            sender,
            base,
            quote,
            otype,
            price,
            sell_amount,
            host,
        ).unwrap().orders_sane(),
{
    let (s1, o) = s.place(sender, base, quote, otype, price, sell_amount, host).unwrap();
    let tp = s.market.pair_of[(base, quote)];
    assert(s1.registry.orders == s.registry.orders.insert(o.hash, o));
    lemma_match_keeps_sane(
        s1,
        tp,
        s1.market.pairs[tp].base,
        s1.market.pairs[tp].quote,
        o,
        host,
        s1.book_of(tp).resting(o.otype.flip()),
    );
}

/// A cancellation keeps the bounds of the orders.
pub proof fn lemma_cancel_keeps_sane(s: EngineView, sender: AccountId, order_hash: H256)
    requires
        s.orders_sane(),
        s.cancel(sender, order_hash).is_ok(),
    ensures
        s.cancel(sender, order_hash).unwrap().orders_sane(),
{
    assert(sane(s.registry.orders[order_hash]));
}

/// A market order keeps the bounds of the orders.
pub proof fn lemma_market_order_keeps_sane(
    s: EngineView,
    sender: AccountId,
    base: H256,
    quote: H256,
    otype: OrderType,
    amount: Balance,
    host: Host,
    fuel: nat,
)
    requires
        s.config.price_factor > 0,
        s.orders_sane(),
        s.market_order(sender, base, quote, otype, amount, host, fuel).is_ok(),
    ensures
        s.market_order(sender, base, quote, otype, amount, host, fuel).unwrap().orders_sane(),
    decreases fuel,
{
    match s.ensure_pair(base, quote) {
        Err(_) => {},
        Ok(tp) => match s.book_of(tp).first_order(otype.flip()) {
            None => {},
            Some((price, _)) => {
                if fuel != 0 {
                    let sell = crate::engine::market_amount(
                        otype,
                        amount,
                        price,
                        s.config.price_factor,
                    ).unwrap();
                    lemma_limit_order_grows(s, sender, base, quote, otype, price, sell, host);
                    lemma_limit_order_keeps_sane(s, sender, base, quote, otype, price, sell, host);
                    let s1 = s.create_limit_order(sender, base, quote, otype, price, sell, host).unwrap();
                    let l = crate::index::list_of(s1.registry.owned_orders, sender);
                    if l.len() != 0 && s1.registry.orders.contains_key(l.last())
                        && !s1.registry.orders[l.last()].finished() {
                        let o = s1.registry.orders[l.last()];
                        let c = crate::engine::swept(o).unwrap();
                        assert(sane(c));
                        let s2 = EngineView {
                            registry: crate::registry::RegistryView {
                                orders: s1.registry.orders.insert(l.last(), c),
                                ..s1.registry
                            },
                            ..s1
                        };
                        lemma_market_order_keeps_sane(
                            s2,
                            sender,
                            base,
                            quote,
                            otype,
                            match otype {
                                OrderType::Buy => o.remained_buy_amount,
                                OrderType::Sell => o.remained_sell_amount,
                            },
                            host,
                            (fuel - 1) as nat,
                        );
                    }
                }
            },
        },
    }
}


/// A cancelled order leaves its owner's opened orders in the pair and
/// joins the closed ones: unless the closed list held it already or has no
/// room at all, it heads that list, before what the list held.
pub proof fn lemma_cancel_moves_to_closed(s: EngineView, sender: AccountId, order_hash: H256)
    requires
        s.cancel(sender, order_hash).is_ok(),
    ensures
        ({
            let s2 = s.cancel(sender, order_hash).unwrap();
            let o = s.registry.orders[order_hash];
            let tp = s.market.pair_of[(o.base, o.quote)];
            let closed = crate::index::list_of(s.registry.owned_tp_closed_orders, (sender, tp));
            let closed2 = crate::index::list_of(s2.registry.owned_tp_closed_orders, (sender, tp));
            let opened2 = crate::index::list_of(s2.registry.owned_tp_opened_orders, (sender, tp));
            let cap = s.config.closed_orders_array_cap;
            &&& s2.registry.orders[order_hash] == (Order { status: OrderStatus::Canceled, ..o })
            &&& s2.registry.orders[order_hash].finished()
            &&& !opened2.contains(order_hash)
            &&& closed2 == crate::index::fronted(closed, order_hash, cap)
            &&& closed.contains(order_hash) ==> closed2 == closed
            &&& !closed.contains(order_hash) && cap >= 1 ==> closed2[0] == order_hash
            &&& !closed.contains(order_hash) && closed.len() < cap ==> closed2 == seq![order_hash]
                + closed
        }),
{
    let s2 = s.cancel(sender, order_hash).unwrap();
    let o = s.registry.orders[order_hash];
    let tp = s.market.pair_of[(o.base, o.quote)];
    let opened = crate::index::list_of(s.registry.owned_tp_opened_orders, (sender, tp));
    crate::price_list::lemma_filter_keeps(opened, order_hash);
    let opened2 = crate::index::list_of(s2.registry.owned_tp_opened_orders, (sender, tp));
    assert(opened2 == opened.filter(crate::price_list::other_than(order_hash)));
    if opened2.contains(order_hash) {
        let i = choose|i: int| 0 <= i < opened2.len() && opened2[i] == order_hash;
        assert(opened2[i] != order_hash);
    }
}


impl EngineView {
    /// The number of fills of a matching with at most `fuel` fills.
    pub open spec fn fills(
        self,
        tp: H256,
        base: H256,
        quote: H256,
        taker: Order,
        host: Host,
        fuel: nat,
    ) -> nat
        decreases fuel,
    {
        if taker.status == OrderStatus::Filled || fuel == 0 {
            0
        } else {
            match self.book_of(tp).first_order(taker.otype.flip()) {
                None => 0,
                Some((price, _)) => if !crate::arith::matches_price(
                    taker.price,
                    taker.otype,
                    price,
                ) {
                    0
                } else {
                    match self.fill(tp, base, quote, taker, host) {
                        Err(_) => 0,
                        Ok((s, t)) => 1 + s.fills(tp, base, quote, t, host, (fuel - 1) as nat),
                    }
                },
            }
        }
    }

    /// What the registry held before is still there: every trade and every
    /// list of a pair's trades and orders, the lists perhaps with more at
    /// their ends.
    pub open spec fn extends(self, s: EngineView, tp: H256) -> bool {
        &&& forall|h: H256| #[trigger]
            s.registry.trades.contains_key(h) ==> self.registry.trades.contains_key(h)
                && self.registry.trades[h] == s.registry.trades[h]
        &&& crate::index::list_of(s.registry.trade_pair_owned_trades, tp).is_prefix_of(
            crate::index::list_of(self.registry.trade_pair_owned_trades, tp),
        )
    }
}

/// A fill lists its trade at the end of the trades of the pair.
pub proof fn lemma_fill_lists(s: EngineView, tp: H256, base: H256, quote: H256, taker: Order, host: Host)
    requires
        s.config.price_factor > 0,
        s.fill(tp, base, quote, taker, host).is_ok(),
    ensures
        ({
            let (s2, t2) = s.fill(tp, base, quote, taker, host).unwrap();
            let maker = s.maker_for(tp, taker);
            let p = s.plan_for(tp, base, quote, taker);
            let m2 = after_fill(maker, p.have_qty, p.give_qty);
            let th = hash_of(
                trade_preimage(host.random_seed, host.block_number, s.nonce, m2, t2),
            );
            &&& s2.registry.trade_pair_owned_trades == crate::index::added(
                s.registry.trade_pair_owned_trades,
                tp,
                th,
            )
            &&& !s.registry.trades.contains_key(th)
            &&& s2.registry.trades.contains_key(th)
            &&& s2.extends(s, tp)
        }),
{
    reveal(EngineView::fill);
    lemma_fill_shape(s, tp, base, quote, taker, host);
    let (s2, t2) = s.fill(tp, base, quote, taker, host).unwrap();
    let l = crate::index::list_of(s.registry.trade_pair_owned_trades, tp);
    let l2 = crate::index::list_of(s2.registry.trade_pair_owned_trades, tp);
    assert(l2 == l.push(l2.last()));
    assert(l.is_prefix_of(l2));
}

/// Matching raises the nonce by one for every fill and lists one new trade
/// of the pair for every fill, each under an identifier that no trade had
/// before; the trades that were there stay as they are, and so do the lists
/// of orders.
pub proof fn lemma_match_counts(
    s: EngineView,
    tp: H256,
    base: H256,
    quote: H256,
    taker: Order,
    host: Host,
    fuel: nat,
)
    requires
        s.config.price_factor > 0,
        s.match_all(tp, base, quote, taker, host, fuel).is_ok(),
    ensures
        ({
            let (s2, t2) = s.match_all(tp, base, quote, taker, host, fuel).unwrap();
            let k = s.fills(tp, base, quote, taker, host, fuel);
            let l = crate::index::list_of(s.registry.trade_pair_owned_trades, tp);
            let l2 = crate::index::list_of(s2.registry.trade_pair_owned_trades, tp);
            &&& s2.nonce == s.nonce + k
            &&& l2.len() == l.len() + k
            &&& s2.extends(s, tp)
            &&& forall|i: int|
                l.len() <= i < l2.len() ==> !s.registry.trades.contains_key(#[trigger] l2[i])
                    && s2.registry.trades.contains_key(l2[i])
            &&& s2.registry.owned_orders == s.registry.owned_orders
            &&& s2.registry.trade_pair_owned_orders == s.registry.trade_pair_owned_orders
        }),
    decreases fuel,
{
    let l = crate::index::list_of(s.registry.trade_pair_owned_trades, tp);
    assert(l.is_prefix_of(l));
    if taker.status != OrderStatus::Filled && fuel != 0 {
        match s.book_of(tp).first_order(taker.otype.flip()) {
            None => {},
            Some((price, _)) => {
                if crate::arith::matches_price(taker.price, taker.otype, price) {
                    lemma_fill_shape(s, tp, base, quote, taker, host);
                    lemma_fill_lists(s, tp, base, quote, taker, host);
                    let (s1, t1) = s.fill(tp, base, quote, taker, host).unwrap();
                    lemma_match_counts(s1, tp, base, quote, t1, host, (fuel - 1) as nat);
                    let (s2, t2) = s1.match_all(tp, base, quote, t1, host, (fuel - 1) as nat).unwrap();
                    let l1 = crate::index::list_of(s1.registry.trade_pair_owned_trades, tp);
                    let l2 = crate::index::list_of(s2.registry.trade_pair_owned_trades, tp);
                    assert(l1.len() == l.len() + 1);
                    assert(l.is_prefix_of(l2)) by {
                        assert(l.is_prefix_of(l1));
                        assert(l1.is_prefix_of(l2));
                        assert forall|i: int| 0 <= i < l.len() implies l[i] == l2[i] by {
                            assert(l[i] == l1[i]);
                            assert(l1[i] == l2[i]);
                        }
                    }
                    assert forall|i: int| l.len() <= i < l2.len() implies !s.registry.trades.contains_key(
                        #[trigger] l2[i],
                    ) && s2.registry.trades.contains_key(l2[i]) by {
                        if i == l.len() {
                            assert(l2[i] == l1[i]);
                            assert(l1[i] == l1.last());
                        } else {
                            assert(!s1.registry.trades.contains_key(l2[i]));
                        }
                    }
                }
            },
        }
    }
}

/// A limit order that is accepted raises the nonce by one for the order and
/// by one for each of its fills. The order joins the end of its owner's
/// orders and of the pair's orders, at the index that the list's length
/// named; each fill lists one new trade of the pair under an identifier no
/// trade had before; and what the lists and the trades held stays as it is.
pub proof fn lemma_limit_order_counts(
    s: EngineView,
    sender: AccountId,
    base: H256,
    quote: H256,
    otype: OrderType,
    price: Price,
    sell_amount: Balance,
    host: Host,
)
    requires
        s.config.price_factor > 0,
        s.create_limit_order(sender, base, quote, otype, price, sell_amount, host).is_ok(),
    ensures
        ({
            let s2 = s.create_limit_order(sender, base, quote, otype, price, sell_amount, host).unwrap();
            let (s1, o) = s.place(sender, base, quote, otype, price, sell_amount, host).unwrap();
            let tp = s.market.pair_of[(base, quote)];
            let k = s1.fills(
                tp,
                s1.market.pairs[tp].base,
                s1.market.pairs[tp].quote,
                o,
                host,
                s1.book_of(tp).resting(otype.flip()),
            );
            let mine = crate::index::list_of(s.registry.owned_orders, sender);
            let pairs = crate::index::list_of(s.registry.trade_pair_owned_orders, tp);
            let l = crate::index::list_of(s.registry.trade_pair_owned_trades, tp);
            let l2 = crate::index::list_of(s2.registry.trade_pair_owned_trades, tp);
            &&& s2.nonce == s.nonce + 1 + k
            &&& !s.registry.orders.contains_key(o.hash)
            &&& s2.registry.orders.contains_key(o.hash)
            &&& crate::index::list_of(s2.registry.owned_orders, sender) == mine.push(o.hash)
            &&& crate::index::list_of(s2.registry.trade_pair_owned_orders, tp) == pairs.push(o.hash)
            &&& l2.len() == l.len() + k
            &&& s2.extends(s, tp)
            &&& forall|i: int|
                l.len() <= i < l2.len() ==> !s.registry.trades.contains_key(#[trigger] l2[i])
                    && s2.registry.trades.contains_key(l2[i])
        }),
{
    let (s1, o) = s.place(sender, base, quote, otype, price, sell_amount, host).unwrap();
    let tp = s.market.pair_of[(base, quote)];
    let b0 = s1.market.pairs[tp].base;
    let q0 = s1.market.pairs[tp].quote;
    let fuel = s1.book_of(tp).resting(otype.flip());
    lemma_match_counts(s1, tp, b0, q0, o, host, fuel);
    lemma_match_grows(s1, tp, b0, q0, o, host, fuel);
    lemma_match_keeps_order(s1, tp, b0, q0, o, host, fuel);
    let (sm, om) = s1.match_all(tp, b0, q0, o, host, fuel).unwrap();
    let s2 = sm.settled(tp, om).unwrap();
    assert(s1.nonce == s.nonce + 1);
    assert(s1.registry.trades == s.registry.trades);
    assert(s1.registry.trade_pair_owned_trades == s.registry.trade_pair_owned_trades);
    assert(s1.registry.orders.contains_key(o.hash));
    assert(sm.registry.orders.contains_key(o.hash));
    assert(s2.registry.trades == sm.registry.trades);
    assert(s2.registry.trade_pair_owned_trades == sm.registry.trade_pair_owned_trades);
    assert(s2.registry.owned_orders == sm.registry.owned_orders);
    assert(s2.registry.trade_pair_owned_orders == sm.registry.trade_pair_owned_orders);
    assert(s2.registry.orders == sm.registry.orders);
    assert(s2.nonce == sm.nonce);
    assert(s1.registry.owned_orders == crate::index::added(s.registry.owned_orders, sender, o.hash));
    assert(s1.registry.trade_pair_owned_orders == crate::index::added(
        s.registry.trade_pair_owned_orders,
        tp,
        o.hash,
    ));
    assert(sm.extends(s1, tp));
    assert(s2.extends(s, tp));
}

/// Matching never takes an order out of the registry.
pub proof fn lemma_match_keeps_order(
    s: EngineView,
    tp: H256,
    base: H256,
    quote: H256,
    taker: Order,
    host: Host,
    fuel: nat,
)
    requires
        s.config.price_factor > 0,
        s.match_all(tp, base, quote, taker, host, fuel).is_ok(),
    ensures
        forall|h: H256| #[trigger]
            s.registry.orders.contains_key(h) ==> s.match_all(
                tp,
                base,
                quote,
                taker,
                host,
                fuel,
            ).unwrap().0.registry.orders.contains_key(h),
    decreases fuel,
{
    if taker.status != OrderStatus::Filled {
        match s.book_of(tp).first_order(taker.otype.flip()) {
            None => {},
            Some((price, _)) => {
                if crate::arith::matches_price(taker.price, taker.otype, price) && fuel != 0 {
                    lemma_fill_shape(s, tp, base, quote, taker, host);
                    let (s1, t1) = s.fill(tp, base, quote, taker, host).unwrap();
                    lemma_match_keeps_order(s1, tp, base, quote, t1, host, (fuel - 1) as nat);
                    let s2 = s1.match_all(tp, base, quote, t1, host, (fuel - 1) as nat).unwrap().0;
                    assert forall|h: H256| #[trigger]
                        s.registry.orders.contains_key(h) implies s2.registry.orders.contains_key(
                        h,
                    ) by {
                        assert(s1.registry.orders.contains_key(h));
                    }
                }
            },
        }
    }
}

} // verus!
