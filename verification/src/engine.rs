//! The exchange: trade pairs, limit and market orders, matching and
//! cancellation, over the token ledger, the price books, the registry of
//! orders and trades, and the market data.
//!
//! The calls that users make (`create_trade_pair`, `create_order`,
//! `create_limit_order`, `cancel_limit_order`) are transactions: a call that
//! answers with an error leaves the exchange as it was. The steps they are
//! made of (`do_create_limit_order`, `do_create_market_order`, `order_match`)
//! change nothing where they refuse before anything is written: an order
//! that cannot be placed, a market order that is refused before its first
//! limit order is placed, matching in an unknown pair. Where one of them
//! fails later, what it has written so far stays written, and it is for the
//! caller to drop it.

use vstd::prelude::*;
use crate::arith::{
    bounds, calculate_ex_amount, mul_div_u128, counterparty_amount_bounds, ensure_bounds,
    ensure_counterparty_amount_bounds, fill_amounts, matches_price, price_matched,
};
use crate::hashing::{
    hash_of, order_hash, order_preimage, trade_hash, trade_pair_hash, trade_pair_preimage,
    trade_preimage,
};
use crate::market::{Market, MarketView};
use crate::price_list::{BookView, LinkedItem, PriceList};
use crate::registry::{Registry, RegistryView};
use crate::table::{copy_vec, Table};
use crate::tokens::LedgerView;
use crate::types::{
    AccountId, Balance, BlockNumber, Config, Error, Event, Host, Order, OrderOpt, OrderStatus,
    OrderType, Price, Trade, TradePair, H256,
};
use crate::wide::mul_div;

verus! {

/// The exchange.
#[derive(Debug)]
pub struct Pallet {
    config: Config,
    nonce: u128,
    tokens: crate::tokens::Pallet,
    market: Market,
    registry: Registry,
    books: Table<H256, PriceList>,
    events: Vec<Event>,
}

/// The mathematical value of the exchange.
pub struct EngineView {
    /// The constants the exchange was set up with.
    pub config: Config,
    /// The number of identifiers derived so far.
    pub nonce: u128,
    /// The token ledger.
    pub tokens: LedgerView,
    /// The trade pairs and their market data.
    pub market: MarketView,
    /// The orders and trades.
    pub registry: RegistryView,
    /// The price book of each pair that has been used.
    pub books: Map<H256, BookView>,
    /// What has been announced so far.
    pub events: Seq<Event>,
}

impl View for Pallet {
    type V = EngineView;

    closed spec fn view(&self) -> EngineView {
        EngineView {
            config: self.config,
            nonce: self.nonce,
            tokens: self.tokens@,
            market: self.market@,
            registry: self.registry@,
            books: self.books@,
            events: self.events@,
        }
    }
}

/// The amounts and tokens of one fill, seen from the taker: the taker gives
/// `give_qty` of the token `give` and has `have_qty` of the token `have`.
pub struct Fill {
    pub base_qty: Balance,
    pub quote_qty: Balance,
    pub give_qty: Balance,
    pub have_qty: Balance,
    pub give: H256,
    pub have: H256,
}

/// The fill between a maker and a taker of the pair `base`/`quote`: a buying
/// taker gives base and has quote, a selling taker gives quote and has base.
pub open spec fn fill_plan(base: H256, quote: H256, maker: Order, taker: Order, f: u128) -> Result<
    Fill,
    Error,
> {
    match fill_amounts(maker, taker, f) {
        Err(e) => Err(e),
        Ok((base_qty, quote_qty)) => Ok(
            match taker.otype {
                OrderType::Buy => Fill {
                    base_qty,
                    quote_qty,
                    give_qty: base_qty,
                    have_qty: quote_qty,
                    give: base,
                    have: quote,
                },
                OrderType::Sell => Fill {
                    base_qty,
                    quote_qty,
                    give_qty: quote_qty,
                    have_qty: base_qty,
                    give: quote,
                    have: base,
                },
            },
        ),
    }
}

/// The ledger after the two sides of a fill have changed hands: what each
/// side gives is released from its reservation, then the taker's part moves
/// to the maker and the maker's part to the taker.
pub open spec fn exchanged(l: LedgerView, taker: AccountId, maker: AccountId, p: Fill) -> Result<
    LedgerView,
    crate::tokens::Error,
> {
    match l.unfreeze(taker, p.give, p.give_qty) {
        Err(e) => Err(e),
        Ok(l1) => match l1.unfreeze(maker, p.have, p.have_qty) {
            Err(e) => Err(e),
            Ok(l2) => match l2.transfer(taker, maker, p.give, p.give_qty, None) {
                Err(e) => Err(e),
                Ok(l3) => l3.transfer(maker, taker, p.have, p.have_qty, None),
            },
        },
    }
}

/// An order at its first fill becomes partially filled.
pub open spec fn touched(o: Order) -> Order {
    if o.remained_sell_amount == o.sell_amount {
        Order { status: OrderStatus::PartialFilled, ..o }
    } else {
        o
    }
}

/// An order after a fill took `sell` of what it gives and brought `buy` of
/// what it receives; `None` where it has less open than that.
pub open spec fn reduced(o: Order, sell: Balance, buy: Balance) -> Option<Order> {
    if o.remained_sell_amount < sell || o.remained_buy_amount < buy {
        None
    } else {
        Some(
            Order {
                remained_sell_amount: (o.remained_sell_amount - sell) as u128,
                remained_buy_amount: (o.remained_buy_amount - buy) as u128,
                ..o
            },
        )
    }
}

/// An order that has received all it asked for: filled, with nothing left to give.
pub open spec fn completed(o: Order) -> Order {
    Order { status: OrderStatus::Filled, remained_sell_amount: 0, ..o }
}

/// The token an order reserves: a buy gives the base token, a sell the quote token.
pub open spec fn reserve_token(otype: OrderType, base: H256, quote: H256) -> H256 {
    match otype {
        OrderType::Buy => base,
        OrderType::Sell => quote,
    }
}

impl EngineView {
    /// The book of a pair; the empty book where the pair has none yet.
    pub open spec fn book_of(self, tp: H256) -> BookView {
        if self.books.contains_key(tp) {
            self.books[tp]
        } else {
            BookView { bids: Seq::empty(), asks: Seq::empty() }
        }
    }

    /// The identifier of the pair of a base and a quote token, or the refusal.
    pub open spec fn ensure_pair(self, base: H256, quote: H256) -> Result<H256, Error> {
        if self.market.pair_of.contains_key((base, quote)) {
            Ok(self.market.pair_of[(base, quote)])
        } else {
            Err(Error::NoMatchingTradePair)
        }
    }

    /// The identifier that the next trade pair of `sender` gets.
    pub open spec fn next_pair_hash(self, sender: AccountId, base: H256, quote: H256, host: Host)
        -> H256 {
        hash_of(
            trade_pair_preimage(
                host.random_seed,
                host.block_number,
                sender,
                base,
                quote,
                self.nonce,
            ),
        )
    }

    /// The exchange after `sender` has created the pair `base`/`quote`, or
    /// why it cannot: the two tokens are the same; one of them has no owner;
    /// the sender owns neither; the pair exists, in this or the other
    /// direction; the nonce or the list of pairs is full; the identifier
    /// derived for the pair is taken.
    pub open spec fn create_trade_pair(self, sender: AccountId, base: H256, quote: H256, host: Host)
        -> Result<EngineView, Error> {
        let hash = self.next_pair_hash(sender, base, quote, host);
        let tp = TradePair {
            hash,
            base,
            quote,
            latest_matched_price: None,
            one_day_trade_volume: 0,
            one_day_highest_price: None,
            one_day_lowest_price: None,
        };
        if base == quote {
            Err(Error::BaseEqualQuote)
        } else if !(self.tokens.owners.contains_key(base) && self.tokens.owners.contains_key(
            quote,
        )) {
            Err(Error::TokenOwnerNotFound)
        } else if !(sender == self.tokens.owners[base] || sender == self.tokens.owners[quote]) {
            Err(Error::SenderNotEqualToBaseOrQuoteOwner)
        } else if self.market.pair_of.contains_key((base, quote))
            || self.market.pair_of.contains_key((quote, base)) {
            Err(Error::TradePairExisted)
        } else if self.nonce == u128::MAX || self.market.pair_list.len() >= u64::MAX {
            Err(Error::OverflowError)
        } else if self.market.pairs.contains_key(hash) {
            Err(Error::HashCollision)
        } else {
            Ok(
                EngineView {
                    nonce: (self.nonce + 1) as u128,
                    market: self.market.with_pair(tp),
                    events: self.events.push(
                        Event::TradePairCreated { owner: sender, hash, trade_pair: tp },
                    ),
                    ..self
                },
            )
        }
    }

    /// The exchange and an order after the order, reduced by a fill, has
    /// been brought to its end if it has received all it asked for: what it
    /// still has reserved of `token` is released, and it moves to its owner's
    /// closed orders.
    pub open spec fn finish(self, tp: H256, o: Order, token: H256) -> Result<
        (EngineView, Order),
        Error,
    > {
        if o.remained_buy_amount != 0 {
            Ok((self, o))
        } else {
            let released = if o.remained_sell_amount != 0 {
                self.tokens.unfreeze(o.owner, token, o.remained_sell_amount)
            } else {
                Ok(self.tokens)
            };
            match released {
                Err(e) => Err(Error::Token(e)),
                Ok(l) => Ok(
                    (
                        EngineView {
                            tokens: l,
                            registry: self.registry.close_order(
                                o.owner,
                                tp,
                                o.hash,
                                self.config.closed_orders_array_cap,
                            ),
                            ..self
                        },
                        completed(o),
                    ),
                ),
            }
        }
    }

    /// The exchange after the trade of a fill has been recorded under the
    /// identifier derived for it, listed and announced.
    pub open spec fn trade_recorded(
        self,
        tp: H256,
        base: H256,
        quote: H256,
        maker: Order,
        taker: Order,
        p: Fill,
        host: Host,
    ) -> Result<EngineView, Error> {
        let hash = hash_of(
            trade_preimage(host.random_seed, host.block_number, self.nonce, maker, taker),
        );
        let t = Trade::of(hash, base, quote, maker, taker, p.base_qty, p.quote_qty);
        if self.nonce == u128::MAX {
            Err(Error::OverflowError)
        } else {
            match self.registry.record_trade(tp, t, taker, maker) {
                Err(e) => Err(e),
                Ok(r) => Ok(
                    EngineView {
                        nonce: (self.nonce + 1) as u128,
                        registry: r,
                        events: self.events.push(
                            Event::TradeCreated {
                                owner: taker.owner,
                                base_token: base,
                                quote_token: quote,
                                trade_hash: hash,
                                trade: t,
                            },
                        ),
                        ..self
                    },
                ),
            }
        }
    }

    /// One fill of `taker` against the oldest order of the best level on the
    /// other side of the book of the pair `tp` of `base` and `quote`, which
    /// has such a level. In turn: the amounts are computed at the maker's
    /// price; both sides change hands in the ledger; both orders are
    /// reduced; an order that has received all it asked for is brought to
    /// its end; both orders are stored; the trade is recorded; the market
    /// data take the trade in; the maker's level is lowered; and the makers'
    /// side of the book is cleared of finished orders.
    #[verifier::opaque]
    pub open spec fn fill(self, tp: H256, base: H256, quote: H256, taker: Order, host: Host)
        -> Result<(EngineView, Order), Error> {
        let side = taker.otype.flip();
        let mh = self.book_of(tp).first_order(side).unwrap().1;
        if !self.registry.orders.contains_key(mh) {
            Err(Error::OrderMatchGetOrderError)
        } else {
            let maker = self.registry.orders[mh];
            match fill_plan(base, quote, maker, taker, self.config.price_factor) {
                Err(e) => Err(e),
                Ok(p) => match exchanged(self.tokens, taker.owner, maker.owner, p) {
                    Err(e) => Err(Error::Token(e)),
                    Ok(l) => match (
                        reduced(touched(taker), p.give_qty, p.have_qty),
                        reduced(touched(maker), p.have_qty, p.give_qty),
                    ) {
                        (Some(t1), Some(m1)) => match (EngineView { tokens: l, ..self }).finish(
                            tp,
                            t1,
                            p.give,
                        ) {
                            Err(e) => Err(e),
                            Ok((s2, t2)) => match s2.finish(tp, m1, p.have) {
                                Err(e) => Err(e),
                                Ok((s3, m2)) => (EngineView {
                                    registry: s3.registry.with_order(t2).with_order(m2),
                                    ..s3
                                }).fill_booked(tp, base, quote, m2, t2, p, host),
                            },
                        },
                        _ => Err(Error::OrderMatchSubstractError),
                    },
                },
            }
        }
    }

    /// The last part of a fill, once both orders are stored.
    pub open spec fn fill_booked(
        self,
        tp: H256,
        base: H256,
        quote: H256,
        maker: Order,
        taker: Order,
        p: Fill,
        host: Host,
    ) -> Result<(EngineView, Order), Error> {
        match self.trade_recorded(tp, base, quote, maker, taker, p, host) {
            Err(e) => Err(e),
            Ok(s) => match s.market.record(tp, host.block_number, maker.price, p.quote_qty) {
                Err(e) => Err(e),
                Ok(m) => Ok(
                    (
                        EngineView {
                            market: m,
                            books: s.books.insert(
                                tp,
                                s.book_of(tp).decrement(maker.price, p.have_qty, p.give_qty).drain(
                                    taker.otype.flip(),
                                    s.registry.orders,
                                ),
                            ),
                            ..s
                        },
                        taker,
                    ),
                ),
            },
        }
    }

    /// Matching with at most `fuel` fills: as long as the taker is not
    /// filled and the best level on the other side of the book has a price
    /// the taker accepts, the taker is filled against the oldest order of
    /// that level.
    pub open spec fn match_all(
        self,
        tp: H256,
        base: H256,
        quote: H256,
        taker: Order,
        host: Host,
        fuel: nat,
    ) -> Result<(EngineView, Order), Error>
        decreases fuel,
    {
        if taker.status == OrderStatus::Filled {
            Ok((self, taker))
        } else {
            match self.book_of(tp).first_order(taker.otype.flip()) {
                None => Ok((self, taker)),
                Some((price, _)) => if !matches_price(taker.price, taker.otype, price) || fuel
                    == 0 {
                    Ok((self, taker))
                } else {
                    match self.fill(tp, base, quote, taker, host) {
                        Err(e) => Err(e),
                        Ok((s, t)) => s.match_all(tp, base, quote, t, host, (fuel - 1) as nat),
                    }
                },
            }
        }
    }

    /// The exchange and the taker after the taker has been matched against
    /// the book of the pair `tp`. A fill that does not fill the taker ends
    /// the maker, which then leaves the book; so there are at most as many
    /// fills as orders rest on the other side, and that number bounds the
    /// fills. The bound is never what stops matching
    /// (`progress::lemma_match_runs_to_its_end`).
    pub open spec fn matched(self, tp: H256, taker: Order, host: Host) -> Result<
        (EngineView, Order),
        Error,
    > {
        if !self.market.pairs.contains_key(tp) {
            Err(Error::NoMatchingTradePair)
        } else {
            self.match_all(
                tp,
                self.market.pairs[tp].base,
                self.market.pairs[tp].quote,
                taker,
                host,
                self.book_of(tp).resting(taker.otype.flip()),
            )
        }
    }
}


impl Pallet {
    /// The exchange is well formed: the price factor is positive, the ledger
    /// balances, no table holds a key twice, the list of pairs holds every
    /// stored pair once, the pair of two tokens is a stored pair of these
    /// tokens, and every book is well formed.
    pub closed spec fn wf(&self) -> bool {
        &&& self.config.price_factor > 0
        &&& self.tokens.wf()
        &&& self.market.wf()
        &&& self.registry.wf()
        &&& self.books.wf()
        &&& forall|k: H256| #[trigger] self.books@.contains_key(k) ==> self.books@[k].wf()
    }

    /// What well-formedness says of the value of the exchange.
    pub proof fn lemma_wf(&self)
        requires
            self.wf(),
        ensures
            self@.config.price_factor > 0,
            self@.tokens.balanced(),
            self@.market.listed(),
            self@.market.registered(),
            forall|k: H256| #[trigger] self@.books.contains_key(k) ==> self@.books[k].wf(),
            self@.book_of_is_wf(),
    {
    }

    /// An exchange over a ledger, with no pair, order or trade. `None` where
    /// the price factor is zero.
    pub fn new(config: Config, tokens: crate::tokens::Pallet) -> (r: Option<Pallet>)
        requires
            tokens.wf(),
        ensures
            r.is_some() == (config.price_factor > 0),
            match r {
                Some(p) => p.wf() && p@ == (EngineView {
                    config,
                    nonce: 0,
                    tokens: tokens@,
                    market: MarketView::empty(),
                    registry: RegistryView::empty(),
                    books: Map::empty(),
                    events: Seq::empty(),
                }),
                None => true,
            },
    {
        if config.price_factor == 0 {
            return None;
        }
        Some(
            Pallet {
                config,
                nonce: 0,
                tokens,
                market: Market::new(),
                registry: Registry::new(),
                books: Table::new(),
                events: Vec::new(),
            },
        )
    }

    /// The identifier of the pair of a base and a quote token.
    pub fn ensure_trade_pair(&self, base: H256, quote: H256) -> (r: Result<H256, Error>)
        requires
            self.wf(),
        ensures
            r == self@.ensure_pair(base, quote),
    {
        match self.market.trade_pair_hash_by_base_quote(&base, &quote) {
            Some(h) => Ok(h),
            None => Err(Error::NoMatchingTradePair),
        }
    }

    /// Creates the trade pair `base`/`quote` for the sender, who owns one of
    /// the two tokens. A refused call changes nothing.
    pub fn do_create_trade_pair(&mut self, sender: AccountId, base: H256, quote: H256, host: &Host)
        -> (r: Result<(), Error>)
        requires
            old(self).wf(),
        ensures
            final(self).wf(),
            match r {
                Ok(()) => old(self)@.create_trade_pair(sender, base, quote, *host) == Ok::<
                    EngineView,
                    Error,
                >(final(self)@),
                Err(e) => old(self)@.create_trade_pair(sender, base, quote, *host) == Err::<
                    EngineView,
                    Error,
                >(e) && final(self)@ == old(self)@,
            },
    {
        if base == quote {
            return Err(Error::BaseEqualQuote);
        }
        let base_owner = self.tokens.owners(&base);
        let quote_owner = self.tokens.owners(&quote);
        let (bo, qo) = match (base_owner, quote_owner) {
            (Some(b), Some(q)) => (b, q),
            _ => {
                return Err(Error::TokenOwnerNotFound);
            },
        };
        if !(sender == bo || sender == qo) {
            return Err(Error::SenderNotEqualToBaseOrQuoteOwner);
        }
        let bq = self.market.trade_pair_hash_by_base_quote(&base, &quote);
        let qb = self.market.trade_pair_hash_by_base_quote(&quote, &base);
        if bq.is_some() || qb.is_some() {
            return Err(Error::TradePairExisted);
        }
        if self.nonce == u128::MAX || self.market.trade_pair_index() as u64 >= u64::MAX {
            return Err(Error::OverflowError);
        }
        let hash = trade_pair_hash(
            &host.random_seed,
            host.block_number,
            &sender,
            &base,
            &quote,
            self.nonce,
        );
        if self.market.trade_pairs(&hash).is_some() {
            return Err(Error::HashCollision);
        }
        let tp = TradePair {
            hash,
            base,
            quote,
            latest_matched_price: None,
            one_day_trade_volume: 0,
            one_day_highest_price: None,
            one_day_lowest_price: None,
        };
        match self.market.add_pair(tp) {
            Err(e) => {
                return Err(e);
            },
            Ok(()) => {},
        }
        self.nonce = self.nonce + 1;
        self.events.push(Event::TradePairCreated { owner: sender, hash, trade_pair: tp });
        Ok(())
    }

    /// Creates a trade pair for the sender.
    pub fn create_trade_pair(&mut self, sender: AccountId, base: H256, quote: H256, host: &Host)
        -> (r: Result<(), Error>)
        requires
            old(self).wf(),
        ensures
            final(self).wf(),
            match r {
                Ok(()) => old(self)@.create_trade_pair(sender, base, quote, *host) == Ok::<
                    EngineView,
                    Error,
                >(final(self)@),
                Err(e) => old(self)@.create_trade_pair(sender, base, quote, *host) == Err::<
                    EngineView,
                    Error,
                >(e) && final(self)@ == old(self)@,
            },
    {
        self.do_create_trade_pair(sender, base, quote, host)
    }

    fn finish(&mut self, tp: H256, o: Order, token: H256) -> (r: Result<Order, Error>)
        requires
            old(self).wf(),
        ensures
            final(self).wf(),
            match r {
                Ok(o2) => old(self)@.finish(tp, o, token) == Ok::<(EngineView, Order), Error>(
                    (final(self)@, o2),
                ),
                Err(e) => old(self)@.finish(tp, o, token) == Err::<(EngineView, Order), Error>(e),
            },
    {
        if o.remained_buy_amount != 0 {
            return Ok(o);
        }
        if o.remained_sell_amount != 0 {
            match self.tokens.do_unfreeze(o.owner, token, o.remained_sell_amount) {
                Err(e) => {
                    return Err(Error::Token(e));
                },
                Ok(()) => {},
            }
        }
        self.registry.close_order(o.owner, tp, o.hash, self.config.closed_orders_array_cap);
        let mut done = o;
        done.status = OrderStatus::Filled;
        done.remained_sell_amount = 0;
        Ok(done)
    }

    fn first_of(&self, tp: &H256, side: OrderType) -> (r: Option<(Price, H256)>)
        requires
            self.wf(),
        ensures
            r == self@.book_of(*tp).first_order(side),
    {
        match self.books.get(tp) {
            Some(b) => b.first_order(side),
            None => None,
        }
    }

    fn resting_of(&self, tp: &H256, side: OrderType) -> (n: u128)
        requires
            self.wf(),
        ensures
            n == self@.book_of(*tp).resting(side),
    {
        match self.books.get(tp) {
            Some(b) => b.resting_count(side),
            None => 0,
        }
    }
}

impl EngineView {
    /// Every book of the exchange is well formed, the empty one of an unused
    /// pair too.
    pub open spec fn book_of_is_wf(self) -> bool {
        forall|k: H256| (#[trigger] self.book_of(k)).wf()
    }
}


impl Pallet {
    fn exchange(
        &mut self,
        taker: AccountId,
        maker: AccountId,
        give: H256,
        give_qty: Balance,
        have: H256,
        have_qty: Balance,
    ) -> (r: Result<(), Error>)
        requires
            old(self).wf(),
        ensures
            final(self).wf(),
            ({
                let p = Fill {
                    base_qty: 0,
                    quote_qty: 0,
                    give_qty,
                    have_qty,
                    give,
                    have,
                };
                match r {
                    Ok(()) => exchanged(old(self)@.tokens, taker, maker, p) == Ok::<
                        LedgerView,
                        crate::tokens::Error,
                    >(final(self)@.tokens) && final(self)@ == (EngineView {
                        tokens: final(self)@.tokens,
                        ..old(self)@
                    }),
                    Err(e) => exists|te: crate::tokens::Error|
                        e == Error::Token(te) && exchanged(old(self)@.tokens, taker, maker, p)
                            == Err::<LedgerView, crate::tokens::Error>(te),
                }
            }),
    {
        match self.tokens.do_unfreeze(taker, give, give_qty) {
            Err(e) => {
                return Err(Error::Token(e));
            },
            Ok(()) => {},
        }
        match self.tokens.do_unfreeze(maker, have, have_qty) {
            Err(e) => {
                return Err(Error::Token(e));
            },
            Ok(()) => {},
        }
        match self.tokens.do_transfer(taker, maker, give, give_qty, None) {
            Err(e) => {
                return Err(Error::Token(e));
            },
            Ok(()) => {},
        }
        match self.tokens.do_transfer(maker, taker, have, have_qty, None) {
            Err(e) => {
                return Err(Error::Token(e));
            },
            Ok(()) => {},
        }
        Ok(())
    }

    fn book_fill(&mut self, tp: H256, maker: &Order, taker: &Order, have_qty: Balance, give_qty: Balance)
        requires
            old(self).wf(),
        ensures
            final(self).wf(),
            final(self)@ == (EngineView {
                books: old(self)@.books.insert(
                    tp,
                    old(self)@.book_of(tp).decrement(maker.price, have_qty, give_qty).drain(
                        taker.otype.flip(),
                        old(self)@.registry.orders,
                    ),
                ),
                ..old(self)@
            }),
    {
        let ghost before = self@;
        let mut book: PriceList = match self.books.remove(&tp) {
            Some(b) => b,
            None => PriceList::new(),
        };
        assert(book@ == before.book_of(tp)) by {
            if !before.books.contains_key(tp) {
                assert(book@.bids =~= Seq::<crate::price_list::LevelView>::empty());
                assert(book@.asks =~= Seq::<crate::price_list::LevelView>::empty());
            }
        }
        book.update_reduce_amount(maker.price, have_qty, give_qty);
        book.remove_order_match_price(taker.otype.not(), self.registry.order_table());
        self.books.insert(tp, book);
        assert(self@.books =~= before.books.insert(
            tp,
            before.book_of(tp).decrement(maker.price, have_qty, give_qty).drain(
                taker.otype.flip(),
                before.registry.orders,
            ),
        ));
    }

    fn record_fill(
        &mut self,
        tp: H256,
        base: H256,
        quote: H256,
        maker: &Order,
        taker: &Order,
        base_qty: Balance,
        quote_qty: Balance,
        host: &Host,
    ) -> (r: Result<(), Error>)
        requires
            old(self).wf(),
        ensures
            final(self).wf(),
            ({
                let p = Fill {
                    base_qty,
                    quote_qty,
                    give_qty: 0,
                    have_qty: 0,
                    give: base,
                    have: quote,
                };
                match r {
                    Ok(()) => old(self)@.trade_recorded(tp, base, quote, *maker, *taker, p, *host)
                        == Ok::<EngineView, Error>(final(self)@),
                    Err(e) => old(self)@.trade_recorded(tp, base, quote, *maker, *taker, p, *host)
                        == Err::<EngineView, Error>(e) && final(self)@ == old(self)@,
                }
            }),
    {
        if self.nonce == u128::MAX {
            return Err(Error::OverflowError);
        }
        let hash = trade_hash(&host.random_seed, host.block_number, self.nonce, maker, taker);
        let t = Trade::new(hash, base, quote, maker, taker, base_qty, quote_qty);
        match self.registry.record_trade(tp, t, taker, maker) {
            Err(e) => {
                return Err(e);
            },
            Ok(()) => {},
        }
        self.nonce = self.nonce + 1;
        self.events.push(
            Event::TradeCreated {
                owner: taker.owner,
                base_token: base,
                quote_token: quote,
                trade_hash: hash,
                trade: t,
            },
        );
        Ok(())
    }

    fn fill_once(&mut self, tp: H256, base: H256, quote: H256, order: &mut Order, host: &Host) -> (r:
        Result<(), Error>)
        requires
            old(self).wf(),
            old(self)@.book_of(tp).first_order(old(order).otype.flip()).is_some(),
        ensures
            final(self).wf(),
            match r {
                Ok(()) => old(self)@.fill(tp, base, quote, *old(order), *host) == Ok::<
                    (EngineView, Order),
                    Error,
                >((final(self)@, *final(order))),
                Err(e) => old(self)@.fill(tp, base, quote, *old(order), *host) == Err::<
                    (EngineView, Order),
                    Error,
                >(e),
            },
            r.is_ok() ==> final(order).otype == old(order).otype && final(order).price == old(
                order,
            ).price && final(order).hash == old(order).hash && final(order).owner == old(
                order,
            ).owner,
    {
        reveal(EngineView::fill);
        let ghost s0 = self@;
        let taker: Order = *order;
        let side = taker.otype.not();
        let mh: H256 = match self.first_of(&tp, side) {
            Some((_, h)) => h,
            None => {
                return Err(Error::OrderMatchGetOrderError);
            },
        };
        let maker: Order = match self.registry.orders(&mh) {
            Some(o) => o,
            None => {
                return Err(Error::OrderMatchGetOrderError);
            },
        };
        let (base_qty, quote_qty) = match calculate_ex_amount(
            &maker,
            &taker,
            self.config.price_factor,
        ) {
            Ok(a) => a,
            Err(e) => {
                return Err(e);
            },
        };
        let give_qty: Balance;
        let have_qty: Balance;
        let give: H256;
        let have: H256;
        match taker.otype {
            OrderType::Buy => {
                give_qty = base_qty;
                have_qty = quote_qty;
                give = base;
                have = quote;
            },
            OrderType::Sell => {
                give_qty = quote_qty;
                have_qty = base_qty;
                give = quote;
                have = base;
            },
        }
        let ghost p = Fill { base_qty, quote_qty, give_qty, have_qty, give, have };
        assert(fill_plan(base, quote, maker, taker, s0.config.price_factor) == Ok::<Fill, Error>(p));
        assert(exchanged(s0.tokens, taker.owner, maker.owner, p) == exchanged(
            s0.tokens,
            taker.owner,
            maker.owner,
            Fill { base_qty: 0, quote_qty: 0, give_qty, have_qty, give, have },
        ));
        match self.exchange(taker.owner, maker.owner, give, give_qty, have, have_qty) {
            Err(e) => {
                return Err(e);
            },
            Ok(()) => {},
        }
        let mut t1 = taker;
        if t1.remained_sell_amount == t1.sell_amount {
            t1.status = OrderStatus::PartialFilled;
        }
        let mut m1 = maker;
        if m1.remained_sell_amount == m1.sell_amount {
            m1.status = OrderStatus::PartialFilled;
        }
        if t1.remained_sell_amount < give_qty || t1.remained_buy_amount < have_qty
            || m1.remained_sell_amount < have_qty || m1.remained_buy_amount < give_qty {
            return Err(Error::OrderMatchSubstractError);
        }
        t1.remained_sell_amount = t1.remained_sell_amount - give_qty;
        t1.remained_buy_amount = t1.remained_buy_amount - have_qty;
        m1.remained_sell_amount = m1.remained_sell_amount - have_qty;
        m1.remained_buy_amount = m1.remained_buy_amount - give_qty;
        assert(Some(t1) == reduced(touched(taker), give_qty, have_qty));
        assert(Some(m1) == reduced(touched(maker), have_qty, give_qty));
        let t2 = match self.finish(tp, t1, give) {
            Ok(o) => o,
            Err(e) => {
                return Err(e);
            },
        };
        let m2 = match self.finish(tp, m1, have) {
            Ok(o) => o,
            Err(e) => {
                return Err(e);
            },
        };
        self.registry.put_order(t2);
        self.registry.put_order(m2);
        match self.fill_booked(
            tp,
            base,
            quote,
            &m2,
            &t2,
            base_qty,
            quote_qty,
            give_qty,
            have_qty,
            give,
            have,
            host,
        ) {
            Err(e) => {
                return Err(e);
            },
            Ok(()) => {},
        }
        *order = t2;
        Ok(())
    }

    fn fill_booked(
        &mut self,
        tp: H256,
        base: H256,
        quote: H256,
        maker: &Order,
        taker: &Order,
        base_qty: Balance,
        quote_qty: Balance,
        give_qty: Balance,
        have_qty: Balance,
        give: H256,
        have: H256,
        host: &Host,
    ) -> (r: Result<(), Error>)
        requires
            old(self).wf(),
        ensures
            final(self).wf(),
            ({
                let p = Fill { base_qty, quote_qty, give_qty, have_qty, give, have };
                match r {
                    Ok(()) => old(self)@.fill_booked(tp, base, quote, *maker, *taker, p, *host)
                        == Ok::<(EngineView, Order), Error>((final(self)@, *taker)),
                    Err(e) => old(self)@.fill_booked(tp, base, quote, *maker, *taker, p, *host)
                        == Err::<(EngineView, Order), Error>(e),
                }
            }),
    {
        let ghost s4 = self@;
        let ghost p = Fill { base_qty, quote_qty, give_qty, have_qty, give, have };
        assert(s4.trade_recorded(tp, base, quote, *maker, *taker, p, *host) == s4.trade_recorded(
            tp,
            base,
            quote,
            *maker,
            *taker,
            Fill { base_qty, quote_qty, give_qty: 0, have_qty: 0, give: base, have: quote },
            *host,
        ));
        match self.record_fill(tp, base, quote, maker, taker, base_qty, quote_qty, host) {
            Err(e) => {
                return Err(e);
            },
            Ok(()) => {},
        }
        match self.market.set_tp_market_data(tp, host.block_number, maker.price, quote_qty) {
            Err(e) => {
                return Err(e);
            },
            Ok(()) => {},
        }
        self.book_fill(tp, maker, taker, have_qty, give_qty);
        Ok(())
    }

    /// Matches an order against the book of its pair: as long as the order
    /// is not filled and the best price on the other side is one it accepts,
    /// it is filled against the oldest order resting at that price. The
    /// answer tells whether the order ended up filled. An unknown pair is
    /// refused and nothing changes; where a fill fails, what has been written
    /// stays written.
    pub fn order_match(&mut self, tp_hash: H256, order: &mut Order, host: &Host) -> (r: Result<
        bool,
        Error,
    >)
        requires
            old(self).wf(),
        ensures
            final(self).wf(),
            match r {
                Ok(filled) => old(self)@.matched(tp_hash, *old(order), *host) == Ok::<
                    (EngineView, Order),
                    Error,
                >((final(self)@, *final(order))) && filled == (final(order).status
                    == OrderStatus::Filled),
                Err(e) => old(self)@.matched(tp_hash, *old(order), *host) == Err::<
                    (EngineView, Order),
                    Error,
                >(e),
            },
            r.is_err() && !old(self)@.market.pairs.contains_key(tp_hash) ==> final(self)@ == old(
                self,
            )@ && *final(order) == *old(order),
    {
        let tp: TradePair = match self.market.trade_pairs(&tp_hash) {
            Some(tp) => tp,
            None => {
                return Err(Error::NoMatchingTradePair);
            },
        };
        let side = order.otype.not();
        let mut fuel: u128 = self.resting_of(&tp_hash, side);
        let ghost goal = self@.match_all(tp_hash, tp.base, tp.quote, *order, *host, fuel as nat);
        loop
            invariant
                self.wf(),
                order.otype.flip() == side,
                self@.match_all(tp_hash, tp.base, tp.quote, *order, *host, fuel as nat) == goal,
                goal == old(self)@.matched(tp_hash, *old(order), *host),
                old(self)@.market.pairs.contains_key(tp_hash),
            ensures
                self.wf(),
                goal == Ok::<(EngineView, Order), Error>((self@, *order)),
            decreases fuel,
        {
            if order.status == OrderStatus::Filled {
                break ;
            }
            match self.first_of(&tp_hash, side) {
                None => {
                    break ;
                },
                Some((price, _)) => {
                    if !price_matched(order.price, order.otype, price) || fuel == 0 {
                        break ;
                    }
                },
            }
            match self.fill_once(tp_hash, tp.base, tp.quote, order, host) {
                Err(e) => {
                    return Err(e);
                },
                Ok(()) => {},
            }
            fuel = fuel - 1;
        }
        Ok(order.status == OrderStatus::Filled)
    }
}


/// A new limit order before it has its identifier.
pub open spec fn draft_order(
    sender: AccountId,
    base: H256,
    quote: H256,
    otype: OrderType,
    price: Price,
    sell_amount: Balance,
    buy_amount: Balance,
) -> Order {
    Order {
        hash: H256 { hi: 0, lo: 0 },
        base,
        quote,
        owner: sender,
        price,
        sell_amount,
        buy_amount,
        remained_sell_amount: sell_amount,
        remained_buy_amount: buy_amount,
        oopt: OrderOpt::Limit,
        otype,
        status: OrderStatus::Created,
    }
}

impl EngineView {
    /// The exchange and the new order after a limit order has been placed
    /// and before it is matched, or why it cannot be placed: the price or
    /// the amount is out of bounds; the amounts do not convert without loss;
    /// the pair is unknown; the sender cannot spend the amount, or it cannot
    /// be reserved; the identifier derived for the order is taken; the nonce
    /// or a list is full. The refusals are tested in this order. The amount
    /// is reserved in the token the order gives, the order is stored
    /// with nothing filled, and it is listed under its owner and its pair.
    pub open spec fn place(
        self,
        sender: AccountId,
        base: H256,
        quote: H256,
        otype: OrderType,
        price: Price,
        sell_amount: Balance,
        host: Host,
    ) -> Result<(EngineView, Order), Error> {
        match bounds(price, sell_amount) {
            Err(e) => Err(e),
            Ok(()) => match counterparty_amount_bounds(
                otype,
                price,
                sell_amount,
                self.config.price_factor,
            ) {
                Err(e) => Err(e),
                Ok(buy_amount) => match self.ensure_pair(base, quote) {
                    Err(e) => Err(e),
                    Ok(tp) => {
                        let draft = draft_order(
                            sender,
                            base,
                            quote,
                            otype,
                            price,
                            sell_amount,
                            buy_amount,
                        );
                        let hash = hash_of(
                            order_preimage(host.random_seed, draft, self.nonce, host.block_number),
                        );
                        let order = Order { hash, ..draft };
                        let token = reserve_token(otype, base, quote);
                        match self.tokens.ensure_free(sender, token, sell_amount) {
                            Err(e) => Err(Error::Token(e)),
                            Ok(()) => match self.tokens.freeze(sender, token, sell_amount) {
                                Err(e) => Err(Error::Token(e)),
                                Ok(l) => if self.registry.orders.contains_key(hash) {
                                    Err(Error::HashCollision)
                                } else if self.nonce == u128::MAX {
                                    Err(Error::OverflowError)
                                } else {
                                    match self.registry.with_order(order).list_order(
                                        sender,
                                        tp,
                                        hash,
                                        self.config.opened_orders_array_cap,
                                    ) {
                                        Err(e) => Err(e),
                                        Ok(r) => Ok(
                                            (
                                                EngineView {
                                                    nonce: (self.nonce + 1) as u128,
                                                    tokens: l,
                                                    registry: r,
                                                    ..self
                                                },
                                                order,
                                            ),
                                        ),
                                    }
                                },
                            },
                        }
                    },
                },
            },
        }
    }

    /// The exchange after a matched order has either come to rest in the
    /// book of its pair or, being filled, moved to its owner's closed
    /// orders; the order is announced as it stands.
    pub open spec fn settled(self, tp: H256, o: Order) -> Result<EngineView, Error> {
        let announced = self.events.push(
            Event::OrderCreated {
                owner: o.owner,
                base_token: o.base,
                quote_token: o.quote,
                order_hash: o.hash,
                limit_order: o,
            },
        );
        if o.status == OrderStatus::Filled {
            Ok(
                EngineView {
                    registry: self.registry.close_order(
                        o.owner,
                        tp,
                        o.hash,
                        self.config.closed_orders_array_cap,
                    ),
                    events: announced,
                    ..self
                },
            )
        } else {
            match self.book_of(tp).append_result(
                o.price,
                o.remained_sell_amount,
                o.remained_buy_amount,
            ) {
                Err(e) => Err(e),
                Ok(()) => Ok(
                    EngineView {
                        books: self.books.insert(
                            tp,
                            self.book_of(tp).append(
                                o.price,
                                o.hash,
                                o.remained_sell_amount,
                                o.remained_buy_amount,
                                o.otype,
                            ),
                        ),
                        events: announced,
                        ..self
                    },
                ),
            }
        }
    }

    /// The exchange after a limit order: the order is placed, matched
    /// against the book of its pair, and then rests in the book with what is
    /// left of it, or is closed.
    pub open spec fn create_limit_order(
        self,
        sender: AccountId,
        base: H256,
        quote: H256,
        otype: OrderType,
        price: Price,
        sell_amount: Balance,
        host: Host,
    ) -> Result<EngineView, Error> {
        match self.place(sender, base, quote, otype, price, sell_amount, host) {
            Err(e) => Err(e),
            Ok((s1, order)) => {
                let tp = self.market.pair_of[(base, quote)];
                match s1.matched(tp, order, host) {
                    Err(e) => Err(e),
                    Ok((s2, o2)) => s2.settled(tp, o2),
                }
            },
        }
    }

    /// The exchange after the owner has cancelled an order, or why it
    /// cannot: the order is unknown; it is not the sender's; it is finished;
    /// its pair is unknown; a level stands at its price without it; what is
    /// left of its reservation cannot be released. The order leaves its
    /// level, whose sums are lowered by the order's full amounts; it is
    /// stored as cancelled and moves to its owner's closed orders; what it
    /// had left to give is released.
    pub open spec fn cancel(self, sender: AccountId, order_hash: H256) -> Result<EngineView, Error> {
        if !self.registry.orders.contains_key(order_hash) {
            Err(Error::NoMatchingOrder)
        } else {
            let o = self.registry.orders[order_hash];
            if o.owner != sender {
                Err(Error::CanOnlyCancelOwnOrder)
            } else if o.finished() {
                Err(Error::CanOnlyCancelNotFinishedOrder)
            } else {
                match self.ensure_pair(o.base, o.quote) {
                    Err(e) => Err(e),
                    Ok(tp) => if self.book_of(tp).side_of(o.price).is_some() && !self.book_of(
                        tp,
                    ).rests_at(o.price, o.hash) {
                        Err(Error::OrderNotInBook)
                    } else {
                        match self.tokens.unfreeze(
                            sender,
                            reserve_token(o.otype, o.base, o.quote),
                            o.remained_sell_amount,
                        ) {
                            Err(e) => Err(Error::Token(e)),
                            Ok(l) => Ok(
                                EngineView {
                                    tokens: l,
                                    books: self.books.insert(
                                        tp,
                                        self.book_of(tp).remove_order(
                                            o.price,
                                            o.hash,
                                            o.sell_amount,
                                            o.buy_amount,
                                        ),
                                    ),
                                    registry: (RegistryView {
                                        orders: self.registry.orders.insert(
                                            order_hash,
                                            Order { status: OrderStatus::Canceled, ..o },
                                        ),
                                        ..self.registry
                                    }).close_order(
                                        sender,
                                        tp,
                                        order_hash,
                                        self.config.closed_orders_array_cap,
                                    ),
                                    events: self.events.push(
                                        Event::OrderCanceled { owner: sender, order_hash },
                                    ),
                                    ..self
                                },
                            ),
                        }
                    },
                }
            }
        }
    }
}

impl Pallet {
    fn take_book(&mut self, tp: &H256) -> (b: PriceList)
        requires
            old(self).wf(),
        ensures
            final(self).wf(),
            b.wf(),
            b@ == old(self)@.book_of(*tp),
            final(self)@ == (EngineView { books: old(self)@.books.remove(*tp), ..old(self)@ }),
    {
        let ghost before = self@;
        let book: PriceList = match self.books.remove(tp) {
            Some(b) => b,
            None => PriceList::new(),
        };
        assert(book@ == before.book_of(*tp)) by {
            if !before.books.contains_key(*tp) {
                assert(book@.bids =~= Seq::<crate::price_list::LevelView>::empty());
                assert(book@.asks =~= Seq::<crate::price_list::LevelView>::empty());
            }
        }
        book
    }

    fn put_book(&mut self, tp: H256, b: PriceList)
        requires
            old(self).wf(),
            b.wf(),
        ensures
            final(self).wf(),
            final(self)@ == (EngineView { books: old(self)@.books.insert(tp, b@), ..old(self)@ }),
    {
        self.books.insert(tp, b);
    }

    fn place(
        &mut self,
        sender: AccountId,
        base: H256,
        quote: H256,
        otype: OrderType,
        price: Price,
        sell_amount: Balance,
        host: &Host,
    ) -> (r: Result<(H256, Order), Error>)
        requires
            old(self).wf(),
        ensures
            final(self).wf(),
            match r {
                Ok((tp, o)) => old(self)@.place(sender, base, quote, otype, price, sell_amount, *host)
                    == Ok::<(EngineView, Order), Error>((final(self)@, o)) && old(
                    self,
                )@.market.pair_of.contains_key((base, quote)) && tp == old(
                    self,
                )@.market.pair_of[(base, quote)] && o.owner == sender && o.otype == otype
                    && o.price == price,
                Err(e) => old(self)@.place(sender, base, quote, otype, price, sell_amount, *host)
                    == Err::<(EngineView, Order), Error>(e) && final(self)@ == old(self)@,
            },
    {
        match ensure_bounds(price, sell_amount) {
            Err(e) => {
                return Err(e);
            },
            Ok(()) => {},
        }
        let buy_amount = match ensure_counterparty_amount_bounds(
            otype,
            price,
            sell_amount,
            self.config.price_factor,
        ) {
            Ok(b) => b,
            Err(e) => {
                return Err(e);
            },
        };
        let tp = match self.ensure_trade_pair(base, quote) {
            Ok(h) => h,
            Err(e) => {
                return Err(e);
            },
        };
        let token: H256 = match otype {
            OrderType::Buy => base,
            OrderType::Sell => quote,
        };
        let draft = Order::new(
            H256 { hi: 0, lo: 0 },
            base,
            quote,
            sender,
            price,
            sell_amount,
            buy_amount,
            OrderOpt::Limit,
            otype,
        );
        let hash = order_hash(&host.random_seed, &draft, self.nonce, host.block_number);
        let mut order = draft;
        order.hash = hash;
        match self.tokens.ensure_free_balance(sender, token, sell_amount) {
            Err(e) => {
                return Err(Error::Token(e));
            },
            Ok(()) => {},
        }
        if self.tokens.freezed_balance_of(&sender, &token) > u128::MAX - sell_amount {
            return Err(Error::Token(crate::tokens::Error::AmountOverFlow));
        }
        if self.registry.orders(&hash).is_some() {
            return Err(Error::HashCollision);
        }
        if self.nonce == u128::MAX {
            return Err(Error::OverflowError);
        }
        if self.registry.owned_orders_index(&sender) as u64 >= u64::MAX
            || self.registry.trade_pair_owned_order_index(&tp) as u64 >= u64::MAX {
            return Err(Error::OverflowError);
        }
        match self.tokens.do_freeze(sender, token, sell_amount) {
            Err(e) => {
                return Err(Error::Token(e));
            },
            Ok(()) => {},
        }
        self.registry.put_order(order);
        let listed = self.registry.list_order(
            sender,
            tp,
            hash,
            self.config.opened_orders_array_cap,
        );
        self.nonce = self.nonce + 1;
        Ok((tp, order))
    }

    fn settle(&mut self, tp: H256, o: &Order) -> (r: Result<(), Error>)
        requires
            old(self).wf(),
        ensures
            final(self).wf(),
            match r {
                Ok(()) => old(self)@.settled(tp, *o) == Ok::<EngineView, Error>(final(self)@),
                Err(e) => old(self)@.settled(tp, *o) == Err::<EngineView, Error>(e),
            },
    {
        if o.status == OrderStatus::Filled {
            self.registry.close_order(o.owner, tp, o.hash, self.config.closed_orders_array_cap);
        } else {
            let ghost before = self@;
            let mut book = self.take_book(&tp);
            let r = book.append(
                o.price,
                o.hash,
                o.remained_sell_amount,
                o.remained_buy_amount,
                o.otype,
            );
            self.put_book(tp, book);
            match r {
                Err(e) => {
                    return Err(e);
                },
                Ok(()) => {},
            }
            assert(self@.books =~= before.books.insert(
                tp,
                before.book_of(tp).append(
                    o.price,
                    o.hash,
                    o.remained_sell_amount,
                    o.remained_buy_amount,
                    o.otype,
                ),
            ));
        }
        self.events.push(
            Event::OrderCreated {
                owner: o.owner,
                base_token: o.base,
                quote_token: o.quote,
                order_hash: o.hash,
                limit_order: *o,
            },
        );
        Ok(())
    }

    /// Places a limit order for the sender and matches it. On a `Buy` the
    /// sender gives `sell_amount` of the base token, on a `Sell` of the quote
    /// token; that amount is reserved. What is left of the order after
    /// matching rests in the book at `price`. An order that cannot be placed
    /// changes nothing; where matching fails after the order has been placed,
    /// what has been written stays written.
    pub fn do_create_limit_order(
        &mut self,
        sender: AccountId,
        base: H256,
        quote: H256,
        otype: OrderType,
        price: Price,
        sell_amount: Balance,
        host: &Host,
    ) -> (r: Result<(), Error>)
        requires
            old(self).wf(),
        ensures
            final(self).wf(),
            match r {
                Ok(()) => old(self)@.create_limit_order(
                    sender,
                    base,
                    quote,
                    otype,
                    price,
                    sell_amount,
                    *host,
                ) == Ok::<EngineView, Error>(final(self)@),
                Err(e) => old(self)@.create_limit_order(
                    sender,
                    base,
                    quote,
                    otype,
                    price,
                    sell_amount,
                    *host,
                ) == Err::<EngineView, Error>(e),
            },
            r.is_err() && old(self)@.place(
                sender,
                base,
                quote,
                otype,
                price,
                sell_amount,
                *host,
            ).is_err() ==> final(self)@ == old(self)@,
    {
        let (tp, mut order) = match self.place(sender, base, quote, otype, price, sell_amount, host) {
            Ok(x) => x,
            Err(e) => {
                return Err(e);
            },
        };
        match self.order_match(tp, &mut order, host) {
            Err(e) => {
                return Err(e);
            },
            Ok(_) => {},
        }
        self.settle(tp, &order)
    }

    /// Places a limit order for the sender. A refused call changes nothing.
    pub fn create_limit_order(
        &mut self,
        sender: AccountId,
        base: H256,
        quote: H256,
        otype: OrderType,
        price: Price,
        sell_amount: Balance,
        host: &Host,
    ) -> (r: Result<(), Error>)
        requires
            old(self).wf(),
        ensures
            final(self).wf(),
            match r {
                Ok(()) => old(self)@.create_limit_order(
                    sender,
                    base,
                    quote,
                    otype,
                    price,
                    sell_amount,
                    *host,
                ) == Ok::<EngineView, Error>(final(self)@),
                Err(e) => old(self)@.create_limit_order(
                    sender,
                    base,
                    quote,
                    otype,
                    price,
                    sell_amount,
                    *host,
                ) == Err::<EngineView, Error>(e) && final(self)@ == old(self)@,
            },
    {
        let before = self.duplicate();
        let r = self.do_create_limit_order(sender, base, quote, otype, price, sell_amount, host);
        if r.is_err() {
            *self = before;
        }
        r
    }

    /// Cancels an order of the sender that is not finished. A refused call
    /// changes nothing.
    pub fn do_cancel_limit_order(&mut self, sender: AccountId, order_hash: H256) -> (r: Result<
        (),
        Error,
    >)
        requires
            old(self).wf(),
        ensures
            final(self).wf(),
            match r {
                Ok(()) => old(self)@.cancel(sender, order_hash) == Ok::<EngineView, Error>(
                    final(self)@,
                ),
                Err(e) => old(self)@.cancel(sender, order_hash) == Err::<EngineView, Error>(e)
                    && final(self)@ == old(self)@,
            },
    {
        let ghost before = self@;
        let mut order: Order = match self.registry.orders(&order_hash) {
            Some(o) => o,
            None => {
                return Err(Error::NoMatchingOrder);
            },
        };
        if !(order.owner == sender) {
            return Err(Error::CanOnlyCancelOwnOrder);
        }
        if order.is_finished() {
            return Err(Error::CanOnlyCancelNotFinishedOrder);
        }
        let tp = match self.ensure_trade_pair(order.base, order.quote) {
            Ok(h) => h,
            Err(e) => {
                return Err(e);
            },
        };
        let (level, rests): (bool, bool) = match self.books.get(&tp) {
            Some(b) => b.level_holds(order.price, order.hash),
            None => (false, false),
        };
        if level && !rests {
            return Err(Error::OrderNotInBook);
        }
        let sell_hash: H256 = match order.otype {
            OrderType::Buy => order.base,
            OrderType::Sell => order.quote,
        };
        match self.tokens.do_unfreeze(sender, sell_hash, order.remained_sell_amount) {
            Err(e) => {
                return Err(Error::Token(e));
            },
            Ok(()) => {},
        }
        let mut book = self.take_book(&tp);
        let removed = book.remove_order(
            order.price,
            order.hash,
            order.sell_amount,
            order.buy_amount,
        );
        self.put_book(tp, book);
        order.status = OrderStatus::Canceled;
        self.registry.put_order_at(order_hash, order);
        self.registry.close_order(sender, tp, order_hash, self.config.closed_orders_array_cap);
        self.events.push(Event::OrderCanceled { owner: sender, order_hash });
        assert(self@.books =~= before.books.insert(
            tp,
            before.book_of(tp).remove_order(
                order.price,
                order.hash,
                order.sell_amount,
                order.buy_amount,
            ),
        ));
        Ok(())
    }

    /// Cancels an order of the sender.
    pub fn cancel_limit_order(&mut self, sender: AccountId, order_hash: H256) -> (r: Result<
        (),
        Error,
    >)
        requires
            old(self).wf(),
        ensures
            final(self).wf(),
            match r {
                Ok(()) => old(self)@.cancel(sender, order_hash) == Ok::<EngineView, Error>(
                    final(self)@,
                ),
                Err(e) => old(self)@.cancel(sender, order_hash) == Err::<EngineView, Error>(e)
                    && final(self)@ == old(self)@,
            },
    {
        self.do_cancel_limit_order(sender, order_hash)
    }
}


/// What a market order gives for `amount` at the best price on the other
/// side: a buy names the amount it wants to receive, which costs
/// `amount · price / f`; a sell names the amount it gives.
pub open spec fn market_amount(otype: OrderType, amount: Balance, price: Price, f: u128) -> Result<
    Balance,
    Error,
> {
    match otype {
        OrderType::Buy => if mul_div(amount as int, price as int, f as int) > u128::MAX {
            Err(Error::NumberCastError)
        } else {
            Ok(mul_div(amount as int, price as int, f as int) as u128)
        },
        OrderType::Sell => Ok(amount),
    }
}

/// A market order's part at one price, once the book has no more to give at
/// that price: its totals are cut down to what was filled, nothing is left
/// open, and it counts as filled. `None` where more is open than the totals.
pub open spec fn swept(o: Order) -> Option<Order> {
    if o.sell_amount < o.remained_sell_amount || o.buy_amount < o.remained_buy_amount {
        None
    } else {
        Some(
            Order {
                sell_amount: (o.sell_amount - o.remained_sell_amount) as u128,
                buy_amount: (o.buy_amount - o.remained_buy_amount) as u128,
                remained_sell_amount: 0,
                remained_buy_amount: 0,
                status: OrderStatus::Filled,
                ..o
            },
        )
    }
}

impl EngineView {
    /// A market order over at most `fuel` prices. While the other side of
    /// the book has a level, the order is placed as a limit order at the best
    /// price there. If that order does not finish, it is swept and the market
    /// order goes on at the next price with what is left.
    pub open spec fn market_order(
        self,
        sender: AccountId,
        base: H256,
        quote: H256,
        otype: OrderType,
        amount: Balance,
        host: Host,
        fuel: nat,
    ) -> Result<EngineView, Error>
        decreases fuel,
    {
        match self.ensure_pair(base, quote) {
            Err(e) => Err(e),
            Ok(tp) => match self.book_of(tp).first_order(otype.flip()) {
                None => Ok(self),
                Some((price, _)) => if fuel == 0 {
                    Ok(self)
                } else {
                    match market_amount(otype, amount, price, self.config.price_factor) {
                        Err(e) => Err(e),
                        Ok(sell) => match self.create_limit_order(
                            sender,
                            base,
                            quote,
                            otype,
                            price,
                            sell,
                            host,
                        ) {
                            Err(e) => Err(e),
                            Ok(s1) => s1.market_next(sender, base, quote, otype, host, fuel),
                        },
                    }
                },
            },
        }
    }

    /// What follows one limit order of a market order: the order placed
    /// last by the sender is looked up; if it is not finished, it is swept
    /// and the market order goes on.
    pub open spec fn market_next(
        self,
        sender: AccountId,
        base: H256,
        quote: H256,
        otype: OrderType,
        host: Host,
        fuel: nat,
    ) -> Result<EngineView, Error>
        decreases fuel, 0nat,
    {
        let l = crate::index::list_of(self.registry.owned_orders, sender);
        if l.len() == 0 {
            Err(Error::OverflowError)
        } else if !self.registry.orders.contains_key(l.last())
            || self.registry.orders[l.last()].finished() || fuel == 0 {
            Ok(self)
        } else {
            let o = self.registry.orders[l.last()];
            match swept(o) {
                None => Err(Error::OrderMatchSubstractError),
                Some(c) => (EngineView {
                    registry: RegistryView {
                        orders: self.registry.orders.insert(l.last(), c),
                        ..self.registry
                    },
                    ..self
                }).market_order(
                    sender,
                    base,
                    quote,
                    otype,
                    match otype {
                        OrderType::Buy => o.remained_buy_amount,
                        OrderType::Sell => o.remained_sell_amount,
                    },
                    host,
                    (fuel - 1) as nat,
                ),
            }
        }
    }

    /// Whether a market order is refused before anything is written: the
    /// pair is unknown, or the amount it would give at the best price on the
    /// other side does not fit, or its first limit order cannot be placed.
    pub open spec fn market_refused_at_once(
        self,
        sender: AccountId,
        base: H256,
        quote: H256,
        otype: OrderType,
        amount: Balance,
        host: Host,
    ) -> bool {
        match self.ensure_pair(base, quote) {
            Err(_) => true,
            Ok(tp) => match self.book_of(tp).first_order(otype.flip()) {
                None => false,
                Some((price, _)) => match market_amount(
                    otype,
                    amount,
                    price,
                    self.config.price_factor,
                ) {
                    Err(_) => true,
                    Ok(sell) => self.place(sender, base, quote, otype, price, sell, host).is_err(),
                },
            },
        }
    }

    /// The exchange after a market order. Each limit order that does not
    /// finish has taken at least one order from the other side, so the market
    /// order visits at most as many prices as orders rest there at the start,
    /// and that number bounds the prices. The bound is never what stops the
    /// market order (`progress::lemma_market_order_runs_to_its_end`).
    pub open spec fn create_market_order(
        self,
        sender: AccountId,
        base: H256,
        quote: H256,
        otype: OrderType,
        amount: Balance,
        host: Host,
    ) -> Result<EngineView, Error> {
        match self.ensure_pair(base, quote) {
            Err(e) => Err(e),
            Ok(tp) => self.market_order(
                sender,
                base,
                quote,
                otype,
                amount,
                host,
                self.book_of(tp).resting(otype.flip()),
            ),
        }
    }

    /// The exchange after an order of either pricing.
    pub open spec fn create_order(
        self,
        sender: AccountId,
        base: H256,
        quote: H256,
        oopt: OrderOpt,
        otype: OrderType,
        price: Price,
        sell_amount: Balance,
        host: Host,
    ) -> Result<EngineView, Error> {
        match oopt {
            OrderOpt::Limit => self.create_limit_order(
                sender,
                base,
                quote,
                otype,
                price,
                sell_amount,
                host,
            ),
            OrderOpt::Market => self.create_market_order(
                sender,
                base,
                quote,
                otype,
                sell_amount,
                host,
            ),
        }
    }
}

impl Pallet {
    /// Places a market order for the sender: limit orders at the best price
    /// on the other side of the book, one price after the other, until the
    /// amount is spent or that side is empty. On a `Buy`, `sell_amount` is
    /// what the sender wants to receive of the quote token; on a `Sell`, what
    /// the sender gives of it. A market order that is refused before its
    /// first limit order is placed changes nothing; where it fails later,
    /// what has been written stays written.
    pub fn do_create_market_order(
        &mut self,
        sender: AccountId,
        base: H256,
        quote: H256,
        otype: OrderType,
        sell_amount: Balance,
        host: &Host,
    ) -> (r: Result<(), Error>)
        requires
            old(self).wf(),
        ensures
            final(self).wf(),
            match r {
                Ok(()) => old(self)@.create_market_order(
                    sender,
                    base,
                    quote,
                    otype,
                    sell_amount,
                    *host,
                ) == Ok::<EngineView, Error>(final(self)@),
                Err(e) => old(self)@.create_market_order(
                    sender,
                    base,
                    quote,
                    otype,
                    sell_amount,
                    *host,
                ) == Err::<EngineView, Error>(e),
            },
            r.is_err() && old(self)@.market_refused_at_once(
                sender,
                base,
                quote,
                otype,
                sell_amount,
                *host,
            ) ==> final(self)@ == old(self)@,
    {
        let tp0 = match self.ensure_trade_pair(base, quote) {
            Ok(h) => h,
            Err(e) => {
                return Err(e);
            },
        };
        let mut fuel: u128 = self.resting_of(&tp0, otype.not());
        let mut amount: Balance = sell_amount;
        let ghost mut first: bool = true;
        loop
            invariant_except_break
                self@.market_order(sender, base, quote, otype, amount, *host, fuel as nat) == old(
                    self,
                )@.create_market_order(sender, base, quote, otype, sell_amount, *host),
            invariant
                self.wf(),
                first ==> self@ == old(self)@ && amount == sell_amount,
                !first ==> !old(self)@.market_refused_at_once(
                    sender,
                    base,
                    quote,
                    otype,
                    sell_amount,
                    *host,
                ),
            ensures
                self.wf(),
                old(self)@.create_market_order(sender, base, quote, otype, sell_amount, *host)
                    == Ok::<EngineView, Error>(self@),
            decreases fuel,
        {
            let tp = match self.ensure_trade_pair(base, quote) {
                Ok(h) => h,
                Err(e) => {
                    return Err(e);
                },
            };
            let price: Price = match self.first_of(&tp, otype.not()) {
                None => {
                    break ;
                },
                Some((p, _)) => p,
            };
            if fuel == 0 {
                break ;
            }
            let sell: Balance = match otype {
                OrderType::Buy => match mul_div_u128(amount, price, self.config.price_factor) {
                    Some(x) => x,
                    None => {
                        return Err(Error::NumberCastError);
                    },
                },
                OrderType::Sell => amount,
            };
            match self.do_create_limit_order(sender, base, quote, otype, price, sell, host) {
                Err(e) => {
                    return Err(e);
                },
                Ok(()) => {},
            }
            proof {
                first = false;
            }
            let n = self.registry.owned_orders_index(&sender);
            if n == 0 {
                return Err(Error::OverflowError);
            }
            let hash: H256 = match self.registry.owned_orders(&sender, (n - 1) as u64) {
                Some(h) => h,
                None => {
                    return Err(Error::OverflowError);
                },
            };
            let mut o: Order = match self.registry.orders(&hash) {
                Some(o) => o,
                None => {
                    break ;
                },
            };
            if o.is_finished() {
                break ;
            }
            if o.sell_amount < o.remained_sell_amount || o.buy_amount < o.remained_buy_amount {
                return Err(Error::OrderMatchSubstractError);
            }
            let remained_buy_amount = o.remained_buy_amount;
            let remained_sell_amount = o.remained_sell_amount;
            o.sell_amount = o.sell_amount - remained_sell_amount;
            o.buy_amount = o.buy_amount - remained_buy_amount;
            o.remained_buy_amount = 0;
            o.remained_sell_amount = 0;
            o.status = OrderStatus::Filled;
            self.registry.put_order_at(hash, o);
            amount = match otype {
                OrderType::Buy => remained_buy_amount,
                OrderType::Sell => remained_sell_amount,
            };
            fuel = fuel - 1;
        }
        Ok(())
    }

    /// Places an order for the sender: a limit order at `price`, or a market
    /// order, for which `price` says nothing. A refused call changes nothing.
    pub fn create_order(
        &mut self,
        sender: AccountId,
        base: H256,
        quote: H256,
        oopt: OrderOpt,
        otype: OrderType,
        price: Price,
        sell_amount: Balance,
        host: &Host,
    ) -> (r: Result<(), Error>)
        requires
            old(self).wf(),
        ensures
            final(self).wf(),
            match r {
                Ok(()) => old(self)@.create_order(
                    sender,
                    base,
                    quote,
                    oopt,
                    otype,
                    price,
                    sell_amount,
                    *host,
                ) == Ok::<EngineView, Error>(final(self)@),
                Err(e) => old(self)@.create_order(
                    sender,
                    base,
                    quote,
                    oopt,
                    otype,
                    price,
                    sell_amount,
                    *host,
                ) == Err::<EngineView, Error>(e) && final(self)@ == old(self)@,
            },
    {
        let before = self.duplicate();
        let r = if oopt == OrderOpt::Limit {
            self.do_create_limit_order(sender, base, quote, otype, price, sell_amount, host)
        } else {
            self.do_create_market_order(sender, base, quote, otype, sell_amount, host)
        };
        if r.is_err() {
            *self = before;
        }
        r
    }

    /// Takes a trade into the market data of its pair, in the block the
    /// host is building.
    pub fn set_tp_market_data(&mut self, tp_hash: H256, price: Price, amount: Balance, host: &Host)
        -> (r: Result<(), Error>)
        requires
            old(self).wf(),
        ensures
            final(self).wf(),
            match r {
                Ok(()) => old(self)@.market.record(tp_hash, host.block_number, price, amount)
                    == Ok::<MarketView, Error>(final(self)@.market) && final(self)@ == (EngineView {
                    market: final(self)@.market,
                    ..old(self)@
                }),
                Err(e) => old(self)@.market.record(tp_hash, host.block_number, price, amount)
                    == Err::<MarketView, Error>(e) && final(self)@ == old(self)@,
            },
    {
        self.market.set_tp_market_data(tp_hash, host.block_number, price, amount)
    }

    /// Runs at the start of a block: the block that is now a day old leaves
    /// the one-day statistics of every pair. The answer is the weight of the
    /// work.
    pub fn on_initialize(&mut self, block_number: BlockNumber) -> (weight: u64)
        requires
            old(self).wf(),
        ensures
            final(self).wf(),
            final(self)@ == (EngineView {
                market: old(self)@.market.initialized(
                    block_number,
                    old(self)@.config.blocks_per_day,
                ),
                ..old(self)@
            }),
            weight == (if block_number <= old(self)@.config.blocks_per_day {
                1000u64
            } else {
                500_000u64
            }),
    {
        self.market.on_initialize(block_number, self.config.blocks_per_day)
    }

    /// Runs at the end of a block: the block joins the one-day statistics
    /// of every pair.
    pub fn on_finalize(&mut self, block_number: BlockNumber)
        requires
            old(self).wf(),
        ensures
            final(self).wf(),
            final(self)@ == (EngineView {
                market: old(self)@.market.finalized(block_number),
                ..old(self)@
            }),
    {
        self.market.on_finalize(block_number)
    }

    /// Issues a token in the ledger of the exchange.
    pub fn issue(&mut self, sender: AccountId, symbol: Vec<u8>, total_supply: Balance, random: H256)
        -> (r: Result<H256, crate::tokens::Error>)
        requires
            old(self).wf(),
        ensures
            final(self).wf(),
            final(self)@ == (EngineView { tokens: final(self)@.tokens, ..old(self)@ }),
            match r {
                Ok(h) => h == old(self)@.tokens.next_token(sender, random) && old(
                    self,
                )@.tokens.issue(sender, symbol@, total_supply, h) == Ok::<
                    LedgerView,
                    crate::tokens::Error,
                >(final(self)@.tokens),
                Err(e) => old(self)@.tokens.issue(
                    sender,
                    symbol@,
                    total_supply,
                    old(self)@.tokens.next_token(sender, random),
                ) == Err::<LedgerView, crate::tokens::Error>(e) && final(self)@ == old(self)@,
            },
    {
        self.tokens.do_issue(sender, symbol, total_supply, random)
    }

    /// Moves tokens between two accounts in the ledger of the exchange.
    pub fn transfer(
        &mut self,
        sender: AccountId,
        to: AccountId,
        token_hash: H256,
        amount: Balance,
        memo: Option<Vec<u8>>,
    ) -> (r: Result<(), crate::tokens::Error>)
        requires
            old(self).wf(),
        ensures
            final(self).wf(),
            final(self)@ == (EngineView { tokens: final(self)@.tokens, ..old(self)@ }),
            match r {
                Ok(()) => old(self)@.tokens.transfer(
                    sender,
                    to,
                    token_hash,
                    amount,
                    crate::tokens::memo_len(memo),
                ) == Ok::<LedgerView, crate::tokens::Error>(final(self)@.tokens),
                Err(e) => old(self)@.tokens.transfer(
                    sender,
                    to,
                    token_hash,
                    amount,
                    crate::tokens::memo_len(memo),
                ) == Err::<LedgerView, crate::tokens::Error>(e) && final(self)@ == old(self)@,
            },
    {
        self.tokens.do_transfer(sender, to, token_hash, amount, memo)
    }

    /// The constants the exchange was set up with.
    pub fn config(&self) -> (c: Config)
        ensures
            c == self@.config,
    {
        self.config
    }

    /// The number of identifiers derived so far.
    pub fn nonce(&self) -> (n: u128)
        ensures
            n == self@.nonce,
    {
        self.nonce
    }

    /// The token ledger.
    pub fn tokens(&self) -> (t: &crate::tokens::Pallet)
        requires
            self.wf(),
        ensures
            t.wf(),
            t@ == self@.tokens,
    {
        &self.tokens
    }

    /// The trade pairs and their market data.
    pub fn market(&self) -> (m: &Market)
        requires
            self.wf(),
        ensures
            m.wf(),
            m@ == self@.market,
    {
        &self.market
    }

    /// The orders and trades.
    pub fn registry(&self) -> (r: &Registry)
        requires
            self.wf(),
        ensures
            r.wf(),
            r@ == self@.registry,
    {
        &self.registry
    }

    /// The item of a pair's book under a key: a sentinel or a price level.
    pub fn linked_item(&self, tp_hash: &H256, price: Option<Price>) -> (item: LinkedItem)
        requires
            self.wf(),
        ensures
            item@ == self@.book_of(*tp_hash).item(price),
    {
        match self.books.get(tp_hash) {
            Some(b) => b.read(price),
            None => PriceList::new().read(price),
        }
    }

    /// The number of events announced so far.
    pub fn event_count(&self) -> (n: usize)
        ensures
            n == self@.events.len(),
    {
        self.events.len()
    }

    /// The `i`-th event announced.
    pub fn event(&self, i: usize) -> (e: Event)
        requires
            i < self@.events.len(),
        ensures
            e == self@.events[i as int],
    {
        self.events[i]
    }
}


impl Pallet {
    /// A copy of the exchange.
    pub fn duplicate(&self) -> (r: Self)
        requires
            self.wf(),
        ensures
            r.wf(),
            r@ == self@,
    {
        Pallet {
            config: self.config,
            nonce: self.nonce,
            tokens: self.tokens.duplicate(),
            market: self.market.duplicate(),
            registry: self.registry.duplicate(),
            books: self.books.duplicate(),
            events: copy_vec(&self.events),
        }
    }
}

} // verus!
