//! No call of the exchange makes or loses tokens.
//!
//! The total of a token over a list of accounts is the sum of what these
//! accounts hold of it. Over a list that names every account of the ledger
//! once, every call of the exchange leaves the total of every token as it
//! was: fills move tokens between the two parties, reservations and
//! releases move them within one account.

use vstd::prelude::*;
use crate::engine::{exchanged, reserve_token, EngineView, Fill};
use crate::invariants::{
    lemma_fill_book, lemma_fill_keeps_tidy, lemma_same_resting_after_insert,
};
use crate::laws::{after_fill, lemma_fill_shape, lemma_limit_order_grows, lemma_match_grows};
use crate::tokens::LedgerView;
use crate::types::{AccountId, Balance, Host, Order, OrderStatus, OrderType, Price, H256};

verus! {

impl LedgerView {
    /// What the accounts of a list hold of a token in all.
    pub open spec fn total_of(self, token: H256, who: Seq<AccountId>) -> int
        decreases who.len(),
    {
        if who.len() == 0 {
            0
        } else {
            self.total_of(token, who.drop_last()) + self.account(who.last(), token).balance
        }
    }

    /// Whether a list names every account that the ledger has an entry for.
    pub open spec fn covered_by(self, who: Seq<AccountId>) -> bool {
        forall|a: AccountId, t: H256| #[trigger] self.accounts.contains_key((a, t)) ==> who.contains(a)
    }

    /// Whether the other ledger holds the same totals, over a list that
    /// names all its accounts too, and balances.
    pub open spec fn conserved_in(self, l2: LedgerView, who: Seq<AccountId>) -> bool {
        &&& l2.balanced()
        &&& l2.covered_by(who)
        &&& forall|t: H256| #[trigger] l2.total_of(t, who) == self.total_of(t, who)
    }
}

/// The total over a list changes by what the accounts of the list gain and
/// lose: where one account loses an amount that another gains and no other
/// balance of the token changes, the total falls by the amount if the list
/// names the loser and rises by it if the list names the gainer.
pub proof fn lemma_total_shift(
    l: LedgerView,
    l2: LedgerView,
    token: H256,
    who: Seq<AccountId>,
    from: AccountId,
    to: AccountId,
    amount: int,
)
    requires
        who.no_duplicates(),
        from != to,
        l2.account(from, token).balance == l.account(from, token).balance - amount,
        l2.account(to, token).balance == l.account(to, token).balance + amount,
        forall|a: AccountId|
            a != from && a != to ==> (#[trigger] l2.account(a, token)).balance == l.account(
                a,
                token,
            ).balance,
    ensures
        l2.total_of(token, who) == l.total_of(token, who) - (if who.contains(from) {
            amount
        } else {
            0
        }) + (if who.contains(to) {
            amount
        } else {
            0
        }),
    decreases who.len(),
{
    if who.len() > 0 {
        let rest = who.drop_last();
        let last = who.last();
        assert forall|i: int, j: int| 0 <= i < rest.len() && 0 <= j < rest.len() && i != j implies rest[i]
            != rest[j] by {
            assert(rest[i] == who[i] && rest[j] == who[j]);
        }
        lemma_total_shift(l, l2, token, rest, from, to, amount);
        assert(!rest.contains(last)) by {
            if rest.contains(last) {
                let i = choose|i: int| 0 <= i < rest.len() && rest[i] == last;
                assert(who[i] == who[who.len() - 1]);
            }
        }
        assert forall|x: AccountId| who.contains(x) <==> rest.contains(x) || x == last by {
            if who.contains(x) {
                let i = choose|i: int| 0 <= i < who.len() && who[i] == x;
                if i < rest.len() {
                    assert(rest[i] == x);
                }
            }
            if rest.contains(x) {
                let i = choose|i: int| 0 <= i < rest.len() && rest[i] == x;
                assert(who[i] == x);
            }
            if x == last {
                assert(who[who.len() - 1] == x);
            }
        }
        assert(who.contains(from) <==> rest.contains(from) || from == last);
        assert(who.contains(to) <==> rest.contains(to) || to == last);
        if last != from && last != to {
            assert(l2.account(last, token).balance == l.account(last, token).balance);
        }
    }
}

/// Ledgers in which every account holds as much of a token have the same
/// totals of it.
pub proof fn lemma_total_same(l: LedgerView, l2: LedgerView, token: H256, who: Seq<AccountId>)
    requires
        forall|a: AccountId|
            (#[trigger] l2.account(a, token)).balance == l.account(a, token).balance,
    ensures
        l2.total_of(token, who) == l.total_of(token, who),
    decreases who.len(),
{
    if who.len() > 0 {
        lemma_total_same(l, l2, token, who.drop_last());
        assert(l2.account(who.last(), token).balance == l.account(who.last(), token).balance);
    }
}

/// Reserving tokens makes and loses none.
pub proof fn lemma_freeze_total(
    l: LedgerView,
    owner: AccountId,
    token: H256,
    amount: Balance,
    who: Seq<AccountId>,
)
    requires
        l.balanced(),
        l.covered_by(who),
        l.freeze(owner, token, amount).is_ok(),
    ensures
        l.conserved_in(l.freeze(owner, token, amount).unwrap(), who),
{
    let l2 = l.freeze(owner, token, amount).unwrap();
    l.lemma_freeze_conserves(owner, token, amount);
    assert forall|t: H256| #[trigger] l2.total_of(t, who) == l.total_of(t, who) by {
        lemma_total_same(l, l2, t, who);
    }
    assert forall|a: AccountId, t: H256| #[trigger] l2.accounts.contains_key((a, t)) implies who.contains(
        a,
    ) by {
        if (a, t) != (owner, token) {
            assert(l.accounts.contains_key((a, t)));
        } else {
            assert(l.accounts.contains_key((owner, token)));
        }
    }
}

/// Releasing tokens makes and loses none.
pub proof fn lemma_unfreeze_total(
    l: LedgerView,
    owner: AccountId,
    token: H256,
    amount: Balance,
    who: Seq<AccountId>,
)
    requires
        l.balanced(),
        l.covered_by(who),
        l.unfreeze(owner, token, amount).is_ok(),
    ensures
        l.conserved_in(l.unfreeze(owner, token, amount).unwrap(), who),
        who.contains(owner),
{
    let l2 = l.unfreeze(owner, token, amount).unwrap();
    l.lemma_unfreeze_conserves(owner, token, amount);
    assert(l.accounts.contains_key((owner, token)));
    assert forall|t: H256| #[trigger] l2.total_of(t, who) == l.total_of(t, who) by {
        lemma_total_same(l, l2, t, who);
    }
    assert forall|a: AccountId, t: H256| #[trigger] l2.accounts.contains_key((a, t)) implies who.contains(
        a,
    ) by {
        if (a, t) != (owner, token) {
            assert(l.accounts.contains_key((a, t)));
        }
    }
}

/// A transfer to an account that the list names makes and loses no tokens.
pub proof fn lemma_transfer_total(
    l: LedgerView,
    from: AccountId,
    to: AccountId,
    token: H256,
    amount: Balance,
    memo: Option<nat>,
    who: Seq<AccountId>,
)
    requires
        l.balanced(),
        l.covered_by(who),
        who.no_duplicates(),
        who.contains(to),
        l.transfer(from, to, token, amount, memo).is_ok(),
    ensures
        l.conserved_in(l.transfer(from, to, token, amount, memo).unwrap(), who),
{
    let l2 = l.transfer(from, to, token, amount, memo).unwrap();
    l.lemma_transfer_conserves(from, to, token, amount, memo);
    assert(l.accounts.contains_key((from, token)));
    assert(who.contains(from));
    assert forall|t: H256| #[trigger] l2.total_of(t, who) == l.total_of(t, who) by {
        if t == token && from != to {
            assert forall|a: AccountId| a != from && a != to implies (#[trigger] l2.account(
                a,
                token,
            )).balance == l.account(a, token).balance by {
                assert(l2.account(a, token) == l.account(a, token));
            }
            lemma_total_shift(l, l2, token, who, from, to, amount as int);
        } else {
            assert forall|a: AccountId| (#[trigger] l2.account(a, t)).balance == l.account(
                a,
                t,
            ).balance by {
                if t != token {
                    assert(l2.account(a, t) == l.account(a, t));
                } else if a != from {
                    assert(l2.account(a, t) == l.account(a, t));
                }
            }
            lemma_total_same(l, l2, t, who);
        }
    }
    assert forall|a: AccountId, t: H256| #[trigger] l2.accounts.contains_key((a, t)) implies who.contains(
        a,
    ) by {
        if (a, t) != (from, token) && (a, t) != (to, token) {
            assert(l.accounts.contains_key((a, t)));
        }
    }
}

/// The two sides of a fill change hands without making or losing tokens,
/// also where taker and maker are one account.
pub proof fn lemma_exchange_total(
    l: LedgerView,
    taker: AccountId,
    maker: AccountId,
    p: Fill,
    who: Seq<AccountId>,
)
    requires
        l.balanced(),
        l.covered_by(who),
        who.no_duplicates(),
        exchanged(l, taker, maker, p).is_ok(),
    ensures
        l.conserved_in(exchanged(l, taker, maker, p).unwrap(), who),
        who.contains(taker),
        who.contains(maker),
{
    let l1 = l.unfreeze(taker, p.give, p.give_qty).unwrap();
    lemma_unfreeze_total(l, taker, p.give, p.give_qty, who);
    let l2 = l1.unfreeze(maker, p.have, p.have_qty).unwrap();
    lemma_unfreeze_total(l1, maker, p.have, p.have_qty, who);
    let l3 = l2.transfer(taker, maker, p.give, p.give_qty, None).unwrap();
    lemma_transfer_total(l2, taker, maker, p.give, p.give_qty, None, who);
    let l4 = l3.transfer(maker, taker, p.have, p.have_qty, None).unwrap();
    lemma_transfer_total(l3, maker, taker, p.have, p.have_qty, None, who);
    assert(exchanged(l, taker, maker, p).unwrap() == l4);
    assert forall|t: H256| #[trigger] l4.total_of(t, who) == l.total_of(t, who) by {
        assert(l1.total_of(t, who) == l.total_of(t, who));
        assert(l2.total_of(t, who) == l1.total_of(t, who));
        assert(l3.total_of(t, who) == l2.total_of(t, who));
    }
}

/// A fill makes and loses no tokens.
pub proof fn lemma_fill_total(
    s: EngineView,
    tp: H256,
    base: H256,
    quote: H256,
    taker: Order,
    host: Host,
    who: Seq<AccountId>,
)
    requires
        s.config.price_factor > 0,
        s.tokens.balanced(),
        s.tokens.covered_by(who),
        who.no_duplicates(),
        s.fill(tp, base, quote, taker, host).is_ok(),
    ensures
        s.tokens.conserved_in(s.fill(tp, base, quote, taker, host).unwrap().0.tokens, who),
{
    reveal(EngineView::fill);
    lemma_fill_shape(s, tp, base, quote, taker, host);
    let maker = s.maker_for(tp, taker);
    let p = s.plan_for(tp, base, quote, taker);
    let l = exchanged(s.tokens, taker.owner, maker.owner, p).unwrap();
    lemma_exchange_total(s.tokens, taker.owner, maker.owner, p, who);
    let t1 = crate::engine::reduced(crate::engine::touched(taker), p.give_qty, p.have_qty).unwrap();
    let m1 = crate::engine::reduced(crate::engine::touched(maker), p.have_qty, p.give_qty).unwrap();
    let sa = EngineView { tokens: l, ..s };
    let (sb, t2) = sa.finish(tp, t1, p.give).unwrap();
    if t1.remained_buy_amount == 0 && t1.remained_sell_amount != 0 {
        lemma_unfreeze_total(l, t1.owner, p.give, t1.remained_sell_amount, who);
    }
    let (sc, m2) = sb.finish(tp, m1, p.have).unwrap();
    if m1.remained_buy_amount == 0 && m1.remained_sell_amount != 0 {
        lemma_unfreeze_total(sb.tokens, m1.owner, p.have, m1.remained_sell_amount, who);
    }
    let s2 = s.fill(tp, base, quote, taker, host).unwrap().0;
    assert(s2.tokens == sc.tokens);
    assert forall|t: H256| #[trigger] s2.tokens.total_of(t, who) == s.tokens.total_of(t, who) by {
        assert(l.total_of(t, who) == s.tokens.total_of(t, who));
        assert(sb.tokens.total_of(t, who) == l.total_of(t, who));
        assert(sc.tokens.total_of(t, who) == sb.tokens.total_of(t, who));
    }
}

/// Matching makes and loses no tokens: over a list that names every account
/// of the ledger once, the total of every token is afterwards what it was,
/// and every balance is still the sum of its free and frozen parts.
pub proof fn lemma_match_total(
    s: EngineView,
    tp: H256,
    base: H256,
    quote: H256,
    taker: Order,
    host: Host,
    fuel: nat,
    who: Seq<AccountId>,
)
    requires
        s.config.price_factor > 0,
        s.tokens.balanced(),
        s.tokens.covered_by(who),
        who.no_duplicates(),
        s.match_all(tp, base, quote, taker, host, fuel).is_ok(),
    ensures
        s.tokens.conserved_in(
            s.match_all(tp, base, quote, taker, host, fuel).unwrap().0.tokens,
            who,
        ),
    decreases fuel,
{
    if taker.status != OrderStatus::Filled {
        match s.book_of(tp).first_order(taker.otype.flip()) {
            None => {},
            Some((price, _)) => {
                if crate::arith::matches_price(taker.price, taker.otype, price) && fuel != 0 {
                    lemma_fill_shape(s, tp, base, quote, taker, host);
                    lemma_fill_total(s, tp, base, quote, taker, host, who);
                    let (s1, t1) = s.fill(tp, base, quote, taker, host).unwrap();
                    lemma_match_total(s1, tp, base, quote, t1, host, (fuel - 1) as nat, who);
                    let s2 = s1.match_all(tp, base, quote, t1, host, (fuel - 1) as nat).unwrap().0;
                    assert forall|t: H256| #[trigger] s2.tokens.total_of(t, who) == s.tokens.total_of(
                        t,
                        who,
                    ) by {
                        assert(s1.tokens.total_of(t, who) == s.tokens.total_of(t, who));
                    }
                }
            },
        }
    }
}

/// A limit order makes and loses no tokens.
pub proof fn lemma_limit_order_total(
    s: EngineView,
    sender: AccountId,
    base: H256,
    quote: H256,
    otype: OrderType,
    price: Price,
    sell_amount: Balance,
    host: Host,
    who: Seq<AccountId>,
)
    requires
        s.config.price_factor > 0,
        s.tokens.balanced(),
        s.tokens.covered_by(who),
        who.no_duplicates(),
        s.create_limit_order(sender, base, quote, otype, price, sell_amount, host).is_ok(),
    ensures
        s.tokens.conserved_in(
            s.create_limit_order(sender, base, quote, otype, price, sell_amount, host).unwrap().tokens,
            who,
        ),
{
    let (s1, o) = s.place(sender, base, quote, otype, price, sell_amount, host).unwrap();
    let tp = s.market.pair_of[(base, quote)];
    lemma_freeze_total(s.tokens, sender, reserve_token(otype, base, quote), sell_amount, who);
    let b0 = s1.market.pairs[tp].base;
    let q0 = s1.market.pairs[tp].quote;
    let fuel = s1.book_of(tp).resting(otype.flip());
    lemma_match_total(s1, tp, b0, q0, o, host, fuel, who);
    let (sm, om) = s1.match_all(tp, b0, q0, o, host, fuel).unwrap();
    let s2 = sm.settled(tp, om).unwrap();
    assert(s2.tokens == sm.tokens);
    assert forall|t: H256| #[trigger] s2.tokens.total_of(t, who) == s.tokens.total_of(t, who) by {
        assert(s1.tokens.total_of(t, who) == s.tokens.total_of(t, who));
    }
}

/// A cancellation makes and loses no tokens.
pub proof fn lemma_cancel_total(s: EngineView, sender: AccountId, order_hash: H256, who: Seq<AccountId>)
    requires
        s.tokens.balanced(),
        s.tokens.covered_by(who),
        s.cancel(sender, order_hash).is_ok(),
    ensures
        s.tokens.conserved_in(s.cancel(sender, order_hash).unwrap().tokens, who),
{
    let o = s.registry.orders[order_hash];
    lemma_unfreeze_total(
        s.tokens,
        sender,
        reserve_token(o.otype, o.base, o.quote),
        o.remained_sell_amount,
        who,
    );
}

/// A market order makes and loses no tokens.
pub proof fn lemma_market_order_total(
    s: EngineView,
    sender: AccountId,
    base: H256,
    quote: H256,
    otype: OrderType,
    amount: Balance,
    host: Host,
    fuel: nat,
    who: Seq<AccountId>,
)
    requires
        s.config.price_factor > 0,
        s.tokens.balanced(),
        s.tokens.covered_by(who),
        who.no_duplicates(),
        s.market_order(sender, base, quote, otype, amount, host, fuel).is_ok(),
    ensures
        s.tokens.conserved_in(
            s.market_order(sender, base, quote, otype, amount, host, fuel).unwrap().tokens,
            who,
        ),
    decreases fuel,
{
    match s.ensure_pair(base, quote) {
        Err(_) => {},
        Ok(tp) => match s.book_of(tp).first_order(otype.flip()) {
            None => {},
            Some((price, _)) => {
                if fuel != 0 {
                    let sell = crate::engine::market_amount(
                        otype,
                        amount,
                        price,
                        s.config.price_factor,
                    ).unwrap();
                    lemma_limit_order_grows(s, sender, base, quote, otype, price, sell, host);
                    lemma_limit_order_total(s, sender, base, quote, otype, price, sell, host, who);
                    let s1 = s.create_limit_order(sender, base, quote, otype, price, sell, host).unwrap();
                    let l = crate::index::list_of(s1.registry.owned_orders, sender);
                    if l.len() != 0 && s1.registry.orders.contains_key(l.last())
                        && !s1.registry.orders[l.last()].finished() {
                        let o = s1.registry.orders[l.last()];
                        let c = crate::engine::swept(o).unwrap();
                        let s2 = EngineView {
                            registry: crate::registry::RegistryView {
                                orders: s1.registry.orders.insert(l.last(), c),
                                ..s1.registry
                            },
                            ..s1
                        };
                        lemma_market_order_total(
                            s2,
                            sender,
                            base,
                            quote,
                            otype,
                            match otype {
                                OrderType::Buy => o.remained_buy_amount,
                                OrderType::Sell => o.remained_sell_amount,
                            },
                            host,
                            (fuel - 1) as nat,
                            who,
                        );
                        let s3 = s2.market_order(
                            sender,
                            base,
                            quote,
                            otype,
                            match otype {
                                OrderType::Buy => o.remained_buy_amount,
                                OrderType::Sell => o.remained_sell_amount,
                            },
                            host,
                            (fuel - 1) as nat,
                        ).unwrap();
                        assert forall|t: H256| #[trigger] s3.tokens.total_of(t, who) == s.tokens.total_of(
                            t,
                            who,
                        ) by {
                            assert(s1.tokens.total_of(t, who) == s.tokens.total_of(t, who));
                        }
                    }
                }
            },
        },
    }
}


impl EngineView {
    /// Whether none of the orders resting on one side of a book is the
    /// account's.
    pub open spec fn owns_none(self, tp: H256, t: OrderType, who: AccountId) -> bool {
        forall|i: int, j: int|
            0 <= i < self.book_of(tp).side(t).len() && 0 <= j < self.book_of(tp).side(
                t,
            )[i].orders.len() ==> self.registry.orders[#[trigger] self.book_of(tp).side(
                t,
            )[i].orders[j]].owner != who
    }

    /// What an account has frozen of a token.
    pub open spec fn frozen(self, who: AccountId, token: H256) -> int {
        self.tokens.account(who, token).frozen as int
    }
}

/// A fill against another account's order takes from the taker's
/// reservation exactly what it takes from what the taker still gives: the
/// difference between the two stays as it was.
pub proof fn lemma_fill_reserve(s: EngineView, tp: H256, base: H256, quote: H256, taker: Order, host: Host)
    requires
        s.config.price_factor > 0,
        s.tidy(),
        s.tokens.balanced(),
        s.book_of(tp).first_order(taker.otype.flip()).is_some(),
        s.fill(tp, base, quote, taker, host).is_ok(),
        s.rests_nowhere(taker.hash),
        s.owns_none(tp, taker.otype.flip(), taker.owner),
    ensures
        ({
            let (s2, t2) = s.fill(tp, base, quote, taker, host).unwrap();
            let token = reserve_token(taker.otype, base, quote);
            &&& s2.frozen(taker.owner, token) - t2.remained_sell_amount == s.frozen(
                taker.owner,
                token,
            ) - taker.remained_sell_amount
            &&& s2.owns_none(tp, taker.otype.flip(), taker.owner)
            &&& t2.owner == taker.owner
        }),
{
    reveal(EngineView::fill);
    lemma_fill_shape(s, tp, base, quote, taker, host);
    lemma_fill_book(s, tp, base, quote, taker, host);
    let (s2, t2) = s.fill(tp, base, quote, taker, host).unwrap();
    let side = taker.otype.flip();
    let l0 = s.book_of(tp).side(side);
    let maker = s.maker_for(tp, taker);
    let p = s.plan_for(tp, base, quote, taker);
    let token = reserve_token(taker.otype, base, quote);
    assert(p.give == token);
    assert(maker == s.registry.orders[l0[0].orders[0]]);
    assert(maker.owner != taker.owner);
    let me = taker.owner;
    // the ledger, step by step
    let a0 = s.tokens;
    let a1 = a0.unfreeze(me, p.give, p.give_qty).unwrap();
    a0.lemma_unfreeze_conserves(me, p.give, p.give_qty);
    let a2 = a1.unfreeze(maker.owner, p.have, p.have_qty).unwrap();
    a1.lemma_unfreeze_conserves(maker.owner, p.have, p.have_qty);
    assert(a2.account(me, token) == a1.account(me, token));
    let a3 = a2.transfer(me, maker.owner, p.give, p.give_qty, None).unwrap();
    a2.lemma_transfer_conserves(me, maker.owner, p.give, p.give_qty, None);
    let a4 = a3.transfer(maker.owner, me, p.have, p.have_qty, None).unwrap();
    a3.lemma_transfer_conserves(maker.owner, me, p.have, p.have_qty, None);
    assert(a4 == exchanged(a0, me, maker.owner, p).unwrap());
    assert(a4.account(me, token).frozen == a0.account(me, token).frozen - p.give_qty);
    let t1 = crate::engine::reduced(crate::engine::touched(taker), p.give_qty, p.have_qty).unwrap();
    let m1 = crate::engine::reduced(crate::engine::touched(maker), p.have_qty, p.give_qty).unwrap();
    let sa = EngineView { tokens: a4, ..s };
    let (sb, t2b) = sa.finish(tp, t1, p.give).unwrap();
    if t1.remained_buy_amount == 0 && t1.remained_sell_amount != 0 {
        a4.lemma_unfreeze_conserves(me, p.give, t1.remained_sell_amount);
    }
    assert(sb.tokens.account(me, token).frozen - t2b.remained_sell_amount == a0.account(
        me,
        token,
    ).frozen - taker.remained_sell_amount);
    let (sc, m2) = sb.finish(tp, m1, p.have).unwrap();
    if m1.remained_buy_amount == 0 && m1.remained_sell_amount != 0 {
        sb.tokens.lemma_unfreeze_conserves(m1.owner, p.have, m1.remained_sell_amount);
        assert(sc.tokens.account(me, token) == sb.tokens.account(me, token));
    }
    assert(s2.tokens == sc.tokens);
    assert(t2 == t2b);
    // the makers' side afterwards
    let l2 = s2.book_of(tp).side(side);
    let ll = l0.update(0, l0[0].lowered(p.have_qty, p.give_qty));
    let mm = after_fill(maker, p.have_qty, p.give_qty);
    assert(mm.owner == maker.owner);
    assert forall|i: int, j: int| 0 <= i < l2.len() && 0 <= j < l2[i].orders.len() implies s2.registry.orders[
    #[trigger] l2[i].orders[j]].owner != me by {
        if mm.remained_buy_amount == 0 {
            if l0[0].orders.len() == 1 {
                assert(l2[i] == ll[i + 1]);
                assert(l2[i].orders[j] == l0[i + 1].orders[j]);
                assert(s2.registry.orders[l0[i + 1].orders[j]] == s.registry.orders[l0[i
                    + 1].orders[j]]);
            } else if i == 0 {
                assert(l2[0].orders[j] == l0[0].orders[j + 1]);
                assert(s2.registry.orders[l0[0].orders[j + 1]] == s.registry.orders[l0[0].orders[j
                    + 1]]);
            } else {
                assert(l2[i].orders[j] == l0[i].orders[j]);
                assert(s2.registry.orders[l0[i].orders[j]] == s.registry.orders[l0[i].orders[j]]);
            }
        } else {
            assert(l2[i].orders[j] == l0[i].orders[j]);
            if (i, j) != (0int, 0int) {
                assert(s2.registry.orders[l0[i].orders[j]] == s.registry.orders[l0[i].orders[j]]);
            }
        }
    }
}

/// Matching against other accounts' orders keeps the difference between
/// what the taker's owner has frozen of the token the taker gives and what
/// the taker still gives.
pub proof fn lemma_match_reserve(
    s: EngineView,
    tp: H256,
    base: H256,
    quote: H256,
    taker: Order,
    host: Host,
    fuel: nat,
)
    requires
        s.config.price_factor > 0,
        s.tidy(),
        s.tokens.balanced(),
        s.rests_nowhere(taker.hash),
        taker.status != OrderStatus::Canceled,
        s.owns_none(tp, taker.otype.flip(), taker.owner),
        s.match_all(tp, base, quote, taker, host, fuel).is_ok(),
    ensures
        ({
            let (s2, t2) = s.match_all(tp, base, quote, taker, host, fuel).unwrap();
            let token = reserve_token(taker.otype, base, quote);
            s2.frozen(taker.owner, token) - t2.remained_sell_amount == s.frozen(
                taker.owner,
                token,
            ) - taker.remained_sell_amount
        }),
    decreases fuel,
{
    if taker.status != OrderStatus::Filled {
        match s.book_of(tp).first_order(taker.otype.flip()) {
            None => {},
            Some((price, _)) => {
                if crate::arith::matches_price(taker.price, taker.otype, price) && fuel != 0 {
                    lemma_fill_shape(s, tp, base, quote, taker, host);
                    lemma_fill_keeps_tidy(s, tp, base, quote, taker, host);
                    lemma_fill_reserve(s, tp, base, quote, taker, host);
                    let (s1, t1) = s.fill(tp, base, quote, taker, host).unwrap();
                    assert(t1.otype == taker.otype) by {
                        crate::progress::lemma_fill_progress_kind(s, tp, base, quote, taker, host);
                    }
                    lemma_match_reserve(s1, tp, base, quote, t1, host, (fuel - 1) as nat);
                }
            },
        }
    }
}

/// What a limit order leaves frozen. In a tidy exchange, where none of the
/// orders resting on the other side of the book is the sender's, the order
/// leaves frozen for the sender, of the token it gives, exactly what it
/// still gives after matching: that much more is frozen than before.
pub proof fn lemma_limit_order_reserve(
    s: EngineView,
    sender: AccountId,
    base: H256,
    quote: H256,
    otype: OrderType,
    price: Price,
    sell_amount: Balance,
    host: Host,
)
    requires
        s.config.price_factor > 0,
        s.tidy(),
        s.tokens.balanced(),
        s.market.registered(),
        s.create_limit_order(sender, base, quote, otype, price, sell_amount, host).is_ok(),
        s.owns_none(s.market.pair_of[(base, quote)], otype.flip(), sender),
    ensures
        ({
            let s2 = s.create_limit_order(sender, base, quote, otype, price, sell_amount, host).unwrap();
            let (s1, o) = s.place(sender, base, quote, otype, price, sell_amount, host).unwrap();
            let token = reserve_token(otype, base, quote);
            &&& s2.registry.orders.contains_key(o.hash)
            &&& s2.frozen(sender, token) == s.frozen(sender, token)
                + s2.registry.orders[o.hash].remained_sell_amount
            &&& s2.tokens.balanced()
        }),
{
    let (s1, o) = s.place(sender, base, quote, otype, price, sell_amount, host).unwrap();
    let tp = s.market.pair_of[(base, quote)];
    let token = reserve_token(otype, base, quote);
    s.tokens.lemma_freeze_conserves(sender, token, sell_amount);
    assert(!s.registry.orders.contains_key(o.hash));
    assert(s1.registry.orders == s.registry.orders.insert(o.hash, o));
    assert(s1.books == s.books);
    lemma_same_resting_after_insert(s, s1, o);
    assert(s1.owns_none(tp, otype.flip(), sender)) by {
        let l = s.book_of(tp).side(otype.flip());
        assert(s1.book_of(tp) == s.book_of(tp));
        assert(s.side_tidy(tp, otype.flip()));
        assert forall|i: int, j: int| 0 <= i < l.len() && 0 <= j < l[i].orders.len() implies s1.registry.orders[
        #[trigger] l[i].orders[j]].owner != sender by {
            assert(s.rests_well(tp, l[i].price, l[i].orders[j]));
        }
    }
    assert(s1.market == s.market);
    let b0 = s1.market.pairs[tp].base;
    let q0 = s1.market.pairs[tp].quote;
    assert(b0 == base && q0 == quote);
    let fuel = s1.book_of(tp).resting(otype.flip());
    lemma_match_reserve(s1, tp, b0, q0, o, host, fuel);
    crate::invariants::lemma_match_keeps_tidy(s1, tp, b0, q0, o, host, fuel);
    lemma_match_grows(s1, tp, b0, q0, o, host, fuel);
    let (sm, om) = s1.match_all(tp, b0, q0, o, host, fuel).unwrap();
    let s2 = sm.settled(tp, om).unwrap();
    assert(s2.tokens == sm.tokens);
    assert(s2.registry.orders == sm.registry.orders);
}

} // verus!
