//! The registry of orders and trades: the orders and trades by identifier,
//! the indices that list them by account, by pair and by order, and the
//! bounded lists of each account's recently opened and closed orders.

use vstd::prelude::*;
use crate::index::{added, cache_added, cache_removed, list_of, Index};
use crate::table::Table;
use crate::types::{AccountId, Error, Order, Trade, H256};

verus! {

/// The registry.
#[derive(Debug)]
pub struct Registry {
    orders: Table<H256, Order>,
    owned_orders: Index<AccountId>,
    trade_pair_owned_orders: Index<H256>,
    trades: Table<H256, Trade>,
    order_owned_trades: Index<H256>,
    owned_trades: Index<AccountId>,
    owned_tp_trades: Index<(AccountId, H256)>,
    trade_pair_owned_trades: Index<H256>,
    owned_tp_opened_orders: Index<(AccountId, H256)>,
    owned_tp_closed_orders: Index<(AccountId, H256)>,
}

/// The mathematical value of the registry.
pub struct RegistryView {
    /// Every order ever placed, by identifier.
    pub orders: Map<H256, Order>,
    /// The orders of each account, in the order of their placing.
    pub owned_orders: Map<AccountId, Seq<H256>>,
    /// The orders of each pair, in the order of their placing.
    pub trade_pair_owned_orders: Map<H256, Seq<H256>>,
    /// Every trade ever made, by identifier.
    pub trades: Map<H256, Trade>,
    /// The trades of each order.
    pub order_owned_trades: Map<H256, Seq<H256>>,
    /// The trades of each account.
    pub owned_trades: Map<AccountId, Seq<H256>>,
    /// The trades of each account in each pair.
    pub owned_tp_trades: Map<(AccountId, H256), Seq<H256>>,
    /// The trades of each pair.
    pub trade_pair_owned_trades: Map<H256, Seq<H256>>,
    /// The orders each account opened last in each pair, newest first.
    pub owned_tp_opened_orders: Map<(AccountId, H256), Seq<H256>>,
    /// The orders of each account that closed last in each pair, newest first.
    pub owned_tp_closed_orders: Map<(AccountId, H256), Seq<H256>>,
}

impl View for Registry {
    type V = RegistryView;

    closed spec fn view(&self) -> RegistryView {
        RegistryView {
            orders: self.orders@,
            owned_orders: self.owned_orders@,
            trade_pair_owned_orders: self.trade_pair_owned_orders@,
            trades: self.trades@,
            order_owned_trades: self.order_owned_trades@,
            owned_trades: self.owned_trades@,
            owned_tp_trades: self.owned_tp_trades@,
            trade_pair_owned_trades: self.trade_pair_owned_trades@,
            owned_tp_opened_orders: self.owned_tp_opened_orders@,
            owned_tp_closed_orders: self.owned_tp_closed_orders@,
        }
    }
}

impl RegistryView {
    /// No order, no trade, no list.
    pub open spec fn empty() -> RegistryView {
        RegistryView {
            orders: Map::empty(),
            owned_orders: Map::empty(),
            trade_pair_owned_orders: Map::empty(),
            trades: Map::empty(),
            order_owned_trades: Map::empty(),
            owned_trades: Map::empty(),
            owned_tp_trades: Map::empty(),
            trade_pair_owned_trades: Map::empty(),
            owned_tp_opened_orders: Map::empty(),
            owned_tp_closed_orders: Map::empty(),
        }
    }

    /// The registry with an order stored under its identifier.
    pub open spec fn with_order(self, o: Order) -> RegistryView {
        RegistryView { orders: self.orders.insert(o.hash, o), ..self }
    }

    /// The registry after a new order has been listed: at the front of its
    /// owner's opened orders in the pair, and at the end of the orders of its
    /// owner and of the pair. Refused where one of the two lists is full.
    pub open spec fn list_order(self, owner: AccountId, tp: H256, hash: H256, cap: u8) -> Result<
        RegistryView,
        Error,
    > {
        if list_of(self.owned_orders, owner).len() >= u64::MAX || list_of(
            self.trade_pair_owned_orders,
            tp,
        ).len() >= u64::MAX {
            Err(Error::OverflowError)
        } else {
            Ok(
                RegistryView {
                    owned_tp_opened_orders: cache_added(
                        self.owned_tp_opened_orders,
                        (owner, tp),
                        hash,
                        cap,
                    ),
                    owned_orders: added(self.owned_orders, owner, hash),
                    trade_pair_owned_orders: added(self.trade_pair_owned_orders, tp, hash),
                    ..self
                },
            )
        }
    }

    /// The registry after an order has moved from its owner's opened orders
    /// to the closed ones.
    pub open spec fn close_order(self, owner: AccountId, tp: H256, hash: H256, cap: u8)
        -> RegistryView {
        RegistryView {
            owned_tp_opened_orders: cache_removed(self.owned_tp_opened_orders, (owner, tp), hash),
            owned_tp_closed_orders: cache_added(
                self.owned_tp_closed_orders,
                (owner, tp),
                hash,
                cap,
            ),
            ..self
        }
    }

    /// Whether one of the lists that a trade between the two orders joins
    /// is full. The trade is listed under the taker first, so a list that the
    /// maker shares with the taker must have room for two.
    pub open spec fn trade_lists_full(self, tp: H256, taker: Order, maker: Order) -> bool {
        let same_order: nat = if taker.hash == maker.hash {
            1
        } else {
            0
        };
        let same_owner: nat = if taker.owner == maker.owner {
            1
        } else {
            0
        };
        ||| list_of(self.order_owned_trades, taker.hash).len() >= u64::MAX
        ||| list_of(self.order_owned_trades, maker.hash).len() + same_order >= u64::MAX
        ||| list_of(self.owned_trades, taker.owner).len() >= u64::MAX
        ||| list_of(self.owned_trades, maker.owner).len() + same_owner >= u64::MAX
        ||| list_of(self.owned_tp_trades, (taker.owner, tp)).len() >= u64::MAX
        ||| list_of(self.owned_tp_trades, (maker.owner, tp)).len() + same_owner >= u64::MAX
        ||| list_of(self.trade_pair_owned_trades, tp).len() >= u64::MAX
    }

    /// The registry after a trade has been recorded: stored under its
    /// identifier and listed under both orders, both owners, both owners in
    /// the pair, and the pair; the taker is listed before the maker. Refused
    /// where the identifier is taken or one of the lists is full.
    pub open spec fn record_trade(self, tp: H256, t: Trade, taker: Order, maker: Order) -> Result<
        RegistryView,
        Error,
    > {
        if self.trades.contains_key(t.hash) {
            Err(Error::HashCollision)
        } else if self.trade_lists_full(tp, taker, maker) {
            Err(Error::OverflowError)
        } else {
            Ok(
                RegistryView {
                    trades: self.trades.insert(t.hash, t),
                    order_owned_trades: added(
                        added(self.order_owned_trades, taker.hash, t.hash),
                        maker.hash,
                        t.hash,
                    ),
                    owned_trades: added(
                        added(self.owned_trades, taker.owner, t.hash),
                        maker.owner,
                        t.hash,
                    ),
                    owned_tp_trades: added(
                        added(self.owned_tp_trades, (taker.owner, tp), t.hash),
                        (maker.owner, tp),
                        t.hash,
                    ),
                    trade_pair_owned_trades: added(self.trade_pair_owned_trades, tp, t.hash),
                    ..self
                },
            )
        }
    }
}

impl Registry {
    /// No table holds a key twice.
    pub closed spec fn wf(&self) -> bool {
        &&& self.orders.wf()
        &&& self.owned_orders.wf()
        &&& self.trade_pair_owned_orders.wf()
        &&& self.trades.wf()
        &&& self.order_owned_trades.wf()
        &&& self.owned_trades.wf()
        &&& self.owned_tp_trades.wf()
        &&& self.trade_pair_owned_trades.wf()
        &&& self.owned_tp_opened_orders.wf()
        &&& self.owned_tp_closed_orders.wf()
    }

    /// The empty registry.
    pub fn new() -> (r: Registry)
        ensures
            r.wf(),
            r@ == RegistryView::empty(),
    {
        Registry {
            orders: Table::new(),
            owned_orders: Index::new(),
            trade_pair_owned_orders: Index::new(),
            trades: Table::new(),
            order_owned_trades: Index::new(),
            owned_trades: Index::new(),
            owned_tp_trades: Index::new(),
            trade_pair_owned_trades: Index::new(),
            owned_tp_opened_orders: Index::new(),
            owned_tp_closed_orders: Index::new(),
        }
    }

    /// The table of all orders.
    pub fn order_table(&self) -> (t: &Table<H256, Order>)
        requires
            self.wf(),
        ensures
            t.wf(),
            t@ == self@.orders,
    {
        &self.orders
    }

    /// The order under an identifier.
    pub fn orders(&self, hash: &H256) -> (r: Option<Order>)
        requires
            self.wf(),
        ensures
            r == (if self@.orders.contains_key(*hash) {
                Some(self@.orders[*hash])
            } else {
                None
            }),
    {
        match self.orders.get(hash) {
            Some(o) => Some(*o),
            None => None,
        }
    }

    /// The trade under an identifier.
    pub fn trades(&self, hash: &H256) -> (r: Option<Trade>)
        requires
            self.wf(),
        ensures
            r == (if self@.trades.contains_key(*hash) {
                Some(self@.trades[*hash])
            } else {
                None
            }),
    {
        match self.trades.get(hash) {
            Some(t) => Some(*t),
            None => None,
        }
    }

    /// The `i`-th order of an account.
    pub fn owned_orders(&self, who: &AccountId, i: u64) -> (r: Option<H256>)
        requires
            self.wf(),
        ensures
            r == (if i < list_of(self@.owned_orders, *who).len() {
                Some(list_of(self@.owned_orders, *who)[i as int])
            } else {
                None
            }),
    {
        self.owned_orders.get(who, i)
    }

    /// The number of orders an account has placed.
    pub fn owned_orders_index(&self, who: &AccountId) -> (n: usize)
        requires
            self.wf(),
        ensures
            n == list_of(self@.owned_orders, *who).len(),
    {
        self.owned_orders.count(who)
    }

    /// The orders of a pair, in the order of their placing.
    pub fn trade_pair_owned_order(&self, tp: &H256) -> (l: Vec<H256>)
        requires
            self.wf(),
        ensures
            l@ == list_of(self@.trade_pair_owned_orders, *tp),
    {
        self.trade_pair_owned_orders.list(tp)
    }

    /// The trades of an order.
    pub fn order_owned_trades(&self, order: &H256) -> (l: Vec<H256>)
        requires
            self.wf(),
        ensures
            l@ == list_of(self@.order_owned_trades, *order),
    {
        self.order_owned_trades.list(order)
    }

    /// The trades of an account.
    pub fn owned_trades(&self, who: &AccountId) -> (l: Vec<H256>)
        requires
            self.wf(),
        ensures
            l@ == list_of(self@.owned_trades, *who),
    {
        self.owned_trades.list(who)
    }

    /// The trades of an account in a pair.
    pub fn owned_tp_trades(&self, who: &AccountId, tp: &H256) -> (l: Vec<H256>)
        requires
            self.wf(),
        ensures
            l@ == list_of(self@.owned_tp_trades, (*who, *tp)),
    {
        self.owned_tp_trades.list(&(*who, *tp))
    }

    /// The trades of a pair.
    pub fn trade_pair_owned_trades(&self, tp: &H256) -> (l: Vec<H256>)
        requires
            self.wf(),
        ensures
            l@ == list_of(self@.trade_pair_owned_trades, *tp),
    {
        self.trade_pair_owned_trades.list(tp)
    }

    /// The orders an account opened last in a pair, newest first.
    pub fn owned_tp_opened_orders(&self, who: &AccountId, tp: &H256) -> (l: Vec<H256>)
        requires
            self.wf(),
        ensures
            l@ == list_of(self@.owned_tp_opened_orders, (*who, *tp)),
    {
        self.owned_tp_opened_orders.list(&(*who, *tp))
    }

    /// The orders of an account that closed last in a pair, newest first.
    pub fn owned_tp_closed_orders(&self, who: &AccountId, tp: &H256) -> (l: Vec<H256>)
        requires
            self.wf(),
        ensures
            l@ == list_of(self@.owned_tp_closed_orders, (*who, *tp)),
    {
        self.owned_tp_closed_orders.list(&(*who, *tp))
    }

    /// Stores an order under its identifier, in place of what was there.
    pub fn put_order(&mut self, o: Order)
        requires
            old(self).wf(),
        ensures
            final(self).wf(),
            final(self)@ == old(self)@.with_order(o),
    {
        self.orders.insert(o.hash, o);
    }

    /// Stores an order under the given identifier, in place of what was there.
    pub fn put_order_at(&mut self, hash: H256, o: Order)
        requires
            old(self).wf(),
        ensures
            final(self).wf(),
            final(self)@ == (RegistryView {
                orders: old(self)@.orders.insert(hash, o),
                ..old(self)@
            }),
    {
        self.orders.insert(hash, o);
    }

    /// The number of orders placed in a pair.
    pub fn trade_pair_owned_order_index(&self, tp: &H256) -> (n: usize)
        requires
            self.wf(),
        ensures
            n == list_of(self@.trade_pair_owned_orders, *tp).len(),
    {
        self.trade_pair_owned_orders.count(tp)
    }

    /// Lists a new order under its owner and its pair. A refused call
    /// changes nothing.
    pub fn list_order(&mut self, owner: AccountId, tp: H256, hash: H256, cap: u8) -> (r: Result<
        (),
        Error,
    >)
        requires
            old(self).wf(),
        ensures
            final(self).wf(),
            match r {
                Ok(()) => old(self)@.list_order(owner, tp, hash, cap) == Ok::<RegistryView, Error>(
                    final(self)@,
                ),
                Err(e) => old(self)@.list_order(owner, tp, hash, cap) == Err::<
                    RegistryView,
                    Error,
                >(e) && final(self)@ == old(self)@,
            },
    {
        if self.owned_orders.count(&owner) as u64 >= u64::MAX || self.trade_pair_owned_orders.count(
            &tp,
        ) as u64 >= u64::MAX {
            return Err(Error::OverflowError);
        }
        self.owned_tp_opened_orders.add_order((owner, tp), hash, cap);
        let a = self.owned_orders.add(owner, hash);
        let b = self.trade_pair_owned_orders.add(tp, hash);
        Ok(())
    }

    /// Moves an order from its owner's opened orders to the closed ones.
    pub fn close_order(&mut self, owner: AccountId, tp: H256, hash: H256, cap: u8)
        requires
            old(self).wf(),
        ensures
            final(self).wf(),
            final(self)@ == old(self)@.close_order(owner, tp, hash, cap),
    {
        self.owned_tp_opened_orders.remove_order((owner, tp), hash);
        self.owned_tp_closed_orders.add_order((owner, tp), hash, cap);
    }

    fn lists_full(&self, tp: &H256, taker: &Order, maker: &Order) -> (b: bool)
        requires
            self.wf(),
        ensures
            b == self@.trade_lists_full(*tp, *taker, *maker),
    {
        let max: u64 = u64::MAX;
        let a1 = self.order_owned_trades.count(&taker.hash) as u64;
        let a2 = self.order_owned_trades.count(&maker.hash) as u64;
        let b1 = self.owned_trades.count(&taker.owner) as u64;
        let b2 = self.owned_trades.count(&maker.owner) as u64;
        let c1 = self.owned_tp_trades.count(&(taker.owner, *tp)) as u64;
        let c2 = self.owned_tp_trades.count(&(maker.owner, *tp)) as u64;
        let d = self.trade_pair_owned_trades.count(tp) as u64;
        let same_order: bool = taker.hash == maker.hash;
        let same_owner: bool = taker.owner == maker.owner;
        a1 >= max || (if same_order {
            a2 >= max - 1
        } else {
            a2 >= max
        }) || b1 >= max || (if same_owner {
            b2 >= max - 1
        } else {
            b2 >= max
        }) || c1 >= max || (if same_owner {
            c2 >= max - 1
        } else {
            c2 >= max
        }) || d >= max
    }

    /// Records a trade between a taker and a maker of a pair. A refused call
    /// changes nothing.
    pub fn record_trade(&mut self, tp: H256, t: Trade, taker: &Order, maker: &Order) -> (r: Result<
        (),
        Error,
    >)
        requires
            old(self).wf(),
        ensures
            final(self).wf(),
            match r {
                Ok(()) => old(self)@.record_trade(tp, t, *taker, *maker) == Ok::<
                    RegistryView,
                    Error,
                >(final(self)@),
                Err(e) => old(self)@.record_trade(tp, t, *taker, *maker) == Err::<
                    RegistryView,
                    Error,
                >(e) && final(self)@ == old(self)@,
            },
    {
        if self.trades.contains(&t.hash) {
            return Err(Error::HashCollision);
        }
        if self.lists_full(&tp, taker, maker) {
            return Err(Error::OverflowError);
        }
        self.trades.insert(t.hash, t);
        let r1 = self.order_owned_trades.add(taker.hash, t.hash);
        let r2 = self.order_owned_trades.add(maker.hash, t.hash);
        let r3 = self.owned_trades.add(taker.owner, t.hash);
        let r4 = self.owned_trades.add(maker.owner, t.hash);
        let r5 = self.owned_tp_trades.add((taker.owner, tp), t.hash);
        let r6 = self.owned_tp_trades.add((maker.owner, tp), t.hash);
        let r7 = self.trade_pair_owned_trades.add(tp, t.hash);
        Ok(())
    }
}


impl Registry {
    /// A copy of the registry.
    pub fn duplicate(&self) -> (r: Self)
        requires
            self.wf(),
        ensures
            r.wf(),
            r@ == self@,
    {
        Registry {
            orders: self.orders.duplicate(),
            owned_orders: self.owned_orders.duplicate(),
            trade_pair_owned_orders: self.trade_pair_owned_orders.duplicate(),
            trades: self.trades.duplicate(),
            order_owned_trades: self.order_owned_trades.duplicate(),
            owned_trades: self.owned_trades.duplicate(),
            owned_tp_trades: self.owned_tp_trades.duplicate(),
            trade_pair_owned_trades: self.trade_pair_owned_trades.duplicate(),
            owned_tp_opened_orders: self.owned_tp_opened_orders.duplicate(),
            owned_tp_closed_orders: self.owned_tp_closed_orders.duplicate(),
        }
    }
}

} // verus!
