//! The price book of one trade pair.
//!
//! A book is a chain of price levels between three fixed sentinels:
//!
//! ```text
//! BOTTOM (price 0) .. bids, ascending .. HEAD (no price) .. asks, ascending .. TOP (highest price)
//! ```
//!
//! Each level holds the orders resting at its price, oldest first, and the
//! sums of what they still give and receive. The level next to HEAD on either
//! side is the best of that side. The chain is kept as two ladders of levels,
//! best first; the links of an item are read off its neighbours.

use vstd::prelude::*;
use crate::types::{Balance, Error, Order, OrderType, Price, H256, MIN_PRICE, TOP_PRICE};
use crate::table::{copy_vec, Duplicate, Table};

verus! {

/// One item of the chain, as a reader sees it: a sentinel or a price level,
/// with the keys of its two neighbours.
#[derive(Debug)]
pub struct LinkedItem {
    pub prev: Option<Price>,
    pub next: Option<Price>,
    pub price: Option<Price>,
    pub buy_amount: Balance,
    pub sell_amount: Balance,
    pub orders: Vec<H256>,
}

/// The name under which the newer parts of the exchange know a `LinkedItem`.
pub type PriceItem = LinkedItem;

/// The mathematical value of a `LinkedItem`.
pub struct LinkedItemView {
    pub prev: Option<Price>,
    pub next: Option<Price>,
    pub price: Option<Price>,
    pub buy_amount: Balance,
    pub sell_amount: Balance,
    pub orders: Seq<H256>,
}

impl View for LinkedItem {
    type V = LinkedItemView;

    open spec fn view(&self) -> LinkedItemView {
        LinkedItemView {
            prev: self.prev,
            next: self.next,
            price: self.price,
            buy_amount: self.buy_amount,
            sell_amount: self.sell_amount,
            orders: self.orders@,
        }
    }
}

/// A price level: the orders resting at one price.
#[derive(Debug)]
pub struct Level {
    price: Price,
    buy_amount: Balance,
    sell_amount: Balance,
    orders: Vec<H256>,
}

/// The mathematical value of a level.
pub struct LevelView {
    pub price: Price,
    pub buy_amount: Balance,
    pub sell_amount: Balance,
    pub orders: Seq<H256>,
}

impl View for Level {
    type V = LevelView;

    closed spec fn view(&self) -> LevelView {
        LevelView {
            price: self.price,
            buy_amount: self.buy_amount,
            sell_amount: self.sell_amount,
            orders: self.orders@,
        }
    }
}

/// The views of a run of levels.
pub closed spec fn levels_view(v: Seq<Level>) -> Seq<LevelView> {
    Seq::new(v.len(), |i: int| v[i]@)
}

/// Whether price `a` comes before price `b` on a side, best first: bids
/// descend from HEAD, asks ascend from it.
pub open spec fn better(a: Price, b: Price, side: OrderType) -> bool {
    match side {
        OrderType::Buy => a > b,
        OrderType::Sell => a < b,
    }
}

/// A ladder is well formed when its prices lie strictly between the
/// sentinels, every level holds an order, and the prices run strictly from
/// best to worst.
pub open spec fn ladder_wf(l: Seq<LevelView>, side: OrderType) -> bool {
    &&& forall|i: int|
        0 <= i < l.len() ==> MIN_PRICE < (#[trigger] l[i]).price < TOP_PRICE && l[i].orders.len()
            > 0
    &&& forall|i: int, j: int|
        0 <= i < j < l.len() ==> better((#[trigger] l[i]).price, (#[trigger] l[j]).price, side)
}

/// Whether a ladder has a level at the price.
pub open spec fn has_price(l: Seq<LevelView>, p: Price) -> bool {
    exists|i: int| 0 <= i < l.len() && (#[trigger] l[i]).price == p
}

/// The place of the level at price `p` in a ladder that has one.
pub open spec fn index_of(l: Seq<LevelView>, p: Price) -> int {
    choose|i: int| 0 <= i < l.len() && (#[trigger] l[i]).price == p
}

/// The place at which a new level at price `p` goes: behind every level with
/// a better price.
pub open spec fn rank(l: Seq<LevelView>, p: Price, side: OrderType) -> int {
    choose|i: int| is_rank(l, p, side, i)
}

/// Whether `i` is the place behind every level with a better price than `p`.
pub open spec fn is_rank(l: Seq<LevelView>, p: Price, side: OrderType, i: int) -> bool {
    &&& 0 <= i <= l.len()
    &&& forall|j: int| 0 <= j < i ==> better((#[trigger] l[j]).price, p, side)
    &&& i == l.len() || !better(l[i].price, p, side)
}

/// The mathematical value of a book: its two ladders, best first.
pub struct BookView {
    pub bids: Seq<LevelView>,
    pub asks: Seq<LevelView>,
}

impl BookView {
    /// The ladder of a side.
    pub open spec fn side(self, t: OrderType) -> Seq<LevelView> {
        match t {
            OrderType::Buy => self.bids,
            OrderType::Sell => self.asks,
        }
    }

    /// The book with the ladder of one side replaced.
    pub open spec fn with_side(self, t: OrderType, l: Seq<LevelView>) -> BookView {
        match t {
            OrderType::Buy => BookView { bids: l, asks: self.asks },
            OrderType::Sell => BookView { bids: self.bids, asks: l },
        }
    }

    /// Both ladders are well formed and no price has a level on both sides.
    pub open spec fn wf(self) -> bool {
        &&& ladder_wf(self.bids, OrderType::Buy)
        &&& ladder_wf(self.asks, OrderType::Sell)
        &&& forall|i: int, j: int|
            0 <= i < self.bids.len() && 0 <= j < self.asks.len() ==> (#[trigger] self.bids[i]).price
                != (#[trigger] self.asks[j]).price
    }

    /// The side on which the price has a level, if it has one.
    pub open spec fn side_of(self, p: Price) -> Option<OrderType> {
        if has_price(self.bids, p) {
            Some(OrderType::Buy)
        } else if has_price(self.asks, p) {
            Some(OrderType::Sell)
        } else {
            None
        }
    }

    /// The key of the best level of a side, or of the sentinel behind it.
    pub open spec fn best(self, t: OrderType) -> Option<Price> {
        if self.side(t).len() > 0 {
            Some(self.side(t)[0].price)
        } else {
            match t {
                OrderType::Buy => Some(MIN_PRICE),
                OrderType::Sell => Some(TOP_PRICE),
            }
        }
    }

    /// The HEAD sentinel.
    pub open spec fn head(self) -> LinkedItemView {
        LinkedItemView {
            prev: self.best(OrderType::Buy),
            next: self.best(OrderType::Sell),
            price: None,
            buy_amount: 0,
            sell_amount: 0,
            orders: Seq::empty(),
        }
    }

    /// The BOTTOM sentinel.
    pub open spec fn bottom(self) -> LinkedItemView {
        LinkedItemView {
            prev: Some(TOP_PRICE),
            next: if self.bids.len() > 0 {
                Some(self.bids.last().price)
            } else {
                None
            },
            price: Some(MIN_PRICE),
            buy_amount: 0,
            sell_amount: 0,
            orders: Seq::empty(),
        }
    }

    /// The TOP sentinel.
    pub open spec fn top(self) -> LinkedItemView {
        LinkedItemView {
            prev: if self.asks.len() > 0 {
                Some(self.asks.last().price)
            } else {
                None
            },
            next: Some(MIN_PRICE),
            price: Some(TOP_PRICE),
            buy_amount: 0,
            sell_amount: 0,
            orders: Seq::empty(),
        }
    }

    /// The item of the `i`-th level of a side. Towards HEAD lies the level
    /// before it in the ladder, away from HEAD the one behind it.
    pub open spec fn level_item(self, t: OrderType, i: int) -> LinkedItemView {
        let l = self.side(t);
        let inner: Option<Price> = if i == 0 {
            None
        } else {
            Some(l[i - 1].price)
        };
        let outer: Option<Price> = if i + 1 < l.len() {
            Some(l[i + 1].price)
        } else {
            match t {
                OrderType::Buy => Some(MIN_PRICE),
                OrderType::Sell => Some(TOP_PRICE),
            }
        };
        LinkedItemView {
            prev: match t {
                OrderType::Buy => outer,
                OrderType::Sell => inner,
            },
            next: match t {
                OrderType::Buy => inner,
                OrderType::Sell => outer,
            },
            price: Some(l[i].price),
            buy_amount: l[i].buy_amount,
            sell_amount: l[i].sell_amount,
            orders: l[i].orders,
        }
    }

    /// The item under a key: a sentinel, a level, or HEAD for a price that
    /// has no level.
    pub open spec fn item(self, key: Option<Price>) -> LinkedItemView {
        match key {
            None => self.head(),
            Some(p) => if p == MIN_PRICE {
                self.bottom()
            } else if p == TOP_PRICE {
                self.top()
            } else {
                match self.side_of(p) {
                    Some(t) => self.level_item(t, index_of(self.side(t), p)),
                    None => self.head(),
                }
            },
        }
    }
}

/// `a - b`, or zero where `b` exceeds `a`.
pub open spec fn sat_sub(a: Balance, b: Balance) -> Balance {
    if a >= b {
        (a - b) as u128
    } else {
        0
    }
}

/// The test that keeps every identifier but `hash`.
pub open spec fn other_than(hash: H256) -> spec_fn(H256) -> bool {
    |h: H256| h != hash
}

/// Whether the order under `h` is known and finished.
pub open spec fn is_done(orders: Map<H256, Order>, h: H256) -> bool {
    orders.contains_key(h) && orders[h].finished()
}

/// A queue without the finished orders at its front.
pub open spec fn drained(q: Seq<H256>, orders: Map<H256, Order>) -> Seq<H256>
    decreases q.len(),
{
    if q.len() > 0 && is_done(orders, q[0]) {
        drained(q.skip(1), orders)
    } else {
        q
    }
}

/// A ladder without the finished orders at the front of its best levels:
/// levels are emptied and dropped from the best on, up to the first order
/// that is not finished.
pub open spec fn ladder_drained(l: Seq<LevelView>, orders: Map<H256, Order>) -> Seq<LevelView>
    decreases l.len(),
{
    if l.len() == 0 {
        l
    } else {
        let rest = drained(l[0].orders, orders);
        if rest.len() == 0 {
            ladder_drained(l.skip(1), orders)
        } else {
            l.update(0, LevelView { orders: rest, ..l[0] })
        }
    }
}

impl LevelView {
    /// The level with one more order at the back of its queue.
    pub open spec fn pushed(self, hash: H256, sell: Balance, buy: Balance) -> LevelView {
        LevelView {
            price: self.price,
            buy_amount: (self.buy_amount + buy) as u128,
            sell_amount: (self.sell_amount + sell) as u128,
            orders: self.orders.push(hash),
        }
    }

    /// The level with its sums lowered, never below zero.
    pub open spec fn lowered(self, sell: Balance, buy: Balance) -> LevelView {
        LevelView {
            price: self.price,
            buy_amount: sat_sub(self.buy_amount, buy),
            sell_amount: sat_sub(self.sell_amount, sell),
            orders: self.orders,
        }
    }

    /// The level with another queue.
    pub open spec fn with_orders(self, q: Seq<H256>) -> LevelView {
        LevelView {
            price: self.price,
            buy_amount: self.buy_amount,
            sell_amount: self.sell_amount,
            orders: q,
        }
    }
}

impl BookView {
    /// Whether adding the amounts to the level at `price` would pass the
    /// largest amount.
    pub open spec fn append_overflows(self, price: Price, sell: Balance, buy: Balance) -> bool {
        match self.side_of(price) {
            Some(t) => {
                let l = self.side(t)[index_of(self.side(t), price)];
                l.buy_amount + buy > u128::MAX || l.sell_amount + sell > u128::MAX
            },
            None => false,
        }
    }

    /// The book after an order has come to rest at `price`: at the back of
    /// the level there, on whichever side it is; else in a new level of its
    /// own on the side `side`, behind every better price.
    pub open spec fn append(
        self,
        price: Price,
        hash: H256,
        sell: Balance,
        buy: Balance,
        side: OrderType,
    ) -> BookView {
        match self.side_of(price) {
            Some(t) => {
                let l = self.side(t);
                let i = index_of(l, price);
                self.with_side(t, l.update(i, l[i].pushed(hash, sell, buy)))
            },
            None => {
                let l = self.side(side);
                self.with_side(
                    side,
                    l.insert(
                        rank(l, price, side),
                        LevelView {
                            price,
                            buy_amount: buy,
                            sell_amount: sell,
                            orders: seq![hash],
                        },
                    ),
                )
            },
        }
    }

    /// The book with the sums of the level at `price` lowered.
    pub open spec fn decrement(self, price: Price, sell: Balance, buy: Balance) -> BookView {
        match self.side_of(price) {
            Some(t) => {
                let l = self.side(t);
                let i = index_of(l, price);
                self.with_side(t, l.update(i, l[i].lowered(sell, buy)))
            },
            None => self,
        }
    }

    /// The book without the level at `price`.
    pub open spec fn remove_level(self, price: Price) -> BookView {
        match self.side_of(price) {
            Some(t) => {
                let l = self.side(t);
                self.with_side(t, l.remove(index_of(l, price)))
            },
            None => self,
        }
    }

    /// The level at a price that has one.
    pub open spec fn level(self, price: Price) -> LevelView {
        let t = self.side_of(price).unwrap();
        self.side(t)[index_of(self.side(t), price)]
    }

    /// Whether the order rests at the price.
    pub open spec fn rests_at(self, price: Price, hash: H256) -> bool {
        self.side_of(price).is_some() && self.level(price).orders.contains(hash)
    }

    /// The book after the order `hash` has left the level at `price`: the
    /// sums are lowered, and a level left without orders is dropped.
    pub open spec fn remove_order(self, price: Price, hash: H256, sell: Balance, buy: Balance)
        -> BookView {
        match self.side_of(price) {
            Some(t) => {
                let l = self.side(t);
                let i = index_of(l, price);
                let q = l[i].orders.filter(other_than(hash));
                if q.len() == 0 {
                    self.with_side(t, l.remove(i))
                } else {
                    self.with_side(t, l.update(i, l[i].lowered(sell, buy).with_orders(q)))
                }
            },
            None => self,
        }
    }

    /// The book after the finished orders at the front of the level at
    /// `price` have left it; a level left without orders is dropped.
    pub open spec fn drain_level(self, price: Price, orders: Map<H256, Order>) -> BookView {
        match self.side_of(price) {
            Some(t) => {
                let l = self.side(t);
                let i = index_of(l, price);
                let q = drained(l[i].orders, orders);
                if q.len() == 0 {
                    self.with_side(t, l.remove(i))
                } else {
                    self.with_side(t, l.update(i, l[i].with_orders(q)))
                }
            },
            None => self,
        }
    }

    /// The book after one side has been drained of finished orders.
    pub open spec fn drain(self, t: OrderType, orders: Map<H256, Order>) -> BookView {
        self.with_side(t, ladder_drained(self.side(t), orders))
    }

    /// What `append` answers: a sentinel's price is refused, and so is an
    /// order whose amounts would carry a level's sums past the largest amount.
    pub open spec fn append_result(self, price: Price, sell: Balance, buy: Balance) -> Result<
        (),
        Error,
    > {
        if price == MIN_PRICE || price == TOP_PRICE {
            Err(Error::BoundsCheckFailedPrice)
        } else if self.append_overflows(price, sell, buy) {
            Err(Error::OverflowError)
        } else {
            Ok(())
        }
    }

    /// What draining the level at `price` answers: `Ok` where no level is
    /// there or the whole queue could leave, else the reason the first order
    /// left in the queue stays.
    pub open spec fn drain_level_result(self, price: Price, orders: Map<H256, Order>) -> Result<
        (),
        Error,
    > {
        match self.side_of(price) {
            Some(t) => {
                let q = drained(self.level(price).orders, orders);
                if q.len() == 0 {
                    Ok(())
                } else if orders.contains_key(q[0]) {
                    Err(Error::OrderMatchOrderIsNotFinished)
                } else {
                    Err(Error::OrderMatchGetOrderError)
                }
            },
            None => Ok(()),
        }
    }

    /// The best level of a side and the oldest order in it.
    pub open spec fn first_order(self, t: OrderType) -> Option<(Price, H256)> {
        if self.side(t).len() > 0 {
            Some((self.side(t)[0].price, self.side(t)[0].orders[0]))
        } else {
            None
        }
    }

    /// The number of orders resting on a side.
    pub open spec fn resting(self, t: OrderType) -> nat {
        ladder_resting(self.side(t))
    }
}

/// The number of orders resting on a ladder.
pub open spec fn ladder_resting(l: Seq<LevelView>) -> nat
    decreases l.len(),
{
    if l.len() == 0 {
        0
    } else {
        l[0].orders.len() + ladder_resting(l.skip(1))
    }
}

/// The book of one trade pair.
#[derive(Debug)]
pub struct PriceList {
    bids: Vec<Level>,
    asks: Vec<Level>,
}

/// The book is a linked list of price levels.
pub type LinkedList = PriceList;

impl View for PriceList {
    type V = BookView;

    closed spec fn view(&self) -> BookView {
        BookView { bids: levels_view(self.bids@), asks: levels_view(self.asks@) }
    }
}

/// In a well-formed ladder a price names at most one level.
pub proof fn lemma_index_unique(l: Seq<LevelView>, side: OrderType, i: int)
    requires
        ladder_wf(l, side),
        0 <= i < l.len(),
    ensures
        has_price(l, l[i].price),
        index_of(l, l[i].price) == i,
{
    let j = index_of(l, l[i].price);
    if j < i {
        assert(better(l[j].price, l[i].price, side));
    } else if i < j {
        assert(better(l[i].price, l[j].price, side));
    }
}

fn find_level(levels: &Vec<Level>, price: Price, Ghost(side): Ghost<OrderType>) -> (r: Option<
    usize,
>)
    requires
        ladder_wf(levels_view(levels@), side),
    ensures
        match r {
            Some(i) => i < levels@.len() && levels_view(levels@)[i as int].price == price
                && has_price(levels_view(levels@), price) && index_of(levels_view(levels@), price)
                == i,
            None => !has_price(levels_view(levels@), price),
        },
{
    let mut i: usize = 0;
    while i < levels.len()
        invariant
            i <= levels@.len(),
            ladder_wf(levels_view(levels@), side),
            levels_view(levels@).len() == levels@.len(),
            forall|j: int| 0 <= j < i ==> (#[trigger] levels_view(levels@)[j]).price != price,
        decreases levels@.len() - i,
    {
        if levels[i].price == price {
            proof {
                lemma_index_unique(levels_view(levels@), side, i as int);
            }
            return Some(i);
        }
        i = i + 1;
    }
    None
}

impl PriceList {
    /// The book is well formed.
    pub open spec fn wf(&self) -> bool {
        self@.wf()
    }

    /// The empty book: the three sentinels and no level.
    pub fn new() -> (b: PriceList)
        ensures
            b.wf(),
            b@.bids.len() == 0,
            b@.asks.len() == 0,
    {
        PriceList { bids: Vec::new(), asks: Vec::new() }
    }

    fn best_key(&self, t: OrderType) -> (r: Option<Price>)
        ensures
            r == self@.best(t),
    {
        match t {
            OrderType::Buy => if self.bids.len() > 0 {
                Some(self.bids[0].price)
            } else {
                Some(MIN_PRICE)
            },
            OrderType::Sell => if self.asks.len() > 0 {
                Some(self.asks[0].price)
            } else {
                Some(TOP_PRICE)
            },
        }
    }

    /// Reads HEAD, whose `prev` is the best bid and whose `next` is the best ask.
    pub fn read_head(&self) -> (item: LinkedItem)
        ensures
            item@ == self@.head(),
    {
        LinkedItem {
            prev: self.best_key(OrderType::Buy),
            next: self.best_key(OrderType::Sell),
            price: None,
            buy_amount: 0,
            sell_amount: 0,
            orders: Vec::new(),
        }
    }

    /// Reads the BOTTOM sentinel.
    pub fn read_bottom(&self) -> (item: LinkedItem)
        ensures
            item@ == self@.bottom(),
    {
        let n = self.bids.len();
        LinkedItem {
            prev: Some(TOP_PRICE),
            next: if n > 0 {
                Some(self.bids[n - 1].price)
            } else {
                None
            },
            price: Some(MIN_PRICE),
            buy_amount: 0,
            sell_amount: 0,
            orders: Vec::new(),
        }
    }

    /// Reads the TOP sentinel.
    pub fn read_top(&self) -> (item: LinkedItem)
        ensures
            item@ == self@.top(),
    {
        let n = self.asks.len();
        LinkedItem {
            prev: if n > 0 {
                Some(self.asks[n - 1].price)
            } else {
                None
            },
            next: Some(MIN_PRICE),
            price: Some(TOP_PRICE),
            buy_amount: 0,
            sell_amount: 0,
            orders: Vec::new(),
        }
    }

    fn read_level(&self, t: OrderType, i: usize) -> (item: LinkedItem)
        requires
            i < self@.side(t).len(),
        ensures
            item@ == self@.level_item(t, i as int),
    {
        let l: &Vec<Level> = match t {
            OrderType::Buy => &self.bids,
            OrderType::Sell => &self.asks,
        };
        assert(levels_view(l@) == self@.side(t));
        let inner: Option<Price> = if i == 0 {
            None
        } else {
            Some(l[i - 1].price)
        };
        let outer: Option<Price> = if i < l.len() - 1 {
            Some(l[i + 1].price)
        } else {
            match t {
                OrderType::Buy => Some(MIN_PRICE),
                OrderType::Sell => Some(TOP_PRICE),
            }
        };
        LinkedItem {
            prev: match t {
                OrderType::Buy => outer,
                OrderType::Sell => inner,
            },
            next: match t {
                OrderType::Buy => inner,
                OrderType::Sell => outer,
            },
            price: Some(l[i].price),
            buy_amount: l[i].buy_amount,
            sell_amount: l[i].sell_amount,
            orders: copy_vec(&l[i].orders),
        }
    }

    /// Reads the item under a key: a sentinel, the level at a price, or HEAD
    /// where the price has no level.
    pub fn read(&self, price: Option<Price>) -> (item: LinkedItem)
        requires
            self.wf(),
        ensures
            item@ == self@.item(price),
    {
        match price {
            None => self.read_head(),
            Some(p) => {
                if p == MIN_PRICE {
                    self.read_bottom()
                } else if p == TOP_PRICE {
                    self.read_top()
                } else {
                    match find_level(&self.bids, p, Ghost(OrderType::Buy)) {
                        Some(i) => self.read_level(OrderType::Buy, i),
                        None => match find_level(&self.asks, p, Ghost(OrderType::Sell)) {
                            Some(i) => self.read_level(OrderType::Sell, i),
                            None => self.read_head(),
                        },
                    }
                }
            },
        }
    }

    /// The key that follows an item towards the bids (`Buy`) or towards the
    /// asks (`Sell`).
    pub fn next_match_price(price_item: &LinkedItem, otype: OrderType) -> (r: Option<Price>)
        ensures
            r == (match otype {
                OrderType::Buy => price_item.prev,
                OrderType::Sell => price_item.next,
            }),
    {
        if otype == OrderType::Buy {
            price_item.prev
        } else {
            price_item.next
        }
    }
}


fn ladder_rank(levels: &Vec<Level>, price: Price, side: OrderType) -> (i: usize)
    ensures
        i <= levels@.len(),
        i == rank(levels_view(levels@), price, side),
        forall|j: int| 0 <= j < i ==> better((#[trigger] levels_view(levels@)[j]).price, price, side),
        i == levels@.len() || !better(levels_view(levels@)[i as int].price, price, side),
{
    let ghost l = levels_view(levels@);
    let mut i: usize = 0;
    while i < levels.len()
        invariant
            i <= levels@.len(),
            l == levels_view(levels@),
            forall|j: int| 0 <= j < i ==> better((#[trigger] l[j]).price, price, side),
        ensures
            i <= levels@.len(),
            forall|j: int| 0 <= j < i ==> better((#[trigger] l[j]).price, price, side),
            i == levels@.len() || !better(l[i as int].price, price, side),
        decreases levels@.len() - i,
    {
        let here: Price = levels[i].price;
        let goes_on: bool = match side {
            OrderType::Buy => here > price,
            OrderType::Sell => here < price,
        };
        if !goes_on {
            break ;
        }
        i = i + 1;
    }
    proof {
        assert(l.len() == levels@.len());
        assert(is_rank(l, price, side, i as int));
        let c = rank(l, price, side);
        assert(is_rank(l, price, side, c));
        if c < i {
            assert(better(l[c].price, price, side));
        } else if c > i {
            assert(better(l[i as int].price, price, side));
        }
    }
    i
}

fn ladder_insert(
    levels: &mut Vec<Level>,
    price: Price,
    hash: H256,
    sell: Balance,
    buy: Balance,
    side: OrderType,
)
    requires
        ladder_wf(levels_view(old(levels)@), side),
        !has_price(levels_view(old(levels)@), price),
        MIN_PRICE < price < TOP_PRICE,
    ensures
        ladder_wf(levels_view(final(levels)@), side),
        levels_view(final(levels)@) == levels_view(old(levels)@).insert(
            rank(levels_view(old(levels)@), price, side),
            LevelView { price, buy_amount: buy, sell_amount: sell, orders: seq![hash] },
        ),
        is_rank(
            levels_view(old(levels)@),
            price,
            side,
            rank(levels_view(old(levels)@), price, side),
        ),
{
    let ghost l = levels_view(levels@);
    let i = ladder_rank(levels, price, side);
    assert(is_rank(l, price, side, i as int));
    let mut q: Vec<H256> = Vec::new();
    q.push(hash);
    let lvl = Level { price, buy_amount: buy, sell_amount: sell, orders: q };
    assert(lvl@.orders =~= seq![hash]);
    levels.insert(i, lvl);
    proof {
        let x = LevelView { price, buy_amount: buy, sell_amount: sell, orders: seq![hash] };
        let l2 = levels_view(levels@);
        assert(l2 =~= l.insert(i as int, x));
        assert forall|a: int, b: int| 0 <= a < b < l2.len() implies better(
            (#[trigger] l2[a]).price,
            (#[trigger] l2[b]).price,
            side,
        ) by {
            if b < i {
                assert(l2[a] == l[a] && l2[b] == l[b]);
            } else if b == i {
                assert(l2[a] == l[a]);
            } else if a < i {
                assert(l2[a] == l[a] && l2[b] == l[b - 1]);
                assert(better(l[a].price, price, side));
                assert(i as int <= b - 1);
                if (i as int) < b - 1 {
                    assert(better(l[i as int].price, l[b - 1].price, side));
                }
                assert(l[i as int].price != price);
            } else if a == i {
                assert(l2[b] == l[b - 1]);
                if (i as int) < b - 1 {
                    assert(better(l[i as int].price, l[b - 1].price, side));
                }
                assert(l[i as int].price != price);
            } else {
                assert(l2[a] == l[a - 1] && l2[b] == l[b - 1]);
            }
        }
        assert forall|a: int| 0 <= a < l2.len() implies MIN_PRICE < (#[trigger] l2[a]).price
            < TOP_PRICE && l2[a].orders.len() > 0 by {
            if a < i {
                assert(l2[a] == l[a]);
            } else if a > i {
                assert(l2[a] == l[a - 1]);
            }
        }
    }
}

fn ladder_push(
    levels: &mut Vec<Level>,
    i: usize,
    hash: H256,
    sell: Balance,
    buy: Balance,
    Ghost(side): Ghost<OrderType>,
) -> (ok: bool)
    requires
        ladder_wf(levels_view(old(levels)@), side),
        i < old(levels)@.len(),
    ensures
        ladder_wf(levels_view(final(levels)@), side),
        ok == !(levels_view(old(levels)@)[i as int].buy_amount + buy > u128::MAX || levels_view(
            old(levels)@,
        )[i as int].sell_amount + sell > u128::MAX),
        ok ==> levels_view(final(levels)@) == levels_view(old(levels)@).update(
            i as int,
            levels_view(old(levels)@)[i as int].pushed(hash, sell, buy),
        ),
        !ok ==> levels_view(final(levels)@) == levels_view(old(levels)@),
{
    let ghost l = levels_view(levels@);
    if levels[i].buy_amount > u128::MAX - buy || levels[i].sell_amount > u128::MAX - sell {
        return false;
    }
    let mut lvl = levels.remove(i);
    lvl.orders.push(hash);
    lvl.buy_amount = lvl.buy_amount + buy;
    lvl.sell_amount = lvl.sell_amount + sell;
    levels.insert(i, lvl);
    proof {
        let l2 = levels_view(levels@);
        assert(l2 =~= l.update(i as int, l[i as int].pushed(hash, sell, buy)));
        lemma_update_wf(l, side, i as int, l[i as int].pushed(hash, sell, buy));
    }
    true
}

/// Replacing a level by one at the same price that holds an order keeps a
/// ladder well formed.
proof fn lemma_update_wf(l: Seq<LevelView>, side: OrderType, i: int, x: LevelView)
    requires
        ladder_wf(l, side),
        0 <= i < l.len(),
        x.price == l[i].price,
        x.orders.len() > 0,
    ensures
        ladder_wf(l.update(i, x), side),
{
    let l2 = l.update(i, x);
    assert forall|a: int, b: int| 0 <= a < b < l2.len() implies better(
        (#[trigger] l2[a]).price,
        (#[trigger] l2[b]).price,
        side,
    ) by {
        assert(l2[a].price == l[a].price && l2[b].price == l[b].price);
    }
    assert forall|a: int| 0 <= a < l2.len() implies MIN_PRICE < (#[trigger] l2[a]).price
        < TOP_PRICE && l2[a].orders.len() > 0 by {
        assert(l2[a].price == l[a].price);
        if a != i {
            assert(l2[a] == l[a]);
        }
    }
}

/// Dropping a level keeps a ladder well formed.
proof fn lemma_remove_wf(l: Seq<LevelView>, side: OrderType, i: int)
    requires
        ladder_wf(l, side),
        0 <= i < l.len(),
    ensures
        ladder_wf(l.remove(i), side),
{
    let l2 = l.remove(i);
    assert forall|a: int, b: int| 0 <= a < b < l2.len() implies better(
        (#[trigger] l2[a]).price,
        (#[trigger] l2[b]).price,
        side,
    ) by {
        let a1 = if a < i { a } else { a + 1 };
        let b1 = if b < i { b } else { b + 1 };
        assert(l2[a] == l[a1] && l2[b] == l[b1]);
    }
    assert forall|a: int| 0 <= a < l2.len() implies MIN_PRICE < (#[trigger] l2[a]).price
        < TOP_PRICE && l2[a].orders.len() > 0 by {
        let a1 = if a < i { a } else { a + 1 };
        assert(l2[a] == l[a1]);
    }
}

fn ladder_lower(
    levels: &mut Vec<Level>,
    i: usize,
    sell: Balance,
    buy: Balance,
    Ghost(side): Ghost<OrderType>,
)
    requires
        ladder_wf(levels_view(old(levels)@), side),
        i < old(levels)@.len(),
    ensures
        ladder_wf(levels_view(final(levels)@), side),
        levels_view(final(levels)@) == levels_view(old(levels)@).update(
            i as int,
            levels_view(old(levels)@)[i as int].lowered(sell, buy),
        ),
{
    let ghost l = levels_view(levels@);
    let mut lvl = levels.remove(i);
    lvl.buy_amount = if lvl.buy_amount >= buy {
        lvl.buy_amount - buy
    } else {
        0
    };
    lvl.sell_amount = if lvl.sell_amount >= sell {
        lvl.sell_amount - sell
    } else {
        0
    };
    levels.insert(i, lvl);
    proof {
        assert(levels_view(levels@) =~= l.update(i as int, l[i as int].lowered(sell, buy)));
        lemma_update_wf(l, side, i as int, l[i as int].lowered(sell, buy));
    }
}

fn ladder_drop(levels: &mut Vec<Level>, i: usize, Ghost(side): Ghost<OrderType>)
    requires
        ladder_wf(levels_view(old(levels)@), side),
        i < old(levels)@.len(),
    ensures
        ladder_wf(levels_view(final(levels)@), side),
        levels_view(final(levels)@) == levels_view(old(levels)@).remove(i as int),
{
    let ghost l = levels_view(levels@);
    levels.remove(i);
    proof {
        assert(levels_view(levels@) =~= l.remove(i as int));
        lemma_remove_wf(l, side, i as int);
    }
}

pub(crate) fn without(q: &Vec<H256>, hash: H256) -> (r: (Vec<H256>, bool))
    ensures
        r.0@ == q@.filter(other_than(hash)),
        r.1 == q@.contains(hash),
{
    let mut out: Vec<H256> = Vec::new();
    let mut found: bool = false;
    let mut i: usize = 0;
    let ghost keep = other_than(hash);
    proof {
        assert(q@.take(0) =~= Seq::<H256>::empty());
        reveal(Seq::filter);
        assert(Seq::<H256>::empty().filter(keep) =~= Seq::<H256>::empty());
    }
    while i < q.len()
        invariant
            i <= q@.len(),
            keep == other_than(hash),
            out@ == q@.take(i as int).filter(keep),
            found == q@.take(i as int).contains(hash),
        decreases q@.len() - i,
    {
        let h: H256 = q[i];
        proof {
            let t = q@.take(i as int);
            assert(q@.take(i as int + 1) =~= t.push(h));
            reveal(Seq::filter);
            assert(t.push(h).drop_last() =~= t);
            assert(t.push(h).last() == h);
            assert(t.push(h).filter(keep) == if keep(h) {
                t.filter(keep).push(h)
            } else {
                t.filter(keep)
            });
            if t.push(h).contains(hash) {
                let k = choose|k: int| 0 <= k < t.push(h).len() && t.push(h)[k] == hash;
                if k < t.len() {
                    assert(t[k] == hash);
                }
            }
            if t.contains(hash) {
                let k = choose|k: int| 0 <= k < t.len() && t[k] == hash;
                assert(t.push(h)[k] == hash);
            }
            if h == hash {
                assert(t.push(h)[t.len() as int] == hash);
            }
        }
        if h == hash {
            found = true;
        } else {
            out.push(h);
        }
        i = i + 1;
    }
    assert(q@.take(q@.len() as int) =~= q@);
    (out, found)
}

fn drain_queue(q: &mut Vec<H256>, orders: &Table<H256, Order>) -> (r: Result<(), Error>)
    requires
        orders.wf(),
    ensures
        final(q)@ == drained(old(q)@, orders@),
        match r {
            Ok(()) => final(q)@.len() == 0,
            Err(e) => final(q)@.len() > 0 && e == (if orders@.contains_key(final(q)@[0]) {
                Error::OrderMatchOrderIsNotFinished
            } else {
                Error::OrderMatchGetOrderError
            }),
        },
{
    loop
        invariant
            orders.wf(),
            drained(q@, orders@) == drained(old(q)@, orders@),
        decreases q@.len(),
    {
        if q.len() == 0 {
            return Ok(());
        }
        let first: H256 = q[0];
        match orders.get(&first) {
            None => {
                return Err(Error::OrderMatchGetOrderError);
            },
            Some(o) => {
                if !o.is_finished() {
                    return Err(Error::OrderMatchOrderIsNotFinished);
                }
            },
        }
        let ghost before = q@;
        q.remove(0);
        assert(q@ =~= before.skip(1));
    }
}


/// A drained queue is empty or starts with an order that is not finished.
pub proof fn lemma_drained_stops(q: Seq<H256>, orders: Map<H256, Order>)
    ensures
        drained(q, orders).len() == 0 || !is_done(orders, drained(q, orders)[0]),
        drained(drained(q, orders), orders) == drained(q, orders),
        drained(q, orders).len() <= q.len(),
    decreases q.len(),
{
    if q.len() > 0 && is_done(orders, q[0]) {
        lemma_drained_stops(q.skip(1), orders);
    }
}

fn ladder_drain_at(
    levels: &mut Vec<Level>,
    i: usize,
    orders: &Table<H256, Order>,
    Ghost(side): Ghost<OrderType>,
) -> (r: Result<(), Error>)
    requires
        ladder_wf(levels_view(old(levels)@), side),
        i < old(levels)@.len(),
        orders.wf(),
    ensures
        ladder_wf(levels_view(final(levels)@), side),
        ({
            let l = levels_view(old(levels)@);
            let q = drained(l[i as int].orders, orders@);
            &&& levels_view(final(levels)@) == (if q.len() == 0 {
                l.remove(i as int)
            } else {
                l.update(i as int, l[i as int].with_orders(q))
            })
            &&& r == (if q.len() == 0 {
                Ok::<(), Error>(())
            } else if orders@.contains_key(q[0]) {
                Err::<(), Error>(Error::OrderMatchOrderIsNotFinished)
            } else {
                Err::<(), Error>(Error::OrderMatchGetOrderError)
            })
        }),
{
    let ghost l = levels_view(levels@);
    let mut lvl = levels.remove(i);
    assert(lvl@ == l[i as int]);
    let r = drain_queue(&mut lvl.orders, orders);
    assert(lvl@ == l[i as int].with_orders(drained(l[i as int].orders, orders@)));
    let ghost q = drained(l[i as int].orders, orders@);
    match r {
        Ok(()) => {
            proof {
                assert(q.len() == 0);
                assert(levels_view(levels@) =~= l.remove(i as int));
                lemma_remove_wf(l, side, i as int);
            }
            Ok(())
        },
        Err(e) => {
            levels.insert(i, lvl);
            proof {
                assert(q.len() > 0);
                assert(levels_view(levels@) =~= l.update(i as int, l[i as int].with_orders(q)));
                lemma_update_wf(l, side, i as int, l[i as int].with_orders(q));
            }
            Err(e)
        },
    }
}

fn ladder_drain(levels: &mut Vec<Level>, orders: &Table<H256, Order>, Ghost(side): Ghost<OrderType>)
    requires
        ladder_wf(levels_view(old(levels)@), side),
        orders.wf(),
    ensures
        ladder_wf(levels_view(final(levels)@), side),
        levels_view(final(levels)@) == ladder_drained(levels_view(old(levels)@), orders@),
{
    loop
        invariant
            orders.wf(),
            ladder_wf(levels_view(levels@), side),
            ladder_drained(levels_view(levels@), orders@) == ladder_drained(
                levels_view(old(levels)@),
                orders@,
            ),
        ensures
            ladder_wf(levels_view(levels@), side),
            levels_view(levels@) == ladder_drained(levels_view(old(levels)@), orders@),
        decreases levels@.len(),
    {
        let ghost l = levels_view(levels@);
        if levels.len() == 0 {
            break ;
        }
        let r = ladder_drain_at(levels, 0, orders, Ghost(side));
        match r {
            Ok(()) => {
                assert(l.remove(0) =~= l.skip(1));
            },
            Err(_) => {
                proof {
                    let q = drained(l[0].orders, orders@);
                    let l2 = levels_view(levels@);
                    assert(l2[0].orders == q);
                    lemma_drained_stops(l[0].orders, orders@);
                    assert(drained(q, orders@) == q);
                    assert(l2.update(0, l2[0].with_orders(q)) =~= l2);
                    assert(l2[0].with_orders(q) == LevelView { orders: q, ..l2[0] });
                    assert(l[0].with_orders(q) == LevelView { orders: q, ..l[0] });
                }
                break ;
            },
        }
    }
}

impl PriceList {
    /// Brings an order to rest at `price`. Where a level stands at that
    /// price, on either side, the order joins the back of its queue and the
    /// amounts are added to its sums; else a new level is made on the side
    /// `otype`, behind every better price.
    pub fn append(
        &mut self,
        price: Price,
        ohash: H256,
        sell_amount: Balance,
        buy_amount: Balance,
        otype: OrderType,
    ) -> (r: Result<(), Error>)
        requires
            old(self).wf(),
        ensures
            final(self).wf(),
            r == old(self)@.append_result(price, sell_amount, buy_amount),
            r.is_ok() ==> final(self)@ == old(self)@.append(
                price,
                ohash,
                sell_amount,
                buy_amount,
                otype,
            ),
            r.is_err() ==> final(self)@ == old(self)@,
    {
        if price == MIN_PRICE || price == TOP_PRICE {
            return Err(Error::BoundsCheckFailedPrice);
        }
        let ghost b = self@;
        match find_level(&self.bids, price, Ghost(OrderType::Buy)) {
            Some(i) => {
                let ok = ladder_push(
                    &mut self.bids,
                    i,
                    ohash,
                    sell_amount,
                    buy_amount,
                    Ghost(OrderType::Buy),
                );
                proof {
                    assert(forall|a: int|
                        0 <= a < b.bids.len() ==> (#[trigger] self@.bids[a]).price
                            == b.bids[a].price);
                }
                if ok {
                    Ok(())
                } else {
                    Err(Error::OverflowError)
                }
            },
            None => match find_level(&self.asks, price, Ghost(OrderType::Sell)) {
                Some(i) => {
                    let ok = ladder_push(
                        &mut self.asks,
                        i,
                        ohash,
                        sell_amount,
                        buy_amount,
                        Ghost(OrderType::Sell),
                    );
                    proof {
                        assert(forall|a: int|
                            0 <= a < b.asks.len() ==> (#[trigger] self@.asks[a]).price
                                == b.asks[a].price);
                    }
                    if ok {
                        Ok(())
                    } else {
                        Err(Error::OverflowError)
                    }
                },
                None => {
                    match otype {
                        OrderType::Buy => {
                            ladder_insert(
                                &mut self.bids,
                                price,
                                ohash,
                                sell_amount,
                                buy_amount,
                                otype,
                            );
                            proof {
                                let r = rank(b.bids, price, otype);
                                assert forall|i: int, j: int|
                                    0 <= i < self@.bids.len() && 0 <= j < self@.asks.len() implies (
                                #[trigger] self@.bids[i]).price != (
                                #[trigger] self@.asks[j]).price by {
                                    if i < r {
                                        assert(self@.bids[i] == b.bids[i]);
                                    } else if i > r {
                                        assert(self@.bids[i] == b.bids[i - 1]);
                                    } else {
                                        assert(b.asks[j].price != price);
                                    }
                                }
                            }
                        },
                        OrderType::Sell => {
                            ladder_insert(
                                &mut self.asks,
                                price,
                                ohash,
                                sell_amount,
                                buy_amount,
                                otype,
                            );
                            proof {
                                let r = rank(b.asks, price, otype);
                                assert forall|i: int, j: int|
                                    0 <= i < self@.bids.len() && 0 <= j < self@.asks.len() implies (
                                #[trigger] self@.bids[i]).price != (
                                #[trigger] self@.asks[j]).price by {
                                    if j < r {
                                        assert(self@.asks[j] == b.asks[j]);
                                    } else if j > r {
                                        assert(self@.asks[j] == b.asks[j - 1]);
                                    } else {
                                        assert(b.bids[i].price != price);
                                    }
                                }
                            }
                        },
                    }
                    Ok(())
                },
            },
        }
    }

    /// Lowers the sums of the level at `price` by what a fill took from its
    /// orders. The sums stop at zero; a price without a level changes nothing.
    /// No level is unlinked here, since a level never stands without an order.
    pub fn update_reduce_amount(&mut self, price: Price, sell_amount: Balance, buy_amount: Balance)
        requires
            old(self).wf(),
        ensures
            final(self).wf(),
            final(self)@ == old(self)@.decrement(price, sell_amount, buy_amount),
    {
        let ghost b = self@;
        match find_level(&self.bids, price, Ghost(OrderType::Buy)) {
            Some(i) => {
                ladder_lower(&mut self.bids, i, sell_amount, buy_amount, Ghost(OrderType::Buy));
                proof {
                    assert(forall|a: int|
                        0 <= a < b.bids.len() ==> (#[trigger] self@.bids[a]).price
                            == b.bids[a].price);
                }
            },
            None => match find_level(&self.asks, price, Ghost(OrderType::Sell)) {
                Some(i) => {
                    ladder_lower(
                        &mut self.asks,
                        i,
                        sell_amount,
                        buy_amount,
                        Ghost(OrderType::Sell),
                    );
                    proof {
                        assert(forall|a: int|
                            0 <= a < b.asks.len() ==> (#[trigger] self@.asks[a]).price
                                == b.asks[a].price);
                    }
                },
                None => {},
            },
        }
    }

    /// Unlinks the level at `price`, with whatever rests there.
    pub fn remove_item(&mut self, price: Price)
        requires
            old(self).wf(),
        ensures
            final(self).wf(),
            final(self)@ == old(self)@.remove_level(price),
    {
        let ghost b = self@;
        match find_level(&self.bids, price, Ghost(OrderType::Buy)) {
            Some(i) => {
                ladder_drop(&mut self.bids, i, Ghost(OrderType::Buy));
                proof {
                    lemma_remove_disjoint(b, OrderType::Buy, i as int);
                }
            },
            None => match find_level(&self.asks, price, Ghost(OrderType::Sell)) {
                Some(i) => {
                    ladder_drop(&mut self.asks, i, Ghost(OrderType::Sell));
                    proof {
                        lemma_remove_disjoint(b, OrderType::Sell, i as int);
                    }
                },
                None => {},
            },
        }
    }
}

/// Dropping a level from one side keeps the two sides apart.
proof fn lemma_remove_disjoint(b: BookView, t: OrderType, i: int)
    requires
        b.wf(),
        0 <= i < b.side(t).len(),
    ensures
        b.with_side(t, b.side(t).remove(i)).wf(),
{
    let l = b.side(t);
    let l2 = l.remove(i);
    let b2 = b.with_side(t, l2);
    lemma_remove_wf(l, t, i);
    assert forall|x: int, y: int| 0 <= x < b2.bids.len() && 0 <= y < b2.asks.len() implies (
    #[trigger] b2.bids[x]).price != (#[trigger] b2.asks[y]).price by {
        match t {
            OrderType::Buy => {
                let x1 = if x < i { x } else { x + 1 };
                assert(b2.bids[x] == b.bids[x1]);
            },
            OrderType::Sell => {
                let y1 = if y < i { y } else { y + 1 };
                assert(b2.asks[y] == b.asks[y1]);
            },
        }
    }
}


fn ladder_remove_order(
    levels: &mut Vec<Level>,
    i: usize,
    hash: H256,
    sell: Balance,
    buy: Balance,
    Ghost(side): Ghost<OrderType>,
) -> (found: bool)
    requires
        ladder_wf(levels_view(old(levels)@), side),
        i < old(levels)@.len(),
    ensures
        ladder_wf(levels_view(final(levels)@), side),
        ({
            let l = levels_view(old(levels)@);
            let q = l[i as int].orders.filter(other_than(hash));
            &&& found == l[i as int].orders.contains(hash)
            &&& levels_view(final(levels)@) == (if !found {
                l
            } else if q.len() == 0 {
                l.remove(i as int)
            } else {
                l.update(i as int, l[i as int].lowered(sell, buy).with_orders(q))
            })
        }),
{
    let ghost l = levels_view(levels@);
    let (rest, found) = without(&levels[i].orders, hash);
    if !found {
        return false;
    }
    let mut lvl = levels.remove(i);
    if rest.len() == 0 {
        proof {
            assert(levels_view(levels@) =~= l.remove(i as int));
            lemma_remove_wf(l, side, i as int);
        }
        return true;
    }
    lvl.orders = rest;
    lvl.buy_amount = if lvl.buy_amount >= buy {
        lvl.buy_amount - buy
    } else {
        0
    };
    lvl.sell_amount = if lvl.sell_amount >= sell {
        lvl.sell_amount - sell
    } else {
        0
    };
    levels.insert(i, lvl);
    proof {
        let x = l[i as int].lowered(sell, buy).with_orders(rest@);
        assert(levels_view(levels@) =~= l.update(i as int, x));
        lemma_update_wf(l, side, i as int, x);
    }
    true
}

/// Replacing a level of one side by one at the same price keeps the two
/// sides apart.
proof fn lemma_update_disjoint(b: BookView, t: OrderType, i: int, x: LevelView)
    requires
        b.wf(),
        0 <= i < b.side(t).len(),
        x.price == b.side(t)[i].price,
        x.orders.len() > 0,
    ensures
        b.with_side(t, b.side(t).update(i, x)).wf(),
{
    let l = b.side(t);
    let b2 = b.with_side(t, l.update(i, x));
    lemma_update_wf(l, t, i, x);
    assert forall|a: int, c: int| 0 <= a < b2.bids.len() && 0 <= c < b2.asks.len() implies (
    #[trigger] b2.bids[a]).price != (#[trigger] b2.asks[c]).price by {
        assert(b2.bids[a].price == b.bids[a].price);
        assert(b2.asks[c].price == b.asks[c].price);
    }
}

impl PriceList {
    /// Takes the order `ohash` out of the level at `price` and lowers the
    /// level's sums by the given amounts; a level left without orders is
    /// unlinked. A price without a level changes nothing. Where the level
    /// does not hold the order, the call is refused.
    pub fn remove_order(
        &mut self,
        price: Price,
        ohash: H256,
        sell_amount: Balance,
        buy_amount: Balance,
    ) -> (r: Result<(), Error>)
        requires
            old(self).wf(),
        ensures
            final(self).wf(),
            r == (if old(self)@.side_of(price).is_some() && !old(self)@.rests_at(price, ohash) {
                Err::<(), Error>(Error::OrderNotInBook)
            } else {
                Ok::<(), Error>(())
            }),
            r.is_ok() ==> final(self)@ == old(self)@.remove_order(
                price,
                ohash,
                sell_amount,
                buy_amount,
            ),
            r.is_err() ==> final(self)@ == old(self)@,
    {
        let ghost b = self@;
        match find_level(&self.bids, price, Ghost(OrderType::Buy)) {
            Some(i) => {
                let found = ladder_remove_order(
                    &mut self.bids,
                    i,
                    ohash,
                    sell_amount,
                    buy_amount,
                    Ghost(OrderType::Buy),
                );
                proof {
                    let q = b.bids[i as int].orders.filter(other_than(ohash));
                    if found && q.len() == 0 {
                        lemma_remove_disjoint(b, OrderType::Buy, i as int);
                    } else if found {
                        lemma_update_disjoint(
                            b,
                            OrderType::Buy,
                            i as int,
                            b.bids[i as int].lowered(sell_amount, buy_amount).with_orders(q),
                        );
                    }
                }
                if found {
                    Ok(())
                } else {
                    Err(Error::OrderNotInBook)
                }
            },
            None => match find_level(&self.asks, price, Ghost(OrderType::Sell)) {
                Some(i) => {
                    let found = ladder_remove_order(
                        &mut self.asks,
                        i,
                        ohash,
                        sell_amount,
                        buy_amount,
                        Ghost(OrderType::Sell),
                    );
                    proof {
                        let q = b.asks[i as int].orders.filter(other_than(ohash));
                        if found && q.len() == 0 {
                            lemma_remove_disjoint(b, OrderType::Sell, i as int);
                        } else if found {
                            lemma_update_disjoint(
                                b,
                                OrderType::Sell,
                                i as int,
                                b.asks[i as int].lowered(sell_amount, buy_amount).with_orders(q),
                            );
                        }
                    }
                    if found {
                        Ok(())
                    } else {
                        Err(Error::OrderNotInBook)
                    }
                },
                None => Ok(()),
            },
        }
    }

    /// Lets the finished orders at the front of the level at `price` leave
    /// it, oldest first, and unlinks the level once its queue is empty. The
    /// answer is `Ok` where the whole queue left or no level stands at the
    /// price; else it names why the first order left in the queue stays:
    /// the order is unknown, or it is not finished. The sums of the level are
    /// not touched.
    pub fn remove_orders_in_one_item(&mut self, price: Price, orders: &Table<H256, Order>) -> (r:
        Result<(), Error>)
        requires
            old(self).wf(),
            orders.wf(),
        ensures
            final(self).wf(),
            final(self)@ == old(self)@.drain_level(price, orders@),
            r == old(self)@.drain_level_result(price, orders@),
    {
        let ghost b = self@;
        match find_level(&self.bids, price, Ghost(OrderType::Buy)) {
            Some(i) => {
                let r = ladder_drain_at(&mut self.bids, i, orders, Ghost(OrderType::Buy));
                proof {
                    let q = drained(b.bids[i as int].orders, orders@);
                    if q.len() == 0 {
                        lemma_remove_disjoint(b, OrderType::Buy, i as int);
                    } else {
                        lemma_update_disjoint(
                            b,
                            OrderType::Buy,
                            i as int,
                            b.bids[i as int].with_orders(q),
                        );
                    }
                }
                r
            },
            None => match find_level(&self.asks, price, Ghost(OrderType::Sell)) {
                Some(i) => {
                    let r = ladder_drain_at(&mut self.asks, i, orders, Ghost(OrderType::Sell));
                    proof {
                        let q = drained(b.asks[i as int].orders, orders@);
                        if q.len() == 0 {
                            lemma_remove_disjoint(b, OrderType::Sell, i as int);
                        } else {
                            lemma_update_disjoint(
                                b,
                                OrderType::Sell,
                                i as int,
                                b.asks[i as int].with_orders(q),
                            );
                        }
                    }
                    r
                },
                None => Ok(()),
            },
        }
    }

    /// Clears one side of finished orders: from its best level on, finished
    /// orders leave the front of each queue and emptied levels are unlinked,
    /// up to the first order that is unknown or not finished. `Buy` names the
    /// bids, `Sell` the asks.
    pub fn remove_order_match_price(&mut self, otype: OrderType, orders: &Table<H256, Order>)
        requires
            old(self).wf(),
            orders.wf(),
        ensures
            final(self).wf(),
            final(self)@ == old(self)@.drain(otype, orders@),
    {
        let ghost b = self@;
        match otype {
            OrderType::Buy => {
                ladder_drain(&mut self.bids, orders, Ghost(OrderType::Buy));
            },
            OrderType::Sell => {
                ladder_drain(&mut self.asks, orders, Ghost(OrderType::Sell));
            },
        }
        proof {
            lemma_drained_prices(b.side(otype), orders@);
            assert forall|x: int, y: int|
                0 <= x < self@.bids.len() && 0 <= y < self@.asks.len() implies (
            #[trigger] self@.bids[x]).price != (#[trigger] self@.asks[y]).price by {
                match otype {
                    OrderType::Buy => {
                        let k = self@.bids.len() - b.bids.len();
                        assert(self@.bids[x].price == b.bids[x - k].price);
                    },
                    OrderType::Sell => {
                        let k = self@.asks.len() - b.asks.len();
                        assert(self@.asks[y].price == b.asks[y - k].price);
                    },
                }
            }
        }
    }

    /// The best level of a side and the oldest order resting in it.
    pub fn first_order(&self, t: OrderType) -> (r: Option<(Price, H256)>)
        requires
            self.wf(),
        ensures
            r == self@.first_order(t),
    {
        let l: &Vec<Level> = match t {
            OrderType::Buy => &self.bids,
            OrderType::Sell => &self.asks,
        };
        assert(levels_view(l@) == self@.side(t));
        if l.len() > 0 {
            assert(levels_view(l@)[0].orders.len() > 0);
            Some((l[0].price, l[0].orders[0]))
        } else {
            None
        }
    }
}

/// A drained ladder is a tail of the ladder, but for the queue of its first
/// level.
pub proof fn lemma_drained_prices(l: Seq<LevelView>, orders: Map<H256, Order>)
    ensures
        ladder_drained(l, orders).len() <= l.len(),
        forall|x: int|
            0 <= x < ladder_drained(l, orders).len() ==> (#[trigger] ladder_drained(
                l,
                orders,
            )[x]).price == l[x + l.len() - ladder_drained(l, orders).len()].price,
    decreases l.len(),
{
    if l.len() > 0 {
        let rest = drained(l[0].orders, orders);
        if rest.len() == 0 {
            lemma_drained_prices(l.skip(1), orders);
            let d = ladder_drained(l.skip(1), orders);
            assert forall|x: int| 0 <= x < d.len() implies (#[trigger] d[x]).price == l[x + l.len()
                - d.len()].price by {
                assert(l.skip(1)[x + l.skip(1).len() - d.len()] == l[x + l.len() - d.len()]);
            }
        }
    }
}


impl BookView {
    /// The keys of the chain from BOTTOM to TOP: the bottom sentinel, the
    /// bids from the lowest to the best, HEAD, the asks from the best to the
    /// highest, and the top sentinel.
    pub open spec fn chain(self) -> Seq<Option<Price>> {
        let nb = self.bids.len() as int;
        let na = self.asks.len() as int;
        Seq::new(
            (nb + na + 3) as nat,
            |k: int|
                if k == 0 {
                    Some(MIN_PRICE)
                } else if k <= nb {
                    Some(self.bids[nb - k].price)
                } else if k == nb + 1 {
                    None
                } else if k <= nb + na + 1 {
                    Some(self.asks[k - nb - 2].price)
                } else {
                    Some(TOP_PRICE)
                },
        )
    }

    /// The item of a level is the one read under the level's price.
    pub proof fn lemma_item_of_level(self, t: OrderType, i: int)
        requires
            self.wf(),
            0 <= i < self.side(t).len(),
        ensures
            self.item(Some(self.side(t)[i].price)) == self.level_item(t, i),
    {
        let p = self.side(t)[i].price;
        lemma_index_unique(self.side(t), t, i);
        match t {
            OrderType::Buy => {},
            OrderType::Sell => {
                if has_price(self.bids, p) {
                    let j = index_of(self.bids, p);
                    assert(self.bids[j].price != self.asks[i].price);
                }
            },
        }
    }

    /// The chain of a well-formed book is linked and acyclic. Every key of
    /// the chain names an item with that key; the `next` of each item is the
    /// key that follows it and the `prev` of that one leads back; TOP and
    /// BOTTOM close the circle; no key occurs twice, so that following `next`
    /// from BOTTOM reaches TOP and visits nothing twice; HEAD has no price;
    /// and between two adjacent levels of a side the price strictly rises.
    pub proof fn lemma_chain_linked(self)
        requires
            self.wf(),
        ensures
            self.chain().len() == self.bids.len() + self.asks.len() + 3,
            self.chain()[0] == Some(MIN_PRICE),
            self.chain()[self.bids.len() as int + 1] == None::<Price>,
            self.chain().last() == Some(TOP_PRICE),
            self.item(None).price == None::<Price>,
            forall|k: int|
                0 <= k < self.chain().len() ==> self.item(#[trigger] self.chain()[k]).price
                    == self.chain()[k],
            forall|k: int|
                0 <= k < self.chain().len() - 1 ==> self.item(#[trigger] self.chain()[k]).next
                    == self.chain()[k + 1],
            forall|k: int|
                1 <= k < self.chain().len() ==> self.item(#[trigger] self.chain()[k]).prev
                    == self.chain()[k - 1],
            self.item(self.chain().last()).next == self.chain()[0],
            self.item(self.chain()[0]).prev == self.chain().last(),
            forall|j: int, k: int|
                0 <= j < k < self.chain().len() ==> #[trigger] self.chain()[j]
                    != #[trigger] self.chain()[k],
            forall|k: int|
                1 <= k < self.bids.len() ==> (#[trigger] self.chain()[k]).unwrap()
                    < self.chain()[k + 1].unwrap(),
            forall|k: int|
                self.bids.len() + 2 <= k < self.bids.len() + self.asks.len() + 1 ==> (
                #[trigger] self.chain()[k]).unwrap() < self.chain()[k + 1].unwrap(),
    {
        self.lemma_chain_items();
        self.lemma_chain_distinct();
        self.lemma_chain_rises();
    }

    proof fn lemma_chain_items(self)
        requires
            self.wf(),
        ensures
            forall|k: int|
                0 <= k < self.chain().len() ==> self.item(#[trigger] self.chain()[k]).price
                    == self.chain()[k],
            forall|k: int|
                0 <= k < self.chain().len() - 1 ==> self.item(#[trigger] self.chain()[k]).next
                    == self.chain()[k + 1],
            forall|k: int|
                1 <= k < self.chain().len() ==> self.item(#[trigger] self.chain()[k]).prev
                    == self.chain()[k - 1],
    {
        let c = self.chain();
        let nb = self.bids.len() as int;
        let na = self.asks.len() as int;
        assert forall|k: int| 0 <= k < c.len() implies self.item(#[trigger] c[k]).price == c[k]
            && (k < c.len() - 1 ==> self.item(c[k]).next == c[k + 1]) && (1 <= k ==> self.item(
            c[k],
        ).prev == c[k - 1]) by {
            if 1 <= k <= nb {
                self.lemma_item_of_level(OrderType::Buy, nb - k);
            } else if nb + 2 <= k <= nb + na + 1 {
                self.lemma_item_of_level(OrderType::Sell, k - nb - 2);
            }
        }
    }

    proof fn lemma_chain_distinct(self)
        requires
            self.wf(),
        ensures
            forall|j: int, k: int|
                0 <= j < k < self.chain().len() ==> #[trigger] self.chain()[j]
                    != #[trigger] self.chain()[k],
    {
        let c = self.chain();
        let nb = self.bids.len() as int;
        let na = self.asks.len() as int;
        assert forall|j: int, k: int| 0 <= j < k < c.len() implies #[trigger] c[j]
            != #[trigger] c[k] by {
            if 1 <= j && k <= nb {
                assert(better(self.bids[nb - k].price, self.bids[nb - j].price, OrderType::Buy));
            } else if nb + 2 <= j && k <= nb + na + 1 {
                assert(better(
                    self.asks[j - nb - 2].price,
                    self.asks[k - nb - 2].price,
                    OrderType::Sell,
                ));
            } else if 1 <= j <= nb && nb + 2 <= k <= nb + na + 1 {
                assert(self.bids[nb - j].price != self.asks[k - nb - 2].price);
            } else if 1 <= j <= nb {
                assert(MIN_PRICE < self.bids[nb - j].price < TOP_PRICE);
            } else if nb + 2 <= j <= nb + na + 1 {
                assert(MIN_PRICE < self.asks[j - nb - 2].price < TOP_PRICE);
            } else if 1 <= k <= nb {
                assert(MIN_PRICE < self.bids[nb - k].price < TOP_PRICE);
            } else if nb + 2 <= k <= nb + na + 1 {
                assert(MIN_PRICE < self.asks[k - nb - 2].price < TOP_PRICE);
            }
        }
    }

    proof fn lemma_chain_rises(self)
        requires
            self.wf(),
        ensures
            forall|k: int|
                1 <= k < self.bids.len() ==> (#[trigger] self.chain()[k]).unwrap()
                    < self.chain()[k + 1].unwrap(),
            forall|k: int|
                self.bids.len() + 2 <= k < self.bids.len() + self.asks.len() + 1 ==> (
                #[trigger] self.chain()[k]).unwrap() < self.chain()[k + 1].unwrap(),
    {
        let c = self.chain();
        let nb = self.bids.len() as int;
        let na = self.asks.len() as int;
        assert forall|k: int| 1 <= k < nb implies (#[trigger] c[k]).unwrap() < c[k + 1].unwrap() by {
            assert(better(self.bids[nb - k - 1].price, self.bids[nb - k].price, OrderType::Buy));
        }
        assert forall|k: int| nb + 2 <= k < nb + na + 1 implies (#[trigger] c[k]).unwrap() < c[k
            + 1].unwrap() by {
            assert(better(
                self.asks[k - nb - 2].price,
                self.asks[k - nb - 1].price,
                OrderType::Sell,
            ));
        }
    }
}


/// The orders resting on a ladder, counted from level `i` on.
proof fn lemma_resting_skip(l: Seq<LevelView>, i: int)
    requires
        0 <= i < l.len(),
    ensures
        ladder_resting(l.skip(i)) == l[i].orders.len() + ladder_resting(l.skip(i + 1)),
{
    assert(l.skip(i).skip(1) =~= l.skip(i + 1));
}

impl PriceList {
    /// The number of orders resting on a side.
    pub fn resting_count(&self, t: OrderType) -> (n: u128)
        requires
            self.wf(),
        ensures
            n == self@.resting(t),
    {
        let l: &Vec<Level> = match t {
            OrderType::Buy => &self.bids,
            OrderType::Sell => &self.asks,
        };
        let ghost lv = self@.side(t);
        assert(levels_view(l@) == lv);
        let mut acc: u128 = 0;
        let mut i: usize = 0;
        assert(lv.skip(0) =~= lv);
        while i < l.len()
            invariant
                i <= l@.len(),
                lv == levels_view(l@),
                lv.len() == l@.len(),
                acc + ladder_resting(lv.skip(i as int)) == ladder_resting(lv),
                acc <= i * usize::MAX,
            decreases l@.len() - i,
        {
            proof {
                lemma_resting_skip(lv, i as int);
                assert((i + 1) * usize::MAX == i * usize::MAX + usize::MAX) by (nonlinear_arith);
                assert((i + 1) * usize::MAX <= 0x1_0000_0000_0000_0000 * 0x1_0000_0000_0000_0000)
                    by (nonlinear_arith)
                    requires
                        i + 1 <= 0x1_0000_0000_0000_0000,
                        usize::MAX <= 0x1_0000_0000_0000_0000,
                ;
            }
            let k: usize = l[i].orders.len();
            acc = acc + k as u128;
            i = i + 1;
        }
        assert(lv.skip(lv.len() as int) =~= Seq::<LevelView>::empty());
        acc
    }
}


impl PriceList {
    /// Whether a level stands at `price`, and whether the order rests in it.
    pub fn level_holds(&self, price: Price, hash: H256) -> (r: (bool, bool))
        requires
            self.wf(),
        ensures
            r.0 == self@.side_of(price).is_some(),
            r.1 == self@.rests_at(price, hash),
    {
        match find_level(&self.bids, price, Ghost(OrderType::Buy)) {
            Some(i) => {
                let (_rest, found) = without(&self.bids[i].orders, hash);
                (true, found)
            },
            None => match find_level(&self.asks, price, Ghost(OrderType::Sell)) {
                Some(i) => {
                    let (_rest, found) = without(&self.asks[i].orders, hash);
                    (true, found)
                },
                None => (false, false),
            },
        }
    }
}


/// Draining keeps a ladder well formed.
pub proof fn lemma_ladder_drained_wf(l: Seq<LevelView>, side: OrderType, orders: Map<H256, Order>)
    requires
        ladder_wf(l, side),
    ensures
        ladder_wf(ladder_drained(l, orders), side),
    decreases l.len(),
{
    if l.len() > 0 {
        let rest = drained(l[0].orders, orders);
        if rest.len() == 0 {
            let r = l.skip(1);
            assert forall|i: int, j: int| 0 <= i < j < r.len() implies better(
                (#[trigger] r[i]).price,
                (#[trigger] r[j]).price,
                side,
            ) by {
                assert(r[i] == l[i + 1] && r[j] == l[j + 1]);
            }
            assert forall|i: int| 0 <= i < r.len() implies MIN_PRICE < (#[trigger] r[i]).price
                < TOP_PRICE && r[i].orders.len() > 0 by {
                assert(r[i] == l[i + 1]);
            }
            lemma_ladder_drained_wf(r, side, orders);
        } else {
            lemma_update_wf(l, side, 0, LevelView { orders: rest, ..l[0] });
        }
    }
}

/// Draining a side keeps a book well formed.
pub proof fn lemma_drained_wf(b: BookView, side: OrderType, orders: Map<H256, Order>)
    requires
        b.wf(),
    ensures
        b.drain(side, orders).wf(),
{
    let b2 = b.drain(side, orders);
    lemma_ladder_drained_wf(b.side(side), side, orders);
    lemma_drained_prices(b.side(side), orders);
    assert forall|x: int, y: int| 0 <= x < b2.bids.len() && 0 <= y < b2.asks.len() implies (
    #[trigger] b2.bids[x]).price != (#[trigger] b2.asks[y]).price by {
        match side {
            OrderType::Buy => {
                let k = b.bids.len() - b2.bids.len();
                assert(b2.bids[x].price == b.bids[x + k].price);
            },
            OrderType::Sell => {
                let k = b.asks.len() - b2.asks.len();
                assert(b2.asks[y].price == b.asks[y + k].price);
            },
        }
    }
}


proof fn lemma_rank_search(l: Seq<LevelView>, p: Price, side: OrderType, i: int)
    requires
        0 <= i <= l.len(),
        forall|j: int| 0 <= j < i ==> better((#[trigger] l[j]).price, p, side),
    ensures
        exists|k: int| is_rank(l, p, side, k),
    decreases l.len() - i,
{
    if i == l.len() || !better(l[i].price, p, side) {
        assert(is_rank(l, p, side, i));
    } else {
        lemma_rank_search(l, p, side, i + 1);
    }
}

/// Every price has its place in every ladder.
pub proof fn lemma_rank_exists(l: Seq<LevelView>, p: Price, side: OrderType)
    ensures
        is_rank(l, p, side, rank(l, p, side)),
{
    lemma_rank_search(l, p, side, 0);
}

/// A new level at its place keeps a ladder well formed.
pub proof fn lemma_insert_wf(l: Seq<LevelView>, side: OrderType, x: LevelView)
    requires
        ladder_wf(l, side),
        !has_price(l, x.price),
        MIN_PRICE < x.price < TOP_PRICE,
        x.orders.len() > 0,
    ensures
        is_rank(l, x.price, side, rank(l, x.price, side)),
        ladder_wf(l.insert(rank(l, x.price, side), x), side),
{
    lemma_rank_exists(l, x.price, side);
    let price = x.price;
    let i = rank(l, price, side);
    let l2 = l.insert(i, x);
    assert forall|a: int, b: int| 0 <= a < b < l2.len() implies better(
        (#[trigger] l2[a]).price,
        (#[trigger] l2[b]).price,
        side,
    ) by {
        if b < i {
            assert(l2[a] == l[a] && l2[b] == l[b]);
        } else if b == i {
            assert(l2[a] == l[a]);
        } else if a < i {
            assert(l2[a] == l[a] && l2[b] == l[b - 1]);
            assert(better(l[a].price, price, side));
            if i < b - 1 {
                assert(better(l[i].price, l[b - 1].price, side));
            }
            assert(l[i].price != price);
        } else if a == i {
            assert(l2[b] == l[b - 1]);
            if i < b - 1 {
                assert(better(l[i].price, l[b - 1].price, side));
            }
            assert(l[i].price != price);
        } else {
            assert(l2[a] == l[a - 1] && l2[b] == l[b - 1]);
        }
    }
    assert forall|a: int| 0 <= a < l2.len() implies MIN_PRICE < (#[trigger] l2[a]).price
        < TOP_PRICE && l2[a].orders.len() > 0 by {
        if a < i {
            assert(l2[a] == l[a]);
        } else if a > i {
            assert(l2[a] == l[a - 1]);
        }
    }
}

/// An order that comes to rest keeps a book well formed.
pub proof fn lemma_append_wf(
    b: BookView,
    price: Price,
    hash: H256,
    sell: Balance,
    buy: Balance,
    side: OrderType,
)
    requires
        b.wf(),
        MIN_PRICE < price < TOP_PRICE,
    ensures
        b.append(price, hash, sell, buy, side).wf(),
{
    let b2 = b.append(price, hash, sell, buy, side);
    match b.side_of(price) {
        Some(t) => {
            let l = b.side(t);
            let i = index_of(l, price);
            lemma_update_disjoint(b, t, i, l[i].pushed(hash, sell, buy));
        },
        None => {
            let l = b.side(side);
            let x = LevelView { price, buy_amount: buy, sell_amount: sell, orders: seq![hash] };
            lemma_insert_wf(l, side, x);
            let r = rank(l, price, side);
            assert forall|i: int, j: int| 0 <= i < b2.bids.len() && 0 <= j < b2.asks.len() implies (
            #[trigger] b2.bids[i]).price != (#[trigger] b2.asks[j]).price by {
                match side {
                    OrderType::Buy => {
                        if i < r {
                            assert(b2.bids[i] == b.bids[i]);
                        } else if i > r {
                            assert(b2.bids[i] == b.bids[i - 1]);
                        } else {
                            assert(b.asks[j].price != price);
                        }
                    },
                    OrderType::Sell => {
                        if j < r {
                            assert(b2.asks[j] == b.asks[j]);
                        } else if j > r {
                            assert(b2.asks[j] == b.asks[j - 1]);
                        } else {
                            assert(b.bids[i].price != price);
                        }
                    },
                }
            }
        },
    }
}

/// A queue without one identifier: what is left was there before, is not
/// that identifier, and keeps its order; a queue that held nothing twice
/// still holds nothing twice.
pub proof fn lemma_filter_keeps(q: Seq<H256>, hash: H256)
    ensures
        q.filter(other_than(hash)).len() <= q.len(),
        forall|j: int|
            0 <= j < q.filter(other_than(hash)).len() ==> (#[trigger] q.filter(other_than(hash))[j])
                != hash && q.contains(q.filter(other_than(hash))[j]),
        q.no_duplicates() ==> q.filter(other_than(hash)).no_duplicates(),
        !q.contains(hash) ==> q.filter(other_than(hash)) == q,
    decreases q.len(),
{
    reveal(Seq::filter);
    let keep = other_than(hash);
    let f = q.filter(keep);
    if q.len() > 0 {
        let t = q.drop_last();
        lemma_filter_keeps(t, hash);
        let ft = t.filter(keep);
        assert forall|j: int| 0 <= j < f.len() implies (#[trigger] f[j]) != hash && q.contains(
            f[j],
        ) by {
            if j < ft.len() {
                assert(f[j] == ft[j]);
                let k = choose|k: int| 0 <= k < t.len() && t[k] == ft[j];
                assert(q[k] == f[j]);
            } else {
                assert(q[q.len() - 1] == f[j]);
            }
        }
        if q.no_duplicates() {
            assert(t.no_duplicates());
            assert forall|x: int, y: int| 0 <= x < f.len() && 0 <= y < f.len() && x != y implies f[x]
                != f[y] by {
                if x < ft.len() && y < ft.len() {
                } else if x < ft.len() {
                    let k = choose|k: int| 0 <= k < t.len() && t[k] == ft[x];
                    assert(q[k] == f[x]);
                } else if y < ft.len() {
                    let k = choose|k: int| 0 <= k < t.len() && t[k] == ft[y];
                    assert(q[k] == f[y]);
                }
            }
        }
        if !q.contains(hash) {
            assert(!t.contains(hash)) by {
                if t.contains(hash) {
                    let k = choose|k: int| 0 <= k < t.len() && t[k] == hash;
                    assert(q[k] == hash);
                }
            }
            assert(q[q.len() - 1] != hash);
            assert(f =~= q);
        }
    }
}

/// An order that leaves its level keeps a book well formed.
pub proof fn lemma_remove_order_wf(b: BookView, price: Price, hash: H256, sell: Balance, buy: Balance)
    requires
        b.wf(),
    ensures
        b.remove_order(price, hash, sell, buy).wf(),
{
    match b.side_of(price) {
        Some(t) => {
            let l = b.side(t);
            let i = index_of(l, price);
            let q = l[i].orders.filter(other_than(hash));
            if q.len() == 0 {
                lemma_remove_disjoint(b, t, i);
            } else {
                lemma_update_disjoint(b, t, i, l[i].lowered(sell, buy).with_orders(q));
            }
        },
        None => {},
    }
}


fn copy_levels(v: &Vec<Level>) -> (r: Vec<Level>)
    ensures
        levels_view(r@) == levels_view(v@),
{
    let mut r: Vec<Level> = Vec::new();
    let mut i: usize = 0;
    while i < v.len()
        invariant
            i <= v@.len(),
            r@.len() == i,
            forall|j: int| 0 <= j < i ==> (#[trigger] r@[j])@ == v@[j]@,
        decreases v@.len() - i,
    {
        let l = &v[i];
        r.push(
            Level {
                price: l.price,
                buy_amount: l.buy_amount,
                sell_amount: l.sell_amount,
                orders: copy_vec(&l.orders),
            },
        );
        i = i + 1;
    }
    assert(levels_view(r@) =~= levels_view(v@));
    r
}

impl Duplicate for PriceList {
    fn duplicate(&self) -> (r: Self) {
        PriceList { bids: copy_levels(&self.bids), asks: copy_levels(&self.asks) }
    }
}


/// Lowering the sums of a level keeps a book well formed and moves no order.
pub proof fn lemma_decrement(b: BookView, price: Price, sell: Balance, buy: Balance)
    requires
        b.wf(),
    ensures
        b.decrement(price, sell, buy).wf(),
        b.decrement(price, sell, buy).bids.len() == b.bids.len(),
        b.decrement(price, sell, buy).asks.len() == b.asks.len(),
        forall|i: int|
            0 <= i < b.bids.len() ==> (#[trigger] b.decrement(price, sell, buy).bids[i]).orders
                == b.bids[i].orders,
        forall|i: int|
            0 <= i < b.asks.len() ==> (#[trigger] b.decrement(price, sell, buy).asks[i]).orders
                == b.asks[i].orders,
        ladder_resting(b.decrement(price, sell, buy).bids) == ladder_resting(b.bids),
        ladder_resting(b.decrement(price, sell, buy).asks) == ladder_resting(b.asks),
{
    let b2 = b.decrement(price, sell, buy);
    match b.side_of(price) {
        Some(t) => {
            let l = b.side(t);
            let i = index_of(l, price);
            lemma_update_disjoint(b, t, i, l[i].lowered(sell, buy));
        },
        None => {},
    }
    lemma_same_queues(b.bids, b2.bids);
    lemma_same_queues(b.asks, b2.asks);
}

/// Ladders with the same queues hold the same number of orders.
proof fn lemma_same_queues(l: Seq<LevelView>, l2: Seq<LevelView>)
    requires
        l.len() == l2.len(),
        forall|i: int| 0 <= i < l.len() ==> (#[trigger] l2[i]).orders == l[i].orders,
    ensures
        ladder_resting(l2) == ladder_resting(l),
    decreases l.len(),
{
    if l.len() > 0 {
        assert forall|i: int| 0 <= i < l.skip(1).len() implies (#[trigger] l2.skip(1)[i]).orders
            == l.skip(1)[i].orders by {
            assert(l2.skip(1)[i] == l2[i + 1]);
            assert(l.skip(1)[i] == l[i + 1]);
        }
        lemma_same_queues(l.skip(1), l2.skip(1));
    }
}


/// Whether an order rests in a ladder.
pub open spec fn ladder_holds(l: Seq<LevelView>, h: H256) -> bool {
    exists|i: int, j: int|
        0 <= i < l.len() && 0 <= j < l[i].orders.len() && #[trigger] l[i].orders[j] == h
}

impl BookView {
    /// Whether an order rests in the book.
    pub open spec fn holds(self, h: H256) -> bool {
        ladder_holds(self.bids, h) || ladder_holds(self.asks, h)
    }
}

/// A drained queue is the back part of the queue.
pub proof fn lemma_drained_suffix(q: Seq<H256>, orders: Map<H256, Order>)
    ensures
        drained(q, orders).len() <= q.len(),
        drained(q, orders) == q.skip(q.len() - drained(q, orders).len()),
    decreases q.len(),
{
    if q.len() > 0 && is_done(orders, q[0]) {
        lemma_drained_suffix(q.skip(1), orders);
        let d = drained(q.skip(1), orders);
        assert(q.skip(1).skip(q.skip(1).len() - d.len()) =~= q.skip(q.len() - d.len()));
    } else {
        assert(q.skip(0) =~= q);
    }
}

/// Draining brings no order into a ladder.
pub proof fn lemma_drained_holds(l: Seq<LevelView>, orders: Map<H256, Order>, h: H256)
    requires
        ladder_holds(ladder_drained(l, orders), h),
    ensures
        ladder_holds(l, h),
    decreases l.len(),
{
    if l.len() > 0 {
        let rest = drained(l[0].orders, orders);
        let d = ladder_drained(l, orders);
        let (i, j) = choose|i: int, j: int|
            0 <= i < d.len() && 0 <= j < d[i].orders.len() && #[trigger] d[i].orders[j] == h;
        if rest.len() == 0 {
            lemma_drained_holds(l.skip(1), orders, h);
            let (i1, j1) = choose|i1: int, j1: int|
                0 <= i1 < l.skip(1).len() && 0 <= j1 < l.skip(1)[i1].orders.len()
                    && #[trigger] l.skip(1)[i1].orders[j1] == h;
            assert(l[i1 + 1].orders[j1] == h);
        } else {
            lemma_drained_suffix(l[0].orders, orders);
            if i == 0 {
                let k = l[0].orders.len() - rest.len();
                assert(l[0].orders[j + k] == h);
            } else {
                assert(l[i].orders[j] == h);
            }
        }
    }
}

/// Lowering sums, draining, and taking an order out bring no order into a
/// book; an order that comes to rest brings only itself.
pub proof fn lemma_holds_after(b: BookView, orders: Map<H256, Order>, h: H256)
    ensures
        forall|price: Price, sell: Balance, buy: Balance| #[trigger]
            b.decrement(price, sell, buy).holds(h) ==> b.holds(h),
        forall|t: OrderType| #[trigger] b.drain(t, orders).holds(h) ==> b.holds(h),
{
    assert forall|price: Price, sell: Balance, buy: Balance| #[trigger]
        b.decrement(price, sell, buy).holds(h) implies b.holds(h) by {
        let b2 = b.decrement(price, sell, buy);
        match b.side_of(price) {
            Some(t) => {
                let l = b.side(t);
                let l2 = b2.side(t);
                if ladder_holds(l2, h) {
                    let (i, j) = choose|i: int, j: int|
                        0 <= i < l2.len() && 0 <= j < l2[i].orders.len()
                            && #[trigger] l2[i].orders[j] == h;
                    assert(l[i].orders[j] == h);
                }
            },
            None => {},
        }
    }
    assert forall|t: OrderType| #[trigger] b.drain(t, orders).holds(h) implies b.holds(h) by {
        if ladder_holds(b.drain(t, orders).side(t), h) {
            lemma_drained_holds(b.side(t), orders, h);
        }
    }
}

/// An order that comes to rest brings only itself into a book.
pub proof fn lemma_holds_after_append(
    b: BookView,
    price: Price,
    hash: H256,
    sell: Balance,
    buy: Balance,
    side: OrderType,
    h: H256,
)
    requires
        b.append(price, hash, sell, buy, side).holds(h),
    ensures
        b.holds(h) || h == hash,
{
    let b2 = b.append(price, hash, sell, buy, side);
    match b.side_of(price) {
        Some(t) => {
            let l = b.side(t);
            let l2 = b2.side(t);
            let i0 = index_of(l, price);
            if ladder_holds(l2, h) {
                let (i, j) = choose|i: int, j: int|
                    0 <= i < l2.len() && 0 <= j < l2[i].orders.len() && #[trigger] l2[i].orders[j]
                        == h;
                if i == i0 && j == l[i0].orders.len() {
                } else {
                    assert(l[i].orders[j] == h);
                }
            }
        },
        None => {
            let l = b.side(side);
            let l2 = b2.side(side);
            lemma_rank_exists(l, price, side);
            let r = rank(l, price, side);
            if ladder_holds(l2, h) {
                let (i, j) = choose|i: int, j: int|
                    0 <= i < l2.len() && 0 <= j < l2[i].orders.len() && #[trigger] l2[i].orders[j]
                        == h;
                if i < r {
                    assert(l[i].orders[j] == h);
                } else if i > r {
                    assert(l[i - 1].orders[j] == h);
                }
            }
        },
    }
}

/// An order that leaves its level brings no order into a book.
pub proof fn lemma_holds_after_remove(
    b: BookView,
    price: Price,
    hash: H256,
    sell: Balance,
    buy: Balance,
    h: H256,
)
    requires
        b.remove_order(price, hash, sell, buy).holds(h),
    ensures
        b.holds(h),
{
    let b2 = b.remove_order(price, hash, sell, buy);
    match b.side_of(price) {
        Some(t) => {
            let l = b.side(t);
            let l2 = b2.side(t);
            let i0 = index_of(l, price);
            let q = l[i0].orders.filter(other_than(hash));
            lemma_filter_keeps(l[i0].orders, hash);
            if ladder_holds(l2, h) {
                let (i, j) = choose|i: int, j: int|
                    0 <= i < l2.len() && 0 <= j < l2[i].orders.len() && #[trigger] l2[i].orders[j]
                        == h;
                if q.len() == 0 {
                    let i1 = if i < i0 { i } else { i + 1 };
                    assert(l[i1].orders[j] == h);
                } else if i != i0 {
                    assert(l[i].orders[j] == h);
                } else {
                    assert(l[i0].orders.contains(q[j]));
                    let k = choose|k: int| 0 <= k < l[i0].orders.len() && l[i0].orders[k] == q[j];
                    assert(l[i0].orders[k] == h);
                }
            }
        },
        None => {},
    }
}

} // verus!
