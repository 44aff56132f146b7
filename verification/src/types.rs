//! Plain data of the exchange: identifiers, orders, trades, trade pairs,
//! configuration, events and errors.

use vstd::prelude::*;

verus! {

/// A 256-bit identifier, held as two 128-bit halves.
#[derive(Clone, Copy, Debug, PartialEq, Eq, Structural, Hash)]
pub struct H256 {
    pub hi: u128,
    pub lo: u128,
}

/// Accounts are named by 256-bit identifiers as well.
pub type AccountId = H256;

/// A price, scaled by the price factor of the configuration.
pub type Price = u128;

/// An amount of a token.
pub type Balance = u128;

/// The height of a block.
pub type BlockNumber = u64;

/// The price of the bottom sentinel of every book.
pub const MIN_PRICE: u128 = 0;

/// The price of the top sentinel of every book.
pub const TOP_PRICE: u128 = 0xffff_ffff_ffff_ffff_ffff_ffff_ffff_ffff;

/// The highest price an order may name; it lies strictly below the top sentinel.
pub const MAX_PRICE: u128 = 0xffff_ffff_ffff_ffff_ffff_ffff_ffff_fffe;

/// The largest amount an order may name.
pub const MAX_AMOUNT: u128 = 0xffff_ffff_ffff_ffff_ffff_ffff_ffff_ffff;

impl H256 {
    /// The identifier whose low 64 bits are `n` and whose other bits are zero.
    pub fn from_low_u64(n: u64) -> (h: H256)
        ensures
            h.hi == 0,
            h.lo == n as u128,
    {
        H256 { hi: 0, lo: n as u128 }
    }
}

/// The side of an order.
#[derive(Clone, Copy, Debug, PartialEq, Eq, Structural)]
pub enum OrderType {
    Buy,
    Sell,
}

impl OrderType {
    /// The opposite side.
    pub open spec fn flip(self) -> OrderType {
        match self {
            OrderType::Buy => OrderType::Sell,
            OrderType::Sell => OrderType::Buy,
        }
    }

    /// The opposite side: `Buy` for `Sell` and `Sell` for `Buy`.
    pub fn not(self) -> (r: OrderType)
        ensures
            r == self.flip(),
    {
        match self {
            OrderType::Buy => OrderType::Sell,
            OrderType::Sell => OrderType::Buy,
        }
    }
}

/// How an order is priced.
#[derive(Clone, Copy, Debug, PartialEq, Eq, Structural)]
pub enum OrderOpt {
    Limit,
    Market,
}

/// The life cycle of an order.
#[derive(Clone, Copy, Debug, PartialEq, Eq, Structural)]
pub enum OrderStatus {
    Created,
    PartialFilled,
    Filled,
    Canceled,
}

/// An order. On a `Buy` the owner gives the base token and receives the quote
/// token; on a `Sell` the owner gives the quote token and receives the base
/// token. `sell_amount` is what the owner gives in all, `buy_amount` what the
/// owner receives in all, and the two `remained_*` fields are the parts of
/// them that are still open.
#[derive(Clone, Copy, Debug, PartialEq, Eq, Structural)]
pub struct Order {
    pub hash: H256,
    pub base: H256,
    pub quote: H256,
    pub owner: AccountId,
    pub price: Price,
    pub sell_amount: Balance,
    pub buy_amount: Balance,
    pub remained_sell_amount: Balance,
    pub remained_buy_amount: Balance,
    pub oopt: OrderOpt,
    pub otype: OrderType,
    pub status: OrderStatus,
}

/// A limit order is an order.
pub type LimitOrder = Order;

impl Order {
    /// An order is finished once it is cancelled, or filled with nothing left to receive.
    pub open spec fn finished(self) -> bool {
        self.status == OrderStatus::Canceled || (self.status == OrderStatus::Filled
            && self.remained_buy_amount == 0)
    }

    /// A fresh order with the given identifier: nothing filled, status `Created`.
    pub fn new(
        hash: H256,
        base: H256,
        quote: H256,
        owner: AccountId,
        price: Price,
        sell_amount: Balance,
        buy_amount: Balance,
        oopt: OrderOpt,
        otype: OrderType,
    ) -> (o: Order)
        ensures
            o == (Order {
                hash,
                base,
                quote,
                owner,
                price,
                sell_amount,
                buy_amount,
                remained_sell_amount: sell_amount,
                remained_buy_amount: buy_amount,
                oopt,
                otype,
                status: OrderStatus::Created,
            }),
    {
        Order {
            hash,
            base,
            quote,
            owner,
            price,
            sell_amount,
            buy_amount,
            remained_sell_amount: sell_amount,
            remained_buy_amount: buy_amount,
            oopt,
            otype,
            status: OrderStatus::Created,
        }
    }

    /// Whether the order is finished.
    pub fn is_finished(&self) -> (r: bool)
        ensures
            r == self.finished(),
    {
        (self.status == OrderStatus::Filled && self.remained_buy_amount == 0) || self.status
            == OrderStatus::Canceled
    }
}

/// A trade between a resting order (the maker) and an arriving one (the taker).
/// `base_amount` is the quantity of the base token that changed hands and
/// `quote_amount` the quantity of the quote token, whoever bought or sold.
#[derive(Clone, Copy, Debug, PartialEq, Eq, Structural)]
pub struct Trade {
    pub hash: H256,
    pub base: H256,
    pub quote: H256,
    pub buyer: AccountId,
    pub seller: AccountId,
    pub maker: AccountId,
    pub taker: AccountId,
    pub otype: OrderType,
    pub price: Price,
    pub base_amount: Balance,
    pub quote_amount: Balance,
}

impl Trade {
    /// The trade that a fill of `base_amount` against `quote_amount` between the
    /// two orders makes, under the identifier `hash`.
    pub open spec fn of(
        hash: H256,
        base: H256,
        quote: H256,
        maker_order: Order,
        taker_order: Order,
        base_amount: Balance,
        quote_amount: Balance,
    ) -> Trade {
        Trade {
            hash,
            base,
            quote,
            buyer: if taker_order.otype == OrderType::Buy {
                taker_order.owner
            } else {
                maker_order.owner
            },
            seller: if taker_order.otype == OrderType::Buy {
                maker_order.owner
            } else {
                taker_order.owner
            },
            maker: maker_order.owner,
            taker: taker_order.owner,
            otype: taker_order.otype,
            price: maker_order.price,
            base_amount,
            quote_amount,
        }
    }

    /// Records a fill: the taker's side names buyer and seller, the maker's
    /// price is the trade's price.
    pub fn new(
        hash: H256,
        base: H256,
        quote: H256,
        maker_order: &Order,
        taker_order: &Order,
        base_amount: Balance,
        quote_amount: Balance,
    ) -> (t: Trade)
        ensures
            t == Trade::of(hash, base, quote, *maker_order, *taker_order, base_amount, quote_amount),
    {
        let buyer: AccountId;
        let seller: AccountId;
        if taker_order.otype == OrderType::Buy {
            buyer = taker_order.owner;
            seller = maker_order.owner;
        } else {
            buyer = maker_order.owner;
            seller = taker_order.owner;
        }
        Trade {
            hash,
            base,
            quote,
            buyer,
            seller,
            maker: maker_order.owner,
            taker: taker_order.owner,
            otype: taker_order.otype,
            price: maker_order.price,
            base_amount,
            quote_amount,
        }
    }
}

/// A pair of tokens that can be traded against each other, with its rolling
/// statistics over the last day.
#[derive(Clone, Copy, Debug, PartialEq, Eq, Structural)]
pub struct TradePair {
    pub hash: H256,
    pub base: H256,
    pub quote: H256,
    pub latest_matched_price: Option<Price>,
    pub one_day_trade_volume: Balance,
    pub one_day_highest_price: Option<Price>,
    pub one_day_lowest_price: Option<Price>,
}

impl View for H256 {
    type V = H256;

    open spec fn view(&self) -> H256 {
        *self
    }
}

impl View for Order {
    type V = Order;

    open spec fn view(&self) -> Order {
        *self
    }
}

impl View for Trade {
    type V = Trade;

    open spec fn view(&self) -> Trade {
        *self
    }
}

impl View for TradePair {
    type V = TradePair;

    open spec fn view(&self) -> TradePair {
        *self
    }
}

/// The constants an exchange is set up with.
#[derive(Clone, Copy, Debug, PartialEq, Eq, Structural)]
pub struct Config {
    pub price_factor: u128,
    pub blocks_per_day: u32,
    pub opened_orders_array_cap: u8,
    pub closed_orders_array_cap: u8,
}

/// What the host knows and the exchange does not: the height of the block
/// being built and the randomness seed of that block.
#[derive(Clone, Copy, Debug, PartialEq, Eq, Structural)]
pub struct Host {
    pub block_number: BlockNumber,
    pub random_seed: H256,
}

/// Why a call was turned down.
#[derive(Clone, Copy, Debug, PartialEq, Eq, Structural)]
pub enum Error {
    BoundsCheckFailed,
    BoundsCheckFailedPrice,
    BoundsCheckFailedAmount,
    BoundsCheckFailedAmount2,
    BoundsCheckFailedAmountCounter,
    PriceLengthCheckFailed,
    NumberCastError,
    OverflowError,
    NoMatchingTradePair,
    BaseEqualQuote,
    TokenOwnerNotFound,
    SenderNotEqualToBaseOrQuoteOwner,
    TradePairExisted,
    OrderMatchGetPriceError,
    OrderMatchGetLinkedListItemError,
    OrderMatchGetOrderError,
    OrderMatchSubstractError,
    OrderMatchOrderIsNotFinished,
    NoMatchingOrder,
    CanOnlyCancelOwnOrder,
    CanOnlyCancelNotFinishedOrder,
    DataBucketOfTradePairNotExist,
    /// The identifier derived for a new pair, order or trade is already taken.
    HashCollision,
    /// The cancelled order does not rest at its price.
    OrderNotInBook,
    /// The token ledger turned the call down.
    Token(crate::tokens::Error),
}

/// What a successful call announces.
#[derive(Clone, Copy, Debug, PartialEq, Eq, Structural)]
pub enum Event {
    TradePairCreated { owner: AccountId, hash: H256, trade_pair: TradePair },
    OrderCreated {
        owner: AccountId,
        base_token: H256,
        quote_token: H256,
        order_hash: H256,
        limit_order: Order,
    },
    TradeCreated {
        owner: AccountId,
        base_token: H256,
        quote_token: H256,
        trade_hash: H256,
        trade: Trade,
    },
    OrderCanceled { owner: AccountId, order_hash: H256 },
}


impl crate::table::Duplicate for Order {
    fn duplicate(&self) -> (r: Self) {
        *self
    }
}

impl crate::table::Duplicate for Trade {
    fn duplicate(&self) -> (r: Self) {
        *self
    }
}

impl crate::table::Duplicate for TradePair {
    fn duplicate(&self) -> (r: Self) {
        *self
    }
}

} // verus!
