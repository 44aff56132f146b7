//! Fixed-point conversions between the two tokens of a pair.
//!
//! A price is scaled by the price factor `f`. An amount `x` of what a seller
//! gives is worth `x · price / f` of what the seller receives, and an amount
//! `y` of what a buyer gives is worth `y · f / price` of what the buyer
//! receives. All quotients round down and are taken in 256 bits.

use vstd::prelude::*;
use crate::types::{Balance, Error, Order, OrderType, Price, MAX_AMOUNT, MAX_PRICE};
use crate::wide::{lemma_product_fits, mul_div, wide_mul_div, Wide};

verus! {

/// What the bounds on a new limit order say of a price and an amount.
pub open spec fn bounds(price: Price, sell_amount: Balance) -> Result<(), Error> {
    if !(0 < price <= MAX_PRICE) {
        Err(Error::BoundsCheckFailedPrice)
    } else if !(0 < sell_amount <= MAX_AMOUNT) {
        Err(Error::BoundsCheckFailedAmount)
    } else {
        Ok(())
    }
}

/// Checks `0 < price <= MAX_PRICE` and `0 < sell_amount <= MAX_AMOUNT`.
pub fn ensure_bounds(price: Price, sell_amount: Balance) -> (r: Result<(), Error>)
    ensures
        r == bounds(price, sell_amount),
{
    if !(price > 0 && price <= MAX_PRICE) {
        return Err(Error::BoundsCheckFailedPrice);
    }
    if !(sell_amount > 0 && sell_amount <= MAX_AMOUNT) {
        return Err(Error::BoundsCheckFailedAmount);
    }
    Ok(())
}

/// What an order of `amount` at `price` receives in all: a buyer's amount is
/// divided by the price, a seller's is multiplied by it.
pub open spec fn counterparty(otype: OrderType, price: int, amount: int, f: int) -> int {
    match otype {
        OrderType::Buy => mul_div(amount, f, price),
        OrderType::Sell => mul_div(amount, price, f),
    }
}

/// The counterparty amount converted back into what the order gives.
pub open spec fn round_trip(otype: OrderType, price: int, amount: int, f: int) -> int {
    match otype {
        OrderType::Buy => mul_div(counterparty(otype, price, amount, f), price, f),
        OrderType::Sell => mul_div(counterparty(otype, price, amount, f), f, price),
    }
}

/// The counterparty amount of an order, or the reason the order is refused:
/// a zero price, a conversion that does not come back to `amount`, or a
/// counterparty amount that is zero or above `MAX_AMOUNT`.
pub open spec fn counterparty_amount_bounds(
    otype: OrderType,
    price: Price,
    amount: Balance,
    f: u128,
) -> Result<Balance, Error> {
    if price == 0 {
        Err(Error::BoundsCheckFailedPrice)
    } else if round_trip(otype, price as int, amount as int, f as int) != amount {
        Err(Error::BoundsCheckFailedAmount2)
    } else if counterparty(otype, price as int, amount as int, f as int) == 0 || counterparty(
        otype,
        price as int,
        amount as int,
        f as int,
    ) > MAX_AMOUNT {
        Err(Error::BoundsCheckFailedAmountCounter)
    } else {
        Ok(counterparty(otype, price as int, amount as int, f as int) as u128)
    }
}

/// `(x / d) · d <= x` for a positive divisor, and the quotient is not negative.
pub proof fn lemma_div_mul_le(x: int, d: int)
    requires
        0 <= x,
        0 < d,
    ensures
        0 <= x / d,
        (x / d) * d <= x,
        x < (x / d) * d + d,
{
    vstd::arithmetic::div_mod::lemma_fundamental_div_mod(x, d);
    vstd::arithmetic::div_mod::lemma_mod_bound(x, d);
    vstd::arithmetic::div_mod::lemma_div_pos_is_pos(x, d);
    assert(d * (x / d) == (x / d) * d) by (nonlinear_arith);
}

/// Computes the counterparty amount of an order and checks that the
/// conversion loses nothing.
pub fn ensure_counterparty_amount_bounds(
    otype: OrderType,
    price: Price,
    amount: Balance,
    price_factor: u128,
) -> (r: Result<Balance, Error>)
    requires
        price_factor > 0,
    ensures
        r == counterparty_amount_bounds(otype, price, amount, price_factor),
{
    if price == 0 {
        return Err(Error::BoundsCheckFailedPrice);
    }
    let amount_w = Wide::from_u128(amount);
    let counterparty_amount: Wide;
    let amount_v2: Wide;
    match otype {
        OrderType::Buy => {
            proof {
                lemma_product_fits(amount, price_factor);
            }
            counterparty_amount = wide_mul_div(amount_w, price_factor, price);
            proof {
                lemma_div_mul_le((amount as int) * (price_factor as int), price as int);
            }
            amount_v2 = wide_mul_div(counterparty_amount, price, price_factor);
        },
        OrderType::Sell => {
            proof {
                lemma_product_fits(amount, price);
            }
            counterparty_amount = wide_mul_div(amount_w, price, price_factor);
            proof {
                lemma_div_mul_le((amount as int) * (price as int), price_factor as int);
            }
            amount_v2 = wide_mul_div(counterparty_amount, price_factor, price);
        },
    }
    let back = amount_v2.to_u128();
    match back {
        Some(v) => {
            if v != amount {
                return Err(Error::BoundsCheckFailedAmount2);
            }
        },
        None => {
            return Err(Error::BoundsCheckFailedAmount2);
        },
    }
    match counterparty_amount.to_u128() {
        Some(c) => {
            if c == 0 {
                Err(Error::BoundsCheckFailedAmountCounter)
            } else {
                Ok(c)
            }
        },
        None => Err(Error::BoundsCheckFailedAmountCounter),
    }
}

/// Whether an order at `order_price` accepts a resting level at `item_price`:
/// a seller accepts any price at or above its own, a buyer any at or below.
pub open spec fn matches_price(order_price: Price, otype: OrderType, item_price: Price) -> bool {
    match otype {
        OrderType::Sell => order_price <= item_price,
        OrderType::Buy => order_price >= item_price,
    }
}

/// Whether an order at `order_price` accepts a resting level at `item_price`.
pub fn price_matched(order_price: Price, otype: OrderType, item_price: Price) -> (r: bool)
    ensures
        r == matches_price(order_price, otype, item_price),
{
    match otype {
        OrderType::Sell => order_price <= item_price,
        OrderType::Buy => order_price >= item_price,
    }
}

/// Of a maker and a taker, the order on the `Buy` side.
pub open spec fn buyer_of(maker: Order, taker: Order) -> Order {
    if taker.otype == OrderType::Buy {
        taker
    } else {
        maker
    }
}

/// Of a maker and a taker, the order on the `Sell` side.
pub open spec fn seller_of(maker: Order, taker: Order) -> Order {
    if taker.otype == OrderType::Buy {
        maker
    } else {
        taker
    }
}

/// The quote amount that pays for all the seller still wants to receive.
pub open spec fn quote_for_seller(maker: Order, taker: Order, f: u128) -> int {
    mul_div(seller_of(maker, taker).remained_buy_amount as int, f as int, maker.price as int)
}

/// The base amount that pays for all the buyer still wants to receive.
pub open spec fn base_for_buyer(maker: Order, taker: Order, f: u128) -> int {
    mul_div(buyer_of(maker, taker).remained_buy_amount as int, maker.price as int, f as int)
}

/// Whether this fill completes the seller (otherwise it completes the buyer).
/// Where the seller wants no more base than the buyer still offers, the seller
/// is completed unless the buyer wants less quote than that costs. Where the
/// seller wants more, the buyer is completed if its whole demand costs no more
/// base than the seller wants.
pub open spec fn seller_fills(maker: Order, taker: Order, f: u128) -> bool {
    let buyer = buyer_of(maker, taker);
    let seller = seller_of(maker, taker);
    if seller.remained_buy_amount <= buyer.remained_sell_amount {
        !(buyer.remained_buy_amount < quote_for_seller(maker, taker, f))
    } else {
        !(seller.remained_buy_amount >= base_for_buyer(maker, taker, f))
    }
}

/// The quote amount of a fill that completes the seller: the rounded-down
/// cost of the seller's demand, and one more where that division left a
/// remainder and the buyer still wants more than the rounded-down amount.
pub open spec fn aligned_quote(maker: Order, taker: Order, f: u128) -> int {
    let q = quote_for_seller(maker, taker, f);
    if mul_div(q, maker.price as int, f as int) != seller_of(maker, taker).remained_buy_amount
        && buyer_of(maker, taker).remained_buy_amount > q {
        q + 1
    } else {
        q
    }
}

/// The base amount of a fill that completes the buyer, aligned in the same way.
pub open spec fn aligned_base(maker: Order, taker: Order, f: u128) -> int {
    let b = base_for_buyer(maker, taker, f);
    if mul_div(b, f as int, maker.price as int) != buyer_of(maker, taker).remained_buy_amount
        && seller_of(maker, taker).remained_buy_amount > b {
        b + 1
    } else {
        b
    }
}

/// The base and quote amounts that one fill between `maker` and `taker`
/// moves, at the maker's price.
pub open spec fn fill_amounts(maker: Order, taker: Order, f: u128) -> Result<
    (Balance, Balance),
    Error,
> {
    if maker.price == 0 {
        Err(Error::BoundsCheckFailedPrice)
    } else if seller_fills(maker, taker, f) {
        if aligned_quote(maker, taker, f) > MAX_AMOUNT {
            Err(Error::NumberCastError)
        } else {
            Ok((seller_of(maker, taker).remained_buy_amount, aligned_quote(maker, taker, f) as u128))
        }
    } else {
        if aligned_base(maker, taker, f) > MAX_AMOUNT {
            Err(Error::NumberCastError)
        } else {
            Ok((aligned_base(maker, taker, f) as u128, buyer_of(maker, taker).remained_buy_amount))
        }
    }
}

/// `a · b / d` narrowed to 128 bits, `None` where it does not fit.
pub fn mul_div_u128(a: u128, b: u128, d: u128) -> (r: Option<u128>)
    requires
        d > 0,
    ensures
        mul_div(a as int, b as int, d as int) >= 0,
        mul_div(a as int, b as int, d as int) <= u128::MAX ==> r == Some(
            mul_div(a as int, b as int, d as int) as u128,
        ),
        mul_div(a as int, b as int, d as int) > u128::MAX ==> r.is_none(),
{
    proof {
        lemma_product_fits(a, b);
        lemma_div_mul_le((a as int) * (b as int), d as int);
    }
    let w = wide_mul_div(Wide::from_u128(a), b, d);
    w.to_u128()
}

/// Computes the base and quote amounts of one fill between a resting order
/// and an arriving one, at the resting order's price.
pub fn calculate_ex_amount(maker_order: &Order, taker_order: &Order, price_factor: u128) -> (r:
    Result<(Balance, Balance), Error>)
    requires
        price_factor > 0,
    ensures
        r == fill_amounts(*maker_order, *taker_order, price_factor),
{
    let price: u128 = maker_order.price;
    if price == 0 {
        return Err(Error::BoundsCheckFailedPrice);
    }
    let buyer_order: &Order;
    let seller_order: &Order;
    if taker_order.otype == OrderType::Buy {
        buyer_order = taker_order;
        seller_order = maker_order;
    } else {
        buyer_order = maker_order;
        seller_order = taker_order;
    }
    let seller_order_filled: bool;
    if seller_order.remained_buy_amount <= buyer_order.remained_sell_amount {
        let quote_qty = mul_div_u128(seller_order.remained_buy_amount, price_factor, price);
        seller_order_filled = match quote_qty {
            Some(q) => !(buyer_order.remained_buy_amount < q),
            None => false,
        };
    } else {
        let base_qty = mul_div_u128(buyer_order.remained_buy_amount, price, price_factor);
        seller_order_filled = match base_qty {
            Some(b) => !(seller_order.remained_buy_amount >= b),
            None => true,
        };
    }
    if seller_order_filled {
        match mul_div_u128(seller_order.remained_buy_amount, price_factor, price) {
            None => Err(Error::NumberCastError),
            Some(q) => {
                let back = mul_div_u128(q, price, price_factor);
                let exact: bool = match back {
                    Some(v) => v == seller_order.remained_buy_amount,
                    None => false,
                };
                if !exact && buyer_order.remained_buy_amount > q {
                    Ok((seller_order.remained_buy_amount, q + 1))
                } else {
                    Ok((seller_order.remained_buy_amount, q))
                }
            },
        }
    } else {
        match mul_div_u128(buyer_order.remained_buy_amount, price, price_factor) {
            None => Err(Error::NumberCastError),
            Some(b) => {
                let back = mul_div_u128(b, price_factor, price);
                let exact: bool = match back {
                    Some(v) => v == buyer_order.remained_buy_amount,
                    None => false,
                };
                if !exact && seller_order.remained_buy_amount > b {
                    Ok((b + 1, buyer_order.remained_buy_amount))
                } else {
                    Ok((b, buyer_order.remained_buy_amount))
                }
            },
        }
    }
}


/// An accepted order sits on an exact point of the price lattice: its
/// counterparty amount, converted back at the same price, gives the order's
/// own amount again, and it is neither zero nor above the largest amount. A
/// buy of `amount` at `price` thus satisfies
/// `amount · f / price · price / f == amount`, and a sell
/// `amount · price / f · f / price == amount`.
pub proof fn lemma_accepted_is_exact(otype: OrderType, price: Price, amount: Balance, f: u128)
    requires
        f > 0,
        counterparty_amount_bounds(otype, price, amount, f).is_ok(),
    ensures
        price > 0,
        match otype {
            OrderType::Buy => mul_div(
                mul_div(amount as int, f as int, price as int),
                price as int,
                f as int,
            ) == amount,
            OrderType::Sell => mul_div(
                mul_div(amount as int, price as int, f as int),
                f as int,
                price as int,
            ) == amount,
        },
        0 < counterparty_amount_bounds(otype, price, amount, f).unwrap() <= MAX_AMOUNT,
        counterparty_amount_bounds(otype, price, amount, f).unwrap() == counterparty(
            otype,
            price as int,
            amount as int,
            f as int,
        ),
{
    match otype {
        OrderType::Buy => {
            lemma_product_fits(amount, f);
            lemma_div_mul_le((amount as int) * (f as int), price as int);
        },
        OrderType::Sell => {
            lemma_product_fits(amount, price);
            lemma_div_mul_le((amount as int) * (price as int), f as int);
        },
    }
}

/// An order whose amount does not come back from the conversion is refused.
pub proof fn lemma_inexact_is_refused(otype: OrderType, price: Price, amount: Balance, f: u128)
    requires
        round_trip(otype, price as int, amount as int, f as int) != amount,
    ensures
        counterparty_amount_bounds(otype, price, amount, f).is_err(),
{
}

/// Every fill completes one of its two orders: the seller receives all the
/// base it still asks for, or the buyer all the quote.
pub proof fn lemma_fill_completes_one_side(maker: Order, taker: Order, f: u128)
    requires
        fill_amounts(maker, taker, f).is_ok(),
    ensures
        seller_fills(maker, taker, f) ==> fill_amounts(maker, taker, f).unwrap().0 == seller_of(
            maker,
            taker,
        ).remained_buy_amount,
        !seller_fills(maker, taker, f) ==> fill_amounts(maker, taker, f).unwrap().1 == buyer_of(
            maker,
            taker,
        ).remained_buy_amount,
{
}

/// The two amounts of a fill are each other's conversion at the maker's
/// price, to within one unit: where the fill completes the seller,
/// `(quote - 1) · price <= base · f < (quote + 1) · price`; where it
/// completes the buyer, `(base - 1) · f <= quote · price < (base + 1) · f`.
pub proof fn lemma_fill_within_one_unit(maker: Order, taker: Order, f: u128)
    requires
        f > 0,
        fill_amounts(maker, taker, f).is_ok(),
    ensures
        ({
            let (base, quote) = fill_amounts(maker, taker, f).unwrap();
            let p = maker.price as int;
            &&& p > 0
            &&& seller_fills(maker, taker, f) ==> (quote - 1) * p <= base * f < (quote + 1) * p
            &&& !seller_fills(maker, taker, f) ==> (base - 1) * f <= quote * p < (base + 1) * f
        }),
{
    let p = maker.price as int;
    let (base, quote) = fill_amounts(maker, taker, f).unwrap();
    if seller_fills(maker, taker, f) {
        let x = (base as int) * (f as int);
        lemma_product_fits(base, f);
        lemma_div_mul_le(x, p);
        let q0 = x / p;
        assert(q0 == quote_for_seller(maker, taker, f));
        assert((quote - 1) * p <= x < (quote + 1) * p) by (nonlinear_arith)
            requires
                q0 * p <= x,
                x < q0 * p + p,
                quote == q0 || quote == q0 + 1,
                p > 0,
        ;
    } else {
        let x = (quote as int) * p;
        lemma_product_fits(quote, maker.price);
        lemma_div_mul_le(x, f as int);
        let b0 = x / (f as int);
        assert(b0 == base_for_buyer(maker, taker, f));
        assert((base - 1) * f <= x < (base + 1) * f) by (nonlinear_arith)
            requires
                b0 * f <= x,
                x < b0 * f + f,
                base == b0 || base == b0 + 1,
                f > 0,
        ;
    }
}

/// Where the conversion at the maker's price leaves no remainder, a fill pays
/// both sides exactly: each amount is the conversion of the other.
pub proof fn lemma_exact_fill_round_trip(maker: Order, taker: Order, f: u128)
    requires
        f > 0,
        fill_amounts(maker, taker, f).is_ok(),
        seller_fills(maker, taker, f) ==> (seller_of(maker, taker).remained_buy_amount * f)
            % (maker.price as int) == 0,
        !seller_fills(maker, taker, f) ==> (buyer_of(maker, taker).remained_buy_amount
            * maker.price) % (f as int) == 0,
    ensures
        ({
            let (base, quote) = fill_amounts(maker, taker, f).unwrap();
            &&& mul_div(base as int, f as int, maker.price as int) == quote
            &&& mul_div(quote as int, maker.price as int, f as int) == base
        }),
{
    let p = maker.price as int;
    let fi = f as int;
    if seller_fills(maker, taker, f) {
        let b = seller_of(maker, taker).remained_buy_amount as int;
        let x = b * fi;
        lemma_product_fits(seller_of(maker, taker).remained_buy_amount, f);
        vstd::arithmetic::div_mod::lemma_fundamental_div_mod(x, p);
        let q0 = x / p;
        assert(p * q0 == x);
        assert(q0 * p == b * fi) by (nonlinear_arith)
            requires
                p * q0 == x,
                x == b * fi,
        ;
        vstd::arithmetic::div_mod::lemma_div_multiples_vanish(b, fi);
        assert((q0 * p) / fi == b) by {
            assert(b * fi == fi * b) by (nonlinear_arith);
            assert(q0 * p == fi * b);
            vstd::arithmetic::div_mod::lemma_div_multiples_vanish(b, fi);
            assert((fi * b) / fi == b);
        }
    } else {
        let q = buyer_of(maker, taker).remained_buy_amount as int;
        let x = q * p;
        lemma_product_fits(buyer_of(maker, taker).remained_buy_amount, maker.price);
        vstd::arithmetic::div_mod::lemma_fundamental_div_mod(x, fi);
        let b0 = x / fi;
        assert(fi * b0 == x);
        assert(b0 * fi == p * q) by (nonlinear_arith)
            requires
                fi * b0 == x,
                x == q * p,
        ;
        vstd::arithmetic::div_mod::lemma_div_multiples_vanish(q, p);
        assert((p * q) / p == q);
    }
}

/// At par, where the maker's price equals the price factor, a fill moves the
/// same amount of both tokens and short-pays neither side:
/// `quote · f / price >= base` and `base · price / f >= quote`.
pub proof fn lemma_fill_at_par(maker: Order, taker: Order, f: u128)
    requires
        f > 0,
        maker.price == f,
        fill_amounts(maker, taker, f).is_ok(),
    ensures
        ({
            let (base, quote) = fill_amounts(maker, taker, f).unwrap();
            &&& base == quote
            &&& mul_div(quote as int, f as int, maker.price as int) >= base
            &&& mul_div(base as int, maker.price as int, f as int) >= quote
        }),
{
    let fi = f as int;
    assert forall|x: int| 0 <= x implies #[trigger] mul_div(x, fi, fi) == x by {
        assert(x * fi == fi * x) by (nonlinear_arith);
        vstd::arithmetic::div_mod::lemma_div_multiples_vanish(x, fi);
    }
    let s = seller_of(maker, taker).remained_buy_amount as int;
    let b = buyer_of(maker, taker).remained_buy_amount as int;
    assert(mul_div(s, fi, fi) == s);
    assert(mul_div(b, fi, fi) == b);
}


/// `x / d < b` where `x < b · d`.
proof fn lemma_div_lt(x: int, d: int, b: int)
    requires
        0 <= x,
        0 < d,
        x < b * d,
    ensures
        x / d < b,
{
    lemma_div_mul_le(x, d);
    assert(x / d < b) by (nonlinear_arith)
        requires
            (x / d) * d <= x,
            x < b * d,
            d > 0,
    ;
}

/// A fill at a positive price always has its amounts, and it gives neither
/// side more than the side still asks for: the base amount is at most what
/// the seller wants to receive, the quote amount at most what the buyer
/// wants to receive.
pub proof fn lemma_fill_fits(maker: Order, taker: Order, f: u128)
    requires
        f > 0,
        maker.price > 0,
    ensures
        fill_amounts(maker, taker, f).is_ok(),
        fill_amounts(maker, taker, f).unwrap().0 <= seller_of(maker, taker).remained_buy_amount,
        fill_amounts(maker, taker, f).unwrap().1 <= buyer_of(maker, taker).remained_buy_amount,
{
    let p = maker.price as int;
    let fi = f as int;
    let s = seller_of(maker, taker).remained_buy_amount as int;
    let b = buyer_of(maker, taker).remained_buy_amount as int;
    let rs = buyer_of(maker, taker).remained_sell_amount as int;
    lemma_product_fits(seller_of(maker, taker).remained_buy_amount, f);
    lemma_product_fits(buyer_of(maker, taker).remained_buy_amount, maker.price);
    let q0 = (s * fi) / p;
    let b0 = (b * p) / fi;
    lemma_div_mul_le(s * fi, p);
    lemma_div_mul_le(b * p, fi);
    assert(q0 == quote_for_seller(maker, taker, f));
    assert(b0 == base_for_buyer(maker, taker, f));
    if seller_fills(maker, taker, f) {
        if s <= rs {
            assert(q0 <= b);
        } else {
            assert(s < b0);
            assert(s * fi < b * p) by (nonlinear_arith)
                requires
                    s + 1 <= b0,
                    b0 * fi <= b * p,
                    fi > 0,
            ;
            lemma_div_lt(s * fi, p, b);
        }
    } else {
        if s <= rs {
            assert(b < q0);
            assert(b * p < s * fi) by (nonlinear_arith)
                requires
                    b + 1 <= q0,
                    q0 * p <= s * fi,
                    p > 0,
            ;
            lemma_div_lt(b * p, fi, s);
        } else {
            assert(s >= b0);
        }
    }
}

} // verus!
