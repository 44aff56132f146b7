use trade::arith::{calculate_ex_amount, ensure_bounds, ensure_counterparty_amount_bounds, price_matched};
use trade::types::{Error, Order, OrderOpt, OrderType, H256, MAX_PRICE};

const F: u128 = 100_000_000;

fn order(otype: OrderType, price: u128, sell: u128, buy: u128) -> Order {
    Order::new(
        H256::from_low_u64(1),
        H256::from_low_u64(2),
        H256::from_low_u64(3),
        H256::from_low_u64(4),
        price,
        sell,
        buy,
        OrderOpt::Limit,
        otype,
    )
}

#[test]
fn bounds_accept_and_refuse() {
    assert_eq!(ensure_bounds(1, 1), Ok(()));
    assert_eq!(ensure_bounds(MAX_PRICE, u128::MAX), Ok(()));
    assert_eq!(ensure_bounds(0, 1), Err(Error::BoundsCheckFailedPrice));
    assert_eq!(ensure_bounds(u128::MAX, 1), Err(Error::BoundsCheckFailedPrice));
    assert_eq!(ensure_bounds(1, 0), Err(Error::BoundsCheckFailedAmount));
}

#[test]
fn counterparty_of_a_sell_multiplies_by_the_price() {
    assert_eq!(ensure_counterparty_amount_bounds(OrderType::Sell, 2 * F, 10, F), Ok(20));
}

#[test]
fn counterparty_of_a_buy_divides_by_the_price() {
    assert_eq!(ensure_counterparty_amount_bounds(OrderType::Buy, 2 * F, 20, F), Ok(10));
}

#[test]
fn lossy_conversion_is_refused() {
    assert_eq!(
        ensure_counterparty_amount_bounds(OrderType::Sell, 3 * F / 2, 3, F),
        Err(Error::BoundsCheckFailedAmount2)
    );
    assert_eq!(
        ensure_counterparty_amount_bounds(OrderType::Buy, 2 * F, 3, F),
        Err(Error::BoundsCheckFailedAmount2)
    );
}

#[test]
fn zero_or_oversized_counterparty_is_refused() {
    assert_eq!(
        ensure_counterparty_amount_bounds(OrderType::Sell, 1, 0, F),
        Err(Error::BoundsCheckFailedAmountCounter)
    );
    assert_eq!(
        ensure_counterparty_amount_bounds(OrderType::Sell, 2 * F, u128::MAX, F),
        Err(Error::BoundsCheckFailedAmountCounter)
    );
    assert_eq!(
        ensure_counterparty_amount_bounds(OrderType::Buy, 0, 5, F),
        Err(Error::BoundsCheckFailedPrice)
    );
}

#[test]
fn wide_products_do_not_overflow() {
    // u128::MAX * F does not fit in 128 bits; the quotient by F does.
    assert_eq!(
        ensure_counterparty_amount_bounds(OrderType::Sell, F, u128::MAX, F),
        Ok(u128::MAX)
    );
}

#[test]
fn price_matching_by_side() {
    assert!(price_matched(5, OrderType::Buy, 5));
    assert!(price_matched(6, OrderType::Buy, 5));
    assert!(!price_matched(4, OrderType::Buy, 5));
    assert!(price_matched(5, OrderType::Sell, 5));
    assert!(price_matched(4, OrderType::Sell, 5));
    assert!(!price_matched(6, OrderType::Sell, 5));
}

#[test]
fn exact_fill_moves_both_whole_orders() {
    let maker = order(OrderType::Sell, 2 * F, 10, 20);
    let taker = order(OrderType::Buy, 2 * F, 20, 10);
    assert_eq!(calculate_ex_amount(&maker, &taker, F), Ok((20, 10)));
}

#[test]
fn smaller_taker_is_completed() {
    let maker = order(OrderType::Sell, 2 * F, 10, 20);
    let taker = order(OrderType::Buy, 2 * F, 8, 4);
    assert_eq!(calculate_ex_amount(&maker, &taker, F), Ok((8, 4)));
}

#[test]
fn fill_of_a_zero_priced_maker_is_refused() {
    let maker = order(OrderType::Sell, 0, 10, 20);
    let taker = order(OrderType::Buy, 2 * F, 8, 4);
    assert_eq!(calculate_ex_amount(&maker, &taker, F), Err(Error::BoundsCheckFailedPrice));
}
