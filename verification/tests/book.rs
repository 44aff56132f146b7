use trade::price_list::{LinkedItem, PriceItem, PriceList};
use trade::table::{Duplicate, Table};
use trade::types::{Error, Order, OrderOpt, OrderStatus, OrderType, H256};

fn h(n: u64) -> H256 {
    H256::from_low_u64(n)
}

fn order(hash: H256, status: OrderStatus, remained_buy: u128) -> Order {
    let mut o = Order::new(hash, h(100), h(101), h(102), 5, 10, 10, OrderOpt::Limit, OrderType::Sell);
    o.status = status;
    o.remained_buy_amount = remained_buy;
    o
}

#[test]
fn empty_book_has_three_sentinels() {
    let b = PriceList::new();
    let head: LinkedItem = b.read_head();
    assert_eq!((head.prev, head.price, head.next), (Some(0), None, Some(u128::MAX)));
    let bottom = b.read_bottom();
    assert_eq!((bottom.prev, bottom.price, bottom.next), (Some(u128::MAX), Some(0), None));
    let top: PriceItem = b.read_top();
    assert_eq!((top.prev, top.price, top.next), (None, Some(u128::MAX), Some(0)));
    assert_eq!(b.first_order(OrderType::Buy), None);
    assert_eq!(b.first_order(OrderType::Sell), None);
    assert_eq!(b.resting_count(OrderType::Sell), 0);
}

#[test]
fn levels_are_linked_in_price_order() {
    let mut b = PriceList::new();
    b.append(30, h(1), 1, 2, OrderType::Sell).unwrap();
    b.append(20, h(2), 3, 4, OrderType::Sell).unwrap();
    b.append(10, h(3), 5, 6, OrderType::Buy).unwrap();
    b.append(5, h(4), 7, 8, OrderType::Buy).unwrap();
    b.append(7, h(5), 9, 10, OrderType::Buy).unwrap();
    // BOTTOM -> 5 -> 7 -> 10 -> HEAD -> 20 -> 30 -> TOP
    let keys = [Some(0), Some(5), Some(7), Some(10), None, Some(20), Some(30), Some(u128::MAX)];
    for w in keys.windows(2) {
        assert_eq!(b.read(w[0]).next, w[1]);
        assert_eq!(b.read(w[1]).prev, w[0]);
        assert_eq!(b.read(w[0]).price, w[0]);
    }
    assert_eq!(b.read(Some(u128::MAX)).next, Some(0));
    assert_eq!(b.read(Some(0)).prev, Some(u128::MAX));
    assert_eq!(PriceList::next_match_price(&b.read_head(), OrderType::Buy), Some(10));
    assert_eq!(PriceList::next_match_price(&b.read_head(), OrderType::Sell), Some(20));
    assert_eq!(b.first_order(OrderType::Buy), Some((10, h(3))));
    assert_eq!(b.first_order(OrderType::Sell), Some((20, h(2))));
    // A price without a level reads as HEAD.
    assert_eq!(b.read(Some(15)).price, None);
}

#[test]
fn append_joins_an_existing_level_at_the_back() {
    let mut b = PriceList::new();
    b.append(20, h(1), 1, 2, OrderType::Sell).unwrap();
    b.append(20, h(2), 10, 20, OrderType::Sell).unwrap();
    // The level stands where it stood, whatever side the newcomer names.
    b.append(20, h(3), 100, 200, OrderType::Buy).unwrap();
    let level = b.read(Some(20));
    assert_eq!(level.orders, vec![h(1), h(2), h(3)]);
    assert_eq!((level.sell_amount, level.buy_amount), (111, 222));
    assert_eq!(b.read_head().prev, Some(0));
    assert_eq!(b.resting_count(OrderType::Sell), 3);
}

#[test]
fn append_refuses_sentinel_prices_and_overflowing_sums() {
    let mut b = PriceList::new();
    assert_eq!(b.append(0, h(1), 1, 1, OrderType::Buy), Err(Error::BoundsCheckFailedPrice));
    assert_eq!(
        b.append(u128::MAX, h(1), 1, 1, OrderType::Sell),
        Err(Error::BoundsCheckFailedPrice)
    );
    b.append(20, h(1), u128::MAX, 1, OrderType::Sell).unwrap();
    assert_eq!(b.append(20, h(2), 1, 1, OrderType::Sell), Err(Error::OverflowError));
    assert_eq!(b.read(Some(20)).orders, vec![h(1)]);
}

#[test]
fn sums_are_lowered_and_stop_at_zero() {
    let mut b = PriceList::new();
    b.append(20, h(1), 10, 20, OrderType::Sell).unwrap();
    b.update_reduce_amount(20, 4, 5);
    let level = b.read(Some(20));
    assert_eq!((level.sell_amount, level.buy_amount), (6, 15));
    b.update_reduce_amount(20, 7, 1);
    let level = b.read(Some(20));
    assert_eq!((level.sell_amount, level.buy_amount), (0, 14));
    b.update_reduce_amount(99, 1, 1);
    assert_eq!(b.read(Some(20)).orders, vec![h(1)]);
}

#[test]
fn remove_order_unlinks_an_emptied_level() {
    let mut b = PriceList::new();
    b.append(20, h(1), 10, 20, OrderType::Sell).unwrap();
    b.append(20, h(2), 1, 2, OrderType::Sell).unwrap();
    b.append(30, h(3), 1, 2, OrderType::Sell).unwrap();
    assert_eq!(b.level_holds(20, h(2)), (true, true));
    assert_eq!(b.level_holds(20, h(3)), (true, false));
    assert_eq!(b.level_holds(25, h(3)), (false, false));
    assert_eq!(b.remove_order(20, h(3), 1, 1), Err(Error::OrderNotInBook));
    assert_eq!(b.remove_order(25, h(3), 1, 1), Ok(()));
    b.remove_order(20, h(1), 10, 20).unwrap();
    let level = b.read(Some(20));
    assert_eq!(level.orders, vec![h(2)]);
    assert_eq!((level.sell_amount, level.buy_amount), (1, 2));
    b.remove_order(20, h(2), 1, 2).unwrap();
    assert_eq!(b.read_head().next, Some(30));
    assert_eq!(b.read(Some(30)).prev, None);
    b.remove_item(30);
    assert_eq!(b.read_head().next, Some(u128::MAX));
}

#[test]
fn finished_orders_are_drained_from_the_front() {
    let mut orders: Table<H256, Order> = Table::new();
    orders.insert(h(1), order(h(1), OrderStatus::Filled, 0));
    orders.insert(h(2), order(h(2), OrderStatus::Canceled, 3));
    orders.insert(h(3), order(h(3), OrderStatus::PartialFilled, 3));
    orders.insert(h(4), order(h(4), OrderStatus::Filled, 0));
    let mut b = PriceList::new();
    b.append(20, h(1), 1, 1, OrderType::Sell).unwrap();
    b.append(20, h(2), 1, 1, OrderType::Sell).unwrap();
    b.append(30, h(3), 1, 1, OrderType::Sell).unwrap();
    b.append(30, h(4), 1, 1, OrderType::Sell).unwrap();
    b.append(40, h(9), 1, 1, OrderType::Sell).unwrap();
    let mut one = b.duplicate();
    assert_eq!(one.remove_orders_in_one_item(30, &orders), Err(Error::OrderMatchOrderIsNotFinished));
    assert_eq!(one.read(Some(30)).orders, vec![h(3), h(4)]);
    assert_eq!(one.remove_orders_in_one_item(40, &orders), Err(Error::OrderMatchGetOrderError));
    assert_eq!(one.remove_orders_in_one_item(20, &orders), Ok(()));
    assert_eq!(one.read_head().next, Some(30));
    assert_eq!(one.remove_orders_in_one_item(25, &orders), Ok(()));

    b.remove_order_match_price(OrderType::Sell, &orders);
    // The level at 20 is gone; the walk stops at the open order at 30.
    assert_eq!(b.read_head().next, Some(30));
    assert_eq!(b.read(Some(30)).orders, vec![h(3), h(4)]);
    b.remove_order_match_price(OrderType::Buy, &orders);
    assert_eq!(b.read_head().prev, Some(0));
}
