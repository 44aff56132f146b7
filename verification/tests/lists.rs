use trade::index::Index;
use trade::market::Market;
use trade::arith::{calculate_ex_amount, mul_div_u128};
use trade::types::{Order, OrderOpt, OrderStatus, OrderType, TradePair, H256};

fn h(n: u64) -> H256 {
    H256::from_low_u64(n)
}

const F: u128 = 100_000_000;

#[test]
fn index_lists_grow_at_the_end() {
    let mut x: Index<H256> = Index::new();
    assert_eq!(x.count(&h(1)), 0);
    x.add(h(1), h(10)).unwrap();
    x.add(h(1), h(11)).unwrap();
    x.add(h(2), h(12)).unwrap();
    assert_eq!(x.list(&h(1)), vec![h(10), h(11)]);
    assert_eq!(x.count(&h(1)), 2);
    assert_eq!(x.get(&h(1), 1), Some(h(11)));
    assert_eq!(x.get(&h(1), 2), None);
    assert_eq!(x.get(&h(3), 0), None);
}

#[test]
fn recency_list_puts_the_newest_first_and_drops_the_oldest() {
    let mut x: Index<(H256, H256)> = Index::new();
    let k = (h(1), h(2));
    x.add_order(k, h(10), 3);
    x.add_order(k, h(11), 3);
    assert_eq!(x.list(&k), vec![h(11), h(10)]);
    // A third entry fills the list to its cap.
    x.add_order(k, h(12), 3);
    assert_eq!(x.list(&k), vec![h(12), h(11), h(10)]);
    // A fourth would pass the cap, and the oldest leaves.
    x.add_order(k, h(13), 3);
    assert_eq!(x.list(&k), vec![h(13), h(12), h(11)]);
    // An entry that is already there changes nothing.
    x.add_order(k, h(11), 3);
    assert_eq!(x.list(&k), vec![h(13), h(12), h(11)]);
    x.remove_order(k, h(12));
    assert_eq!(x.list(&k), vec![h(13), h(11)]);
    x.remove_order(k, h(99));
    assert_eq!(x.list(&k), vec![h(13), h(11)]);
}

#[test]
fn recency_list_of_one_holds_the_newest() {
    let mut x: Index<H256> = Index::new();
    x.add_order(h(1), h(10), 1);
    assert_eq!(x.list(&h(1)), vec![h(10)]);
    x.add_order(h(1), h(11), 1);
    assert_eq!(x.list(&h(1)), vec![h(11)]);
    let mut none: Index<H256> = Index::new();
    none.add_order(h(1), h(10), 0);
    assert!(none.list(&h(1)).is_empty());
}

#[test]
fn market_keeps_highs_and_lows_per_block() {
    let mut m = Market::new();
    let tp = TradePair {
        hash: h(1),
        base: h(2),
        quote: h(3),
        latest_matched_price: None,
        one_day_trade_volume: 0,
        one_day_highest_price: None,
        one_day_lowest_price: None,
    };
    m.add_pair(tp).unwrap();
    assert_eq!(m.add_pair(tp), Err(trade::types::Error::HashCollision));
    assert_eq!(m.trade_pair_index(), 1);
    assert_eq!(m.trade_pair_hash_by_base_quote(&h(2), &h(3)), Some(h(1)));
    assert_eq!(m.trade_pair_hash_by_base_quote(&h(3), &h(2)), None);
    assert_eq!(m.set_tp_market_data(h(9), 1, 5, 1), Err(trade::types::Error::NoMatchingTradePair));
    m.set_tp_market_data(h(1), 1, 5, 10).unwrap();
    m.set_tp_market_data(h(1), 1, 9, 1).unwrap();
    m.set_tp_market_data(h(1), 1, 3, 2).unwrap();
    let b = m.trade_pair_trade_data_bucket(&h(1), 1);
    assert_eq!((b.volume, b.high, b.low), (13, Some(9), Some(3)));
    assert_eq!(m.trade_pairs(&h(1)).unwrap().latest_matched_price, Some(3));
    assert_eq!(
        m.set_tp_market_data(h(1), 1, 3, u128::MAX),
        Err(trade::types::Error::OverflowError)
    );
    m.on_finalize(1);
    m.set_tp_market_data(h(1), 2, 7, 4).unwrap();
    m.on_finalize(2);
    m.on_finalize(3);
    let p = m.trade_pairs(&h(1)).unwrap();
    assert_eq!(p.one_day_trade_volume, 17);
    assert_eq!(p.one_day_highest_price, Some(9));
    assert_eq!(p.one_day_lowest_price, Some(3));
    assert_eq!(m.trade_pair_trade_price_bucket(&h(1)).0, vec![Some(9), Some(7), None]);
    assert_eq!(m.trade_pair_trade_price_bucket(&h(1)).1, vec![Some(3), Some(7), None]);
    // With two blocks a day, block 1 leaves the day at the start of block 3.
    assert_eq!(m.on_initialize(3, 2), 500_000);
    assert_eq!(m.trade_pairs(&h(1)).unwrap().one_day_trade_volume, 4);
    assert_eq!(m.trade_pair_trade_price_bucket(&h(1)).0, vec![Some(7), None]);
    m.on_finalize(3);
    let p = m.trade_pairs(&h(1)).unwrap();
    assert_eq!(p.one_day_highest_price, Some(7));
    assert_eq!(p.one_day_lowest_price, Some(7));
}

#[test]
fn mul_div_in_256_bits() {
    assert_eq!(mul_div_u128(u128::MAX, u128::MAX, u128::MAX), Some(u128::MAX));
    assert_eq!(mul_div_u128(u128::MAX, 2, 1), None);
    assert_eq!(mul_div_u128(7, 3, 2), Some(10));
    assert_eq!(mul_div_u128(0, 3, 2), Some(0));
    assert_eq!(mul_div_u128(1 << 100, 1 << 100, 1 << 80), Some(1 << 120));
}

fn open(otype: OrderType, price: u128, sell: u128, buy: u128) -> Order {
    let mut o = Order::new(h(1), h(2), h(3), h(4), price, sell, buy, OrderOpt::Limit, otype);
    o.status = OrderStatus::PartialFilled;
    o
}

#[test]
fn rounding_alignment_without_dust() {
    // 1.5 quote for one base: the maker gives 3 quote for 2 base.
    let price = 66_666_666;
    let maker = open(OrderType::Sell, price, 3, 2);
    let taker = open(OrderType::Buy, price, 2, 3);
    assert_eq!(calculate_ex_amount(&maker, &taker, F), Ok((2, 3)));
}

#[test]
fn rounding_up_where_the_buyer_has_room() {
    // The buyer wants 1 quote, which costs 1.5 base: the base amount is
    // rounded up to 2 because the seller still asks for more.
    let maker = open(OrderType::Sell, 3 * F / 2, 4, 6);
    let taker = open(OrderType::Buy, 3 * F, 3, 1);
    assert_eq!(calculate_ex_amount(&maker, &taker, F), Ok((2, 1)));
    // The seller's whole demand of 4 base costs 2.67 quote; the buyer wants
    // exactly 2, so nothing is added.
    let maker = open(OrderType::Sell, 3 * F / 2, 3, 4);
    let taker = open(OrderType::Buy, 3 * F, 6, 2);
    assert_eq!(calculate_ex_amount(&maker, &taker, F), Ok((4, 2)));
}

#[test]
fn fill_of_the_largest_amounts_fits() {
    let maker = open(OrderType::Sell, 1, 1, u128::MAX);
    let taker = open(OrderType::Buy, 1, 1, u128::MAX);
    assert_eq!(
        calculate_ex_amount(&maker, &taker, F),
        Ok((u128::MAX / F + 1, u128::MAX))
    );
    let maker = open(OrderType::Sell, u128::MAX, u128::MAX, u128::MAX);
    let taker = open(OrderType::Buy, u128::MAX, u128::MAX, u128::MAX);
    assert_eq!(calculate_ex_amount(&maker, &taker, F), Ok((u128::MAX, F)));
}
