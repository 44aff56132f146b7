use trade::engine::Pallet;
use trade::tokens;
use trade::types::{
    Config, Error, Event, Host, Order, OrderOpt, OrderStatus, OrderType, Trade, H256,
};

const F: u128 = 100_000_000;

fn alice() -> H256 {
    H256::from_low_u64(0xA11CE)
}

fn bob() -> H256 {
    H256::from_low_u64(0xB0B)
}

fn carol() -> H256 {
    H256::from_low_u64(0xCA201)
}

fn host(block: u64) -> Host {
    Host { block_number: block, random_seed: H256::from_low_u64(7) }
}

fn config() -> Config {
    Config {
        price_factor: F,
        blocks_per_day: 10,
        opened_orders_array_cap: 20,
        closed_orders_array_cap: 100,
    }
}

struct World {
    ex: Pallet,
    b: H256,
    q: H256,
    tp: H256,
}

/// Bob issues the base token `B`, Alice the quote token `Q`; Carol gets a
/// share of both; Alice creates the pair.
fn world() -> World {
    let mut ledger = tokens::Pallet::new();
    let b = ledger.do_issue(bob(), b"B".to_vec(), 1_000_000, H256::from_low_u64(1)).unwrap();
    let q = ledger.do_issue(alice(), b"Q".to_vec(), 1_000_000, H256::from_low_u64(2)).unwrap();
    ledger.do_transfer(bob(), carol(), b, 1000, None).unwrap();
    ledger.do_transfer(alice(), carol(), q, 1000, None).unwrap();
    let mut ex = Pallet::new(config(), ledger).unwrap();
    ex.create_trade_pair(alice(), b, q, &host(1)).unwrap();
    let tp = ex.ensure_trade_pair(b, q).unwrap();
    World { ex, b, q, tp }
}

fn last_order(w: &World, who: &H256) -> Order {
    let n = w.ex.registry().owned_orders_index(who);
    let h = w.ex.registry().owned_orders(who, (n - 1) as u64).unwrap();
    w.ex.registry().orders(&h).unwrap()
}

fn trades_of_pair(w: &World) -> Vec<Trade> {
    w.ex
        .registry()
        .trade_pair_owned_trades(&w.tp)
        .iter()
        .map(|h| w.ex.registry().trades(h).unwrap())
        .collect()
}

fn limit(w: &mut World, who: H256, side: OrderType, price: u128, amount: u128) -> Result<(), Error> {
    let (b, q) = (w.b, w.q);
    w.ex.create_order(who, b, q, OrderOpt::Limit, side, price, amount, &host(1))
}

#[test]
fn exact_match_fills_both_orders() {
    let mut w = world();
    limit(&mut w, alice(), OrderType::Sell, 2 * F, 10).unwrap();
    let resting = last_order(&w, &alice());
    assert_eq!(resting.buy_amount, 20);
    assert_eq!(resting.status, OrderStatus::Created);
    assert_eq!(w.ex.tokens().freezed_balance_of(&alice(), &w.q), 10);

    limit(&mut w, bob(), OrderType::Buy, 2 * F, 20).unwrap();

    let trades = trades_of_pair(&w);
    assert_eq!(trades.len(), 1);
    assert_eq!(trades[0].base_amount, 20);
    assert_eq!(trades[0].quote_amount, 10);
    assert_eq!(trades[0].price, 2 * F);
    assert_eq!(trades[0].buyer, bob());
    assert_eq!(trades[0].seller, alice());
    assert_eq!(trades[0].maker, alice());
    assert_eq!(trades[0].taker, bob());
    assert_eq!(trades[0].otype, OrderType::Buy);

    let a = last_order(&w, &alice());
    let b = last_order(&w, &bob());
    assert_eq!(a.status, OrderStatus::Filled);
    assert_eq!(b.status, OrderStatus::Filled);
    assert_eq!((a.remained_sell_amount, a.remained_buy_amount), (0, 0));
    assert_eq!((b.remained_sell_amount, b.remained_buy_amount), (0, 0));
    assert!(a.is_finished() && b.is_finished());

    assert!(w.ex.registry().owned_tp_opened_orders(&alice(), &w.tp).is_empty());
    assert!(w.ex.registry().owned_tp_opened_orders(&bob(), &w.tp).is_empty());
    assert_eq!(w.ex.registry().owned_tp_closed_orders(&alice(), &w.tp), vec![a.hash]);
    assert_eq!(w.ex.registry().owned_tp_closed_orders(&bob(), &w.tp), vec![b.hash]);

    let pair = w.ex.market().trade_pairs(&w.tp).unwrap();
    assert_eq!(pair.latest_matched_price, Some(2 * F));
    let bucket = w.ex.market().trade_pair_trade_data_bucket(&w.tp, 1);
    assert_eq!(bucket.volume, 10);
    assert_eq!(bucket.high, Some(2 * F));
    assert_eq!(bucket.low, Some(2 * F));

    // The book is empty again.
    let head = w.ex.linked_item(&w.tp, None);
    assert_eq!(head.prev, Some(0));
    assert_eq!(head.next, Some(u128::MAX));

    // Alice gave 10 Q for 20 B, Bob the reverse; nothing stays frozen.
    assert_eq!(w.ex.tokens().balance_of(&alice(), &w.q), 1_000_000 - 1000 - 10);
    assert_eq!(w.ex.tokens().balance_of(&alice(), &w.b), 20);
    assert_eq!(w.ex.tokens().balance_of(&bob(), &w.q), 10);
    assert_eq!(w.ex.tokens().balance_of(&bob(), &w.b), 1_000_000 - 1000 - 20);
    assert_eq!(w.ex.tokens().freezed_balance_of(&alice(), &w.q), 0);
    assert_eq!(w.ex.tokens().freezed_balance_of(&bob(), &w.b), 0);
}

#[test]
fn partial_fill_leaves_the_maker_open() {
    let mut w = world();
    limit(&mut w, alice(), OrderType::Sell, 2 * F, 10).unwrap();
    limit(&mut w, bob(), OrderType::Buy, 2 * F, 8).unwrap();

    let trades = trades_of_pair(&w);
    assert_eq!(trades.len(), 1);
    assert_eq!((trades[0].base_amount, trades[0].quote_amount), (8, 4));

    let a = last_order(&w, &alice());
    assert_eq!(a.status, OrderStatus::PartialFilled);
    assert_eq!(a.remained_sell_amount, 6);
    assert_eq!(a.remained_buy_amount, 12);
    assert_eq!(last_order(&w, &bob()).status, OrderStatus::Filled);

    let level = w.ex.linked_item(&w.tp, Some(2 * F));
    assert_eq!(level.price, Some(2 * F));
    assert_eq!(level.orders, vec![a.hash]);
    assert_eq!(level.sell_amount, 6);
    assert_eq!(level.buy_amount, 12);
    assert_eq!(w.ex.tokens().freezed_balance_of(&alice(), &w.q), 6);
}

#[test]
fn cancellation_releases_the_rest() {
    let mut w = world();
    limit(&mut w, alice(), OrderType::Sell, 2 * F, 10).unwrap();
    limit(&mut w, bob(), OrderType::Buy, 2 * F, 8).unwrap();
    let a = last_order(&w, &alice());
    let trades_before = trades_of_pair(&w);
    let free_before = w.ex.tokens().free_balance_of(&alice(), &w.q);

    w.ex.cancel_limit_order(alice(), a.hash).unwrap();

    let a = last_order(&w, &alice());
    assert_eq!(a.status, OrderStatus::Canceled);
    assert!(a.is_finished());
    assert_eq!(w.ex.tokens().freezed_balance_of(&alice(), &w.q), 0);
    assert_eq!(w.ex.tokens().free_balance_of(&alice(), &w.q), free_before + 6);
    // The level is gone: its price now reads as HEAD, and HEAD has no ask.
    assert_eq!(w.ex.linked_item(&w.tp, Some(2 * F)).price, None);
    assert_eq!(w.ex.linked_item(&w.tp, None).next, Some(u128::MAX));
    assert_eq!(trades_of_pair(&w), trades_before);
    assert_eq!(w.ex.registry().owned_tp_closed_orders(&alice(), &w.tp), vec![a.hash]);
    assert!(matches!(
        w.ex.event(w.ex.event_count() - 1),
        Event::OrderCanceled { owner, order_hash } if owner == alice() && order_hash == a.hash
    ));
}

#[test]
fn best_price_goes_first() {
    let mut w = world();
    limit(&mut w, alice(), OrderType::Sell, 5 * F, 1).unwrap();
    limit(&mut w, alice(), OrderType::Sell, 3 * F, 1).unwrap();
    limit(&mut w, alice(), OrderType::Sell, 4 * F, 1).unwrap();
    assert_eq!(w.ex.linked_item(&w.tp, None).next, Some(3 * F));
    assert_eq!(w.ex.linked_item(&w.tp, Some(3 * F)).next, Some(4 * F));
    assert_eq!(w.ex.linked_item(&w.tp, Some(4 * F)).next, Some(5 * F));
    assert_eq!(w.ex.linked_item(&w.tp, Some(5 * F)).next, Some(u128::MAX));
    assert_eq!(w.ex.linked_item(&w.tp, Some(5 * F)).prev, Some(4 * F));
    assert_eq!(w.ex.linked_item(&w.tp, Some(3 * F)).prev, None);

    // 20 B at price 10 buy 2 Q.
    limit(&mut w, bob(), OrderType::Buy, 10 * F, 20).unwrap();

    let trades = trades_of_pair(&w);
    assert_eq!(trades.len(), 2);
    assert_eq!(trades[0].price, 3 * F);
    assert_eq!((trades[0].base_amount, trades[0].quote_amount), (3, 1));
    assert_eq!(trades[1].price, 4 * F);
    assert_eq!((trades[1].base_amount, trades[1].quote_amount), (4, 1));
    assert_eq!(w.ex.linked_item(&w.tp, None).next, Some(5 * F));
    let taker = last_order(&w, &bob());
    assert_eq!(taker.status, OrderStatus::Filled);
    // What the taker did not have to pay is released.
    assert_eq!(w.ex.tokens().freezed_balance_of(&bob(), &w.b), 0);
    assert_eq!(w.ex.tokens().balance_of(&bob(), &w.b), 1_000_000 - 1000 - 7);
}

#[test]
fn older_order_goes_first_within_a_level() {
    let mut w = world();
    limit(&mut w, alice(), OrderType::Sell, 3 * F, 1).unwrap();
    let first = last_order(&w, &alice());
    limit(&mut w, carol(), OrderType::Sell, 3 * F, 1).unwrap();
    let second = last_order(&w, &carol());
    assert_eq!(w.ex.linked_item(&w.tp, Some(3 * F)).orders, vec![first.hash, second.hash]);

    limit(&mut w, bob(), OrderType::Buy, 3 * F, 3).unwrap();

    assert_eq!(w.ex.registry().orders(&first.hash).unwrap().status, OrderStatus::Filled);
    let untouched = w.ex.registry().orders(&second.hash).unwrap();
    assert_eq!(untouched, second);
    let level = w.ex.linked_item(&w.tp, Some(3 * F));
    assert_eq!(level.orders, vec![second.hash]);
    assert_eq!((level.sell_amount, level.buy_amount), (1, 3));
}

#[test]
fn unmatched_orders_rest_on_their_own_side() {
    let mut w = world();
    limit(&mut w, bob(), OrderType::Buy, 2 * F, 20).unwrap();
    limit(&mut w, alice(), OrderType::Sell, 3 * F, 1).unwrap();
    assert!(trades_of_pair(&w).is_empty());
    let head = w.ex.linked_item(&w.tp, None);
    assert_eq!(head.prev, Some(2 * F));
    assert_eq!(head.next, Some(3 * F));
    let bottom = w.ex.linked_item(&w.tp, Some(0));
    assert_eq!(bottom.next, Some(2 * F));
    assert_eq!(bottom.prev, Some(u128::MAX));
    let top = w.ex.linked_item(&w.tp, Some(u128::MAX));
    assert_eq!(top.prev, Some(3 * F));
    assert_eq!(top.next, Some(0));
    assert_eq!(w.ex.registry().owned_tp_opened_orders(&bob(), &w.tp).len(), 1);
}

#[test]
fn market_buy_sweeps_the_best_asks() {
    let mut w = world();
    limit(&mut w, alice(), OrderType::Sell, 3 * F, 1).unwrap();
    limit(&mut w, alice(), OrderType::Sell, 4 * F, 1).unwrap();
    let (b, q) = (w.b, w.q);
    // Bob wants 2 Q at whatever the book asks.
    w.ex.create_order(bob(), b, q, OrderOpt::Market, OrderType::Buy, 0, 2, &host(1)).unwrap();
    let trades = trades_of_pair(&w);
    assert_eq!(trades.len(), 2);
    assert_eq!(trades[0].price, 3 * F);
    assert_eq!(trades[1].price, 4 * F);
    assert_eq!(w.ex.tokens().balance_of(&bob(), &w.q), 2);
}

#[test]
fn market_order_on_an_empty_book_does_nothing() {
    let mut w = world();
    let (b, q) = (w.b, w.q);
    let events = w.ex.event_count();
    w.ex.create_order(bob(), b, q, OrderOpt::Market, OrderType::Buy, 0, 2, &host(1)).unwrap();
    assert_eq!(w.ex.event_count(), events);
    assert_eq!(w.ex.registry().owned_orders_index(&bob()), 0);
}

#[test]
fn trade_pair_creation_is_checked() {
    let mut w = world();
    let (b, q) = (w.b, w.q);
    assert_eq!(w.ex.create_trade_pair(alice(), b, b, &host(1)), Err(Error::BaseEqualQuote));
    assert_eq!(
        w.ex.create_trade_pair(alice(), b, H256::from_low_u64(99), &host(1)),
        Err(Error::TokenOwnerNotFound)
    );
    assert_eq!(
        w.ex.create_trade_pair(carol(), b, q, &host(1)),
        Err(Error::SenderNotEqualToBaseOrQuoteOwner)
    );
    assert_eq!(w.ex.create_trade_pair(bob(), q, b, &host(1)), Err(Error::TradePairExisted));
    assert_eq!(w.ex.create_trade_pair(bob(), b, q, &host(1)), Err(Error::TradePairExisted));
    assert_eq!(w.ex.market().trade_pair_index(), 1);
    assert_eq!(w.ex.market().trade_pair_hash_by_index(0), Some(w.tp));
    assert_eq!(w.ex.nonce(), 1);
}

#[test]
fn order_creation_is_checked() {
    let mut w = world();
    let (b, q) = (w.b, w.q);
    assert_eq!(limit(&mut w, alice(), OrderType::Sell, 0, 10), Err(Error::BoundsCheckFailedPrice));
    assert_eq!(
        limit(&mut w, alice(), OrderType::Sell, u128::MAX, 10),
        Err(Error::BoundsCheckFailedPrice)
    );
    assert_eq!(limit(&mut w, alice(), OrderType::Sell, F, 0), Err(Error::BoundsCheckFailedAmount));
    assert_eq!(
        limit(&mut w, alice(), OrderType::Sell, 3 * F / 2, 3),
        Err(Error::BoundsCheckFailedAmount2)
    );
    assert_eq!(
        limit(&mut w, alice(), OrderType::Sell, 1, 10),
        Err(Error::BoundsCheckFailedAmount2)
    );
    assert_eq!(
        limit(&mut w, alice(), OrderType::Sell, 2 * F, u128::MAX),
        Err(Error::BoundsCheckFailedAmountCounter)
    );
    assert_eq!(
        w.ex.create_order(alice(), q, b, OrderOpt::Limit, OrderType::Sell, F, 10, &host(1)),
        Err(Error::NoMatchingTradePair)
    );
    assert_eq!(
        limit(&mut w, alice(), OrderType::Sell, F, 2_000_000),
        Err(Error::Token(tokens::Error::BalanceNotEnough))
    );
    assert_eq!(
        limit(&mut w, H256::from_low_u64(5), OrderType::Sell, F, 10),
        Err(Error::Token(tokens::Error::SenderHaveNoToken))
    );
    assert_eq!(w.ex.nonce(), 1);
}

#[test]
fn cancellation_is_checked() {
    let mut w = world();
    assert_eq!(
        w.ex.cancel_limit_order(alice(), H256::from_low_u64(1)),
        Err(Error::NoMatchingOrder)
    );
    limit(&mut w, alice(), OrderType::Sell, 2 * F, 10).unwrap();
    let a = last_order(&w, &alice());
    assert_eq!(w.ex.cancel_limit_order(bob(), a.hash), Err(Error::CanOnlyCancelOwnOrder));
    w.ex.cancel_limit_order(alice(), a.hash).unwrap();
    assert_eq!(
        w.ex.cancel_limit_order(alice(), a.hash),
        Err(Error::CanOnlyCancelNotFinishedOrder)
    );
}

#[test]
fn nonce_and_indices_grow_with_every_creation() {
    let mut w = world();
    assert_eq!(w.ex.nonce(), 1);
    limit(&mut w, alice(), OrderType::Sell, 2 * F, 10).unwrap();
    assert_eq!(w.ex.nonce(), 2);
    limit(&mut w, alice(), OrderType::Sell, 2 * F, 10).unwrap();
    assert_eq!(w.ex.nonce(), 3);
    let first = w.ex.registry().owned_orders(&alice(), 0).unwrap();
    let second = w.ex.registry().owned_orders(&alice(), 1).unwrap();
    assert_ne!(first, second);
    assert_eq!(w.ex.registry().trade_pair_owned_order(&w.tp), vec![first, second]);
    // A fill derives one identifier for the order and one for the trade.
    limit(&mut w, bob(), OrderType::Buy, 2 * F, 20).unwrap();
    assert_eq!(w.ex.nonce(), 5);
    let t = trades_of_pair(&w);
    assert_eq!(w.ex.registry().order_owned_trades(&first), vec![t[0].hash]);
    assert_eq!(w.ex.registry().owned_trades(&alice()), vec![t[0].hash]);
    assert_eq!(w.ex.registry().owned_trades(&bob()), vec![t[0].hash]);
    assert_eq!(w.ex.registry().owned_tp_trades(&bob(), &w.tp), vec![t[0].hash]);
}

#[test]
fn one_day_statistics_roll_over() {
    let mut w = world();
    let tp = w.tp;
    w.ex.set_tp_market_data(tp, 5 * F, 7, &host(100)).unwrap();
    w.ex.on_finalize(100);
    let pair = w.ex.market().trade_pairs(&tp).unwrap();
    assert_eq!(pair.one_day_trade_volume, 7);
    assert_eq!(pair.one_day_highest_price, Some(5 * F));
    assert_eq!(pair.one_day_lowest_price, Some(5 * F));
    assert_eq!(pair.latest_matched_price, Some(5 * F));
    for block in 101..110u64 {
        assert_eq!(w.ex.on_initialize(block), 500_000);
        w.ex.on_finalize(block);
        assert_eq!(w.ex.market().trade_pairs(&tp).unwrap().one_day_trade_volume, 7);
    }
    w.ex.on_initialize(110);
    assert_eq!(w.ex.market().trade_pairs(&tp).unwrap().one_day_trade_volume, 0);
    w.ex.on_finalize(110);
    w.ex.on_initialize(111);
    let pair = w.ex.market().trade_pairs(&tp).unwrap();
    assert_eq!(pair.one_day_trade_volume, 0);
}

#[test]
fn early_blocks_evict_nothing() {
    let mut w = world();
    let tp = w.tp;
    w.ex.set_tp_market_data(tp, 5 * F, 7, &host(3)).unwrap();
    w.ex.on_finalize(3);
    assert_eq!(w.ex.on_initialize(10), 1000);
    assert_eq!(w.ex.market().trade_pairs(&tp).unwrap().one_day_trade_volume, 7);
    assert_eq!(w.ex.market().trade_pair_trade_price_bucket(&tp).0, vec![Some(5 * F)]);
}

#[test]
fn refused_order_leaves_no_trace() {
    let mut ledger = tokens::Pallet::new();
    let b = ledger.do_issue(bob(), b"B".to_vec(), 1_000_000, H256::from_low_u64(1)).unwrap();
    let q = ledger.do_issue(alice(), b"Q".to_vec(), u128::MAX, H256::from_low_u64(2)).unwrap();
    ledger.do_transfer(alice(), carol(), q, 1 << 126, None).unwrap();
    let mut ex = Pallet::new(config(), ledger).unwrap();
    ex.create_trade_pair(alice(), b, q, &host(1)).unwrap();
    let tp = ex.ensure_trade_pair(b, q).unwrap();
    // Each order wants 2^127 of the base token; the level cannot sum both.
    ex.create_order(alice(), b, q, OrderOpt::Limit, OrderType::Sell, 2 * F, 1 << 126, &host(1))
        .unwrap();
    let nonce = ex.nonce();
    let events = ex.event_count();
    assert_eq!(
        ex.create_order(carol(), b, q, OrderOpt::Limit, OrderType::Sell, 2 * F, 1 << 126, &host(1)),
        Err(Error::OverflowError)
    );
    assert_eq!(ex.nonce(), nonce);
    assert_eq!(ex.event_count(), events);
    assert_eq!(ex.tokens().freezed_balance_of(&carol(), &q), 0);
    assert_eq!(ex.tokens().free_balance_of(&carol(), &q), 1 << 126);
    assert_eq!(ex.registry().owned_orders_index(&carol()), 0);
    assert!(ex.registry().owned_tp_opened_orders(&carol(), &tp).is_empty());
    assert_eq!(ex.linked_item(&tp, Some(2 * F)).orders.len(), 1);
    assert_eq!(
        ex.create_limit_order(carol(), b, q, OrderType::Sell, 2 * F, 1 << 126, &host(1)),
        Err(Error::OverflowError)
    );
    assert_eq!(ex.tokens().freezed_balance_of(&carol(), &q), 0);
}

#[test]
fn market_buy_of_more_than_fits_is_refused() {
    let mut w = world();
    limit(&mut w, alice(), OrderType::Sell, 3 * F, 1).unwrap();
    let (b, q) = (w.b, w.q);
    assert_eq!(
        w.ex.create_order(bob(), b, q, OrderOpt::Market, OrderType::Buy, 0, u128::MAX, &host(1)),
        Err(Error::NumberCastError)
    );
    assert_eq!(
        w.ex.create_order(bob(), q, b, OrderOpt::Market, OrderType::Buy, 0, 1, &host(1)),
        Err(Error::NoMatchingTradePair)
    );
}

#[test]
fn order_with_less_open_than_a_fill_takes_is_refused() {
    let mut w = world();
    limit(&mut w, alice(), OrderType::Sell, 2 * F, 10).unwrap();
    // Bob has ten base reserved for a bid far below the ask.
    limit(&mut w, bob(), OrderType::Buy, F / 2, 10).unwrap();
    let mut taker = Order::new(
        H256::from_low_u64(4242),
        w.b,
        w.q,
        bob(),
        2 * F,
        10,
        5,
        OrderOpt::Limit,
        OrderType::Buy,
    );
    taker.remained_sell_amount = 0;
    let tp = w.tp;
    assert_eq!(
        w.ex.order_match(tp, &mut taker, &host(1)),
        Err(Error::OrderMatchSubstractError)
    );
    assert_eq!(
        w.ex.order_match(H256::from_low_u64(1), &mut taker, &host(1)),
        Err(Error::NoMatchingTradePair)
    );
}

#[test]
fn matching_stops_at_a_price_the_taker_does_not_accept() {
    let mut w = world();
    limit(&mut w, alice(), OrderType::Sell, 2 * F, 10).unwrap();
    limit(&mut w, alice(), OrderType::Sell, 3 * F, 3).unwrap();
    // 60 base at price 2 buy 30 quote, of which the book gives 10 at that price.
    limit(&mut w, bob(), OrderType::Buy, 2 * F, 60).unwrap();
    let taker = last_order(&w, &bob());
    assert_eq!(taker.status, OrderStatus::PartialFilled);
    assert_eq!((taker.remained_sell_amount, taker.remained_buy_amount), (40, 20));
    let head = w.ex.linked_item(&w.tp, None);
    assert_eq!((head.prev, head.next), (Some(2 * F), Some(3 * F)));
    assert_eq!(w.ex.linked_item(&w.tp, Some(2 * F)).orders, vec![taker.hash]);
    assert_eq!(w.ex.tokens().freezed_balance_of(&bob(), &w.b), 40);
}

#[test]
fn closed_list_of_one_holds_the_cancelled_order() {
    let mut ledger = tokens::Pallet::new();
    let b = ledger.do_issue(bob(), b"B".to_vec(), 1_000, H256::from_low_u64(1)).unwrap();
    let q = ledger.do_issue(alice(), b"Q".to_vec(), 1_000, H256::from_low_u64(2)).unwrap();
    let small = Config {
        price_factor: F,
        blocks_per_day: 10,
        opened_orders_array_cap: 1,
        closed_orders_array_cap: 1,
    };
    let mut ex = Pallet::new(small, ledger).unwrap();
    ex.create_trade_pair(alice(), b, q, &host(1)).unwrap();
    let tp = ex.ensure_trade_pair(b, q).unwrap();
    ex.create_order(alice(), b, q, OrderOpt::Limit, OrderType::Sell, 2 * F, 10, &host(1)).unwrap();
    let first = ex.registry().owned_orders(&alice(), 0).unwrap();
    assert_eq!(ex.registry().owned_tp_opened_orders(&alice(), &tp), vec![first]);
    ex.create_order(alice(), b, q, OrderOpt::Limit, OrderType::Sell, 3 * F, 10, &host(1)).unwrap();
    let second = ex.registry().owned_orders(&alice(), 1).unwrap();
    assert_eq!(ex.registry().owned_tp_opened_orders(&alice(), &tp), vec![second]);
    ex.cancel_limit_order(alice(), first).unwrap();
    assert_eq!(ex.registry().owned_tp_closed_orders(&alice(), &tp), vec![first]);
    ex.cancel_limit_order(alice(), second).unwrap();
    assert_eq!(ex.registry().owned_tp_closed_orders(&alice(), &tp), vec![second]);
    assert!(ex.registry().owned_tp_opened_orders(&alice(), &tp).is_empty());
}

#[test]
fn order_that_cannot_be_placed_changes_nothing() {
    let mut w = world();
    limit(&mut w, alice(), OrderType::Sell, 2 * F, 10).unwrap();
    let (b, q) = (w.b, w.q);
    let nonce = w.ex.nonce();
    let events = w.ex.event_count();
    let frozen = w.ex.tokens().freezed_balance_of(&bob(), &b);
    let refused = [
        (b, q, 0, 10, Error::BoundsCheckFailedPrice),
        (b, q, 2 * F, 0, Error::BoundsCheckFailedAmount),
        (b, q, 2 * F, 3, Error::BoundsCheckFailedAmount2),
        (q, b, 2 * F, 20, Error::NoMatchingTradePair),
        (b, q, 2 * F, 2_000_000, Error::Token(tokens::Error::BalanceNotEnough)),
    ];
    for (base, quote, price, amount, error) in refused {
        assert_eq!(
            w.ex.do_create_limit_order(bob(), base, quote, OrderType::Buy, price, amount, &host(1)),
            Err(error)
        );
        assert_eq!(w.ex.nonce(), nonce);
        assert_eq!(w.ex.event_count(), events);
        assert_eq!(w.ex.tokens().freezed_balance_of(&bob(), &b), frozen);
        assert_eq!(w.ex.registry().owned_orders_index(&bob()), 0);
        assert!(w.ex.registry().owned_tp_opened_orders(&bob(), &w.tp).is_empty());
        assert_eq!(w.ex.registry().trade_pair_owned_order(&w.tp).len(), 1);
        assert_eq!(w.ex.linked_item(&w.tp, None).next, Some(2 * F));
        assert_eq!(w.ex.linked_item(&w.tp, None).prev, Some(0));
    }
    assert_eq!(
        w.ex.do_create_market_order(bob(), q, b, OrderType::Buy, 1, &host(1)),
        Err(Error::NoMatchingTradePair)
    );
    assert_eq!(w.ex.nonce(), nonce);
}
