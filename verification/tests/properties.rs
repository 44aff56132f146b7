use trade::engine::Pallet;
use trade::tokens;
use trade::types::{Config, Host, Order, OrderOpt, OrderStatus, OrderType, H256};

const F: u128 = 100_000_000;

fn alice() -> H256 {
    H256::from_low_u64(11)
}

fn bob() -> H256 {
    H256::from_low_u64(12)
}

fn carol() -> H256 {
    H256::from_low_u64(13)
}

fn host() -> Host {
    Host { block_number: 5, random_seed: H256::from_low_u64(99) }
}

struct Setup {
    ex: Pallet,
    b: H256,
    q: H256,
    tp: H256,
}

fn setup() -> Setup {
    let mut ledger = tokens::Pallet::new();
    let b = ledger.do_issue(bob(), b"B".to_vec(), 10_000, H256::from_low_u64(1)).unwrap();
    let q = ledger.do_issue(alice(), b"Q".to_vec(), 10_000, H256::from_low_u64(2)).unwrap();
    ledger.do_transfer(bob(), carol(), b, 1000, None).unwrap();
    ledger.do_transfer(alice(), carol(), q, 1000, None).unwrap();
    let config = Config {
        price_factor: F,
        blocks_per_day: 10,
        opened_orders_array_cap: 20,
        closed_orders_array_cap: 100,
    };
    let mut ex = Pallet::new(config, ledger).unwrap();
    ex.create_trade_pair(bob(), b, q, &host()).unwrap();
    let tp = ex.ensure_trade_pair(b, q).unwrap();
    Setup { ex, b, q, tp }
}

fn place(s: &mut Setup, who: H256, oopt: OrderOpt, side: OrderType, price: u128, amount: u128) {
    let (b, q) = (s.b, s.q);
    s.ex.create_order(who, b, q, oopt, side, price, amount, &host()).unwrap();
}

fn everyone() -> [H256; 3] {
    [alice(), bob(), carol()]
}

fn total(s: &Setup, token: &H256) -> u128 {
    everyone().iter().map(|w| s.ex.tokens().balance_of(w, token)).sum()
}

fn all_balanced(s: &Setup) -> bool {
    everyone().iter().all(|w| {
        [s.b, s.q].iter().all(|t| {
            let a = s.ex.tokens().account_of(w, t);
            a.balance == a.free + a.frozen
        })
    })
}

/// The keys of the chain of a pair's book, from BOTTOM to TOP.
fn chain(s: &Setup) -> Vec<Option<u128>> {
    let mut keys = vec![Some(0)];
    loop {
        let next = s.ex.linked_item(&s.tp, *keys.last().unwrap()).next;
        keys.push(next);
        if next == Some(u128::MAX) {
            return keys;
        }
        assert!(keys.len() < 1000);
    }
}

fn resting_orders(s: &Setup) -> Vec<(u128, Order)> {
    let mut out = Vec::new();
    for key in chain(s) {
        let item = s.ex.linked_item(&s.tp, key);
        for h in item.orders.iter() {
            out.push((item.price.unwrap(), s.ex.registry().orders(h).unwrap()));
        }
    }
    out
}

fn busy_market() -> Setup {
    let mut s = setup();
    place(&mut s, alice(), OrderOpt::Limit, OrderType::Sell, 2 * F, 10);
    place(&mut s, carol(), OrderOpt::Limit, OrderType::Sell, 2 * F, 6);
    place(&mut s, alice(), OrderOpt::Limit, OrderType::Sell, 3 * F, 5);
    place(&mut s, bob(), OrderOpt::Limit, OrderType::Buy, F, 7);
    place(&mut s, carol(), OrderOpt::Limit, OrderType::Buy, F / 2, 4);
    place(&mut s, bob(), OrderOpt::Limit, OrderType::Buy, 2 * F, 24);
    place(&mut s, alice(), OrderOpt::Limit, OrderType::Sell, F, 3);
    s
}

#[test]
fn tokens_are_conserved() {
    let mut s = busy_market();
    assert_eq!(total(&s, &s.b), 10_000);
    assert_eq!(total(&s, &s.q), 10_000);
    assert!(all_balanced(&s));
    let open = s.ex.registry().owned_tp_opened_orders(&carol(), &s.tp);
    s.ex.cancel_limit_order(carol(), open[0]).unwrap();
    place(&mut s, bob(), OrderOpt::Market, OrderType::Buy, 0, 3);
    assert_eq!(total(&s, &s.b), 10_000);
    assert_eq!(total(&s, &s.q), 10_000);
    assert!(all_balanced(&s));
}

#[test]
fn book_is_linked_and_sorted() {
    let s = busy_market();
    let keys = chain(&s);
    assert_eq!(keys.first(), Some(&Some(0)));
    assert_eq!(keys.last(), Some(&Some(u128::MAX)));
    assert_eq!(keys.iter().filter(|k| k.is_none()).count(), 1);
    for w in keys.windows(2) {
        assert_eq!(s.ex.linked_item(&s.tp, w[1]).prev, w[0]);
        if let (Some(a), Some(b)) = (w[0], w[1]) {
            assert!(a < b);
        }
    }
    for (i, a) in keys.iter().enumerate() {
        assert!(keys[i + 1..].iter().all(|b| a != b));
    }
}

#[test]
fn level_sums_are_the_sums_of_their_orders() {
    let s = busy_market();
    let mut seen = 0;
    for key in chain(&s) {
        let item = s.ex.linked_item(&s.tp, key);
        let orders: Vec<Order> =
            item.orders.iter().map(|h| s.ex.registry().orders(h).unwrap()).collect();
        let sell: u128 = orders.iter().map(|o| o.remained_sell_amount).sum();
        let buy: u128 = orders.iter().map(|o| o.remained_buy_amount).sum();
        assert_eq!(item.sell_amount, sell);
        assert_eq!(item.buy_amount, buy);
        seen += orders.len();
    }
    assert!(seen >= 3);
}

#[test]
fn no_finished_order_rests() {
    let mut s = busy_market();
    let open = s.ex.registry().owned_tp_opened_orders(&carol(), &s.tp);
    s.ex.cancel_limit_order(carol(), open[0]).unwrap();
    let resting = resting_orders(&s);
    assert!(!resting.is_empty());
    for (price, o) in resting {
        assert!(!o.is_finished());
        assert_eq!(o.price, price);
    }
    for who in everyone() {
        for h in s.ex.registry().owned_tp_closed_orders(&who, &s.tp) {
            assert!(s.ex.registry().orders(&h).unwrap().is_finished());
        }
    }
}

#[test]
fn fills_convert_within_one_unit() {
    let s = busy_market();
    let trades = s.ex.registry().trade_pair_owned_trades(&s.tp);
    assert!(trades.len() >= 2);
    for h in trades {
        let t = s.ex.registry().trades(&h).unwrap();
        let exact = t.base_amount * F;
        let paid = t.quote_amount * t.price;
        assert!(paid + t.price > exact && exact + t.price > paid);
    }
}

#[test]
fn identifiers_are_never_reused() {
    let s = busy_market();
    let mut all: Vec<H256> = s.ex.registry().trade_pair_owned_order(&s.tp);
    all.extend(s.ex.registry().trade_pair_owned_trades(&s.tp));
    all.push(s.tp);
    for (i, a) in all.iter().enumerate() {
        assert!(all[i + 1..].iter().all(|b| a != b));
    }
    assert_eq!(s.ex.nonce() as usize, all.len());
}

#[test]
fn dust_of_a_completed_maker_stays_in_the_sums() {
    let mut s = setup();
    place(&mut s, alice(), OrderOpt::Limit, OrderType::Sell, 3 * F / 2, 4);
    place(&mut s, carol(), OrderOpt::Limit, OrderType::Sell, 3 * F / 2, 2);
    // One quote costs 1.5 base, which is rounded up to 2.
    place(&mut s, bob(), OrderOpt::Limit, OrderType::Buy, 3 * F, 3);
    let first = s.ex.registry().owned_orders(&alice(), 0).unwrap();
    let a = s.ex.registry().orders(&first).unwrap();
    assert_eq!((a.remained_sell_amount, a.remained_buy_amount), (3, 4));
    // Four base buy two quote; the maker's third quote is released as dust.
    place(&mut s, bob(), OrderOpt::Limit, OrderType::Buy, 3 * F, 6);
    let a = s.ex.registry().orders(&first).unwrap();
    assert_eq!(a.status, OrderStatus::Filled);
    assert_eq!((a.remained_sell_amount, a.remained_buy_amount), (0, 0));
    assert_eq!(s.ex.tokens().freezed_balance_of(&alice(), &s.q), 0);
    let level = s.ex.linked_item(&s.tp, Some(3 * F / 2));
    assert_eq!(level.orders.len(), 1);
    let c = s.ex.registry().orders(&level.orders[0]).unwrap();
    assert_eq!((c.remained_sell_amount, c.remained_buy_amount), (2, 3));
    assert_eq!((level.sell_amount, level.buy_amount), (3, 3));
}

#[test]
fn swept_market_order_stays_in_the_book_until_drained() {
    let mut s = setup();
    place(&mut s, alice(), OrderOpt::Limit, OrderType::Sell, 2 * F, 1);
    // Bob wants 3 quote, the book has 1.
    place(&mut s, bob(), OrderOpt::Market, OrderType::Buy, 0, 3);
    let h = s.ex.registry().owned_orders(&bob(), 0).unwrap();
    let o = s.ex.registry().orders(&h).unwrap();
    assert_eq!(o.status, OrderStatus::Filled);
    assert_eq!((o.sell_amount, o.buy_amount), (2, 1));
    assert_eq!((o.remained_sell_amount, o.remained_buy_amount), (0, 0));
    assert_eq!(s.ex.tokens().balance_of(&bob(), &s.q), 1);
    // What was left of it rests as a bid, and a seller's fill clears it away.
    assert_eq!(s.ex.linked_item(&s.tp, Some(2 * F)).orders, vec![h]);
    place(&mut s, alice(), OrderOpt::Limit, OrderType::Sell, 2 * F, 1);
    assert_eq!(s.ex.linked_item(&s.tp, None).prev, Some(0));
}
