use trade::hashing::{hash_bytes, order_hash, token_hash, trade_hash, trade_pair_hash};
use trade::types::{Order, OrderOpt, OrderType, H256};

fn be(h: &H256) -> Vec<u8> {
    let mut v = h.hi.to_be_bytes().to_vec();
    v.extend_from_slice(&h.lo.to_be_bytes());
    v
}

fn sample_order() -> Order {
    Order::new(
        H256 { hi: 1, lo: 2 },
        H256 { hi: 3, lo: 4 },
        H256 { hi: 5, lo: 6 },
        H256 { hi: 7, lo: 8 },
        9,
        10,
        11,
        OrderOpt::Limit,
        OrderType::Sell,
    )
}

#[test]
fn digest_of_the_empty_input() {
    let h = hash_bytes(&Vec::new());
    assert_eq!(h.hi, 0x0e5751c026e543b2e8ab2eb06099daa1);
    assert_eq!(h.lo, 0xd1e5df47778f7787faab45cdf12fe3a8);
}

#[test]
fn digest_depends_on_the_input() {
    assert_ne!(hash_bytes(&vec![0u8]), hash_bytes(&vec![1u8]));
    assert_eq!(hash_bytes(&vec![1u8, 2, 3]), hash_bytes(&vec![1u8, 2, 3]));
}

#[test]
fn token_identifier_hashes_its_preimage() {
    let random = H256 { hi: 0x0102, lo: 0x0304 };
    let sender = H256 { hi: 0xAA, lo: 0xBB };
    let nonce: u64 = 0x1122_3344_5566_7788;
    let mut pre = be(&random);
    pre.extend(be(&sender));
    pre.extend_from_slice(&nonce.to_le_bytes());
    assert_eq!(pre.len(), 72);
    assert_eq!(token_hash(&random, &sender, nonce), hash_bytes(&pre));
}

#[test]
fn trade_pair_identifier_hashes_its_preimage() {
    let seed = H256 { hi: 1, lo: 2 };
    let sender = H256 { hi: 3, lo: 4 };
    let base = H256 { hi: 5, lo: 6 };
    let quote = H256 { hi: 7, lo: 8 };
    let nonce: u128 = 0x0102_0304_0506_0708_090a_0b0c_0d0e_0f10;
    let mut pre = be(&seed);
    pre.extend_from_slice(&77u64.to_le_bytes());
    pre.extend(be(&sender));
    pre.extend(be(&base));
    pre.extend(be(&quote));
    pre.extend_from_slice(&nonce.to_le_bytes());
    assert_eq!(trade_pair_hash(&seed, 77, &sender, &base, &quote, nonce), hash_bytes(&pre));
    assert_ne!(
        trade_pair_hash(&seed, 77, &sender, &base, &quote, nonce),
        trade_pair_hash(&seed, 77, &sender, &base, &quote, nonce + 1)
    );
}

#[test]
fn order_identifier_hashes_its_preimage() {
    let seed = H256 { hi: 1, lo: 2 };
    let o = sample_order();
    let mut pre = be(&seed);
    pre.extend(be(&o.base));
    pre.extend(be(&o.quote));
    pre.extend(be(&o.owner));
    pre.extend_from_slice(&o.price.to_le_bytes());
    pre.extend_from_slice(&o.sell_amount.to_le_bytes());
    pre.extend_from_slice(&o.buy_amount.to_le_bytes());
    pre.push(0);
    pre.push(1);
    pre.extend_from_slice(&5u128.to_le_bytes());
    pre.extend_from_slice(&6u64.to_le_bytes());
    assert_eq!(order_hash(&seed, &o, 5, 6), hash_bytes(&pre));
    // The identifier field itself takes no part.
    let mut other = o;
    other.hash = H256 { hi: 99, lo: 99 };
    assert_eq!(order_hash(&seed, &o, 5, 6), order_hash(&seed, &other, 5, 6));
}

#[test]
fn trade_identifier_hashes_its_preimage() {
    let seed = H256 { hi: 1, lo: 2 };
    let maker = sample_order();
    let mut taker = sample_order();
    taker.hash = H256 { hi: 42, lo: 43 };
    taker.remained_sell_amount = 3;
    let mut pre = be(&seed);
    pre.extend_from_slice(&8u64.to_le_bytes());
    pre.extend_from_slice(&9u128.to_le_bytes());
    pre.extend(be(&maker.hash));
    pre.extend_from_slice(&maker.remained_sell_amount.to_le_bytes());
    pre.extend(be(&maker.owner));
    pre.extend(be(&taker.hash));
    pre.extend_from_slice(&taker.remained_sell_amount.to_le_bytes());
    pre.extend(be(&taker.owner));
    assert_eq!(trade_hash(&seed, 8, 9, &maker, &taker), hash_bytes(&pre));
}
