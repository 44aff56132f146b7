use trade::tokens::{Account, Error, Event, Pallet};
use trade::types::H256;

fn alice() -> H256 {
    H256::from_low_u64(1)
}

fn bob() -> H256 {
    H256::from_low_u64(2)
}

fn issued() -> (Pallet, H256) {
    let mut l = Pallet::new();
    let t = l.do_issue(alice(), b"TOK".to_vec(), 100, H256::from_low_u64(9)).unwrap();
    (l, t)
}

fn balanced(l: &Pallet, who: &H256, t: &H256) -> bool {
    let a = l.account_of(who, t);
    a.balance == a.free + a.frozen
}

#[test]
fn issue_gives_the_supply_to_the_issuer() {
    let (l, t) = issued();
    assert_eq!(l.owners(&t), Some(alice()));
    assert_eq!(l.account_of(&alice(), &t), Account { balance: 100, free: 100, frozen: 0 });
    assert_eq!(l.nonce(), 1);
    assert_eq!(l.event_count(), 1);
    assert_eq!(l.event(0), Event::Issued { minter: alice(), token_hash: t, total_supply: 100 });
}

#[test]
fn issue_derives_a_new_identifier_each_time() {
    let (mut l, t) = issued();
    let u = l.issue(alice(), b"TOK".to_vec(), 100, H256::from_low_u64(9)).unwrap();
    assert_ne!(t, u);
    assert_eq!(l.nonce(), 2);
}

#[test]
fn issue_under_a_taken_identifier_is_refused() {
    let (mut l, t) = issued();
    assert_eq!(l.issue_as(bob(), b"X".to_vec(), 5, t), Err(Error::TokenExisted));
    assert_eq!(l.owners(&t), Some(alice()));
    assert_eq!(l.nonce(), 1);
}

#[test]
fn freeze_and_unfreeze_move_between_free_and_frozen() {
    let (mut l, t) = issued();
    l.do_freeze(alice(), t, 30).unwrap();
    assert_eq!(l.account_of(&alice(), &t), Account { balance: 100, free: 70, frozen: 30 });
    assert!(balanced(&l, &alice(), &t));
    l.do_unfreeze(alice(), t, 10).unwrap();
    assert_eq!(l.account_of(&alice(), &t), Account { balance: 100, free: 80, frozen: 20 });
    assert!(balanced(&l, &alice(), &t));
    assert_eq!(l.do_freeze(alice(), t, 81), Err(Error::BalanceNotEnough));
    assert_eq!(l.do_unfreeze(alice(), t, 21), Err(Error::BalanceNotEnough));
    assert_eq!(l.account_of(&alice(), &t), Account { balance: 100, free: 80, frozen: 20 });
}

#[test]
fn transfer_moves_free_tokens_only() {
    let (mut l, t) = issued();
    l.do_freeze(alice(), t, 30).unwrap();
    assert_eq!(l.do_transfer(alice(), bob(), t, 71, None), Err(Error::BalanceNotEnough));
    l.do_transfer(alice(), bob(), t, 70, Some(vec![0u8; 512])).unwrap();
    assert_eq!(l.account_of(&alice(), &t), Account { balance: 30, free: 0, frozen: 30 });
    assert_eq!(l.account_of(&bob(), &t), Account { balance: 70, free: 70, frozen: 0 });
    assert!(balanced(&l, &alice(), &t) && balanced(&l, &bob(), &t));
    assert_eq!(
        l.balance_of(&alice(), &t) + l.balance_of(&bob(), &t),
        100
    );
}

#[test]
fn transfer_to_oneself_makes_no_tokens() {
    let (mut l, t) = issued();
    l.transfer(alice(), alice(), t, 40, None).unwrap();
    assert_eq!(l.account_of(&alice(), &t), Account { balance: 100, free: 100, frozen: 0 });
}

#[test]
fn ledger_refusals() {
    let (mut l, t) = issued();
    let unknown = H256::from_low_u64(77);
    assert_eq!(l.do_freeze(alice(), unknown, 1), Err(Error::NoMatchingToken));
    assert_eq!(l.do_freeze(bob(), t, 1), Err(Error::SenderHaveNoToken));
    assert_eq!(l.ensure_free_balance(bob(), t, 1), Err(Error::SenderHaveNoToken));
    assert_eq!(l.ensure_free_balance(alice(), t, 101), Err(Error::BalanceNotEnough));
    assert_eq!(l.ensure_free_balance(alice(), t, 100), Ok(()));
    assert_eq!(
        l.do_transfer(alice(), bob(), t, 1, Some(vec![0u8; 513])),
        Err(Error::MemoLengthExceedLimitation)
    );
    let mut big = Pallet::new();
    let u = big.do_issue(alice(), b"BIG".to_vec(), u128::MAX, H256::from_low_u64(1)).unwrap();
    big.issue_as(bob(), b"BIG2".to_vec(), 1, H256::from_low_u64(1234)).unwrap();
    big.do_transfer(alice(), bob(), u, 1, None).unwrap();
    big.do_transfer(bob(), alice(), u, 1, None).unwrap();
    // Bob holds nothing of `u` now; Alice holds everything and can take no more.
    big.issue_as(bob(), b"U2".to_vec(), 5, H256::from_low_u64(4321)).unwrap();
    assert_eq!(big.do_unfreeze(alice(), u, 1), Err(Error::AmountOverFlow));
    assert_eq!(l.freezed_balance_of(&alice(), &t), 0);
    assert_eq!(l.free_balance_of(&alice(), &t), 100);
}
