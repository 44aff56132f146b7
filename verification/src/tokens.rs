//! The token ledger: who issued which token, and what every account holds
//! of it, free and frozen.

use vstd::prelude::*;
use crate::hashing::{hash_of, token_hash, token_preimage};
use crate::table::{copy_vec, Duplicate, Table};
use crate::types::{AccountId, Balance, H256};

verus! {

/// A token: its identifier, its symbol and how much of it was issued.
#[derive(Debug)]
pub struct Token {
    pub hash: H256,
    pub symbol: Vec<u8>,
    pub total_supply: Balance,
}

/// The mathematical value of a token.
pub struct TokenView {
    pub hash: H256,
    pub symbol: Seq<u8>,
    pub total_supply: Balance,
}

impl View for Token {
    type V = TokenView;

    open spec fn view(&self) -> TokenView {
        TokenView { hash: self.hash, symbol: self.symbol@, total_supply: self.total_supply }
    }
}

/// What one account holds of one token: `balance` in all, of which `free`
/// can be spent and `frozen` is reserved for open orders.
#[derive(Clone, Copy, Debug, PartialEq, Eq, Structural)]
pub struct Account {
    pub balance: Balance,
    pub free: Balance,
    pub frozen: Balance,
}

impl View for Account {
    type V = Account;

    open spec fn view(&self) -> Account {
        *self
    }
}

/// Why the ledger turned a call down.
#[derive(Clone, Copy, Debug, PartialEq, Eq, Structural)]
pub enum Error {
    NoMatchingToken,
    BalanceNotEnough,
    AmountOverFlow,
    SenderHaveNoToken,
    MemoLengthExceedLimitation,
    /// The nonce or an index has no successor.
    Overflow,
    /// The identifier derived for a new token is already taken.
    TokenExisted,
}

/// What the ledger announces.
#[derive(Clone, Copy, Debug, PartialEq, Eq, Structural)]
pub enum Event {
    Issued { minter: AccountId, token_hash: H256, total_supply: Balance },
    Transferred { from: AccountId, to: AccountId, token_hash: H256, amount: Balance },
    Freezed { owner: AccountId, token_hash: H256, amount: Balance },
    Unfreezed { owner: AccountId, token_hash: H256, amount: Balance },
}

/// The longest memo a transfer may carry, in bytes.
pub const MAX_MEMO_LEN: usize = 512;

/// The ledger.
#[derive(Debug)]
pub struct Pallet {
    tokens: Table<H256, Token>,
    owners: Table<H256, AccountId>,
    accounts: Table<(AccountId, H256), Account>,
    owned_tokens: Table<AccountId, Vec<H256>>,
    nonce: u64,
    events: Vec<Event>,
}

/// The mathematical value of the ledger.
pub struct LedgerView {
    pub tokens: Map<H256, TokenView>,
    pub owners: Map<H256, AccountId>,
    pub accounts: Map<(AccountId, H256), Account>,
    pub owned_tokens: Map<AccountId, Seq<H256>>,
    pub nonce: u64,
    pub events: Seq<Event>,
}

impl View for Pallet {
    type V = LedgerView;

    closed spec fn view(&self) -> LedgerView {
        LedgerView {
            tokens: self.tokens@,
            owners: self.owners@,
            accounts: self.accounts@,
            owned_tokens: self.owned_tokens@,
            nonce: self.nonce,
            events: self.events@,
        }
    }
}

impl LedgerView {
    /// What `who` holds of `token`; nothing where the ledger has no entry.
    pub open spec fn account(self, who: AccountId, token: H256) -> Account {
        if self.accounts.contains_key((who, token)) {
            self.accounts[(who, token)]
        } else {
            Account { balance: 0, free: 0, frozen: 0 }
        }
    }

    /// The tokens that `who` issued, in the order of issue.
    pub open spec fn issued_by(self, who: AccountId) -> Seq<H256> {
        if self.owned_tokens.contains_key(who) {
            self.owned_tokens[who]
        } else {
            Seq::empty()
        }
    }

    /// Every account's balance is the sum of its free and frozen parts.
    pub open spec fn balanced(self) -> bool {
        forall|k: (AccountId, H256)| #[trigger]
            self.accounts.contains_key(k) ==> self.accounts[k].balance == self.accounts[k].free
                + self.accounts[k].frozen
    }

    /// Why nothing can be done for `who` on `token`: the token is unknown, or
    /// the account has never held it.
    pub open spec fn refusal(self, who: AccountId, token: H256) -> Option<Error> {
        if !self.tokens.contains_key(token) {
            Some(Error::NoMatchingToken)
        } else if !self.accounts.contains_key((who, token)) {
            Some(Error::SenderHaveNoToken)
        } else {
            None
        }
    }

    /// The ledger with one account replaced and one event more.
    pub open spec fn with_account(self, who: AccountId, token: H256, a: Account) -> LedgerView {
        LedgerView { accounts: self.accounts.insert((who, token), a), ..self }
    }

    /// The ledger with one event more.
    pub open spec fn announce(self, e: Event) -> LedgerView {
        LedgerView { events: self.events.push(e), ..self }
    }

    /// Whether `who` can spend `amount` of `token`.
    pub open spec fn ensure_free(self, who: AccountId, token: H256, amount: Balance) -> Result<
        (),
        Error,
    > {
        match self.refusal(who, token) {
            Some(e) => Err(e),
            None => if self.account(who, token).free >= amount {
                Ok(())
            } else {
                Err(Error::BalanceNotEnough)
            },
        }
    }

    /// The ledger after `amount` of `token` has moved from the free to the
    /// frozen part of `owner`'s account, or why it cannot.
    pub open spec fn freeze(self, owner: AccountId, token: H256, amount: Balance) -> Result<
        LedgerView,
        Error,
    > {
        let a = self.account(owner, token);
        match self.refusal(owner, token) {
            Some(e) => Err(e),
            None => if a.free < amount {
                Err(Error::BalanceNotEnough)
            } else if a.frozen + amount > u128::MAX {
                Err(Error::AmountOverFlow)
            } else {
                Ok(
                    self.with_account(
                        owner,
                        token,
                        Account {
                            balance: a.balance,
                            free: (a.free - amount) as u128,
                            frozen: (a.frozen + amount) as u128,
                        },
                    ).announce(Event::Freezed { owner, token_hash: token, amount }),
                )
            },
        }
    }

    /// The ledger after `amount` of `token` has moved from the frozen to the
    /// free part of `owner`'s account, or why it cannot.
    pub open spec fn unfreeze(self, owner: AccountId, token: H256, amount: Balance) -> Result<
        LedgerView,
        Error,
    > {
        let a = self.account(owner, token);
        match self.refusal(owner, token) {
            Some(e) => Err(e),
            None => if a.free + amount > u128::MAX {
                Err(Error::AmountOverFlow)
            } else if a.frozen < amount {
                Err(Error::BalanceNotEnough)
            } else {
                Ok(
                    self.with_account(
                        owner,
                        token,
                        Account {
                            balance: a.balance,
                            free: (a.free + amount) as u128,
                            frozen: (a.frozen - amount) as u128,
                        },
                    ).announce(Event::Unfreezed { owner, token_hash: token, amount }),
                )
            },
        }
    }

    /// The ledger after `amount` of `token` has moved from the free part of
    /// `from`'s account to the free part of `to`'s, or why it cannot. A
    /// transfer to oneself is checked like any other and changes no amount.
    pub open spec fn transfer(
        self,
        from: AccountId,
        to: AccountId,
        token: H256,
        amount: Balance,
        memo_len: Option<nat>,
    ) -> Result<LedgerView, Error> {
        let f = self.account(from, token);
        let t = self.account(to, token);
        match self.refusal(from, token) {
            Some(e) => Err(e),
            None => if memo_len.is_some() && memo_len.unwrap() > MAX_MEMO_LEN {
                Err(Error::MemoLengthExceedLimitation)
            } else if f.balance < amount || f.free < amount {
                Err(Error::BalanceNotEnough)
            } else if t.balance + amount > u128::MAX || t.free + amount > u128::MAX {
                Err(Error::AmountOverFlow)
            } else {
                let debited = self.with_account(
                    from,
                    token,
                    Account {
                        balance: (f.balance - amount) as u128,
                        free: (f.free - amount) as u128,
                        frozen: f.frozen,
                    },
                );
                let t2 = debited.account(to, token);
                Ok(
                    debited.with_account(
                        to,
                        token,
                        Account {
                            balance: (t2.balance + amount) as u128,
                            free: (t2.free + amount) as u128,
                            frozen: t2.frozen,
                        },
                    ).announce(Event::Transferred { from, to, token_hash: token, amount }),
                )
            },
        }
    }

    /// The identifier of the token that `sender` would issue next.
    pub open spec fn next_token(self, sender: AccountId, random: H256) -> H256 {
        hash_of(token_preimage(random, sender, self.nonce))
    }

    /// The ledger after `sender` has issued `total_supply` of a new token
    /// named `hash`, or why it cannot.
    pub open spec fn issue(
        self,
        sender: AccountId,
        symbol: Seq<u8>,
        total_supply: Balance,
        hash: H256,
    ) -> Result<LedgerView, Error> {
        if self.nonce == u64::MAX || self.issued_by(sender).len() >= u64::MAX {
            Err(Error::Overflow)
        } else if self.tokens.contains_key(hash) || self.owners.contains_key(hash)
            || self.accounts.contains_key((sender, hash)) {
            Err(Error::TokenExisted)
        } else {
            Ok(
                LedgerView {
                    tokens: self.tokens.insert(hash, TokenView { hash, symbol, total_supply }),
                    owners: self.owners.insert(hash, sender),
                    accounts: self.accounts.insert(
                        (sender, hash),
                        Account { balance: total_supply, free: total_supply, frozen: 0 },
                    ),
                    owned_tokens: self.owned_tokens.insert(
                        sender,
                        self.issued_by(sender).push(hash),
                    ),
                    nonce: (self.nonce + 1) as u64,
                    events: self.events.push(
                        Event::Issued { minter: sender, token_hash: hash, total_supply },
                    ),
                },
            )
        }
    }
}

impl Pallet {
    /// The tables hold no key twice.
    pub closed spec fn tables_wf(&self) -> bool {
        &&& self.tokens.wf()
        &&& self.owners.wf()
        &&& self.accounts.wf()
        &&& self.owned_tokens.wf()
    }

    /// The ledger is well formed: its tables are, and every balance is the
    /// sum of its free and frozen parts.
    pub open spec fn wf(&self) -> bool {
        self.tables_wf() && self@.balanced()
    }

    /// The empty ledger.
    pub fn new() -> (l: Pallet)
        ensures
            l.wf(),
            l@.tokens == Map::<H256, TokenView>::empty(),
            l@.owners == Map::<H256, AccountId>::empty(),
            l@.accounts == Map::<(AccountId, H256), Account>::empty(),
            l@.owned_tokens == Map::<AccountId, Seq<H256>>::empty(),
            l@.nonce == 0,
            l@.events == Seq::<Event>::empty(),
    {
        Pallet {
            tokens: Table::new(),
            owners: Table::new(),
            accounts: Table::new(),
            owned_tokens: Table::new(),
            nonce: 0,
            events: Vec::new(),
        }
    }

    /// The account that issued a token.
    pub fn owners(&self, token_hash: &H256) -> (r: Option<AccountId>)
        requires
            self.wf(),
        ensures
            r == (if self@.owners.contains_key(*token_hash) {
                Some(self@.owners[*token_hash])
            } else {
                None
            }),
    {
        match self.owners.get(token_hash) {
            Some(a) => Some(*a),
            None => None,
        }
    }

    /// What an account holds of a token.
    pub fn account_of(&self, who: &AccountId, token_hash: &H256) -> (a: Account)
        requires
            self.wf(),
        ensures
            a == self@.account(*who, *token_hash),
    {
        match self.accounts.get(&(*who, *token_hash)) {
            Some(a) => *a,
            None => Account { balance: 0, free: 0, frozen: 0 },
        }
    }

    /// The whole of what an account holds of a token.
    pub fn balance_of(&self, who: &AccountId, token_hash: &H256) -> (b: Balance)
        requires
            self.wf(),
        ensures
            b == self@.account(*who, *token_hash).balance,
    {
        self.account_of(who, token_hash).balance
    }

    /// The part an account can spend.
    pub fn free_balance_of(&self, who: &AccountId, token_hash: &H256) -> (b: Balance)
        requires
            self.wf(),
        ensures
            b == self@.account(*who, *token_hash).free,
    {
        self.account_of(who, token_hash).free
    }

    /// The part reserved for an account's open orders.
    pub fn freezed_balance_of(&self, who: &AccountId, token_hash: &H256) -> (b: Balance)
        requires
            self.wf(),
        ensures
            b == self@.account(*who, *token_hash).frozen,
    {
        self.account_of(who, token_hash).frozen
    }

    /// How much of a token was issued.
    pub fn total_supply(&self, token_hash: &H256) -> (r: Option<Balance>)
        requires
            self.wf(),
        ensures
            r == (if self@.tokens.contains_key(*token_hash) {
                Some(self@.tokens[*token_hash].total_supply)
            } else {
                None
            }),
    {
        match self.tokens.get(token_hash) {
            Some(t) => Some(t.total_supply),
            None => None,
        }
    }

    /// The number of tokens an account has issued.
    pub fn owned_token_total(&self, who: &AccountId) -> (n: usize)
        requires
            self.wf(),
        ensures
            n == self@.issued_by(*who).len(),
    {
        match self.owned_tokens.get(who) {
            Some(v) => v.len(),
            None => 0,
        }
    }

    /// The `i`-th token an account has issued.
    pub fn owned_token_index(&self, who: &AccountId, i: u64) -> (r: Option<H256>)
        requires
            self.wf(),
        ensures
            r == (if i < self@.issued_by(*who).len() {
                Some(self@.issued_by(*who)[i as int])
            } else {
                None
            }),
    {
        match self.owned_tokens.get(who) {
            Some(v) => if i < v.len() as u64 {
                Some(v[i as usize])
            } else {
                None
            },
            None => None,
        }
    }

    /// The ledger's nonce: the number of tokens issued so far.
    pub fn nonce(&self) -> (n: u64)
        ensures
            n == self@.nonce,
    {
        self.nonce
    }

    /// The number of events announced so far.
    pub fn event_count(&self) -> (n: usize)
        ensures
            n == self@.events.len(),
    {
        self.events.len()
    }

    /// The `i`-th event announced.
    pub fn event(&self, i: usize) -> (e: Event)
        requires
            i < self@.events.len(),
        ensures
            e == self@.events[i as int],
    {
        self.events[i]
    }

    fn check(&self, who: &AccountId, token_hash: &H256) -> (r: Option<Error>)
        requires
            self.wf(),
        ensures
            r == self@.refusal(*who, *token_hash),
    {
        if !self.tokens.contains(token_hash) {
            Some(Error::NoMatchingToken)
        } else if !self.accounts.contains(&(*who, *token_hash)) {
            Some(Error::SenderHaveNoToken)
        } else {
            None
        }
    }

    /// Checks that `sender` can spend `amount` of the token.
    pub fn ensure_free_balance(&self, sender: AccountId, token_hash: H256, amount: Balance) -> (r:
        Result<(), Error>)
        requires
            self.wf(),
        ensures
            r == self@.ensure_free(sender, token_hash, amount),
    {
        match self.check(&sender, &token_hash) {
            Some(e) => Err(e),
            None => if self.free_balance_of(&sender, &token_hash) >= amount {
                Ok(())
            } else {
                Err(Error::BalanceNotEnough)
            },
        }
    }

    /// Reserves `amount` of the token in the owner's account: it moves from
    /// the free part to the frozen part. A refused call changes nothing.
    pub fn do_freeze(&mut self, owner: AccountId, token_hash: H256, amount: Balance) -> (r: Result<
        (),
        Error,
    >)
        requires
            old(self).wf(),
        ensures
            final(self).wf(),
            match r {
                Ok(()) => old(self)@.freeze(owner, token_hash, amount) == Ok::<LedgerView, Error>(
                    final(self)@,
                ),
                Err(e) => old(self)@.freeze(owner, token_hash, amount) == Err::<LedgerView, Error>(
                    e,
                ) && final(self)@ == old(self)@,
            },
    {
        match self.check(&owner, &token_hash) {
            Some(e) => {
                return Err(e);
            },
            None => {},
        }
        let a = self.account_of(&owner, &token_hash);
        if a.free < amount {
            return Err(Error::BalanceNotEnough);
        }
        if a.frozen > u128::MAX - amount {
            return Err(Error::AmountOverFlow);
        }
        self.accounts.insert(
            (owner, token_hash),
            Account { balance: a.balance, free: a.free - amount, frozen: a.frozen + amount },
        );
        self.events.push(Event::Freezed { owner, token_hash, amount });
        Ok(())
    }

    /// Releases `amount` of the token in the owner's account: it moves from
    /// the frozen part back to the free part. A refused call changes nothing.
    pub fn do_unfreeze(&mut self, owner: AccountId, token_hash: H256, amount: Balance) -> (r:
        Result<(), Error>)
        requires
            old(self).wf(),
        ensures
            final(self).wf(),
            match r {
                Ok(()) => old(self)@.unfreeze(owner, token_hash, amount) == Ok::<LedgerView, Error>(
                    final(self)@,
                ),
                Err(e) => old(self)@.unfreeze(owner, token_hash, amount) == Err::<
                    LedgerView,
                    Error,
                >(e) && final(self)@ == old(self)@,
            },
    {
        match self.check(&owner, &token_hash) {
            Some(e) => {
                return Err(e);
            },
            None => {},
        }
        let a = self.account_of(&owner, &token_hash);
        if a.free > u128::MAX - amount {
            return Err(Error::AmountOverFlow);
        }
        if a.frozen < amount {
            return Err(Error::BalanceNotEnough);
        }
        self.accounts.insert(
            (owner, token_hash),
            Account { balance: a.balance, free: a.free + amount, frozen: a.frozen - amount },
        );
        self.events.push(Event::Unfreezed { owner, token_hash, amount });
        Ok(())
    }

    /// Moves `amount` of the token from the free part of `from`'s account to
    /// the free part of `to`'s. A memo may come along; it is only measured.
    /// A refused call changes nothing.
    pub fn do_transfer(
        &mut self,
        from: AccountId,
        to: AccountId,
        token_hash: H256,
        amount: Balance,
        memo: Option<Vec<u8>>,
    ) -> (r: Result<(), Error>)
        requires
            old(self).wf(),
        ensures
            final(self).wf(),
            match r {
                Ok(()) => old(self)@.transfer(from, to, token_hash, amount, memo_len(memo))
                    == Ok::<LedgerView, Error>(final(self)@),
                Err(e) => old(self)@.transfer(from, to, token_hash, amount, memo_len(memo))
                    == Err::<LedgerView, Error>(e) && final(self)@ == old(self)@,
            },
    {
        match self.check(&from, &token_hash) {
            Some(e) => {
                return Err(e);
            },
            None => {},
        }
        match &memo {
            Some(m) => {
                if m.len() > MAX_MEMO_LEN {
                    return Err(Error::MemoLengthExceedLimitation);
                }
            },
            None => {},
        }
        let f = self.account_of(&from, &token_hash);
        let t = self.account_of(&to, &token_hash);
        if f.balance < amount || f.free < amount {
            return Err(Error::BalanceNotEnough);
        }
        if t.balance > u128::MAX - amount || t.free > u128::MAX - amount {
            return Err(Error::AmountOverFlow);
        }
        self.accounts.insert(
            (from, token_hash),
            Account { balance: f.balance - amount, free: f.free - amount, frozen: f.frozen },
        );
        let t2 = self.account_of(&to, &token_hash);
        self.accounts.insert(
            (to, token_hash),
            Account { balance: t2.balance + amount, free: t2.free + amount, frozen: t2.frozen },
        );
        self.events.push(Event::Transferred { from, to, token_hash, amount });
        Ok(())
    }

    /// Moves `amount` of a token from the sender to `to`.
    pub fn transfer(
        &mut self,
        sender: AccountId,
        to: AccountId,
        token_hash: H256,
        amount: Balance,
        memo: Option<Vec<u8>>,
    ) -> (r: Result<(), Error>)
        requires
            old(self).wf(),
        ensures
            final(self).wf(),
            match r {
                Ok(()) => old(self)@.transfer(sender, to, token_hash, amount, memo_len(memo))
                    == Ok::<LedgerView, Error>(final(self)@),
                Err(e) => old(self)@.transfer(sender, to, token_hash, amount, memo_len(memo))
                    == Err::<LedgerView, Error>(e) && final(self)@ == old(self)@,
            },
    {
        self.do_transfer(sender, to, token_hash, amount, memo)
    }

    /// Issues a new token under the identifier `hash`: the whole supply goes
    /// to the free part of the sender's account, and the sender becomes the
    /// token's owner. A refused call changes nothing.
    pub fn issue_as(
        &mut self,
        sender: AccountId,
        symbol: Vec<u8>,
        total_supply: Balance,
        hash: H256,
    ) -> (r: Result<(), Error>)
        requires
            old(self).wf(),
        ensures
            final(self).wf(),
            match r {
                Ok(()) => old(self)@.issue(sender, symbol@, total_supply, hash) == Ok::<
                    LedgerView,
                    Error,
                >(final(self)@),
                Err(e) => old(self)@.issue(sender, symbol@, total_supply, hash) == Err::<
                    LedgerView,
                    Error,
                >(e) && final(self)@ == old(self)@,
            },
    {
        let ghost before = self@;
        let count: usize = match self.owned_tokens.get(&sender) {
            Some(v) => v.len(),
            None => 0,
        };
        if self.nonce == u64::MAX || count as u64 >= u64::MAX {
            return Err(Error::Overflow);
        }
        if self.tokens.contains(&hash) || self.owners.contains(&hash) || self.accounts.contains(
            &(sender, hash),
        ) {
            return Err(Error::TokenExisted);
        }
        let token = Token { hash, symbol, total_supply };
        self.tokens.insert(hash, token);
        self.owners.insert(hash, sender);
        self.accounts.insert(
            (sender, hash),
            Account { balance: total_supply, free: total_supply, frozen: 0 },
        );
        let mut list: Vec<H256> = match self.owned_tokens.remove(&sender) {
            Some(v) => v,
            None => Vec::new(),
        };
        list.push(hash);
        self.owned_tokens.insert(sender, list);
        self.nonce = self.nonce + 1;
        self.events.push(Event::Issued { minter: sender, token_hash: hash, total_supply });
        proof {
            assert(self@.owned_tokens =~= before.owned_tokens.insert(
                sender,
                before.issued_by(sender).push(hash),
            ));
        }
        Ok(())
    }

    /// Issues a new token. Its identifier is derived from the randomness the
    /// host drew for the symbol, the sender and the ledger's nonce.
    pub fn do_issue(
        &mut self,
        sender: AccountId,
        symbol: Vec<u8>,
        total_supply: Balance,
        random: H256,
    ) -> (r: Result<H256, Error>)
        requires
            old(self).wf(),
        ensures
            final(self).wf(),
            match r {
                Ok(h) => h == old(self)@.next_token(sender, random) && old(self)@.issue(
                    sender,
                    symbol@,
                    total_supply,
                    h,
                ) == Ok::<LedgerView, Error>(final(self)@),
                Err(e) => old(self)@.issue(
                    sender,
                    symbol@,
                    total_supply,
                    old(self)@.next_token(sender, random),
                ) == Err::<LedgerView, Error>(e) && final(self)@ == old(self)@,
            },
    {
        let hash = token_hash(&random, &sender, self.nonce);
        match self.issue_as(sender, symbol, total_supply, hash) {
            Ok(()) => Ok(hash),
            Err(e) => Err(e),
        }
    }

    /// Issues a new token for the sender.
    pub fn issue(&mut self, sender: AccountId, symbol: Vec<u8>, total_supply: Balance, random: H256)
        -> (r: Result<H256, Error>)
        requires
            old(self).wf(),
        ensures
            final(self).wf(),
            match r {
                Ok(h) => h == old(self)@.next_token(sender, random) && old(self)@.issue(
                    sender,
                    symbol@,
                    total_supply,
                    h,
                ) == Ok::<LedgerView, Error>(final(self)@),
                Err(e) => old(self)@.issue(
                    sender,
                    symbol@,
                    total_supply,
                    old(self)@.next_token(sender, random),
                ) == Err::<LedgerView, Error>(e) && final(self)@ == old(self)@,
            },
    {
        self.do_issue(sender, symbol, total_supply, random)
    }
}

/// The length of a memo, if there is one.
pub open spec fn memo_len(memo: Option<Vec<u8>>) -> Option<nat> {
    match memo {
        Some(m) => Some(m@.len()),
        None => None,
    }
}


impl LedgerView {
    /// Freezing keeps the ledger balanced and changes no balance: only the
    /// split of the owner's balance into free and frozen moves.
    pub proof fn lemma_freeze_conserves(self, owner: AccountId, token: H256, amount: Balance)
        requires
            self.balanced(),
            self.freeze(owner, token, amount).is_ok(),
        ensures
            self.freeze(owner, token, amount).unwrap().balanced(),
            forall|who: AccountId, t: H256|
                (#[trigger] self.freeze(owner, token, amount).unwrap().account(who, t)).balance
                    == self.account(who, t).balance,
            forall|who: AccountId, t: H256|
                (who, t) != (owner, token) ==> #[trigger] self.freeze(
                    owner,
                    token,
                    amount,
                ).unwrap().account(who, t) == self.account(who, t),
            self.freeze(owner, token, amount).unwrap().account(owner, token).frozen
                == self.account(owner, token).frozen + amount,
    {
    }

    /// Unfreezing keeps the ledger balanced and changes no balance.
    pub proof fn lemma_unfreeze_conserves(self, owner: AccountId, token: H256, amount: Balance)
        requires
            self.balanced(),
            self.unfreeze(owner, token, amount).is_ok(),
        ensures
            self.unfreeze(owner, token, amount).unwrap().balanced(),
            forall|who: AccountId, t: H256|
                (#[trigger] self.unfreeze(owner, token, amount).unwrap().account(who, t)).balance
                    == self.account(who, t).balance,
            forall|who: AccountId, t: H256|
                (who, t) != (owner, token) ==> #[trigger] self.unfreeze(
                    owner,
                    token,
                    amount,
                ).unwrap().account(who, t) == self.account(who, t),
            self.unfreeze(owner, token, amount).unwrap().account(owner, token).frozen
                == self.account(owner, token).frozen - amount,
    {
    }

    /// A transfer keeps the ledger balanced and makes no tokens: what leaves
    /// the sender's balance arrives in the receiver's, frozen parts stay as
    /// they are, and every other account stays as it is.
    pub proof fn lemma_transfer_conserves(
        self,
        from: AccountId,
        to: AccountId,
        token: H256,
        amount: Balance,
        memo: Option<nat>,
    )
        requires
            self.balanced(),
            self.transfer(from, to, token, amount, memo).is_ok(),
        ensures
            self.transfer(from, to, token, amount, memo).unwrap().balanced(),
            ({
                let l = self.transfer(from, to, token, amount, memo).unwrap();
                &&& from != to ==> l.account(from, token).balance == self.account(
                    from,
                    token,
                ).balance - amount && l.account(to, token).balance == self.account(
                    to,
                    token,
                ).balance + amount
                &&& from == to ==> l.account(from, token) == self.account(from, token)
                &&& forall|who: AccountId, t: H256|
                    (#[trigger] l.account(who, t)).frozen == self.account(who, t).frozen
                &&& forall|who: AccountId, t: H256|
                    (who, t) != (from, token) && (who, t) != (to, token) ==> #[trigger] l.account(
                        who,
                        t,
                    ) == self.account(who, t)
            }),
    {
    }

    /// Issuing keeps the ledger balanced, gives the whole supply to the
    /// issuer and leaves every other account as it is.
    pub proof fn lemma_issue_conserves(
        self,
        sender: AccountId,
        symbol: Seq<u8>,
        total_supply: Balance,
        hash: H256,
    )
        requires
            self.balanced(),
            self.issue(sender, symbol, total_supply, hash).is_ok(),
        ensures
            self.issue(sender, symbol, total_supply, hash).unwrap().balanced(),
            self.issue(sender, symbol, total_supply, hash).unwrap().account(sender, hash).balance
                == total_supply,
            self.issue(sender, symbol, total_supply, hash).unwrap().nonce == self.nonce + 1,
            !self.tokens.contains_key(hash),
            forall|who: AccountId, t: H256|
                (who, t) != (sender, hash) ==> #[trigger] self.issue(
                    sender,
                    symbol,
                    total_supply,
                    hash,
                ).unwrap().account(who, t) == self.account(who, t),
    {
    }
}


impl Duplicate for Token {
    fn duplicate(&self) -> (r: Self) {
        Token { hash: self.hash, symbol: copy_vec(&self.symbol), total_supply: self.total_supply }
    }
}

impl Duplicate for Account {
    fn duplicate(&self) -> (r: Self) {
        *self
    }
}

impl Pallet {
    /// A copy of the ledger.
    pub fn duplicate(&self) -> (r: Self)
        requires
            self.wf(),
        ensures
            r.wf(),
            r@ == self@,
    {
        Pallet {
            tokens: self.tokens.duplicate(),
            owners: self.owners.duplicate(),
            accounts: self.accounts.duplicate(),
            owned_tokens: self.owned_tokens.duplicate(),
            nonce: self.nonce,
            events: copy_vec(&self.events),
        }
    }
}

} // verus!
