//! Trade pairs and their market data: what was traded in each block, and
//! the volume, the highest and the lowest price of the last day.

use vstd::prelude::*;
use crate::price_list::sat_sub;
use crate::table::{copy_vec, Duplicate, Table};
use crate::types::{Balance, BlockNumber, Error, Price, TradePair, H256};

verus! {

/// What was traded of one pair in one block: the quote volume, the highest
/// and the lowest price.
#[derive(Clone, Copy, Debug, PartialEq, Eq, Structural)]
pub struct Bucket {
    pub volume: Balance,
    pub high: Option<Price>,
    pub low: Option<Price>,
}

impl View for Bucket {
    type V = Bucket;

    open spec fn view(&self) -> Bucket {
        *self
    }
}

/// The highs and the lows of the blocks of the last day, oldest first.
#[derive(Debug)]
pub struct PriceSeries {
    highs: Vec<Option<Price>>,
    lows: Vec<Option<Price>>,
}

/// The mathematical value of a pair's two price series.
pub struct SeriesView {
    pub highs: Seq<Option<Price>>,
    pub lows: Seq<Option<Price>>,
}

impl View for PriceSeries {
    type V = SeriesView;

    closed spec fn view(&self) -> SeriesView {
        SeriesView { highs: self.highs@, lows: self.lows@ }
    }
}

/// `a + b`, or the largest amount where the sum passes it.
pub open spec fn sat_add(a: Balance, b: Balance) -> Balance {
    if a + b > u128::MAX {
        u128::MAX
    } else {
        (a + b) as u128
    }
}

/// The larger of two prices, where an unset one gives way.
pub open spec fn higher(a: Option<Price>, b: Option<Price>) -> Option<Price> {
    match (a, b) {
        (None, _) => b,
        (_, None) => a,
        (Some(x), Some(y)) => if y > x {
            b
        } else {
            a
        },
    }
}

/// The smaller of two prices, where an unset one gives way.
pub open spec fn lower(a: Option<Price>, b: Option<Price>) -> Option<Price> {
    match (a, b) {
        (None, _) => b,
        (_, None) => a,
        (Some(x), Some(y)) => if y < x {
            b
        } else {
            a
        },
    }
}

/// The highest price set in a series; `None` where none is set.
pub open spec fn series_max(s: Seq<Option<Price>>) -> Option<Price>
    decreases s.len(),
{
    if s.len() == 0 {
        None
    } else {
        higher(series_max(s.drop_last()), s.last())
    }
}

/// The lowest price set in a series; `None` where none is set.
pub open spec fn series_min(s: Seq<Option<Price>>) -> Option<Price>
    decreases s.len(),
{
    if s.len() == 0 {
        None
    } else {
        lower(series_min(s.drop_last()), s.last())
    }
}

/// The highest price of a series is one of its entries and no entry is
/// above it; it is unset exactly where every entry is.
pub proof fn lemma_series_max(s: Seq<Option<Price>>)
    ensures
        series_max(s).is_none() <==> (forall|i: int| 0 <= i < s.len() ==> (#[trigger] s[i]).is_none()),
        series_max(s).is_some() ==> exists|i: int| 0 <= i < s.len() && #[trigger] s[i] == series_max(s),
        forall|i: int|
            0 <= i < s.len() && (#[trigger] s[i]).is_some() ==> series_max(s).is_some() && s[i].unwrap()
                <= series_max(s).unwrap(),
    decreases s.len(),
{
    if s.len() > 0 {
        let t = s.drop_last();
        lemma_series_max(t);
        assert(forall|i: int| 0 <= i < t.len() ==> t[i] == s[i]);
        if series_max(s).is_some() {
            if series_max(s) == s.last() {
                assert(s[s.len() - 1] == series_max(s));
            } else {
                let i = choose|i: int| 0 <= i < t.len() && #[trigger] t[i] == series_max(t);
                assert(s[i] == series_max(s));
            }
        }
        if series_max(s).is_none() {
            assert forall|i: int| 0 <= i < s.len() implies (#[trigger] s[i]).is_none() by {
                if i < t.len() {
                    assert(t[i].is_none());
                }
            }
        }
        assert forall|i: int| 0 <= i < s.len() && (#[trigger] s[i]).is_some() implies series_max(
            s,
        ).is_some() && s[i].unwrap() <= series_max(s).unwrap() by {
            if i < t.len() {
                assert(t[i].is_some());
            }
        }
    }
}

/// The lowest price of a series is one of its entries and no entry is below
/// it; it is unset exactly where every entry is.
pub proof fn lemma_series_min(s: Seq<Option<Price>>)
    ensures
        series_min(s).is_none() <==> (forall|i: int| 0 <= i < s.len() ==> (#[trigger] s[i]).is_none()),
        series_min(s).is_some() ==> exists|i: int| 0 <= i < s.len() && #[trigger] s[i] == series_min(s),
        forall|i: int|
            0 <= i < s.len() && (#[trigger] s[i]).is_some() ==> series_min(s).is_some() && s[i].unwrap()
                >= series_min(s).unwrap(),
    decreases s.len(),
{
    if s.len() > 0 {
        let t = s.drop_last();
        lemma_series_min(t);
        assert(forall|i: int| 0 <= i < t.len() ==> t[i] == s[i]);
        if series_min(s).is_some() {
            if series_min(s) == s.last() {
                assert(s[s.len() - 1] == series_min(s));
            } else {
                let i = choose|i: int| 0 <= i < t.len() && #[trigger] t[i] == series_min(t);
                assert(s[i] == series_min(s));
            }
        }
        if series_min(s).is_none() {
            assert forall|i: int| 0 <= i < s.len() implies (#[trigger] s[i]).is_none() by {
                if i < t.len() {
                    assert(t[i].is_none());
                }
            }
        }
        assert forall|i: int| 0 <= i < s.len() && (#[trigger] s[i]).is_some() implies series_min(
            s,
        ).is_some() && s[i].unwrap() >= series_min(s).unwrap() by {
            if i < t.len() {
                assert(t[i].is_some());
            }
        }
    }
}

impl Bucket {
    /// The bucket of a block in which nothing was traded.
    pub open spec fn empty() -> Bucket {
        Bucket { volume: 0, high: None, low: None }
    }

    /// The bucket after a trade at `price` over `amount` of the quote token.
    pub open spec fn recorded(self, price: Price, amount: Balance) -> Bucket {
        Bucket {
            volume: (self.volume + amount) as u128,
            high: higher(self.high, Some(price)),
            low: lower(self.low, Some(price)),
        }
    }
}

impl SeriesView {
    /// The series of a pair that has seen no block yet.
    pub open spec fn empty() -> SeriesView {
        SeriesView { highs: Seq::empty(), lows: Seq::empty() }
    }

    /// The series without their oldest entries.
    pub open spec fn popped(self) -> SeriesView {
        SeriesView {
            highs: if self.highs.len() > 0 {
                self.highs.remove(0)
            } else {
                self.highs
            },
            lows: if self.lows.len() > 0 {
                self.lows.remove(0)
            } else {
                self.lows
            },
        }
    }

    /// The series with the high and the low of one more block.
    pub open spec fn pushed(self, b: Bucket) -> SeriesView {
        SeriesView { highs: self.highs.push(b.high), lows: self.lows.push(b.low) }
    }
}

/// The markets: the trade pairs, the buckets of their blocks and the price
/// series of their last day.
#[derive(Debug)]
pub struct Market {
    pairs: Table<H256, TradePair>,
    pair_of: Table<(H256, H256), H256>,
    pair_list: Vec<H256>,
    buckets: Table<(H256, BlockNumber), Bucket>,
    series: Table<H256, PriceSeries>,
}

/// The mathematical value of the markets.
pub struct MarketView {
    /// The trade pairs by identifier.
    pub pairs: Map<H256, TradePair>,
    /// The identifier of the pair of a base and a quote token.
    pub pair_of: Map<(H256, H256), H256>,
    /// The identifiers of all pairs, in the order of their creation.
    pub pair_list: Seq<H256>,
    /// What was traded of a pair in a block.
    pub buckets: Map<(H256, BlockNumber), Bucket>,
    /// The price series of each pair.
    pub series: Map<H256, SeriesView>,
}

impl View for Market {
    type V = MarketView;

    closed spec fn view(&self) -> MarketView {
        MarketView {
            pairs: self.pairs@,
            pair_of: self.pair_of@,
            pair_list: self.pair_list@,
            buckets: self.buckets@,
            series: self.series@,
        }
    }
}

impl MarketView {
    /// No pair, no bucket, no series.
    pub open spec fn empty() -> MarketView {
        MarketView {
            pairs: Map::empty(),
            pair_of: Map::empty(),
            pair_list: Seq::empty(),
            buckets: Map::empty(),
            series: Map::empty(),
        }
    }

    /// The list of pairs holds every stored pair, and each once.
    pub open spec fn listed(self) -> bool {
        &&& self.pair_list.no_duplicates()
        &&& forall|h: H256| self.pairs.contains_key(h) <==> self.pair_list.contains(h)
    }

    /// Every pair of tokens that has a pair names a stored pair of these two
    /// tokens, which is stored under its own identifier.
    pub open spec fn registered(self) -> bool {
        forall|b: H256, q: H256| #[trigger]
            self.pair_of.contains_key((b, q)) ==> self.pairs.contains_key(self.pair_of[(b, q)])
                && self.pairs[self.pair_of[(b, q)]].base == b && self.pairs[self.pair_of[(
                b,
                q,
            )]].quote == q && self.pairs[self.pair_of[(b, q)]].hash == self.pair_of[(b, q)]
    }

    /// The bucket of a pair and a block; empty where nothing was traded.
    pub open spec fn bucket(self, pair: H256, bn: BlockNumber) -> Bucket {
        if self.buckets.contains_key((pair, bn)) {
            self.buckets[(pair, bn)]
        } else {
            Bucket::empty()
        }
    }

    /// The price series of a pair; empty where none were kept yet.
    pub open spec fn series_of(self, pair: H256) -> SeriesView {
        if self.series.contains_key(pair) {
            self.series[pair]
        } else {
            SeriesView::empty()
        }
    }

    /// The markets with one more pair.
    pub open spec fn with_pair(self, tp: TradePair) -> MarketView {
        MarketView {
            pairs: self.pairs.insert(tp.hash, tp),
            pair_of: self.pair_of.insert((tp.base, tp.quote), tp.hash),
            pair_list: self.pair_list.push(tp.hash),
            ..self
        }
    }

    /// The markets after a trade of `pair` at `price` over `amount` of the
    /// quote token in block `bn`: the pair's latest price is `price` and the
    /// block's bucket has taken the trade in. Refused where the pair is
    /// unknown or the block's volume would pass the largest amount.
    pub open spec fn record(self, pair: H256, bn: BlockNumber, price: Price, amount: Balance)
        -> Result<MarketView, Error> {
        if !self.pairs.contains_key(pair) {
            Err(Error::NoMatchingTradePair)
        } else if self.bucket(pair, bn).volume + amount > u128::MAX {
            Err(Error::OverflowError)
        } else {
            Ok(
                MarketView {
                    pairs: self.pairs.insert(
                        pair,
                        TradePair { latest_matched_price: Some(price), ..self.pairs[pair] },
                    ),
                    buckets: self.buckets.insert(
                        (pair, bn),
                        self.bucket(pair, bn).recorded(price, amount),
                    ),
                    ..self
                },
            )
        }
    }

    /// The markets after the block `gone` has left the last day of one pair:
    /// its volume is taken off the pair's one-day volume and the oldest
    /// entries leave the pair's series. An unknown pair is passed over.
    pub open spec fn evict_one(self, pair: H256, gone: BlockNumber) -> MarketView {
        if !self.pairs.contains_key(pair) {
            self
        } else {
            MarketView {
                pairs: self.pairs.insert(
                    pair,
                    TradePair {
                        one_day_trade_volume: sat_sub(
                            self.pairs[pair].one_day_trade_volume,
                            self.bucket(pair, gone).volume,
                        ),
                        ..self.pairs[pair]
                    },
                ),
                series: self.series.insert(pair, self.series_of(pair).popped()),
                ..self
            }
        }
    }

    /// `evict_one` for the first `n` pairs.
    pub open spec fn evict_upto(self, gone: BlockNumber, n: nat) -> MarketView
        decreases n,
    {
        if n == 0 {
            self
        } else {
            self.evict_upto(gone, (n - 1) as nat).evict_one(self.pair_list[n - 1], gone)
        }
    }

    /// The markets after the block `bn` has been folded into the last day of
    /// one pair: the block's high and low join the pair's series, the pair's
    /// one-day high and low are the extremes of the series, and the block's
    /// volume is added to the one-day volume. An unknown pair is passed over.
    pub open spec fn fold_one(self, pair: H256, bn: BlockNumber) -> MarketView {
        if !self.pairs.contains_key(pair) {
            self
        } else {
            let b = self.bucket(pair, bn);
            let s = self.series_of(pair).pushed(b);
            MarketView {
                pairs: self.pairs.insert(
                    pair,
                    TradePair {
                        one_day_trade_volume: sat_add(
                            self.pairs[pair].one_day_trade_volume,
                            b.volume,
                        ),
                        one_day_highest_price: series_max(s.highs),
                        one_day_lowest_price: series_min(s.lows),
                        ..self.pairs[pair]
                    },
                ),
                series: self.series.insert(pair, s),
                ..self
            }
        }
    }

    /// `fold_one` for the first `n` pairs.
    pub open spec fn fold_upto(self, bn: BlockNumber, n: nat) -> MarketView
        decreases n,
    {
        if n == 0 {
            self
        } else {
            self.fold_upto(bn, (n - 1) as nat).fold_one(self.pair_list[n - 1], bn)
        }
    }

    /// The markets at the start of block `bn`: once more than a day of blocks
    /// has passed, the block that is now a day old leaves every pair's day.
    pub open spec fn initialized(self, bn: BlockNumber, blocks_per_day: u32) -> MarketView {
        if bn <= blocks_per_day {
            self
        } else {
            self.evict_upto((bn - blocks_per_day) as u64, self.pair_list.len())
        }
    }

    /// The markets at the end of block `bn`.
    pub open spec fn finalized(self, bn: BlockNumber) -> MarketView {
        self.fold_upto(bn, self.pair_list.len())
    }
}

/// A new pair under a free identifier keeps the list of pairs complete.
pub proof fn lemma_with_pair_listed(m: MarketView, tp: TradePair)
    requires
        m.listed(),
        !m.pairs.contains_key(tp.hash),
    ensures
        m.with_pair(tp).listed(),
{
    let m2 = m.with_pair(tp);
    let l = m.pair_list;
    let l2 = m2.pair_list;
    assert(!l.contains(tp.hash));
    assert forall|i: int, j: int| 0 <= i < l2.len() && 0 <= j < l2.len() && i != j implies l2[i]
        != l2[j] by {
        if i < l.len() {
            assert(l2[i] == l[i]);
            assert(l.contains(l[i]));
        }
        if j < l.len() {
            assert(l2[j] == l[j]);
            assert(l.contains(l[j]));
        }
    }
    assert forall|h: H256| m2.pairs.contains_key(h) <==> l2.contains(h) by {
        if l2.contains(h) {
            let i = choose|i: int| 0 <= i < l2.len() && l2[i] == h;
            if i < l.len() {
                assert(l[i] == h);
                assert(l.contains(h));
            }
        }
        if m2.pairs.contains_key(h) {
            if h == tp.hash {
                assert(l2[l.len() as int] == h);
            } else {
                assert(l.contains(h));
                let i = choose|i: int| 0 <= i < l.len() && l[i] == h;
                assert(l2[i] == h);
            }
        }
    }
}

/// A new pair under a free identifier keeps the pairs of tokens registered.
pub proof fn lemma_with_pair_registered(m: MarketView, tp: TradePair)
    requires
        m.registered(),
        !m.pairs.contains_key(tp.hash),
    ensures
        m.with_pair(tp).registered(),
{
    let m2 = m.with_pair(tp);
    assert forall|b: H256, q: H256| #[trigger] m2.pair_of.contains_key((b, q)) implies m2.pairs.contains_key(
        m2.pair_of[(b, q)],
    ) && m2.pairs[m2.pair_of[(b, q)]].base == b && m2.pairs[m2.pair_of[(b, q)]].quote == q
        && m2.pairs[m2.pair_of[(b, q)]].hash == m2.pair_of[(b, q)] by {
        if (b, q) != (tp.base, tp.quote) {
            assert(m.pair_of.contains_key((b, q)));
            assert(m.pair_of[(b, q)] != tp.hash);
        }
    }
}

/// Markets with the same pairs of tokens, in which every stored pair keeps
/// its tokens and its identifier, keep the pairs of tokens registered.
pub proof fn lemma_same_tokens_registered(m: MarketView, m2: MarketView)
    requires
        m.registered(),
        m2.pair_of == m.pair_of,
        m2.pairs.dom() == m.pairs.dom(),
        forall|h: H256| #[trigger]
            m.pairs.contains_key(h) ==> m2.pairs[h].base == m.pairs[h].base && m2.pairs[h].quote
                == m.pairs[h].quote && m2.pairs[h].hash == m.pairs[h].hash,
    ensures
        m2.registered(),
{
    assert forall|b: H256, q: H256| #[trigger] m2.pair_of.contains_key((b, q)) implies m2.pairs.contains_key(
        m2.pair_of[(b, q)],
    ) && m2.pairs[m2.pair_of[(b, q)]].base == b && m2.pairs[m2.pair_of[(b, q)]].quote == q
        && m2.pairs[m2.pair_of[(b, q)]].hash == m2.pair_of[(b, q)] by {
        assert(m.pair_of.contains_key((b, q)));
        let h = m.pair_of[(b, q)];
        assert(m.pairs.contains_key(h));
        assert(m2.pairs.dom().contains(h));
    }
}

/// Markets with the same list of pairs and the same stored identifiers as
/// complete ones are complete.
pub proof fn lemma_same_pairs_listed(m: MarketView, m2: MarketView)
    requires
        m.listed(),
        m2.pair_list == m.pair_list,
        m2.pairs.dom() == m.pairs.dom(),
    ensures
        m2.listed(),
{
    assert forall|h: H256| m2.pairs.contains_key(h) <==> m2.pair_list.contains(h) by {
        assert(m2.pairs.dom().contains(h) == m.pairs.dom().contains(h));
    }
}

/// Eviction changes neither the list of pairs nor the buckets.
pub proof fn lemma_evict_keeps(m: MarketView, gone: BlockNumber, n: nat)
    ensures
        m.evict_upto(gone, n).pair_list == m.pair_list,
        m.evict_upto(gone, n).buckets == m.buckets,
        m.evict_upto(gone, n).pair_of == m.pair_of,
        m.evict_upto(gone, n).pairs.dom() == m.pairs.dom(),
    decreases n,
{
    if n > 0 {
        lemma_evict_keeps(m, gone, (n - 1) as nat);
        let p = m.evict_upto(gone, (n - 1) as nat);
        let h = m.pair_list[n - 1];
        if p.pairs.contains_key(h) {
            assert(p.evict_one(h, gone).pairs.dom() =~= p.pairs.dom());
        }
    }
}

/// Folding changes neither the list of pairs nor the buckets.
pub proof fn lemma_fold_keeps(m: MarketView, bn: BlockNumber, n: nat)
    ensures
        m.fold_upto(bn, n).pair_list == m.pair_list,
        m.fold_upto(bn, n).buckets == m.buckets,
        m.fold_upto(bn, n).pair_of == m.pair_of,
        m.fold_upto(bn, n).pairs.dom() == m.pairs.dom(),
    decreases n,
{
    if n > 0 {
        lemma_fold_keeps(m, bn, (n - 1) as nat);
        let p = m.fold_upto(bn, (n - 1) as nat);
        let h = m.pair_list[n - 1];
        if p.pairs.contains_key(h) {
            assert(p.fold_one(h, bn).pairs.dom() =~= p.pairs.dom());
        }
    }
}

fn max_of(s: &Vec<Option<Price>>) -> (r: Option<Price>)
    ensures
        r == series_max(s@),
{
    let mut acc: Option<Price> = None;
    let mut i: usize = 0;
    while i < s.len()
        invariant
            i <= s@.len(),
            acc == series_max(s@.take(i as int)),
        decreases s@.len() - i,
    {
        assert(s@.take(i as int + 1).drop_last() =~= s@.take(i as int));
        let x: Option<Price> = s[i];
        acc = match (acc, x) {
            (None, _) => x,
            (_, None) => acc,
            (Some(a), Some(b)) => if b > a {
                x
            } else {
                acc
            },
        };
        i = i + 1;
    }
    assert(s@.take(s@.len() as int) =~= s@);
    acc
}

fn min_of(s: &Vec<Option<Price>>) -> (r: Option<Price>)
    ensures
        r == series_min(s@),
{
    let mut acc: Option<Price> = None;
    let mut i: usize = 0;
    while i < s.len()
        invariant
            i <= s@.len(),
            acc == series_min(s@.take(i as int)),
        decreases s@.len() - i,
    {
        assert(s@.take(i as int + 1).drop_last() =~= s@.take(i as int));
        let x: Option<Price> = s[i];
        acc = match (acc, x) {
            (None, _) => x,
            (_, None) => acc,
            (Some(a), Some(b)) => if b < a {
                x
            } else {
                acc
            },
        };
        i = i + 1;
    }
    assert(s@.take(s@.len() as int) =~= s@);
    acc
}

impl Market {
    /// No table holds a key twice.
    pub closed spec fn tables_wf(&self) -> bool {
        &&& self.pairs.wf()
        &&& self.pair_of.wf()
        &&& self.buckets.wf()
        &&& self.series.wf()
    }

    /// The markets are well formed: no table holds a key twice, the list
    /// of pairs holds every stored pair, and each once, and the pair of two
    /// tokens is a stored pair of these tokens.
    pub open spec fn wf(&self) -> bool {
        self.tables_wf() && self@.listed() && self@.registered()
    }

    /// No pair, no bucket, no series.
    pub fn new() -> (m: Market)
        ensures
            m.wf(),
            m@ == MarketView::empty(),
    {
        Market {
            pairs: Table::new(),
            pair_of: Table::new(),
            pair_list: Vec::new(),
            buckets: Table::new(),
            series: Table::new(),
        }
    }

    /// The pair under an identifier.
    pub fn trade_pairs(&self, hash: &H256) -> (r: Option<TradePair>)
        requires
            self.wf(),
        ensures
            r == (if self@.pairs.contains_key(*hash) {
                Some(self@.pairs[*hash])
            } else {
                None
            }),
    {
        match self.pairs.get(hash) {
            Some(tp) => Some(*tp),
            None => None,
        }
    }

    /// The identifier of the pair of a base and a quote token.
    pub fn trade_pair_hash_by_base_quote(&self, base: &H256, quote: &H256) -> (r: Option<H256>)
        requires
            self.wf(),
        ensures
            r == (if self@.pair_of.contains_key((*base, *quote)) {
                Some(self@.pair_of[(*base, *quote)])
            } else {
                None
            }),
    {
        match self.pair_of.get(&(*base, *quote)) {
            Some(h) => Some(*h),
            None => None,
        }
    }

    /// The identifier of the `i`-th pair created.
    pub fn trade_pair_hash_by_index(&self, i: u64) -> (r: Option<H256>)
        ensures
            r == (if i < self@.pair_list.len() {
                Some(self@.pair_list[i as int])
            } else {
                None
            }),
    {
        if i < self.pair_list.len() as u64 {
            Some(self.pair_list[i as usize])
        } else {
            None
        }
    }

    /// The number of pairs created.
    pub fn trade_pair_index(&self) -> (n: usize)
        ensures
            n == self@.pair_list.len(),
    {
        self.pair_list.len()
    }

    /// What was traded of a pair in a block.
    pub fn trade_pair_trade_data_bucket(&self, pair: &H256, bn: BlockNumber) -> (b: Bucket)
        requires
            self.wf(),
        ensures
            b == self@.bucket(*pair, bn),
    {
        match self.buckets.get(&(*pair, bn)) {
            Some(b) => *b,
            None => Bucket { volume: 0, high: None, low: None },
        }
    }

    /// The price series of a pair: the highs and the lows of the blocks of
    /// its last day, oldest first.
    pub fn trade_pair_trade_price_bucket(&self, pair: &H256) -> (r: (
        Vec<Option<Price>>,
        Vec<Option<Price>>,
    ))
        requires
            self.wf(),
        ensures
            r.0@ == self@.series_of(*pair).highs,
            r.1@ == self@.series_of(*pair).lows,
    {
        match self.series.get(pair) {
            Some(s) => (copy_vec(&s.highs), copy_vec(&s.lows)),
            None => (Vec::new(), Vec::new()),
        }
    }

    /// Takes a new pair in, at the end of the list of pairs. A pair whose
    /// identifier is taken is refused, and nothing changes.
    pub fn add_pair(&mut self, tp: TradePair) -> (r: Result<(), Error>)
        requires
            old(self).wf(),
        ensures
            final(self).wf(),
            r == (if old(self)@.pairs.contains_key(tp.hash) {
                Err::<(), Error>(Error::HashCollision)
            } else {
                Ok::<(), Error>(())
            }),
            r.is_ok() ==> final(self)@ == old(self)@.with_pair(tp),
            r.is_err() ==> final(self)@ == old(self)@,
    {
        if self.pairs.contains(&tp.hash) {
            return Err(Error::HashCollision);
        }
        let ghost before = self@;
        self.pairs.insert(tp.hash, tp);
        self.pair_of.insert((tp.base, tp.quote), tp.hash);
        self.pair_list.push(tp.hash);
        proof {
            lemma_with_pair_listed(before, tp);
            lemma_with_pair_registered(before, tp);
        }
        Ok(())
    }

    /// Takes a trade into the market data of its pair: the pair's latest
    /// price becomes `price`, and the bucket of block `bn` grows by `amount`
    /// and widens to `price`. A refused call changes nothing.
    pub fn set_tp_market_data(
        &mut self,
        tp_hash: H256,
        bn: BlockNumber,
        price: Price,
        amount: Balance,
    ) -> (r: Result<(), Error>)
        requires
            old(self).wf(),
        ensures
            final(self).wf(),
            match r {
                Ok(()) => old(self)@.record(tp_hash, bn, price, amount) == Ok::<MarketView, Error>(
                    final(self)@,
                ),
                Err(e) => old(self)@.record(tp_hash, bn, price, amount) == Err::<
                    MarketView,
                    Error,
                >(e) && final(self)@ == old(self)@,
            },
    {
        let mut tp: TradePair = match self.pairs.get(&tp_hash) {
            Some(tp) => *tp,
            None => {
                return Err(Error::NoMatchingTradePair);
            },
        };
        let b = self.trade_pair_trade_data_bucket(&tp_hash, bn);
        if b.volume > u128::MAX - amount {
            return Err(Error::OverflowError);
        }
        tp.latest_matched_price = Some(price);
        let high: Option<Price> = match b.high {
            Some(h) => if price > h {
                Some(price)
            } else {
                b.high
            },
            None => Some(price),
        };
        let low: Option<Price> = match b.low {
            Some(l) => if price < l {
                Some(price)
            } else {
                b.low
            },
            None => Some(price),
        };
        let ghost before = self@;
        self.buckets.insert((tp_hash, bn), Bucket { volume: b.volume + amount, high, low });
        self.pairs.insert(tp_hash, tp);
        proof {
            assert(self@.pairs.dom() =~= before.pairs.dom());
            lemma_same_pairs_listed(before, self@);
            lemma_same_tokens_registered(before, self@);
        }
        Ok(())
    }

    fn evict_pair(&mut self, tp_hash: H256, gone: BlockNumber)
        requires
            old(self).wf(),
        ensures
            final(self).wf(),
            final(self)@ == old(self)@.evict_one(tp_hash, gone),
    {
        let ghost before = self@;
        let mut tp: TradePair = match self.pairs.get(&tp_hash) {
            Some(tp) => *tp,
            None => {
                return ;
            },
        };
        let b = self.trade_pair_trade_data_bucket(&tp_hash, gone);
        tp.one_day_trade_volume = if tp.one_day_trade_volume >= b.volume {
            tp.one_day_trade_volume - b.volume
        } else {
            0
        };
        self.pairs.insert(tp_hash, tp);
        let mut s: PriceSeries = match self.series.remove(&tp_hash) {
            Some(s) => s,
            None => PriceSeries { highs: Vec::new(), lows: Vec::new() },
        };
        if s.highs.len() > 0 {
            s.highs.remove(0);
        }
        if s.lows.len() > 0 {
            s.lows.remove(0);
        }
        self.series.insert(tp_hash, s);
        assert(self@.series =~= before.series.insert(tp_hash, before.series_of(tp_hash).popped()));
        proof {
            assert(self@.pairs.dom() =~= before.pairs.dom());
            lemma_same_pairs_listed(before, self@);
            lemma_same_tokens_registered(before, self@);
        }
    }

    fn fold_pair(&mut self, tp_hash: H256, bn: BlockNumber)
        requires
            old(self).wf(),
        ensures
            final(self).wf(),
            final(self)@ == old(self)@.fold_one(tp_hash, bn),
    {
        let ghost before = self@;
        let mut tp: TradePair = match self.pairs.get(&tp_hash) {
            Some(tp) => *tp,
            None => {
                return ;
            },
        };
        let b = self.trade_pair_trade_data_bucket(&tp_hash, bn);
        let mut s: PriceSeries = match self.series.remove(&tp_hash) {
            Some(s) => s,
            None => PriceSeries { highs: Vec::new(), lows: Vec::new() },
        };
        s.highs.push(b.high);
        s.lows.push(b.low);
        tp.one_day_trade_volume = if tp.one_day_trade_volume > u128::MAX - b.volume {
            u128::MAX
        } else {
            tp.one_day_trade_volume + b.volume
        };
        tp.one_day_highest_price = max_of(&s.highs);
        tp.one_day_lowest_price = min_of(&s.lows);
        self.series.insert(tp_hash, s);
        self.pairs.insert(tp_hash, tp);
        assert(self@.series =~= before.series.insert(
            tp_hash,
            before.series_of(tp_hash).pushed(before.bucket(tp_hash, bn)),
        ));
        proof {
            assert(self@.pairs.dom() =~= before.pairs.dom());
            lemma_same_pairs_listed(before, self@);
            lemma_same_tokens_registered(before, self@);
        }
    }

    /// Runs at the start of block `block_number`. Once more than a day of
    /// blocks has passed, the block that is now a day old leaves the day of
    /// every pair: its volume is taken off the one-day volume, never below
    /// zero, and the oldest entries leave the price series. The answer is the
    /// weight of the work: 1000 where nothing was evicted, else 500000.
    pub fn on_initialize(&mut self, block_number: BlockNumber, blocks_per_day: u32) -> (weight: u64)
        requires
            old(self).wf(),
        ensures
            final(self).wf(),
            final(self)@ == old(self)@.initialized(block_number, blocks_per_day),
            weight == (if block_number <= blocks_per_day {
                1000u64
            } else {
                500_000u64
            }),
    {
        let days: u64 = blocks_per_day as u64;
        if block_number <= days {
            return 1000;
        }
        let gone: u64 = block_number - days;
        let ghost before = self@;
        let mut i: usize = 0;
        while i < self.pair_list.len()
            invariant
                self.wf(),
                i <= before.pair_list.len(),
                self@.pair_list == before.pair_list,
                self@ == before.evict_upto(gone, i as nat),
            decreases before.pair_list.len() - i,
        {
            let h: H256 = self.pair_list[i];
            self.evict_pair(h, gone);
            i = i + 1;
        }
        500_000
    }

    /// Runs at the end of block `block_number`. For every pair the block's
    /// high and low join the price series, the one-day high and low become
    /// the extremes of the series, and the block's volume is added to the
    /// one-day volume, which stops at the largest amount.
    pub fn on_finalize(&mut self, block_number: BlockNumber)
        requires
            old(self).wf(),
        ensures
            final(self).wf(),
            final(self)@ == old(self)@.finalized(block_number),
    {
        let ghost before = self@;
        let mut i: usize = 0;
        while i < self.pair_list.len()
            invariant
                self.wf(),
                i <= before.pair_list.len(),
                self@.pair_list == before.pair_list,
                self@ == before.fold_upto(block_number, i as nat),
            decreases before.pair_list.len() - i,
        {
            let h: H256 = self.pair_list[i];
            self.fold_pair(h, block_number);
            i = i + 1;
        }
    }
}


impl Duplicate for Bucket {
    fn duplicate(&self) -> (r: Self) {
        *self
    }
}

impl Duplicate for PriceSeries {
    fn duplicate(&self) -> (r: Self) {
        PriceSeries { highs: copy_vec(&self.highs), lows: copy_vec(&self.lows) }
    }
}

impl Market {
    /// A copy of the markets.
    pub fn duplicate(&self) -> (r: Self)
        requires
            self.wf(),
        ensures
            r.wf(),
            r@ == self@,
    {
        Market {
            pairs: self.pairs.duplicate(),
            pair_of: self.pair_of.duplicate(),
            pair_list: copy_vec(&self.pair_list),
            buckets: self.buckets.duplicate(),
            series: self.series.duplicate(),
        }
    }
}


/// Whether `h` is one of the first `n` entries of a list.
pub open spec fn among(l: Seq<H256>, n: nat, h: H256) -> bool {
    exists|i: int| 0 <= i < n && i < l.len() && l[i] == h
}

impl MarketView {
    /// A pair after the block `gone` has left its day.
    pub open spec fn evicted_pair(self, h: H256, gone: BlockNumber) -> TradePair {
        TradePair {
            one_day_trade_volume: sat_sub(
                self.pairs[h].one_day_trade_volume,
                self.bucket(h, gone).volume,
            ),
            ..self.pairs[h]
        }
    }

    /// A pair after the block `bn` has joined its day.
    pub open spec fn folded_pair(self, h: H256, bn: BlockNumber) -> TradePair {
        let s = self.series_of(h).pushed(self.bucket(h, bn));
        TradePair {
            one_day_trade_volume: sat_add(
                self.pairs[h].one_day_trade_volume,
                self.bucket(h, bn).volume,
            ),
            one_day_highest_price: series_max(s.highs),
            one_day_lowest_price: series_min(s.lows),
            ..self.pairs[h]
        }
    }
}

/// Eviction over the first `n` pairs of a complete list evicts each of them
/// once and leaves every other pair and series as it is.
pub proof fn lemma_evict_upto(m: MarketView, gone: BlockNumber, n: nat)
    requires
        m.listed(),
        n <= m.pair_list.len(),
    ensures
        ({
            let r = m.evict_upto(gone, n);
            &&& r.pair_list == m.pair_list
            &&& r.buckets == m.buckets
            &&& r.pair_of == m.pair_of
            &&& r.pairs.dom() == m.pairs.dom()
            &&& forall|h: H256|
                among(m.pair_list, n, h) ==> #[trigger] r.pairs[h] == m.evicted_pair(h, gone)
                    && r.series_of(h) == m.series_of(h).popped()
            &&& forall|h: H256|
                !among(m.pair_list, n, h) ==> #[trigger] r.series_of(h) == m.series_of(h) && (
                m.pairs.contains_key(h) ==> r.pairs[h] == m.pairs[h])
        }),
    decreases n,
{
    if n > 0 {
        lemma_evict_upto(m, gone, (n - 1) as nat);
        let p = m.evict_upto(gone, (n - 1) as nat);
        let hn = m.pair_list[n - 1];
        let r = p.evict_one(hn, gone);
        assert(m.pair_list.contains(hn));
        assert(m.pairs.contains_key(hn));
        assert(p.pairs.dom().contains(hn));
        assert(r.pairs.dom() =~= p.pairs.dom());
        assert(!among(m.pair_list, (n - 1) as nat, hn)) by {
            if among(m.pair_list, (n - 1) as nat, hn) {
                let i = choose|i: int| 0 <= i < n - 1 && i < m.pair_list.len() && m.pair_list[i] == hn;
                assert(m.pair_list[i] == m.pair_list[n - 1]);
            }
        }
        assert(p.series_of(hn) == m.series_of(hn));
        assert(p.pairs[hn] == m.pairs[hn]);
        assert(p.bucket(hn, gone) == m.bucket(hn, gone));
        assert(among(m.pair_list, n, hn));
        assert forall|h: H256| among(m.pair_list, n, h) implies #[trigger] r.pairs[h]
            == m.evicted_pair(h, gone) && r.series_of(h) == m.series_of(h).popped() by {
            if h != hn {
                let i = choose|i: int| 0 <= i < n && i < m.pair_list.len() && m.pair_list[i] == h;
                assert(i < n - 1);
                assert(0 <= i < n - 1 && i < m.pair_list.len() && m.pair_list[i] == h);
                assert(among(m.pair_list, (n - 1) as nat, h));
                assert(p.pairs[h] == m.evicted_pair(h, gone));
                assert(p.series_of(h) == m.series_of(h).popped());
            }
        }
        assert forall|h: H256| !among(m.pair_list, n, h) implies #[trigger] r.series_of(h)
            == m.series_of(h) && (m.pairs.contains_key(h) ==> r.pairs[h] == m.pairs[h]) by {
            assert(h != hn);
            if among(m.pair_list, (n - 1) as nat, h) {
                let i = choose|i: int|
                    0 <= i < n - 1 && i < m.pair_list.len() && m.pair_list[i] == h;
                assert(0 <= i < n && i < m.pair_list.len() && m.pair_list[i] == h);
                assert(among(m.pair_list, n, h));
            }
            assert(!among(m.pair_list, (n - 1) as nat, h));
            assert(p.series_of(h) == m.series_of(h));
            assert(m.pairs.contains_key(h) ==> p.pairs[h] == m.pairs[h]);
        }
    }
}

/// Folding over the first `n` pairs of a complete list folds each of them
/// once and leaves every other pair and series as it is.
pub proof fn lemma_fold_upto(m: MarketView, bn: BlockNumber, n: nat)
    requires
        m.listed(),
        n <= m.pair_list.len(),
    ensures
        ({
            let r = m.fold_upto(bn, n);
            &&& r.pair_list == m.pair_list
            &&& r.buckets == m.buckets
            &&& r.pair_of == m.pair_of
            &&& r.pairs.dom() == m.pairs.dom()
            &&& forall|h: H256|
                among(m.pair_list, n, h) ==> #[trigger] r.pairs[h] == m.folded_pair(h, bn)
                    && r.series_of(h) == m.series_of(h).pushed(m.bucket(h, bn))
            &&& forall|h: H256|
                !among(m.pair_list, n, h) ==> #[trigger] r.series_of(h) == m.series_of(h) && (
                m.pairs.contains_key(h) ==> r.pairs[h] == m.pairs[h])
        }),
    decreases n,
{
    if n > 0 {
        lemma_fold_upto(m, bn, (n - 1) as nat);
        let p = m.fold_upto(bn, (n - 1) as nat);
        let hn = m.pair_list[n - 1];
        let r = p.fold_one(hn, bn);
        assert(m.pair_list.contains(hn));
        assert(m.pairs.contains_key(hn));
        assert(p.pairs.dom().contains(hn));
        assert(r.pairs.dom() =~= p.pairs.dom());
        assert(!among(m.pair_list, (n - 1) as nat, hn)) by {
            if among(m.pair_list, (n - 1) as nat, hn) {
                let i = choose|i: int| 0 <= i < n - 1 && i < m.pair_list.len() && m.pair_list[i] == hn;
                assert(m.pair_list[i] == m.pair_list[n - 1]);
            }
        }
        assert(p.series_of(hn) == m.series_of(hn));
        assert(p.pairs[hn] == m.pairs[hn]);
        assert(p.bucket(hn, bn) == m.bucket(hn, bn));
        assert(among(m.pair_list, n, hn));
        assert forall|h: H256| among(m.pair_list, n, h) implies #[trigger] r.pairs[h]
            == m.folded_pair(h, bn) && r.series_of(h) == m.series_of(h).pushed(m.bucket(h, bn)) by {
            if h != hn {
                let i = choose|i: int| 0 <= i < n && i < m.pair_list.len() && m.pair_list[i] == h;
                assert(i < n - 1);
                assert(0 <= i < n - 1 && i < m.pair_list.len() && m.pair_list[i] == h);
                assert(among(m.pair_list, (n - 1) as nat, h));
                assert(p.pairs[h] == m.folded_pair(h, bn));
                assert(p.series_of(h) == m.series_of(h).pushed(m.bucket(h, bn)));
            }
        }
        assert forall|h: H256| !among(m.pair_list, n, h) implies #[trigger] r.series_of(h)
            == m.series_of(h) && (m.pairs.contains_key(h) ==> r.pairs[h] == m.pairs[h]) by {
            assert(h != hn);
            if among(m.pair_list, (n - 1) as nat, h) {
                let i = choose|i: int|
                    0 <= i < n - 1 && i < m.pair_list.len() && m.pair_list[i] == h;
                assert(0 <= i < n && i < m.pair_list.len() && m.pair_list[i] == h);
                assert(among(m.pair_list, n, h));
            }
            assert(!among(m.pair_list, (n - 1) as nat, h));
            assert(p.series_of(h) == m.series_of(h));
            assert(m.pairs.contains_key(h) ==> p.pairs[h] == m.pairs[h]);
        }
    }
}

/// The start of a block reaches every pair. Up to a day of blocks nothing
/// changes. From then on every stored pair loses the volume of the block
/// that is now a day old, never below zero, and the oldest entries of its two
/// series; the pairs keep everything else, and the buckets, the list of
/// pairs and every other series stay as they are.
pub proof fn lemma_initialized_every_pair(m: MarketView, bn: BlockNumber, blocks_per_day: u32)
    requires
        m.listed(),
    ensures
        bn <= blocks_per_day ==> m.initialized(bn, blocks_per_day) == m,
        bn > blocks_per_day ==> ({
            let r = m.initialized(bn, blocks_per_day);
            let gone = (bn - blocks_per_day) as u64;
            &&& r.listed()
            &&& r.pair_list == m.pair_list
            &&& r.buckets == m.buckets
            &&& r.pair_of == m.pair_of
            &&& r.pairs.dom() == m.pairs.dom()
            &&& forall|h: H256|
                m.pairs.contains_key(h) ==> #[trigger] r.pairs[h] == m.evicted_pair(h, gone)
                    && r.series_of(h) == m.series_of(h).popped()
            &&& forall|h: H256| !m.pairs.contains_key(h) ==> #[trigger] r.series_of(h) == m.series_of(h)
        }),
{
    if bn > blocks_per_day {
        let gone = (bn - blocks_per_day) as u64;
        let n = m.pair_list.len();
        lemma_evict_upto(m, gone, n);
        let r = m.evict_upto(gone, n);
        lemma_same_pairs_listed(m, r);
        assert forall|h: H256| m.pairs.contains_key(h) == among(m.pair_list, n, h) by {
            if m.pairs.contains_key(h) {
                assert(m.pair_list.contains(h));
                let i = choose|i: int| 0 <= i < m.pair_list.len() && m.pair_list[i] == h;
                assert(among(m.pair_list, n, h));
            }
            if among(m.pair_list, n, h) {
                let i = choose|i: int| 0 <= i < n && i < m.pair_list.len() && m.pair_list[i] == h;
                assert(m.pair_list.contains(h));
            }
        }
    }
}

/// The end of a block reaches every pair: every stored pair takes the
/// block's volume, high and low in, and its one-day high and low are the
/// extremes of its series; the buckets, the list of pairs and every other
/// series stay as they are.
pub proof fn lemma_finalized_every_pair(m: MarketView, bn: BlockNumber)
    requires
        m.listed(),
    ensures
        ({
            let r = m.finalized(bn);
            &&& r.listed()
            &&& r.pair_list == m.pair_list
            &&& r.buckets == m.buckets
            &&& r.pair_of == m.pair_of
            &&& r.pairs.dom() == m.pairs.dom()
            &&& forall|h: H256|
                m.pairs.contains_key(h) ==> #[trigger] r.pairs[h] == m.folded_pair(h, bn)
                    && r.series_of(h) == m.series_of(h).pushed(m.bucket(h, bn))
            &&& forall|h: H256| !m.pairs.contains_key(h) ==> #[trigger] r.series_of(h) == m.series_of(h)
        }),
{
    let n = m.pair_list.len();
    lemma_fold_upto(m, bn, n);
    let r = m.fold_upto(bn, n);
    lemma_same_pairs_listed(m, r);
    assert forall|h: H256| m.pairs.contains_key(h) == among(m.pair_list, n, h) by {
        if m.pairs.contains_key(h) {
            assert(m.pair_list.contains(h));
            let i = choose|i: int| 0 <= i < m.pair_list.len() && m.pair_list[i] == h;
            assert(among(m.pair_list, n, h));
        }
        if among(m.pair_list, n, h) {
            let i = choose|i: int| 0 <= i < n && i < m.pair_list.len() && m.pair_list[i] == h;
            assert(m.pair_list.contains(h));
        }
    }
}

} // verus!
