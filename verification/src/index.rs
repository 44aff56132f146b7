//! Lists of identifiers kept under a key: the growing indices of orders and
//! trades, and the bounded lists of recently opened and closed orders.

use vstd::prelude::*;
use crate::price_list::{other_than, without};
use crate::table::{copy_vec, Key, Table};
use crate::types::{Error, H256};

verus! {

/// The list kept under a key; empty where the key is unknown.
pub open spec fn list_of<K>(m: Map<K, Seq<H256>>, k: K) -> Seq<H256> {
    if m.contains_key(k) {
        m[k]
    } else {
        Seq::empty()
    }
}

/// The lists after `h` has been added at the end of the list under `k`.
pub open spec fn added<K>(m: Map<K, Seq<H256>>, k: K, h: H256) -> Map<K, Seq<H256>> {
    m.insert(k, list_of(m, k).push(h))
}

/// Adding to a list lengthens that list by one, at its end, and leaves every
/// other list as it is.
pub proof fn lemma_added_grows<K>(m: Map<K, Seq<H256>>, k: K, h: H256)
    ensures
        list_of(added(m, k, h), k).len() == list_of(m, k).len() + 1,
        list_of(added(m, k, h), k).last() == h,
        forall|i: int| 0 <= i < list_of(m, k).len() ==> list_of(added(m, k, h), k)[i] == list_of(m, k)[i],
        forall|k2: K| k2 != k ==> #[trigger] list_of(added(m, k, h), k2) == list_of(m, k2),
{
}

/// A recency list after `h` has been put at its front: a list that already
/// holds `h` stays as it is, and a list that would pass `cap` entries loses
/// its last one.
pub open spec fn fronted(l: Seq<H256>, h: H256, cap: u8) -> Seq<H256> {
    if l.contains(h) {
        l
    } else if l.len() + 1 > cap {
        (seq![h] + l).drop_last()
    } else {
        seq![h] + l
    }
}

/// A recency list of at most `cap` entries, none of them twice, still has at
/// most `cap` entries and none twice once `h` has been put at its front. It
/// can reach `cap` entries. Where the list had room, `h` heads the old list;
/// where it was full, `h` heads the old list without its last entry; a list
/// that held `h` already stays as it is.
pub proof fn lemma_fronted(l: Seq<H256>, h: H256, cap: u8)
    requires
        l.no_duplicates(),
        l.len() <= cap,
    ensures
        fronted(l, h, cap).len() <= cap,
        fronted(l, h, cap).no_duplicates(),
        l.contains(h) ==> fronted(l, h, cap) == l,
        !l.contains(h) && l.len() < cap ==> fronted(l, h, cap) == seq![h] + l,
        !l.contains(h) && l.len() == cap ==> fronted(l, h, cap) == (seq![h] + l).drop_last(),
        !l.contains(h) && cap >= 1 ==> fronted(l, h, cap)[0] == h,
{
    if !l.contains(h) {
        let f = seq![h] + l;
        assert(f.no_duplicates()) by {
            assert forall|i: int, j: int| 0 <= i < f.len() && 0 <= j < f.len() && i != j implies f[i]
                != f[j] by {
                if i > 0 {
                    assert(f[i] == l[i - 1]);
                }
                if j > 0 {
                    assert(f[j] == l[j - 1]);
                }
            }
        }
        let d = f.drop_last();
        assert forall|i: int, j: int| 0 <= i < d.len() && 0 <= j < d.len() && i != j implies d[i]
            != d[j] by {
            assert(d[i] == f[i] && d[j] == f[j]);
        }
    }
}

/// The recency lists after `h` has been put at the front of the list under `k`.
pub open spec fn cache_added<K>(m: Map<K, Seq<H256>>, k: K, h: H256, cap: u8) -> Map<
    K,
    Seq<H256>,
> {
    if list_of(m, k).contains(h) {
        m
    } else {
        m.insert(k, fronted(list_of(m, k), h, cap))
    }
}

/// The recency lists after `h` has been taken out of the list under `k`.
pub open spec fn cache_removed<K>(m: Map<K, Seq<H256>>, k: K, h: H256) -> Map<K, Seq<H256>> {
    m.insert(k, list_of(m, k).filter(other_than(h)))
}

/// Lists of identifiers, one under each key.
#[derive(Debug)]
pub struct Index<K> {
    lists: Table<K, Vec<H256>>,
}

impl<K: Key> View for Index<K> {
    type V = Map<K, Seq<H256>>;

    closed spec fn view(&self) -> Map<K, Seq<H256>> {
        self.lists@
    }
}

impl<K: Key> Index<K> {
    /// No key is held twice.
    pub closed spec fn wf(&self) -> bool {
        self.lists.wf()
    }

    /// No list at all.
    pub fn new() -> (x: Self)
        ensures
            x.wf(),
            x@ == Map::<K, Seq<H256>>::empty(),
    {
        Index { lists: Table::new() }
    }

    /// The list under a key.
    pub fn list(&self, k: &K) -> (l: Vec<H256>)
        requires
            self.wf(),
        ensures
            l@ == list_of(self@, *k),
    {
        match self.lists.get(k) {
            Some(v) => copy_vec(v),
            None => Vec::new(),
        }
    }

    /// The length of the list under a key: the index the next entry gets.
    pub fn count(&self, k: &K) -> (n: usize)
        requires
            self.wf(),
        ensures
            n == list_of(self@, *k).len(),
    {
        match self.lists.get(k) {
            Some(v) => v.len(),
            None => 0,
        }
    }

    /// The entry at place `i` of the list under a key.
    pub fn get(&self, k: &K, i: u64) -> (r: Option<H256>)
        requires
            self.wf(),
        ensures
            r == (if i < list_of(self@, *k).len() {
                Some(list_of(self@, *k)[i as int])
            } else {
                None
            }),
    {
        match self.lists.get(k) {
            Some(v) => if i < v.len() as u64 {
                Some(v[i as usize])
            } else {
                None
            },
            None => None,
        }
    }

    /// Adds `h` at the end of the list under `k`, at the index that the
    /// list's length names. A list whose length has no successor in 64 bits
    /// takes no more; nothing changes then.
    pub fn add(&mut self, k: K, h: H256) -> (r: Result<(), Error>)
        requires
            old(self).wf(),
        ensures
            final(self).wf(),
            r == (if list_of(old(self)@, k).len() >= u64::MAX {
                Err::<(), Error>(Error::OverflowError)
            } else {
                Ok::<(), Error>(())
            }),
            r.is_ok() ==> final(self)@ == added(old(self)@, k, h),
            r.is_err() ==> final(self)@ == old(self)@,
    {
        let ghost before = self@;
        let n = self.count(&k);
        if n as u64 >= u64::MAX {
            return Err(Error::OverflowError);
        }
        let mut l: Vec<H256> = match self.lists.remove(&k) {
            Some(v) => v,
            None => Vec::new(),
        };
        l.push(h);
        self.lists.insert(k, l);
        assert(self@ =~= added(before, k, h));
        Ok(())
    }

    /// Puts `h` at the front of the recency list under `k`, unless the list
    /// holds it already. A list that would pass `cap` entries loses its last.
    pub fn add_order(&mut self, k: K, h: H256, cap: u8)
        requires
            old(self).wf(),
        ensures
            final(self).wf(),
            final(self)@ == cache_added(old(self)@, k, h, cap),
    {
        let ghost before = self@;
        let old_list = self.list(&k);
        let (_rest, found) = without(&old_list, h);
        if found {
            return ;
        }
        let mut l: Vec<H256> = match self.lists.remove(&k) {
            Some(v) => v,
            None => Vec::new(),
        };
        let ghost l0 = l@;
        l.insert(0, h);
        assert(l@ =~= seq![h] + l0);
        if l.len() > cap as usize {
            l.pop();
        }
        assert(l@ =~= fronted(l0, h, cap));
        self.lists.insert(k, l);
        assert(self@ =~= cache_added(before, k, h, cap));
    }

    /// Takes `h` out of the recency list under `k`.
    pub fn remove_order(&mut self, k: K, h: H256)
        requires
            old(self).wf(),
        ensures
            final(self).wf(),
            final(self)@ == cache_removed(old(self)@, k, h),
    {
        let ghost before = self@;
        let old_list = self.list(&k);
        let (rest, _found) = without(&old_list, h);
        self.lists.insert(k, rest);
    }
}


impl<K: Key + Copy> Index<K> {
    /// A copy of the lists.
    pub fn duplicate(&self) -> (r: Self)
        requires
            self.wf(),
        ensures
            r.wf(),
            r@ == self@,
    {
        Index { lists: self.lists.duplicate() }
    }
}

} // verus!
