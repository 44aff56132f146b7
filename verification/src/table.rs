//! A small associative table: keys in insertion order, found by comparison.

use vstd::prelude::*;
use crate::types::H256;

verus! {

/// A key that can be compared for equality in executable code.
pub trait Key: Sized {
    /// Whether the two keys are the same key.
    fn same(&self, other: &Self) -> (b: bool)
        ensures
            b == (*self == *other),
    ;
}

impl Key for H256 {
    fn same(&self, other: &Self) -> (b: bool) {
        *self == *other
    }
}

impl Key for (H256, H256) {
    fn same(&self, other: &Self) -> (b: bool) {
        self.0 == other.0 && self.1 == other.1
    }
}

impl Key for (H256, u64) {
    fn same(&self, other: &Self) -> (b: bool) {
        self.0 == other.0 && self.1 == other.1
    }
}

/// A finite map from `K` to `V`, viewed as `Map<K, V::V>`.
#[derive(Debug)]
pub struct Table<K, V> {
    keys: Vec<K>,
    vals: Vec<V>,
}

impl<K: Key, V: View> View for Table<K, V> {
    type V = Map<K, V::V>;

    closed spec fn view(&self) -> Map<K, V::V> {
        Map::new(
            |k: K| exists|i: int| 0 <= i < self.keys@.len() && self.keys@[i] == k,
            |k: K| self.vals@[choose|i: int| 0 <= i < self.keys@.len() && self.keys@[i] == k]@,
        )
    }
}

impl<K: Key, V: View> Table<K, V> {
    /// No key is held twice, and every key has its value.
    pub closed spec fn wf(&self) -> bool {
        &&& self.keys@.len() == self.vals@.len()
        &&& forall|i: int, j: int|
            0 <= i < j < self.keys@.len() ==> self.keys@[i] != self.keys@[j]
    }

    proof fn lemma_at(&self, i: int)
        requires
            self.wf(),
            0 <= i < self.keys@.len(),
        ensures
            self@.contains_key(self.keys@[i]),
            self@[self.keys@[i]] == self.vals@[i]@,
    {
        let k = self.keys@[i];
        let j = choose|j: int| 0 <= j < self.keys@.len() && self.keys@[j] == k;
        assert(j == i);
    }

    /// The empty table.
    pub fn new() -> (t: Self)
        ensures
            t.wf(),
            t@ == Map::<K, V::V>::empty(),
    {
        let t = Table { keys: Vec::new(), vals: Vec::new() };
        assert(t@ =~= Map::<K, V::V>::empty());
        t
    }

    fn find(&self, k: &K) -> (r: Option<usize>)
        requires
            self.wf(),
        ensures
            match r {
                Some(i) => i < self.keys@.len() && self.keys@[i as int] == *k && self@.contains_key(
                    *k,
                ) && self@[*k] == self.vals@[i as int]@,
                None => !self@.contains_key(*k),
            },
    {
        let mut i: usize = 0;
        while i < self.keys.len()
            invariant
                self.wf(),
                i <= self.keys@.len(),
                forall|j: int| 0 <= j < i ==> self.keys@[j] != *k,
            decreases self.keys@.len() - i,
        {
            if self.keys[i].same(k) {
                proof {
                    self.lemma_at(i as int);
                }
                return Some(i);
            }
            i = i + 1;
        }
        None
    }

    /// Whether the table holds the key.
    pub fn contains(&self, k: &K) -> (b: bool)
        requires
            self.wf(),
        ensures
            b == self@.contains_key(*k),
    {
        self.find(k).is_some()
    }

    /// The value under a key, if the table holds it.
    pub fn get(&self, k: &K) -> (r: Option<&V>)
        requires
            self.wf(),
        ensures
            match r {
                Some(v) => self@.contains_key(*k) && self@[*k] == v@,
                None => !self@.contains_key(*k),
            },
    {
        match self.find(k) {
            Some(i) => Some(&self.vals[i]),
            None => None,
        }
    }

    /// Puts `v` under `k`, in place of what was there.
    pub fn insert(&mut self, k: K, v: V)
        requires
            old(self).wf(),
        ensures
            final(self).wf(),
            final(self)@ == old(self)@.insert(k, v@),
    {
        let found = self.find(&k);
        let ghost before = *self;
        match found {
            Some(i) => {
                self.vals[i] = v;
                proof {
                    assert forall|q: K| #[trigger] self@.contains_key(q) implies self@[q]
                        == before@.insert(k, v@)[q] by {
                        let j = choose|j: int| 0 <= j < self.keys@.len() && self.keys@[j] == q;
                        self.lemma_at(j);
                        before.lemma_at(j);
                    }
                    assert(self@ =~= before@.insert(k, v@));
                }
            },
            None => {
                self.keys.push(k);
                self.vals.push(v);
                proof {
                    let n = before.keys@.len() as int;
                    assert(self.keys@[n] == k);
                    assert forall|q: K| #[trigger] self@.contains_key(q) implies before@.insert(
                        k,
                        v@,
                    ).contains_key(q) && self@[q] == before@.insert(k, v@)[q] by {
                        let j = choose|j: int| 0 <= j < self.keys@.len() && self.keys@[j] == q;
                        self.lemma_at(j);
                        if j < n {
                            assert(before.keys@[j] == q);
                            before.lemma_at(j);
                        }
                    }
                    assert forall|q: K| #[trigger]
                        before@.insert(k, v@).contains_key(q) implies self@.contains_key(q) by {
                        if q != k {
                            let j = choose|j: int|
                                0 <= j < before.keys@.len() && before.keys@[j] == q;
                            assert(self.keys@[j] == q);
                        }
                    }
                    assert(self@ =~= before@.insert(k, v@));
                }
            },
        }
    }

    /// Takes the value under `k` out of the table.
    pub fn remove(&mut self, k: &K) -> (r: Option<V>)
        requires
            old(self).wf(),
        ensures
            final(self).wf(),
            final(self)@ == old(self)@.remove(*k),
            match r {
                Some(v) => old(self)@.contains_key(*k) && old(self)@[*k] == v@,
                None => !old(self)@.contains_key(*k),
            },
    {
        let found = self.find(k);
        let ghost before = *self;
        match found {
            Some(i) => {
                self.keys.remove(i);
                let v = self.vals.remove(i);
                proof {
                    assert forall|q: K| #[trigger] self@.contains_key(q) implies before@.remove(
                        *k,
                    ).contains_key(q) && self@[q] == before@.remove(*k)[q] by {
                        let j = choose|j: int| 0 <= j < self.keys@.len() && self.keys@[j] == q;
                        self.lemma_at(j);
                        let jj = if j < i { j } else { j + 1 };
                        assert(before.keys@[jj] == q);
                        before.lemma_at(jj);
                    }
                    assert forall|q: K| #[trigger]
                        before@.remove(*k).contains_key(q) implies self@.contains_key(q) by {
                        let j = choose|j: int|
                            0 <= j < before.keys@.len() && before.keys@[j] == q;
                        let jj = if j < i { j } else { j - 1 };
                        assert(self.keys@[jj] == q);
                    }
                    assert(self@ =~= before@.remove(*k));
                }
                Some(v)
            },
            None => {
                assert(self@ =~= before@.remove(*k));
                None
            },
        }
    }
}


/// A value that can be copied in full: the copy has the same mathematical
/// value.
pub trait Duplicate: View + Sized {
    /// A copy of the value.
    fn duplicate(&self) -> (r: Self)
        ensures
            r@ == self@,
    ;
}

/// A copy of a vector of plain values.
pub fn copy_vec<T: Copy>(v: &Vec<T>) -> (r: Vec<T>)
    ensures
        r@ == v@,
{
    let mut r: Vec<T> = Vec::new();
    let mut i: usize = 0;
    while i < v.len()
        invariant
            i <= v@.len(),
            r@ == v@.take(i as int),
        decreases v@.len() - i,
    {
        r.push(v[i]);
        assert(v@.take(i as int + 1) == v@.take(i as int).push(v@[i as int]));
        i = i + 1;
    }
    assert(v@.take(v@.len() as int) == v@);
    r
}

impl Duplicate for H256 {
    fn duplicate(&self) -> (r: Self) {
        *self
    }
}

impl Duplicate for Vec<H256> {
    fn duplicate(&self) -> (r: Self) {
        copy_vec(self)
    }
}

impl<K: Key + Copy, V: Duplicate> Table<K, V> {
    /// A copy of the table.
    pub fn duplicate(&self) -> (r: Self)
        requires
            self.wf(),
        ensures
            r.wf(),
            r@ == self@,
    {
        let mut keys: Vec<K> = Vec::new();
        let mut vals: Vec<V> = Vec::new();
        let mut i: usize = 0;
        while i < self.keys.len()
            invariant
                self.wf(),
                i <= self.keys@.len(),
                keys@ == self.keys@.take(i as int),
                vals@.len() == i,
                forall|j: int| 0 <= j < i ==> (#[trigger] vals@[j])@ == self.vals@[j]@,
            decreases self.keys@.len() - i,
        {
            keys.push(self.keys[i]);
            vals.push(self.vals[i].duplicate());
            assert(self.keys@.take(i as int + 1) == self.keys@.take(i as int).push(
                self.keys@[i as int],
            ));
            i = i + 1;
        }
        assert(self.keys@.take(self.keys@.len() as int) == self.keys@);
        let r = Table { keys, vals };
        assert(r@ =~= self@);
        r
    }
}

} // verus!
