//! Verified association containers keyed by byte-string symbols.
//!
//! [`SymMap`] is a last-write-wins mapping from a [`SymbolKey`] type to
//! values, modelled as a `Map<Seq<u8>, V>`; [`SymSet`] is a set of keys,
//! modelled as a `Set<Seq<u8>>`. Both keep entries in insertion order,
//! which makes every iteration deterministic.

use vstd::prelude::*;
use crate::symbols::SymbolKey;

verus! {

#[verifier::reject_recursive_types(K)]
#[verifier::reject_recursive_types(V)]
pub struct SymMap<K, V> {
    keys: Vec<K>,
    vals: Vec<V>,
}

impl<K: SymbolKey, V> SymMap<K, V> {
    /// The keys currently stored, in insertion order.
    pub closed spec fn key_seq(self) -> Seq<Seq<u8>> {
        self.keys@.map_values(|k: K| k.key())
    }

    /// The values currently stored, in the same order as [`Self::key_seq`].
    pub closed spec fn val_seq(self) -> Seq<V> {
        self.vals@
    }

    /// Entry count.
    pub open spec fn spec_len(self) -> nat {
        self.key_seq().len()
    }

    /// Well-formed: parallel columns of equal length, all keys distinct.
    pub open spec fn wf(self) -> bool {
        &&& self.key_seq().len() == self.val_seq().len()
        &&& forall|i: int, j: int|
            0 <= i < j < self.key_seq().len() ==> self.key_seq()[i] != self.key_seq()[j]
    }

    /// The column holding key `k` (meaningful only when `k` is present).
    pub closed spec fn spec_idx(self, k: Seq<u8>) -> int {
        choose|i: int| 0 <= i < self.key_seq().len() && self.key_seq()[i] == k
    }

    /// The mapping this container stands for.
    pub closed spec fn view(self) -> Map<Seq<u8>, V> {
        Map::new(
            |k: Seq<u8>| self.key_seq().contains(k),
            |k: Seq<u8>| self.val_seq()[self.spec_idx(k)],
        )
    }

    /// In a well-formed map the entry at column `i` is the entry for its key.
    pub proof fn lemma_at(self, i: int)
        requires
            self.wf(),
            0 <= i < self.key_seq().len(),
        ensures
            self@.contains_key(self.key_seq()[i]),
            self.spec_idx(self.key_seq()[i]) == i,
            self@[self.key_seq()[i]] == self.val_seq()[i],
    {
        let k = self.key_seq()[i];
        assert(self.key_seq().contains(k));
        let j = self.spec_idx(k);
        assert(0 <= j < self.key_seq().len() && self.key_seq()[j] == k);
        if i != j {
            assert(false);
        }
    }

    /// A key that is present sits at column [`Self::spec_idx`].
    pub proof fn lemma_present(self, k: Seq<u8>)
        requires
            self.wf(),
            self@.contains_key(k),
        ensures
            0 <= self.spec_idx(k) < self.key_seq().len(),
            self.key_seq()[self.spec_idx(k)] == k,
            self@[k] == self.val_seq()[self.spec_idx(k)],
    {
        assert(self.key_seq().contains(k));
        let j = choose|i: int| 0 <= i < self.key_seq().len() && self.key_seq()[i] == k;
        assert(self.key_seq()[j] == k);
    }

    /// Replacing the value at column `i` turns the map view into an insert
    /// at that column's key. Stated over two snapshots so that a caller can
    /// apply it once a mutable borrow into the map has resolved.
    pub proof fn lemma_update_at(pre: Self, post: Self, i: int)
        requires
            pre.wf(),
            0 <= i < pre.key_seq().len(),
            post.key_seq() == pre.key_seq(),
            post.val_seq() == pre.val_seq().update(i, post.val_seq()[i]),
        ensures
            post.wf(),
            post@ =~= pre@.insert(pre.key_seq()[i], post.val_seq()[i]),
    {
        let k = pre.key_seq()[i];
        let v = post.val_seq()[i];
        assert forall|k2: Seq<u8>| post@.contains_key(k2) implies #[trigger] post@[k2]
            == pre@.insert(k, v)[k2] by {
            let j = post.spec_idx(k2);
            assert(0 <= j < post.key_seq().len() && post.key_seq()[j] == k2);
            if k2 == k {
                if j != i {
                    assert(post.key_seq()[j] == post.key_seq()[i]);
                    assert(false);
                }
            } else {
                assert(j != i);
                pre.lemma_at(j);
                assert(pre.spec_idx(k2) == j);
            }
        }
        pre.lemma_at(i);
        assert(post@ =~= pre@.insert(k, v));
    }

    pub fn empty() -> (r: Self)
        ensures
            r.wf(),
            r@ =~= Map::<Seq<u8>, V>::empty(),
            r.key_seq() =~= Seq::<Seq<u8>>::empty(),
    {
        SymMap { keys: Vec::new(), vals: Vec::new() }
    }

    pub fn len(&self) -> (r: usize)
        ensures
            r == self.spec_len(),
    {
        self.keys.len()
    }

    pub fn is_empty(&self) -> (r: bool)
        ensures
            r == (self.spec_len() == 0),
    {
        self.keys.len() == 0
    }

    /// Index of `k` in the key column, by linear search.
    fn find(&self, k: &K) -> (r: Option<usize>)
        requires
            self.wf(),
        ensures
            match r {
                Some(i) => i < self.key_seq().len() && self.key_seq()[i as int] == k.key()
                    && self.spec_idx(k.key()) == i && self@.contains_key(k.key()),
                None => !self@.contains_key(k.key()),
            },
    {
        let n = self.keys.len();
        let mut i: usize = 0;
        while i < n
            invariant
                self.wf(),
                i <= n,
                n == self.key_seq().len(),
                forall|j: int| 0 <= j < i ==> self.key_seq()[j] != k.key(),
            decreases n - i,
        {
            if self.keys[i].key_eq(k) {
                proof {
                    self.lemma_at(i as int);
                }
                return Some(i);
            }
            i = i + 1;
        }
        proof {
            if self.key_seq().contains(k.key()) {
                let j = choose|j: int|
                    0 <= j < self.key_seq().len() && self.key_seq()[j] == k.key();
                assert(self.key_seq()[j] != k.key());
            }
        }
        None
    }

    pub fn contains(&self, k: &K) -> (r: bool)
        requires
            self.wf(),
        ensures
            r == self@.contains_key(k.key()),
    {
        self.find(k).is_some()
    }

    pub fn get(&self, k: &K) -> (r: Option<&V>)
        requires
            self.wf(),
        ensures
            match r {
                Some(v) => self@.contains_key(k.key()) && *v == self@[k.key()],
                None => !self@.contains_key(k.key()),
            },
    {
        match self.find(k) {
            Some(i) => {
                proof {
                    self.lemma_at(i as int);
                }
                Some(&self.vals[i])
            },
            None => None,
        }
    }

    /// Insert or replace: the new value wins; a fresh key goes to the back.
    pub fn insert(&mut self, k: K, v: V)
        requires
            old(self).wf(),
        ensures
            final(self).wf(),
            final(self)@ =~= old(self)@.insert(k.key(), v),
            old(self)@.contains_key(k.key()) ==> final(self).key_seq() == old(self).key_seq(),
            !old(self)@.contains_key(k.key()) ==> final(self).key_seq()
                == old(self).key_seq().push(k.key()),
    {
        let found = self.find(&k);
        match found {
            Some(i) => {
                let slot = vstd::std_specs::vec::vec_index_mut(&mut self.vals, i);
                *slot = v;
                proof {
                    let oldm = *old(self);
                    assert(self.key_seq() =~= oldm.key_seq());
                    assert(self.val_seq() =~= oldm.val_seq().update(i as int, v));
                    Self::lemma_update_at(oldm, *self, i as int);
                }
            },
            None => {
                let ghost oldm = *self;
                self.keys.push(k);
                self.vals.push(v);
                proof {
                    let kk = self.keys@.last().key();
                    assert(self.key_seq() =~= oldm.key_seq().push(kk));
                    assert forall|i: int, j: int|
                        0 <= i < j < self.key_seq().len() implies self.key_seq()[i]
                        != self.key_seq()[j] by {
                        if j == self.key_seq().len() - 1 {
                            assert(oldm.key_seq().contains(oldm.key_seq()[i]));
                        }
                    }
                    assert forall|k2: Seq<u8>| self@.contains_key(k2)
                        implies #[trigger] self@[k2] == oldm@.insert(kk, v)[k2] by {
                        let j = self.spec_idx(k2);
                        assert(0 <= j < self.key_seq().len() && self.key_seq()[j] == k2);
                        if k2 == kk {
                            if j != self.key_seq().len() - 1 {
                                assert(oldm.key_seq().contains(k2));
                            }
                        } else {
                            assert(j < oldm.key_seq().len());
                            oldm.lemma_at(j);
                            assert(oldm@.contains_key(k2));
                            assert(self.spec_idx(k2) == j);
                        }
                    }
                    assert forall|k2: Seq<u8>| #[trigger] oldm@.insert(kk, v).contains_key(k2)
                        implies self@.contains_key(k2) by {
                        if k2 == kk {
                            assert(self.key_seq()[self.key_seq().len() - 1] == kk);
                        } else {
                            let j = oldm.spec_idx(k2);
                            assert(0 <= j < oldm.key_seq().len() && oldm.key_seq()[j] == k2);
                            assert(self.key_seq()[j] == k2);
                        }
                    }
                    assert(self@ =~= oldm@.insert(kk, v));
                }
            },
        }
    }

    /// Remove the entry for `k`, handing back its value.
    pub fn remove(&mut self, k: &K) -> (r: Option<V>)
        requires
            old(self).wf(),
        ensures
            final(self).wf(),
            final(self)@ =~= old(self)@.remove(k.key()),
            match r {
                Some(v) => old(self)@.contains_key(k.key()) && v == old(self)@[k.key()]
                    && final(self).key_seq()
                    == old(self).key_seq().remove(old(self).spec_idx(k.key())),
                None => !old(self)@.contains_key(k.key()) && *final(self) == *old(self),
            },
    {
        let found = self.find(k);
        match found {
            Some(i) => {
                proof {
                    old(self).lemma_at(i as int);
                }
                self.keys.remove(i);
                let v = self.vals.remove(i);
                proof {
                    let oldm = *old(self);
                    assert(self.key_seq() =~= oldm.key_seq().remove(i as int));
                    assert forall|a: int, b: int|
                        0 <= a < b < self.key_seq().len() implies self.key_seq()[a]
                        != self.key_seq()[b] by {
                        let a0 = if a < i { a } else { a + 1 };
                        let b0 = if b < i { b } else { b + 1 };
                        assert(self.key_seq()[a] == oldm.key_seq()[a0]);
                        assert(self.key_seq()[b] == oldm.key_seq()[b0]);
                    }
                    assert forall|k2: Seq<u8>| self@.contains_key(k2)
                        implies #[trigger] oldm@.remove(k.key()).contains_key(k2)
                        && self@[k2] == oldm@.remove(k.key())[k2] by {
                        let j = self.spec_idx(k2);
                        assert(0 <= j < self.key_seq().len() && self.key_seq()[j] == k2);
                        let j0 = if j < i { j } else { j + 1 };
                        assert(oldm.key_seq()[j0] == k2);
                        oldm.lemma_at(j0);
                        assert(k2 != k.key());
                        assert(self@[k2] == self.val_seq()[j]);
                        assert(self.val_seq()[j] == oldm.val_seq()[j0]);
                    }
                    assert forall|k2: Seq<u8>| #[trigger] oldm@.remove(k.key()).contains_key(k2)
                        implies self@.contains_key(k2) by {
                        let j0 = oldm.spec_idx(k2);
                        assert(0 <= j0 < oldm.key_seq().len() && oldm.key_seq()[j0] == k2);
                        assert(j0 != i);
                        let j = if j0 < i { j0 } else { j0 - 1 };
                        assert(self.key_seq()[j] == k2);
                    }
                    assert(self@ =~= oldm@.remove(k.key()));
                }
                Some(v)
            },
            None => {
                proof {
                    assert(self@ =~= old(self)@.remove(k.key()));
                }
                None
            },
        }
    }

    /// The key stored at column `i`.
    pub fn key_at(&self, i: usize) -> (r: &K)
        requires
            self.wf(),
            i < self.spec_len(),
        ensures
            r.key() == self.key_seq()[i as int],
            self@.contains_key(r.key()),
            self@[r.key()] == self.val_seq()[i as int],
    {
        proof {
            self.lemma_at(i as int);
        }
        &self.keys[i]
    }

    /// The value stored at column `i`.
    pub fn val_at(&self, i: usize) -> (r: &V)
        requires
            self.wf(),
            i < self.spec_len(),
        ensures
            *r == self.val_seq()[i as int],
            *r == self@[self.key_seq()[i as int]],
            self@.contains_key(self.key_seq()[i as int]),
    {
        proof {
            self.lemma_at(i as int);
        }
        &self.vals[i]
    }

    /// Mutable access to the value for `k`. The relation to the map view is
    /// stated over the columns; apply [`Self::lemma_update_at`] once the
    /// borrow has resolved.
    pub fn get_mut(&mut self, k: &K) -> (r: Option<&mut V>)
        requires
            old(self).wf(),
        ensures
            match r {
                Some(v) => old(self)@.contains_key(k.key()) && *v == old(self)@[k.key()]
                    && final(self).key_seq() == old(self).key_seq()
                    && 0 <= old(self).spec_idx(k.key()) < old(self).key_seq().len()
                    && old(self).key_seq()[old(self).spec_idx(k.key())] == k.key()
                    && final(self).val_seq() == old(self).val_seq().update(
                    old(self).spec_idx(k.key()),
                    *final(v),
                ),
                None => !old(self)@.contains_key(k.key()) && *final(self) == *old(self),
            },
    {
        let found = self.find(k);
        match found {
            Some(i) => {
                proof {
                    old(self).lemma_at(i as int);
                }
                let slot = vstd::std_specs::vec::vec_index_mut(&mut self.vals, i);
                Some(slot)
            },
            None => None,
        }
    }
}

/// The view's domain is exactly the stored key column.
pub proof fn lemma_keyseq_dom<K: SymbolKey, V>(m: SymMap<K, V>)
    ensures
        forall|k: Seq<u8>| m@.contains_key(k) == m.key_seq().contains(k),
{
}

impl<K: SymbolKey, V: Copy> SymMap<K, V> {
    /// A fresh map with the same entries in the same order.
    pub fn dup(&self) -> (r: Self)
        requires
            self.wf(),
        ensures
            r.wf(),
            r@ =~= self@,
            r.key_seq() == self.key_seq(),
            r.val_seq() == self.val_seq(),
    {
        let n = self.keys.len();
        let mut keys: Vec<K> = Vec::new();
        let mut vals: Vec<V> = Vec::new();
        let mut i: usize = 0;
        while i < n
            invariant
                self.wf(),
                i <= n,
                n == self.key_seq().len(),
                keys@.len() == i,
                vals@.len() == i,
                forall|j: int| 0 <= j < i ==> #[trigger] keys@[j].key() == self.key_seq()[j],
                forall|j: int| 0 <= j < i ==> vals@[j] == self.val_seq()[j],
            decreases n - i,
        {
            keys.push(self.keys[i].key_dup());
            vals.push(self.vals[i]);
            i = i + 1;
        }
        let r = SymMap { keys, vals };
        proof {
            assert(r.key_seq() =~= self.key_seq());
            assert(r.val_seq() =~= self.val_seq());
            assert(r.wf());
            assert forall|k2: Seq<u8>| r@.contains_key(k2) implies #[trigger] r@[k2]
                == self@[k2] by {
                r.lemma_present(k2);
                self.lemma_at(r.spec_idx(k2));
            }
            assert(r@ =~= self@);
        }
        r
    }
}

/// A set of keys, backed by a [`SymMap`] with unit values.
#[verifier::reject_recursive_types(K)]
pub struct SymSet<K> {
    entries: SymMap<K, ()>,
}

impl<K: SymbolKey> SymSet<K> {
    pub closed spec fn wf(self) -> bool {
        self.entries.wf()
    }

    /// The keys currently stored, in insertion order.
    pub closed spec fn key_seq(self) -> Seq<Seq<u8>> {
        self.entries.key_seq()
    }

    pub open spec fn spec_len(self) -> nat {
        self.key_seq().len()
    }

    /// The position holding key `k` (meaningful only when `k` is present).
    pub closed spec fn spec_idx(self, k: Seq<u8>) -> int {
        self.entries.spec_idx(k)
    }

    /// The set this container stands for.
    pub closed spec fn view(self) -> Set<Seq<u8>> {
        self.entries@.dom()
    }

    /// Stored keys are pairwise distinct.
    pub proof fn lemma_distinct(self)
        requires
            self.wf(),
        ensures
            forall|i: int, j: int|
                0 <= i < j < self.key_seq().len() ==> self.key_seq()[i] != self.key_seq()[j],
    {
    }

    /// The set view holds exactly the stored keys.
    pub proof fn lemma_keyseq(self)
        ensures
            forall|k: Seq<u8>| self@.contains(k) == self.key_seq().contains(k),
    {
        lemma_keyseq_dom(self.entries);
    }

    /// Every stored key is in the set view, at its own position.
    pub proof fn lemma_at(self, i: int)
        requires
            self.wf(),
            0 <= i < self.key_seq().len(),
        ensures
            self@.contains(self.key_seq()[i]),
            self.spec_idx(self.key_seq()[i]) == i,
    {
        self.entries.lemma_at(i);
    }

    /// A key in the set view sits at position [`Self::spec_idx`].
    pub proof fn lemma_present(self, k: Seq<u8>)
        requires
            self.wf(),
            self@.contains(k),
        ensures
            0 <= self.spec_idx(k) < self.key_seq().len(),
            self.key_seq()[self.spec_idx(k)] == k,
    {
        self.entries.lemma_present(k);
    }

    pub fn empty() -> (r: Self)
        ensures
            r.wf(),
            r@ =~= Set::<Seq<u8>>::empty(),
            r.key_seq() =~= Seq::<Seq<u8>>::empty(),
    {
        SymSet { entries: SymMap::empty() }
    }

    pub fn len(&self) -> (r: usize)
        ensures
            r == self.spec_len(),
    {
        self.entries.len()
    }

    pub fn is_empty(&self) -> (r: bool)
        ensures
            r == (self.spec_len() == 0),
    {
        self.entries.is_empty()
    }

    pub fn contains(&self, k: &K) -> (r: bool)
        requires
            self.wf(),
        ensures
            r == self@.contains(k.key()),
    {
        self.entries.contains(k)
    }

    pub fn insert(&mut self, k: K)
        requires
            old(self).wf(),
        ensures
            final(self).wf(),
            final(self)@ =~= old(self)@.insert(k.key()),
            old(self)@.contains(k.key()) ==> final(self).key_seq() == old(self).key_seq(),
            !old(self)@.contains(k.key()) ==> final(self).key_seq()
                == old(self).key_seq().push(k.key()),
    {
        let ghost kk = k.key();
        self.entries.insert(k, ());
        proof {
            assert(self@ =~= old(self)@.insert(kk));
        }
    }

    /// Remove `k`; reports whether it was present.
    pub fn remove(&mut self, k: &K) -> (r: bool)
        requires
            old(self).wf(),
        ensures
            final(self).wf(),
            final(self)@ =~= old(self)@.remove(k.key()),
            r == old(self)@.contains(k.key()),
            r ==> final(self).key_seq()
                == old(self).key_seq().remove(old(self).spec_idx(k.key())),
            !r ==> *final(self) == *old(self),
    {
        let r = self.entries.remove(k).is_some();
        proof {
            assert(self@ =~= old(self)@.remove(k.key()));
        }
        r
    }

    /// The key stored at position `i`.
    pub fn key_at(&self, i: usize) -> (r: &K)
        requires
            self.wf(),
            i < self.spec_len(),
        ensures
            r.key() == self.key_seq()[i as int],
            self@.contains(r.key()),
    {
        self.entries.key_at(i)
    }

    /// A fresh set with the same keys in the same order.
    pub fn dup(&self) -> (r: Self)
        requires
            self.wf(),
        ensures
            r.wf(),
            r@ =~= self@,
            r.key_seq() == self.key_seq(),
    {
        let entries = self.entries.dup();
        let r = SymSet { entries };
        proof {
            assert(r@ =~= self@);
        }
        r
    }

    /// A fresh vector holding every key, in stored order.
    pub fn keys_snapshot(&self) -> (r: Vec<K>)
        requires
            self.wf(),
        ensures
            r@.map_values(|k: K| k.key()) == self.key_seq(),
    {
        let n = self.entries.len();
        let mut out: Vec<K> = Vec::new();
        let mut i: usize = 0;
        while i < n
            invariant
                self.wf(),
                i <= n,
                n == self.spec_len(),
                out@.len() == i,
                forall|j: int| 0 <= j < i ==> #[trigger] out@[j].key() == self.key_seq()[j],
            decreases n - i,
        {
            let k = self.entries.key_at(i);
            out.push(k.key_dup());
            i = i + 1;
        }
        proof {
            assert(out@.map_values(|k: K| k.key()) =~= self.key_seq());
        }
        out
    }
}

} // verus!
