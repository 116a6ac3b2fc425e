//! SparseVec: a keyed container with O(1)-style point access by key and
//! min/max key extraction, used to hold the price levels of a half-book.
//!
//! The store is an association vector kept sorted by key. Its behaviour is
//! specified by the recursive functions `assoc_get`, `assoc_insert` and
//! `assoc_remove` over the sequence of pairs, so callers can compute with the
//! exact contents.

use vstd::prelude::*;

verus! {

/// The keys of an association sequence, in storage order.
pub open spec fn assoc_keys<V>(s: Seq<(u64, V)>) -> Seq<u64> {
    s.map_values(|p: (u64, V)| p.0)
}

/// Whether the keys of an association sequence are strictly increasing.
pub open spec fn assoc_sorted<V>(s: Seq<(u64, V)>) -> bool {
    forall|i: int, j: int| 0 <= i < j < s.len() ==> s[i].0 < s[j].0
}

/// The value at the first occurrence of `k`, if any.
pub open spec fn assoc_get<V>(s: Seq<(u64, V)>, k: u64) -> Option<V>
    decreases s.len(),
{
    if s.len() == 0 {
        None
    } else if s[0].0 == k {
        Some(s[0].1)
    } else {
        assoc_get(s.drop_first(), k)
    }
}

/// The sequence with `v` bound to `k`: replaces the first binding of `k`, or
/// inserts a new pair in key order.
pub open spec fn assoc_insert<V>(s: Seq<(u64, V)>, k: u64, v: V) -> Seq<(u64, V)>
    decreases s.len(),
{
    if s.len() == 0 {
        seq![(k, v)]
    } else if s[0].0 == k {
        seq![(k, v)] + s.drop_first()
    } else if k < s[0].0 {
        seq![(k, v)] + s
    } else {
        seq![s[0]] + assoc_insert(s.drop_first(), k, v)
    }
}

/// The sequence with the first binding of `k` removed, if any.
pub open spec fn assoc_remove<V>(s: Seq<(u64, V)>, k: u64) -> Seq<(u64, V)>
    decreases s.len(),
{
    if s.len() == 0 {
        s
    } else if s[0].0 == k {
        s.drop_first()
    } else {
        seq![s[0]] + assoc_remove(s.drop_first(), k)
    }
}

/// A key is absent exactly when `assoc_get` finds nothing.
pub proof fn lemma_assoc_get_none<V>(s: Seq<(u64, V)>, k: u64)
    ensures
        assoc_get(s, k) is None <==> !assoc_keys(s).contains(k),
    decreases s.len(),
{
    if s.len() > 0 {
        lemma_assoc_get_none(s.drop_first(), k);
        assert(assoc_keys(s.drop_first()) =~= assoc_keys(s).drop_first());
        assert(assoc_keys(s)[0] == s[0].0);
        if s[0].0 == k {
            assert(assoc_keys(s).contains(k));
        } else {
            if assoc_keys(s).contains(k) {
                let j = choose|j: int| 0 <= j < s.len() && assoc_keys(s)[j] == k;
                assert(assoc_keys(s.drop_first())[j - 1] == k);
                assert(assoc_keys(s.drop_first()).contains(k));
            }
            if assoc_keys(s.drop_first()).contains(k) {
                let j = choose|j: int|
                    0 <= j < s.drop_first().len() && assoc_keys(s.drop_first())[j] == k;
                assert(assoc_keys(s)[j + 1] == k);
                assert(assoc_keys(s).contains(k));
            }
        }
    }
}

/// What `assoc_get` returns when the first binding of `k` stands at index `i`.
pub proof fn lemma_assoc_get_at<V>(s: Seq<(u64, V)>, k: u64, i: int)
    requires
        0 <= i < s.len(),
        s[i].0 == k,
        forall|j: int| 0 <= j < i ==> s[j].0 != k,
    ensures
        assoc_get(s, k) == Some(s[i].1),
    decreases i,
{
    if i > 0 {
        lemma_assoc_get_at(s.drop_first(), k, i - 1);
    }
}

/// What `assoc_insert` builds when the keys below index `i` are less than `k`
/// and the key at `i`, if any, is at least `k`: a replacement at `i` when the
/// key is already there, and an insertion at `i` otherwise.
pub proof fn lemma_assoc_insert_at<V>(s: Seq<(u64, V)>, k: u64, v: V, i: int)
    requires
        0 <= i <= s.len(),
        forall|j: int| 0 <= j < i ==> s[j].0 < k,
        i < s.len() ==> s[i].0 >= k,
    ensures
        i < s.len() && s[i].0 == k ==> assoc_insert(s, k, v) =~= s.update(i, (k, v)),
        !(i < s.len() && s[i].0 == k) ==> assoc_insert(s, k, v) =~= s.insert(i, (k, v)),
    decreases i,
{
    if i == 0 {
        if s.len() > 0 && s[0].0 == k {
            assert(assoc_insert(s, k, v) =~= s.update(0, (k, v)));
        } else if s.len() > 0 && k < s[0].0 {
            assert(assoc_insert(s, k, v) =~= s.insert(0, (k, v)));
        } else {
            assert(assoc_insert(s, k, v) =~= s.insert(0, (k, v)));
        }
    } else {
        lemma_assoc_insert_at(s.drop_first(), k, v, i - 1);
        if i < s.len() && s[i].0 == k {
            assert(assoc_insert(s.drop_first(), k, v) =~= s.drop_first().update(i - 1, (k, v)));
            assert(assoc_insert(s, k, v) =~= s.update(i, (k, v)));
        } else {
            assert(assoc_insert(s.drop_first(), k, v) =~= s.drop_first().insert(i - 1, (k, v)));
            assert(assoc_insert(s, k, v) =~= s.insert(i, (k, v)));
        }
    }
}

/// What `assoc_remove` builds when the first binding of `k` stands at `i`.
pub proof fn lemma_assoc_remove_at<V>(s: Seq<(u64, V)>, k: u64, i: int)
    requires
        0 <= i < s.len(),
        s[i].0 == k,
        forall|j: int| 0 <= j < i ==> s[j].0 != k,
    ensures
        assoc_remove(s, k) =~= s.remove(i),
    decreases i,
{
    if i == 0 {
        assert(assoc_remove(s, k) =~= s.remove(0));
    } else {
        lemma_assoc_remove_at(s.drop_first(), k, i - 1);
        assert(assoc_remove(s.drop_first(), k) =~= s.drop_first().remove(i - 1));
        assert(assoc_remove(s, k) =~= s.remove(i));
    }
}

/// `assoc_remove` leaves a sequence without the key unchanged.
pub proof fn lemma_assoc_remove_absent<V>(s: Seq<(u64, V)>, k: u64)
    requires
        !assoc_keys(s).contains(k),
    ensures
        assoc_remove(s, k) =~= s,
    decreases s.len(),
{
    if s.len() > 0 {
        assert(assoc_keys(s)[0] == s[0].0);
        assert(forall|j: int|
            0 <= j < s.drop_first().len() ==> assoc_keys(s.drop_first())[j] == assoc_keys(s)[j
                + 1]);
        lemma_assoc_remove_absent(s.drop_first(), k);
        assert(assoc_remove(s, k) =~= s);
    }
}

/// SparseVec is a keyed container that tolerates "holes": prices come and go
/// as levels empty out, and point access by key stays cheap while the least
/// and greatest occupied key are always at the ends of the store.
#[derive(Debug)]
pub struct SparseVec<V> {
    pub data: Vec<(u64, V)>,
}

impl<V> Default for SparseVec<V> {
    /// An empty container.
    fn default() -> (r: Self)
        ensures
            r.data@.len() == 0,
            r.wf(),
    {
        SparseVec { data: Vec::new() }
    }
}

impl<V> SparseVec<V> {
    /// Whether the store is sorted strictly by key, so each key is bound once.
    pub open spec fn wf(self) -> bool {
        assoc_sorted(self.data@)
    }

    /// The occupied keys, in increasing order.
    pub open spec fn spec_keys(self) -> Seq<u64> {
        assoc_keys(self.data@)
    }

    /// The value bound to `k`, if any.
    pub open spec fn spec_get(self, k: u64) -> Option<V> {
        assoc_get(self.data@, k)
    }

    /// Whether `k` is bound.
    pub open spec fn contains_key(self, k: u64) -> bool {
        self.spec_keys().contains(k)
    }

    /// An empty container with room for `capacity` entries.
    pub fn with_capacity(capacity: usize) -> (r: Self)
        ensures
            r.data@.len() == 0,
            r.wf(),
    {
        SparseVec { data: Vec::with_capacity(capacity) }
    }

    /// The first index whose key is at least `k`, or the length if none is.
    fn find_at_least(&self, k: u64) -> (i: usize)
        requires
            self.wf(),
        ensures
            i <= self.data@.len(),
            forall|j: int| 0 <= j < i ==> self.data@[j].0 < k,
            i < self.data@.len() ==> self.data@[i as int].0 >= k,
    {
        let mut i: usize = 0;
        while i < self.data.len() && self.data[i].0 < k
            invariant
                i <= self.data@.len(),
                forall|j: int| 0 <= j < i ==> self.data@[j].0 < k,
            decreases self.data@.len() - i,
        {
            i = i + 1;
        }
        i
    }

    /// Binds `value` to `index`, replacing and returning any value that was
    /// bound there before.
    pub fn insert(&mut self, index: u64, value: V) -> (r: Option<V>)
        requires
            old(self).wf(),
        ensures
            final(self).wf(),
            final(self).data@ == assoc_insert(old(self).data@, index, value),
            r == assoc_get(old(self).data@, index),
    {
        let i = self.find_at_least(index);
        if i < self.data.len() {
            let ki = self.data[i].0;
            if ki == index {
                proof {
                    lemma_assoc_get_at(self.data@, index, i as int);
                    lemma_assoc_insert_at(self.data@, index, value, i as int);
                }
                let old_pair = self.data.remove(i);
                self.data.insert(i, (index, value));
                assert(self.data@ =~= old(self).data@.update(i as int, (index, value)));
                return Some(old_pair.1);
            }
        }
        proof {
            lemma_assoc_get_none(self.data@, index);
            if self.spec_keys().contains(index) {
                let j = choose|j: int|
                    0 <= j < self.data@.len() && self.spec_keys()[j] == index;
            }
            lemma_assoc_insert_at(self.data@, index, value, i as int);
        }
        self.data.insert(i, (index, value));
        None
    }

    /// Unbinds `index` and returns the value that was bound to it, if any.
    pub fn remove(&mut self, index: &u64) -> (r: Option<V>)
        requires
            old(self).wf(),
        ensures
            final(self).wf(),
            final(self).data@ == assoc_remove(old(self).data@, *index),
            r == assoc_get(old(self).data@, *index),
    {
        let i = self.find_at_least(*index);
        if i < self.data.len() {
            let ki = self.data[i].0;
            if ki == *index {
                proof {
                    lemma_assoc_get_at(self.data@, *index, i as int);
                    lemma_assoc_remove_at(self.data@, *index, i as int);
                }
                let pair = self.data.remove(i);
                return Some(pair.1);
            }
        }
        proof {
            lemma_assoc_get_none(self.data@, *index);
            if self.spec_keys().contains(*index) {
                let j = choose|j: int|
                    0 <= j < self.data@.len() && self.spec_keys()[j] == *index;
            }
            lemma_assoc_remove_absent(self.data@, *index);
        }
        None
    }

    /// The value bound to `index`, if any.
    pub fn get(&self, index: &u64) -> (r: Option<&V>)
        requires
            self.wf(),
        ensures
            match r {
                Some(v) => self.spec_get(*index) == Some(*v),
                None => self.spec_get(*index) is None,
            },
    {
        let i = self.find_at_least(*index);
        if i < self.data.len() {
            let pair = &self.data[i];
            if pair.0 == *index {
                proof {
                    lemma_assoc_get_at(self.data@, *index, i as int);
                }
                return Some(&pair.1);
            }
        }
        proof {
            lemma_assoc_get_none(self.data@, *index);
            if self.spec_keys().contains(*index) {
                let j = choose|j: int|
                    0 <= j < self.data@.len() && self.spec_keys()[j] == *index;
            }
        }
        None
    }

    /// Mutable access to the value bound to `index`, if any. The store after
    /// the borrow ends holds whatever the caller left behind the reference,
    /// under the same key.
    pub fn get_mut(&mut self, index: &u64) -> (r: Option<&mut V>)
        requires
            old(self).wf(),
        ensures
            match r {
                Some(v) => {
                    &&& assoc_get(old(self).data@, *index) == Some(*v)
                    &&& final(self).data@ == assoc_insert(old(self).data@, *index, *final(v))
                    &&& final(self).wf()
                },
                None => {
                    &&& assoc_get(old(self).data@, *index) is None
                    &&& *final(self) == *old(self)
                },
            },
    {
        let i = self.find_at_least(*index);
        if i < self.data.len() {
            let ki = self.data[i].0;
            if ki == *index {
                proof {
                    lemma_assoc_get_at(self.data@, *index, i as int);
                    assert forall|nv: V|
                        assoc_insert(old(self).data@, *index, nv) == old(self).data@.update(
                            i as int,
                            (*index, nv),
                        ) by {
                        lemma_assoc_insert_at(old(self).data@, *index, nv, i as int);
                    }
                }
                let pair = vstd::std_specs::vec::vec_index_mut(&mut self.data, i);
                return Some(&mut pair.1);
            }
        }
        proof {
            lemma_assoc_get_none(self.data@, *index);
            if self.spec_keys().contains(*index) {
                let j = choose|j: int|
                    0 <= j < self.data@.len() && self.spec_keys()[j] == *index;
            }
        }
        None
    }

    /// Whether no key is bound.
    pub fn is_empty(&self) -> (r: bool)
        ensures
            r == (self.data@.len() == 0),
    {
        self.data.is_empty()
    }

    /// The greatest occupied key, or none if the store is empty.
    pub fn max_index(&self) -> (r: Option<u64>)
        requires
            self.wf(),
        ensures
            match r {
                None => self.data@.len() == 0,
                Some(m) => {
                    &&& self.data@.len() > 0
                    &&& m == self.data@.last().0
                    &&& self.spec_keys().contains(m)
                    &&& forall|k: u64| self.spec_keys().contains(k) ==> k <= m
                },
            },
    {
        if self.data.is_empty() {
            None
        } else {
            let pair = &self.data[self.data.len() - 1];
            proof {
                assert(self.spec_keys()[self.data@.len() - 1] == self.data@.last().0);
                assert forall|k: u64| self.spec_keys().contains(k) implies k
                    <= self.data@.last().0 by {
                    let j = choose|j: int|
                        0 <= j < self.data@.len() && self.spec_keys()[j] == k;
                }
            }
            Some(pair.0)
        }
    }

    /// The least occupied key, or none if the store is empty.
    pub fn min_index(&self) -> (r: Option<u64>)
        requires
            self.wf(),
        ensures
            match r {
                None => self.data@.len() == 0,
                Some(m) => {
                    &&& self.data@.len() > 0
                    &&& m == self.data@[0].0
                    &&& self.spec_keys().contains(m)
                    &&& forall|k: u64| self.spec_keys().contains(k) ==> m <= k
                },
            },
    {
        if self.data.is_empty() {
            None
        } else {
            let pair = &self.data[0];
            proof {
                assert(self.spec_keys()[0] == self.data@[0].0);
                assert forall|k: u64| self.spec_keys().contains(k) implies self.data@[0].0
                    <= k by {
                    let j = choose|j: int|
                        0 <= j < self.data@.len() && self.spec_keys()[j] == k;
                }
            }
            Some(pair.0)
        }
    }

    /// The stored pairs, in increasing key order.
    pub fn iter(&self) -> (r: &Vec<(u64, V)>)
        ensures
            r@ == self.data@,
    {
        &self.data
    }
}

} // verus!
