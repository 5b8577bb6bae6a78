//! A map keyed by byte strings, kept as a list of entries with distinct keys.

use crate::field::range_eq;
use vstd::prelude::*;

verus! {

/// A finite map from byte strings to values. Entries stay in the order in
/// which they were inserted, and no key occurs twice.
pub struct ByteMap<V> {
    keys: Vec<Vec<u8>>,
    vals: Vec<V>,
}

impl<V> ByteMap<V> {
    /// The keys, in insertion order.
    pub closed spec fn keys(&self) -> Seq<Seq<u8>> {
        Seq::new(self.keys@.len(), |i: int| self.keys@[i]@)
    }

    /// The values, each at the position of its key.
    pub closed spec fn values(&self) -> Seq<V> {
        self.vals@
    }

    /// There is one value per key and no key occurs twice.
    pub open spec fn wf(&self) -> bool {
        &&& self.keys().len() == self.values().len()
        &&& forall|i: int, j: int|
            0 <= i < j < self.keys().len() ==> #[trigger] self.keys()[i] != #[trigger] self.keys()[j]
    }

    /// Whether `key` has an entry.
    pub open spec fn contains_key(&self, key: Seq<u8>) -> bool {
        exists|i: int| 0 <= i < self.keys().len() && #[trigger] self.keys()[i] == key
    }

    /// The position of the entry of `key`.
    pub open spec fn index_of(&self, key: Seq<u8>) -> int {
        choose|i: int| 0 <= i < self.keys().len() && #[trigger] self.keys()[i] == key
    }

    /// The map that the entries stand for.
    pub open spec fn view(&self) -> Map<Seq<u8>, V> {
        Map::new(|k: Seq<u8>| self.contains_key(k), |k: Seq<u8>| self.values()[self.index_of(k)])
    }

    /// In a well-formed map the entry at position `i` is the entry of its key.
    pub proof fn lemma_index_of(&self, i: int)
        requires
            self.wf(),
            0 <= i < self.keys().len(),
        ensures
            self.contains_key(self.keys()[i]),
            self.index_of(self.keys()[i]) == i,
            self@.contains_key(self.keys()[i]),
            self@[self.keys()[i]] == self.values()[i],
    {
        let k = self.keys()[i];
        assert(self.contains_key(k));
        let j = self.index_of(k);
        if i < j {
            assert(self.keys()[i] != self.keys()[j]);
        } else if j < i {
            assert(self.keys()[j] != self.keys()[i]);
        }
    }

    /// An empty map.
    pub fn new() -> (m: Self)
        ensures
            m.wf(),
            m.keys().len() == 0,
            m@ == Map::<Seq<u8>, V>::empty(),
    {
        let m = ByteMap { keys: Vec::new(), vals: Vec::new() };
        proof {
            assert(m@ =~= Map::<Seq<u8>, V>::empty());
        }
        m
    }

    /// The number of entries.
    pub fn len(&self) -> (n: usize)
        requires
            self.wf(),
        ensures
            n == self.keys().len(),
    {
        self.keys.len()
    }

    /// The position of the entry of `key`, if it has one.
    pub fn position(&self, key: &[u8]) -> (r: Option<usize>)
        requires
            self.wf(),
        ensures
            r.is_some() == self@.contains_key(key@),
            r matches Some(i) ==> i < self.keys().len() && self.keys()[i as int] == key@
                && self.index_of(key@) == i,
    {
        let mut i: usize = 0;
        while i < self.keys.len()
            invariant
                self.wf(),
                i <= self.keys().len(),
                self.keys().len() == self.keys@.len(),
                forall|k: int| 0 <= k < i ==> self.keys()[k] != key@,
            decreases self.keys@.len() - i,
        {
            let k = &self.keys[i];
            proof {
                assert(k@.subrange(0, k@.len() as int) =~= k@);
                assert(self.keys()[i as int] == k@);
            }
            if range_eq(k.as_slice(), 0, k.len(), key) {
                proof {
                    self.lemma_index_of(i as int);
                }
                return Some(i);
            }
            i += 1;
        }
        None
    }

    /// The key at position `i`.
    pub fn key_at(&self, i: usize) -> (r: &Vec<u8>)
        requires
            self.wf(),
            i < self.keys().len(),
        ensures
            r@ == self.keys()[i as int],
    {
        &self.keys[i]
    }

    /// The value at position `i`.
    pub fn value_at(&self, i: usize) -> (r: &V)
        requires
            self.wf(),
            i < self.keys().len(),
        ensures
            *r == self.values()[i as int],
    {
        &self.vals[i]
    }

    /// Replaces the value at position `i`, keeping its key.
    pub fn set_value(&mut self, i: usize, value: V)
        requires
            old(self).wf(),
            i < old(self).keys().len(),
        ensures
            final(self).wf(),
            final(self).keys() == old(self).keys(),
            final(self).values() == old(self).values().update(i as int, value),
            final(self)@ == old(self)@.insert(old(self).keys()[i as int], value),
    {
        self.vals[i] = value;
        proof {
            assert(self.keys() =~= old(self).keys());
            self.lemma_update(*old(self), i as int, value);
        }
    }

    /// Puts `value` at position `i` and returns the value that was there.
    pub fn replace_value(&mut self, i: usize, value: V) -> (r: V)
        requires
            old(self).wf(),
            i < old(self).keys().len(),
        ensures
            final(self).wf(),
            r == old(self).values()[i as int],
            final(self).keys() == old(self).keys(),
            final(self).values() == old(self).values().update(i as int, value),
            final(self)@ == old(self)@.insert(old(self).keys()[i as int], value),
    {
        self.vals.push(value);
        let r = self.vals.swap_remove(i);
        proof {
            assert(self.values() =~= old(self).values().update(i as int, value));
            assert(self.keys() =~= old(self).keys());
            self.lemma_update(*old(self), i as int, value);
        }
        r
    }

    /// A map that differs from `before` in the value at position `i` alone
    /// is `before` with that key set to the new value.
    proof fn lemma_update(&self, before: Self, i: int, value: V)
        requires
            before.wf(),
            0 <= i < before.keys().len(),
            self.keys() == before.keys(),
            self.values() == before.values().update(i, value),
        ensures
            self.wf(),
            self@ == before@.insert(before.keys()[i], value),
    {
        before.lemma_index_of(i);
        self.lemma_index_of(i);
        assert forall|k: Seq<u8>| self.contains_key(k) == before.contains_key(k) by {
            if self.contains_key(k) {
                let j = self.index_of(k);
                assert(before.keys()[j] == k);
            }
            if before.contains_key(k) {
                let j = before.index_of(k);
                assert(self.keys()[j] == k);
            }
        }
        assert(self@ =~= before@.insert(before.keys()[i], value)) by {
            assert forall|k: Seq<u8>| self@.contains_key(k) implies self@[k] == before@.insert(
                before.keys()[i],
                value,
            )[k] by {
                let j = self.index_of(k);
                self.lemma_index_of(j);
                before.lemma_index_of(j);
            }
        }
    }

    /// Adds an entry for a key that has none.
    pub fn insert(&mut self, key: Vec<u8>, value: V)
        requires
            old(self).wf(),
            !old(self)@.contains_key(key@),
        ensures
            final(self).wf(),
            final(self).keys() == old(self).keys().push(key@),
            final(self).values() == old(self).values().push(value),
            final(self)@ == old(self)@.insert(key@, value),
    {
        let ghost k = key@;
        self.keys.push(key);
        self.vals.push(value);
        proof {
            let n = old(self).keys().len() as int;
            assert(self.keys() =~= old(self).keys().push(k));
            assert forall|i: int, j: int| 0 <= i < j < self.keys().len() implies #[trigger] self.keys()[i]
                != #[trigger] self.keys()[j] by {
                if j == n {
                    assert(old(self).keys()[i] == self.keys()[i]);
                    assert(old(self).contains_key(self.keys()[i]));
                }
            }
            assert forall|q: Seq<u8>| self.contains_key(q) == (q == k || old(self).contains_key(
                q,
            )) by {
                if self.contains_key(q) {
                    let j = self.index_of(q);
                    if j < n {
                        assert(old(self).keys()[j] == q);
                    }
                }
                if old(self).contains_key(q) {
                    let j = old(self).index_of(q);
                    assert(self.keys()[j] == q);
                }
                if q == k {
                    assert(self.keys()[n] == q);
                }
            }
            assert(self@ =~= old(self)@.insert(k, value)) by {
                assert forall|q: Seq<u8>| self@.contains_key(q) implies self@[q] == old(self)@.insert(
                    k,
                    value,
                )[q] by {
                    let j = self.index_of(q);
                    self.lemma_index_of(j);
                    if j < n {
                        old(self).lemma_index_of(j);
                    }
                }
            }
        }
    }

    /// Removes the entry at position `i` and returns its value.
    pub fn remove_at(&mut self, i: usize) -> (value: V)
        requires
            old(self).wf(),
            i < old(self).keys().len(),
        ensures
            final(self).wf(),
            value == old(self).values()[i as int],
            final(self).keys() == old(self).keys().remove(i as int),
            final(self).values() == old(self).values().remove(i as int),
            final(self)@ == old(self)@.remove(old(self).keys()[i as int]),
    {
        let _ = self.keys.remove(i);
        let value = self.vals.remove(i);
        proof {
            let gone = old(self).keys()[i as int];
            assert(self.keys() =~= old(self).keys().remove(i as int));
            assert forall|a: int, b: int| 0 <= a < b < self.keys().len() implies #[trigger] self.keys()[a]
                != #[trigger] self.keys()[b] by {
                let a0 = if a < i { a } else { a + 1 };
                let b0 = if b < i { b } else { b + 1 };
                assert(self.keys()[a] == old(self).keys()[a0]);
                assert(self.keys()[b] == old(self).keys()[b0]);
            }
            old(self).lemma_index_of(i as int);
            assert forall|q: Seq<u8>| self.contains_key(q) == (q != gone && old(self).contains_key(
                q,
            )) by {
                if self.contains_key(q) {
                    let j = self.index_of(q);
                    let j0 = if j < i { j } else { j + 1 };
                    assert(old(self).keys()[j0] == q);
                    old(self).lemma_index_of(j0);
                }
                if q != gone && old(self).contains_key(q) {
                    let j0 = old(self).index_of(q);
                    let j = if j0 < i { j0 } else { j0 - 1 };
                    assert(self.keys()[j] == q);
                }
            }
            assert(self@ =~= old(self)@.remove(gone)) by {
                assert forall|q: Seq<u8>| self@.contains_key(q) implies self@[q] == old(self)@.remove(
                    gone,
                )[q] by {
                    let j = self.index_of(q);
                    let j0 = if j < i { j } else { j + 1 };
                    self.lemma_index_of(j);
                    assert(old(self).keys()[j0] == q);
                    old(self).lemma_index_of(j0);
                }
            }
        }
        value
    }
}

} // verus!
