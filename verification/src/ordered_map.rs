//! The order-preserving immutable map and its read path.

use vstd::prelude::*;

use crate::error::PhfError;
use crate::hashing::{slot_for, spec_slot};
use crate::keys::str_eq;

verus! {

/// An order-preserving immutable map from string keys to values.
///
/// Unlike a `PhfMap`, the entries of a `PhfOrderedMap` keep the order in
/// which they were defined; a second array `idxs` maps each computed slot to
/// the position of its entry.  The fields are public so that a table built
/// elsewhere can be embedded as constant data; they must never be mutated,
/// and lookups assume `wf()`.
pub struct PhfOrderedMap<V> {
    /// The seed of the keyed hash function.
    pub key: u64,
    /// One displacement pair per bucket.
    pub disps: Vec<(u32, u32)>,
    /// For each slot, the position in `entries` of the entry that computes it.
    pub idxs: Vec<usize>,
    /// The entries, in definition order.
    pub entries: Vec<(String, V)>,
}

impl<V> PhfOrderedMap<V> {
    /// The slot lookup computes for the key `k`.
    pub open spec fn slot_of(self, k: Seq<char>) -> int {
        spec_slot(self.key, self.disps@, self.idxs@.len() as int, k)
    }

    /// The defining property of the table: the slot computed by each entry's
    /// own key points back, through `idxs`, at exactly that entry.
    pub open spec fn wf(self) -> bool {
        &&& self.idxs@.len() == self.entries@.len()
        &&& self.entries@.len() > 0 ==> self.disps@.len() > 0
        &&& forall|s: int| 0 <= s < self.idxs@.len() ==> #[trigger] self.idxs@[s] < self.entries@.len()
        &&& forall|i: int|
            0 <= i < self.entries@.len() ==> self.idxs@[self.slot_of(
                (#[trigger] self.entries@[i]).0@,
            )] == i
    }

    /// Whether some entry's key reads `k`.
    pub open spec fn spec_contains(self, k: Seq<char>) -> bool {
        exists|i: int|
            0 <= i < self.entries@.len() && (#[trigger] self.entries@[i]).0@ == k
    }

    /// The position of the entry whose key reads `k`.
    pub open spec fn index_of(self, k: Seq<char>) -> int {
        choose|i: int|
            0 <= i < self.entries@.len() && (#[trigger] self.entries@[i]).0@ == k
    }

    /// The value stored under `k`, if any.
    pub open spec fn spec_get(self, k: Seq<char>) -> Option<V> {
        if self.spec_contains(k) {
            Some(self.entries@[self.index_of(k)].1)
        } else {
            None
        }
    }

    /// In a well-formed map the stored keys are pairwise distinct.
    pub proof fn lemma_keys_distinct(self)
        requires
            self.wf(),
        ensures
            forall|i: int, j: int|
                0 <= i < self.entries@.len() && 0 <= j < self.entries@.len() && i != j
                    ==> (#[trigger] self.entries@[i]).0@ != (#[trigger] self.entries@[j]).0@,
    {
        assert forall|i: int, j: int|
            0 <= i < self.entries@.len() && 0 <= j < self.entries@.len() && i != j implies (
        #[trigger] self.entries@[i]).0@ != (#[trigger] self.entries@[j]).0@ by {
            if self.entries@[i].0@ == self.entries@[j].0@ {
                assert(self.idxs@[self.slot_of(self.entries@[i].0@)] == i);
                assert(self.idxs@[self.slot_of(self.entries@[j].0@)] == j);
            }
        }
    }

    /// Number of entries in the map.
    pub fn len(&self) -> (r: usize)
        ensures
            r == self.entries@.len(),
    {
        self.entries.len()
    }

    /// The one probe of the read path: hashes `key`, resolves its slot
    /// through `idxs` and compares the key stored there.  Returns the
    /// position of the matching entry, or `None` exactly when no entry's key
    /// reads `key`.
    fn find_entry(&self, key: &str) -> (r: Option<usize>)
        requires
            self.wf(),
        ensures
            match r {
                Some(i) => i < self.entries@.len() && self.entries@[i as int].0@ == key@
                    && self.spec_contains(key@),
                None => !self.spec_contains(key@),
            },
    {
        if self.entries.len() == 0 {
            return None;
        }
        let slot = slot_for(self.key, &self.disps, self.idxs.len(), key);
        let idx = self.idxs[slot];
        let e = &self.entries[idx];
        if str_eq(e.0.as_str(), key) {
            Some(idx)
        } else {
            proof {
                if self.spec_contains(key@) {
                    let i = self.index_of(key@);
                    assert(self.idxs@[self.slot_of(self.entries@[i].0@)] == i);
                    assert(self.idxs@[self.slot_of(key@)] == i);
                }
            }
            None
        }
    }

    /// Returns a reference to the value stored under the given key, or `None`
    /// exactly when the key is absent.
    pub fn find(&self, key: &String) -> (r: Option<&V>)
        requires
            self.wf(),
        ensures
            match r {
                Some(v) => self.spec_get(key@) == Some(*v),
                None => !self.spec_contains(key@),
            },
    {
        self.find_equiv(key.as_str())
    }

    /// Whether the map holds the given key.
    pub fn contains_key(&self, key: &String) -> (r: bool)
        requires
            self.wf(),
        ensures
            r == self.spec_contains(key@),
    {
        self.find_entry(key.as_str()).is_some()
    }

    /// Returns a reference to the map's internal instance of the given key.
    ///
    /// This can be useful for interning schemes.
    pub fn find_key(&self, key: &String) -> (r: Option<&String>)
        requires
            self.wf(),
        ensures
            match r {
                Some(s) => self.spec_contains(key@) && *s == self.entries@[self.index_of(
                    key@,
                )].0 && s@ == key@,
                None => !self.spec_contains(key@),
            },
    {
        self.find_key_equiv(key.as_str())
    }

    /// Like `find`, but can operate on any string slice that reads the same
    /// characters as a key.
    pub fn find_equiv(&self, key: &str) -> (r: Option<&V>)
        requires
            self.wf(),
        ensures
            match r {
                Some(v) => self.spec_get(key@) == Some(*v),
                None => !self.spec_contains(key@),
            },
    {
        match self.find_entry(key) {
            Some(i) => {
                proof {
                    self.lemma_keys_distinct();
                }
                Some(&self.entries[i].1)
            },
            None => None,
        }
    }

    /// Like `find_key`, but can operate on any string slice that reads the
    /// same characters as a key.
    pub fn find_key_equiv(&self, key: &str) -> (r: Option<&String>)
        requires
            self.wf(),
        ensures
            match r {
                Some(s) => self.spec_contains(key@) && *s == self.entries@[self.index_of(
                    key@,
                )].0 && s@ == key@,
                None => !self.spec_contains(key@),
            },
    {
        match self.find_entry(key) {
            Some(i) => {
                proof {
                    self.lemma_keys_distinct();
                }
                Some(&self.entries[i].0)
            },
            None => None,
        }
    }

    /// Indexed-subscript access: the value stored under `key`, or
    /// `PhfError::InvalidKey` exactly when the key is absent.
    pub fn index(&self, key: &String) -> (r: Result<&V, PhfError>)
        requires
            self.wf(),
        ensures
            match r {
                Ok(v) => self.spec_get(key@) == Some(*v),
                Err(e) => e == PhfError::InvalidKey && !self.spec_contains(key@),
            },
    {
        match self.find(key) {
            Some(v) => Ok(v),
            None => Err(PhfError::InvalidKey),
        }
    }

    /// Returns an iterator over the key/value pairs in the map.
    ///
    /// Entries are returned in the same order in which they were defined.
    pub fn entries<'a>(&'a self) -> (it: PhfOrderedMapEntries<'a, V>)
        ensures
            it.wf(),
            it.entries@ == self.entries@,
            it.pos == 0,
            it.end == self.entries@.len(),
    {
        PhfOrderedMapEntries {
            entries: self.entries.as_slice(),
            pos: 0,
            end: self.entries.len(),
        }
    }

    /// Returns an iterator over the keys in the map.
    ///
    /// Keys are returned in the same order in which they were defined.
    pub fn keys<'a>(&'a self) -> (it: PhfOrderedMapKeys<'a, V>)
        ensures
            it.iter.wf(),
            it.iter.entries@ == self.entries@,
            it.iter.pos == 0,
            it.iter.end == self.entries@.len(),
    {
        PhfOrderedMapKeys { iter: self.entries() }
    }

    /// Returns an iterator over the values in the map.
    ///
    /// Values are returned in the same order in which they were defined.
    pub fn values<'a>(&'a self) -> (it: PhfOrderedMapValues<'a, V>)
        ensures
            it.iter.wf(),
            it.iter.entries@ == self.entries@,
            it.iter.pos == 0,
            it.iter.end == self.entries@.len(),
    {
        PhfOrderedMapValues { iter: self.entries() }
    }
}

/// An iterator over the entries in a `PhfOrderedMap`: a cursor pair over the
/// entry array, walked with `next` and `next_back`, with constant-time random
/// access through `idx`.
pub struct PhfOrderedMapEntries<'a, V> {
    /// The entry array being walked, in definition order.
    pub entries: &'a [(String, V)],
    /// Position of the next entry at the front.
    pub pos: usize,
    /// One past the next entry at the back.
    pub end: usize,
}

impl<'a, V> PhfOrderedMapEntries<'a, V> {
    /// The cursors sit inside the array.
    pub open spec fn wf(self) -> bool {
        self.pos <= self.end <= self.entries@.len()
    }

    /// The entries not yet returned.
    pub open spec fn remaining(self) -> Seq<(String, V)> {
        self.entries@.subrange(self.pos as int, self.end as int)
    }

    /// Returns the next entry from the front, or `None` when the iterator is
    /// exhausted.
    pub fn next(&mut self) -> (r: Option<&'a (String, V)>)
        requires
            old(self).wf(),
        ensures
            final(self).wf(),
            final(self).entries == old(self).entries,
            final(self).end == old(self).end,
            match r {
                Some(e) => old(self).pos < old(self).end && *e == old(self).entries@[old(self).pos as int] && final(self).pos == old(self).pos + 1,
                None => old(self).pos == old(self).end && *final(self) == *old(self),
            },
    {
        if self.pos < self.end {
            let e = &self.entries[self.pos];
            self.pos = self.pos + 1;
            Some(e)
        } else {
            None
        }
    }

    /// Returns the next entry from the back, or `None` when the iterator is
    /// exhausted.
    pub fn next_back(&mut self) -> (r: Option<&'a (String, V)>)
        requires
            old(self).wf(),
        ensures
            final(self).wf(),
            final(self).entries == old(self).entries,
            final(self).pos == old(self).pos,
            match r {
                Some(e) => old(self).pos < old(self).end && *e == old(self).entries@[old(self).end - 1] && final(self).end == old(self).end - 1,
                None => old(self).pos == old(self).end && *final(self) == *old(self),
            },
    {
        if self.pos < self.end {
            self.end = self.end - 1;
            Some(&self.entries[self.end])
        } else {
            None
        }
    }

    /// Exact count of the entries still to be returned.
    pub fn size_hint(&self) -> (r: (usize, Option<usize>))
        requires
            self.wf(),
        ensures
            r.0 == self.remaining().len(),
            r.1 == Some(self.remaining().len() as usize),
    {
        (self.end - self.pos, Some(self.end - self.pos))
    }

    /// Number of entries reachable through `idx`.
    pub fn indexable(&self) -> (r: usize)
        requires
            self.wf(),
        ensures
            r == self.remaining().len(),
    {
        self.end - self.pos
    }

    /// Constant-time random access: the entry `index` places after the front
    /// cursor, or `None` when out of range.
    pub fn idx(&self, index: usize) -> (r: Option<&'a (String, V)>)
        requires
            self.wf(),
        ensures
            match r {
                Some(e) => index < self.remaining().len() && *e == self.remaining()[index as int],
                None => index >= self.remaining().len(),
            },
    {
        if index < self.end - self.pos {
            Some(&self.entries[self.pos + index])
        } else {
            None
        }
    }
}

/// An iterator over the keys in a `PhfOrderedMap`.
pub struct PhfOrderedMapKeys<'a, V> {
    /// The underlying entry iterator.
    pub iter: PhfOrderedMapEntries<'a, V>,
}

impl<'a, V> PhfOrderedMapKeys<'a, V> {
    /// Returns the next key from the front.
    pub fn next(&mut self) -> (r: Option<&'a String>)
        requires
            old(self).iter.wf(),
        ensures
            final(self).iter.wf(),
            final(self).iter.entries == old(self).iter.entries,
            final(self).iter.end == old(self).iter.end,
            match r {
                Some(k) => old(self).iter.pos < old(self).iter.end && *k == old(self).iter.entries@[old(self).iter.pos as int].0 && final(self).iter.pos == old(self).iter.pos + 1,
                None => old(self).iter.pos == old(self).iter.end && *final(self) == *old(self),
            },
    {
        match self.iter.next() {
            Some(e) => Some(&e.0),
            None => None,
        }
    }

    /// Returns the next key from the back.
    pub fn next_back(&mut self) -> (r: Option<&'a String>)
        requires
            old(self).iter.wf(),
        ensures
            final(self).iter.wf(),
            final(self).iter.entries == old(self).iter.entries,
            final(self).iter.pos == old(self).iter.pos,
            match r {
                Some(k) => old(self).iter.pos < old(self).iter.end && *k == old(self).iter.entries@[old(self).iter.end - 1].0 && final(self).iter.end == old(self).iter.end - 1,
                None => old(self).iter.pos == old(self).iter.end && *final(self) == *old(self),
            },
    {
        match self.iter.next_back() {
            Some(e) => Some(&e.0),
            None => None,
        }
    }

    /// Exact count of the keys still to be returned.
    pub fn size_hint(&self) -> (r: (usize, Option<usize>))
        requires
            self.iter.wf(),
        ensures
            r.0 == self.iter.remaining().len(),
            r.1 == Some(self.iter.remaining().len() as usize),
    {
        self.iter.size_hint()
    }

    /// Number of keys reachable through `idx`.
    pub fn indexable(&self) -> (r: usize)
        requires
            self.iter.wf(),
        ensures
            r == self.iter.remaining().len(),
    {
        self.iter.indexable()
    }

    /// Constant-time random access: the key `index` places after the front
    /// cursor, or `None` when out of range.
    pub fn idx(&self, index: usize) -> (r: Option<&'a String>)
        requires
            self.iter.wf(),
        ensures
            match r {
                Some(k) => index < self.iter.remaining().len() && *k == self.iter.remaining()[
                    index as int
                ].0,
                None => index >= self.iter.remaining().len(),
            },
    {
        match self.iter.idx(index) {
            Some(e) => Some(&e.0),
            None => None,
        }
    }
}

/// An iterator over the values in a `PhfOrderedMap`.
pub struct PhfOrderedMapValues<'a, V> {
    /// The underlying entry iterator.
    pub iter: PhfOrderedMapEntries<'a, V>,
}

impl<'a, V> PhfOrderedMapValues<'a, V> {
    /// Returns the next value from the front.
    pub fn next(&mut self) -> (r: Option<&'a V>)
        requires
            old(self).iter.wf(),
        ensures
            final(self).iter.wf(),
            final(self).iter.entries == old(self).iter.entries,
            final(self).iter.end == old(self).iter.end,
            match r {
                Some(v) => old(self).iter.pos < old(self).iter.end && *v == old(self).iter.entries@[old(self).iter.pos as int].1 && final(self).iter.pos == old(self).iter.pos + 1,
                None => old(self).iter.pos == old(self).iter.end && *final(self) == *old(self),
            },
    {
        match self.iter.next() {
            Some(e) => Some(&e.1),
            None => None,
        }
    }

    /// Returns the next value from the back.
    pub fn next_back(&mut self) -> (r: Option<&'a V>)
        requires
            old(self).iter.wf(),
        ensures
            final(self).iter.wf(),
            final(self).iter.entries == old(self).iter.entries,
            final(self).iter.pos == old(self).iter.pos,
            match r {
                Some(v) => old(self).iter.pos < old(self).iter.end && *v == old(self).iter.entries@[old(self).iter.end - 1].1 && final(self).iter.end == old(self).iter.end - 1,
                None => old(self).iter.pos == old(self).iter.end && *final(self) == *old(self),
            },
    {
        match self.iter.next_back() {
            Some(e) => Some(&e.1),
            None => None,
        }
    }

    /// Exact count of the values still to be returned.
    pub fn size_hint(&self) -> (r: (usize, Option<usize>))
        requires
            self.iter.wf(),
        ensures
            r.0 == self.iter.remaining().len(),
            r.1 == Some(self.iter.remaining().len() as usize),
    {
        self.iter.size_hint()
    }

    /// Number of values reachable through `idx`.
    pub fn indexable(&self) -> (r: usize)
        requires
            self.iter.wf(),
        ensures
            r == self.iter.remaining().len(),
    {
        self.iter.indexable()
    }

    /// Constant-time random access: the value `index` places after the front
    /// cursor, or `None` when out of range.
    pub fn idx(&self, index: usize) -> (r: Option<&'a V>)
        requires
            self.iter.wf(),
        ensures
            match r {
                Some(v) => index < self.iter.remaining().len() && *v == self.iter.remaining()[
                    index as int
                ].1,
                None => index >= self.iter.remaining().len(),
            },
    {
        match self.iter.idx(index) {
            Some(e) => Some(&e.1),
            None => None,
        }
    }
}

} // verus!
