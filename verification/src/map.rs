//! The immutable map and its read path.

use vstd::prelude::*;

use crate::error::PhfError;
use crate::hashing::{slot_for, spec_slot};
use crate::keys::str_eq;

verus! {

/// An immutable map from string keys to values, read through a minimal
/// perfect hash function.
///
/// A well-formed map (see [`PhfMap::wf`]) stores every entry at exactly the
/// slot its key hashes to, so a query is one hash, one displacement and one
/// key comparison.  Entries sit in an arbitrary but fixed order.  The fields
/// are public so that a table built elsewhere can be embedded as constant
/// data; they must never be mutated, and lookups assume `wf()`.
pub struct PhfMap<V> {
    /// The seed of the keyed hash function.
    pub key: u64,
    /// One displacement pair per bucket.
    pub disps: Vec<(u32, u32)>,
    /// The entries, each stored at the slot its key computes.
    pub entries: Vec<(String, V)>,
}

impl<V> PhfMap<V> {
    /// The slot lookup computes for the key `k`.
    pub open spec fn slot_of(self, k: Seq<char>) -> int {
        spec_slot(self.key, self.disps@, self.entries@.len() as int, k)
    }

    /// The defining property of the table: every entry sits at exactly the
    /// slot its own key computes.  It makes the computed slots of the stored
    /// keys pairwise distinct, and it is what the read path relies on.
    pub open spec fn wf(self) -> bool {
        &&& self.entries@.len() > 0 ==> self.disps@.len() > 0
        &&& forall|i: int|
            0 <= i < self.entries@.len() ==> self.slot_of(
                (#[trigger] self.entries@[i]).0@,
            ) == i
    }

    /// Whether some entry's key reads `k`.
    pub open spec fn spec_contains(self, k: Seq<char>) -> bool {
        exists|i: int|
            0 <= i < self.entries@.len() && (#[trigger] self.entries@[i]).0@ == k
    }

    /// The position of the entry whose key reads `k`.
    pub open spec fn index_of(self, k: Seq<char>) -> int {
        choose|i: int|
            0 <= i < self.entries@.len() && (#[trigger] self.entries@[i]).0@ == k
    }

    /// The value stored under `k`, if any.
    pub open spec fn spec_get(self, k: Seq<char>) -> Option<V> {
        if self.spec_contains(k) {
            Some(self.entries@[self.index_of(k)].1)
        } else {
            None
        }
    }

    /// In a well-formed map the stored keys are pairwise distinct.
    pub proof fn lemma_keys_distinct(self)
        requires
            self.wf(),
        ensures
            forall|i: int, j: int|
                0 <= i < self.entries@.len() && 0 <= j < self.entries@.len() && i != j
                    ==> (#[trigger] self.entries@[i]).0@ != (#[trigger] self.entries@[j]).0@,
    {
        assert forall|i: int, j: int|
            0 <= i < self.entries@.len() && 0 <= j < self.entries@.len() && i != j implies (
        #[trigger] self.entries@[i]).0@ != (#[trigger] self.entries@[j]).0@ by {
            if self.entries@[i].0@ == self.entries@[j].0@ {
                assert(self.slot_of(self.entries@[i].0@) == i);
                assert(self.slot_of(self.entries@[j].0@) == j);
            }
        }
    }

    /// Number of entries in the map.
    pub fn len(&self) -> (r: usize)
        ensures
            r == self.entries@.len(),
    {
        self.entries.len()
    }

    /// The one probe of the read path: hashes `key`, resolves its slot and
    /// compares the key stored there.  Returns the position of the matching
    /// entry, or `None` exactly when no entry's key reads `key`.
    fn get_entry(&self, key: &str) -> (r: Option<usize>)
        requires
            self.wf(),
        ensures
            match r {
                Some(i) => i < self.entries@.len() && self.entries@[i as int].0@ == key@
                    && self.spec_contains(key@),
                None => !self.spec_contains(key@),
            },
    {
        if self.entries.len() == 0 {
            return None;
        }
        let slot = slot_for(self.key, &self.disps, self.entries.len(), key);
        let e = &self.entries[slot];
        if str_eq(e.0.as_str(), key) {
            Some(slot)
        } else {
            proof {
                if self.spec_contains(key@) {
                    let i = self.index_of(key@);
                    assert(self.slot_of(self.entries@[i].0@) == i);
                    assert(self.slot_of(key@) == i);
                }
            }
            None
        }
    }

    /// Returns a reference to the value stored under the given key, or `None`
    /// exactly when the key is absent.
    pub fn find(&self, key: &String) -> (r: Option<&V>)
        requires
            self.wf(),
        ensures
            match r {
                Some(v) => self.spec_get(key@) == Some(*v),
                None => !self.spec_contains(key@),
            },
    {
        self.find_equiv(key.as_str())
    }

    /// Whether the map holds the given key.
    pub fn contains_key(&self, key: &String) -> (r: bool)
        requires
            self.wf(),
        ensures
            r == self.spec_contains(key@),
    {
        self.get_entry(key.as_str()).is_some()
    }

    /// Returns a reference to the map's internal instance of the given key.
    ///
    /// This can be useful for interning schemes.
    pub fn find_key(&self, key: &String) -> (r: Option<&String>)
        requires
            self.wf(),
        ensures
            match r {
                Some(s) => self.spec_contains(key@) && *s == self.entries@[self.index_of(
                    key@,
                )].0 && s@ == key@,
                None => !self.spec_contains(key@),
            },
    {
        self.find_key_equiv(key.as_str())
    }

    /// Like `find`, but can operate on any string slice that reads the same
    /// characters as a key.
    pub fn find_equiv(&self, key: &str) -> (r: Option<&V>)
        requires
            self.wf(),
        ensures
            match r {
                Some(v) => self.spec_get(key@) == Some(*v),
                None => !self.spec_contains(key@),
            },
    {
        match self.get_entry(key) {
            Some(i) => {
                proof {
                    self.lemma_keys_distinct();
                }
                Some(&self.entries[i].1)
            },
            None => None,
        }
    }

    /// Like `find_key`, but can operate on any string slice that reads the
    /// same characters as a key.
    pub fn find_key_equiv(&self, key: &str) -> (r: Option<&String>)
        requires
            self.wf(),
        ensures
            match r {
                Some(s) => self.spec_contains(key@) && *s == self.entries@[self.index_of(
                    key@,
                )].0 && s@ == key@,
                None => !self.spec_contains(key@),
            },
    {
        match self.get_entry(key) {
            Some(i) => {
                proof {
                    self.lemma_keys_distinct();
                }
                Some(&self.entries[i].0)
            },
            None => None,
        }
    }

    /// Indexed-subscript access: the value stored under `key`, or
    /// `PhfError::InvalidKey` exactly when the key is absent.
    pub fn index(&self, key: &String) -> (r: Result<&V, PhfError>)
        requires
            self.wf(),
        ensures
            match r {
                Ok(v) => self.spec_get(key@) == Some(*v),
                Err(e) => e == PhfError::InvalidKey && !self.spec_contains(key@),
            },
    {
        match self.find(key) {
            Some(v) => Ok(v),
            None => Err(PhfError::InvalidKey),
        }
    }

    /// Returns an iterator over the key/value pairs in the map.
    ///
    /// Entries are returned in an arbitrary but fixed order.
    pub fn entries<'a>(&'a self) -> (it: PhfMapEntries<'a, V>)
        ensures
            it.wf(),
            it.entries@ == self.entries@,
            it.pos == 0,
            it.end == self.entries@.len(),
    {
        PhfMapEntries { entries: self.entries.as_slice(), pos: 0, end: self.entries.len() }
    }

    /// Returns an iterator over the keys in the map.
    ///
    /// Keys are returned in an arbitrary but fixed order.
    pub fn keys<'a>(&'a self) -> (it: PhfMapKeys<'a, V>)
        ensures
            it.iter.wf(),
            it.iter.entries@ == self.entries@,
            it.iter.pos == 0,
            it.iter.end == self.entries@.len(),
    {
        PhfMapKeys { iter: self.entries() }
    }

    /// Returns an iterator over the values in the map.
    ///
    /// Values are returned in an arbitrary but fixed order.
    pub fn values<'a>(&'a self) -> (it: PhfMapValues<'a, V>)
        ensures
            it.iter.wf(),
            it.iter.entries@ == self.entries@,
            it.iter.pos == 0,
            it.iter.end == self.entries@.len(),
    {
        PhfMapValues { iter: self.entries() }
    }
}

/// An iterator over the key/value pairs in a `PhfMap`: a cursor pair over the
/// entry array, walked with `next` and `next_back`.
pub struct PhfMapEntries<'a, V> {
    /// The entry array being walked.
    pub entries: &'a [(String, V)],
    /// Position of the next entry at the front.
    pub pos: usize,
    /// One past the next entry at the back.
    pub end: usize,
}

impl<'a, V> PhfMapEntries<'a, V> {
    /// The cursors sit inside the array.
    pub open spec fn wf(self) -> bool {
        self.pos <= self.end <= self.entries@.len()
    }

    /// The entries not yet returned.
    pub open spec fn remaining(self) -> Seq<(String, V)> {
        self.entries@.subrange(self.pos as int, self.end as int)
    }

    /// Returns the next entry from the front, or `None` when the iterator is
    /// exhausted.
    pub fn next(&mut self) -> (r: Option<&'a (String, V)>)
        requires
            old(self).wf(),
        ensures
            final(self).wf(),
            final(self).entries == old(self).entries,
            final(self).end == old(self).end,
            match r {
                Some(e) => old(self).pos < old(self).end && *e == old(self).entries@[old(self).pos as int] && final(self).pos == old(self).pos + 1,
                None => old(self).pos == old(self).end && *final(self) == *old(self),
            },
    {
        if self.pos < self.end {
            let e = &self.entries[self.pos];
            self.pos = self.pos + 1;
            Some(e)
        } else {
            None
        }
    }

    /// Returns the next entry from the back, or `None` when the iterator is
    /// exhausted.
    pub fn next_back(&mut self) -> (r: Option<&'a (String, V)>)
        requires
            old(self).wf(),
        ensures
            final(self).wf(),
            final(self).entries == old(self).entries,
            final(self).pos == old(self).pos,
            match r {
                Some(e) => old(self).pos < old(self).end && *e == old(self).entries@[old(self).end - 1] && final(self).end == old(self).end - 1,
                None => old(self).pos == old(self).end && *final(self) == *old(self),
            },
    {
        if self.pos < self.end {
            self.end = self.end - 1;
            Some(&self.entries[self.end])
        } else {
            None
        }
    }

    /// Exact count of the entries still to be returned.
    pub fn size_hint(&self) -> (r: (usize, Option<usize>))
        requires
            self.wf(),
        ensures
            r.0 == self.remaining().len(),
            r.1 == Some(self.remaining().len() as usize),
    {
        (self.end - self.pos, Some(self.end - self.pos))
    }
}

/// An iterator over the keys in a `PhfMap`.
pub struct PhfMapKeys<'a, V> {
    /// The underlying entry iterator.
    pub iter: PhfMapEntries<'a, V>,
}

impl<'a, V> PhfMapKeys<'a, V> {
    /// Returns the next key from the front.
    pub fn next(&mut self) -> (r: Option<&'a String>)
        requires
            old(self).iter.wf(),
        ensures
            final(self).iter.wf(),
            final(self).iter.entries == old(self).iter.entries,
            final(self).iter.end == old(self).iter.end,
            match r {
                Some(k) => old(self).iter.pos < old(self).iter.end && *k == old(self).iter.entries@[old(self).iter.pos as int].0 && final(self).iter.pos == old(self).iter.pos + 1,
                None => old(self).iter.pos == old(self).iter.end && *final(self) == *old(self),
            },
    {
        match self.iter.next() {
            Some(e) => Some(&e.0),
            None => None,
        }
    }

    /// Returns the next key from the back.
    pub fn next_back(&mut self) -> (r: Option<&'a String>)
        requires
            old(self).iter.wf(),
        ensures
            final(self).iter.wf(),
            final(self).iter.entries == old(self).iter.entries,
            final(self).iter.pos == old(self).iter.pos,
            match r {
                Some(k) => old(self).iter.pos < old(self).iter.end && *k == old(self).iter.entries@[old(self).iter.end - 1].0 && final(self).iter.end == old(self).iter.end - 1,
                None => old(self).iter.pos == old(self).iter.end && *final(self) == *old(self),
            },
    {
        match self.iter.next_back() {
            Some(e) => Some(&e.0),
            None => None,
        }
    }

    /// Exact count of the keys still to be returned.
    pub fn size_hint(&self) -> (r: (usize, Option<usize>))
        requires
            self.iter.wf(),
        ensures
            r.0 == self.iter.remaining().len(),
            r.1 == Some(self.iter.remaining().len() as usize),
    {
        self.iter.size_hint()
    }
}

/// An iterator over the values in a `PhfMap`.
pub struct PhfMapValues<'a, V> {
    /// The underlying entry iterator.
    pub iter: PhfMapEntries<'a, V>,
}

impl<'a, V> PhfMapValues<'a, V> {
    /// Returns the next value from the front.
    pub fn next(&mut self) -> (r: Option<&'a V>)
        requires
            old(self).iter.wf(),
        ensures
            final(self).iter.wf(),
            final(self).iter.entries == old(self).iter.entries,
            final(self).iter.end == old(self).iter.end,
            match r {
                Some(v) => old(self).iter.pos < old(self).iter.end && *v == old(self).iter.entries@[old(self).iter.pos as int].1 && final(self).iter.pos == old(self).iter.pos + 1,
                None => old(self).iter.pos == old(self).iter.end && *final(self) == *old(self),
            },
    {
        match self.iter.next() {
            Some(e) => Some(&e.1),
            None => None,
        }
    }

    /// Returns the next value from the back.
    pub fn next_back(&mut self) -> (r: Option<&'a V>)
        requires
            old(self).iter.wf(),
        ensures
            final(self).iter.wf(),
            final(self).iter.entries == old(self).iter.entries,
            final(self).iter.pos == old(self).iter.pos,
            match r {
                Some(v) => old(self).iter.pos < old(self).iter.end && *v == old(self).iter.entries@[old(self).iter.end - 1].1 && final(self).iter.end == old(self).iter.end - 1,
                None => old(self).iter.pos == old(self).iter.end && *final(self) == *old(self),
            },
    {
        match self.iter.next_back() {
            Some(e) => Some(&e.1),
            None => None,
        }
    }

    /// Exact count of the values still to be returned.
    pub fn size_hint(&self) -> (r: (usize, Option<usize>))
        requires
            self.iter.wf(),
        ensures
            r.0 == self.iter.remaining().len(),
            r.1 == Some(self.iter.remaining().len() as usize),
    {
        self.iter.size_hint()
    }
}

} // verus!
