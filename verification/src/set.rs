//! The immutable set and its queries.

use vstd::prelude::*;

use crate::map::{PhfMap, PhfMapKeys};

verus! {

/// An immutable set of string keys: a `PhfMap` whose values are the unit.
///
/// Values are returned in an arbitrary but fixed order.
pub struct PhfSet {
    /// The underlying map.
    pub map: PhfMap<()>,
}

impl PhfSet {
    /// Well-formedness of the underlying table.
    pub open spec fn wf(self) -> bool {
        self.map.wf()
    }

    /// Whether the set holds a key reading `k`.
    pub open spec fn spec_contains(self, k: Seq<char>) -> bool {
        self.map.spec_contains(k)
    }

    /// Number of values in the set.
    pub fn len(&self) -> (r: usize)
        ensures
            r == self.map.entries@.len(),
    {
        self.map.len()
    }

    /// Whether the set holds the given value.
    pub fn contains(&self, value: &String) -> (r: bool)
        requires
            self.wf(),
        ensures
            r == self.spec_contains(value@),
    {
        self.map.contains_key(value)
    }

    /// Whether no value of `self` is a value of `other`.
    pub fn is_disjoint(&self, other: &PhfSet) -> (r: bool)
        requires
            self.wf(),
            other.wf(),
        ensures
            r == (forall|k: Seq<char>| self.spec_contains(k) ==> !other.spec_contains(k)),
    {
        let n = self.map.entries.len();
        let mut i: usize = 0;
        while i < n
            invariant
                self.wf(),
                other.wf(),
                n == self.map.entries@.len(),
                i <= n,
                forall|t: int| 0 <= t < i ==> !other.spec_contains(
                    (#[trigger] self.map.entries@[t]).0@,
                ),
            decreases n - i,
        {
            if other.contains_equiv(self.map.entries[i].0.as_str()) {
                return false;
            }
            i = i + 1;
        }
        true
    }

    /// Whether every value of `self` is a value of `other`.
    pub fn is_subset(&self, other: &PhfSet) -> (r: bool)
        requires
            self.wf(),
            other.wf(),
        ensures
            r == (forall|k: Seq<char>| self.spec_contains(k) ==> other.spec_contains(k)),
    {
        let n = self.map.entries.len();
        let mut i: usize = 0;
        while i < n
            invariant
                self.wf(),
                other.wf(),
                n == self.map.entries@.len(),
                i <= n,
                forall|t: int| 0 <= t < i ==> other.spec_contains(
                    (#[trigger] self.map.entries@[t]).0@,
                ),
            decreases n - i,
        {
            if !other.contains_equiv(self.map.entries[i].0.as_str()) {
                return false;
            }
            i = i + 1;
        }
        true
    }

    /// Returns a reference to the set's internal instance of the given key.
    ///
    /// This can be useful for interning schemes.
    pub fn find_key(&self, key: &String) -> (r: Option<&String>)
        requires
            self.wf(),
        ensures
            match r {
                Some(s) => self.spec_contains(key@) && *s == self.map.entries@[self.map.index_of(
                    key@,
                )].0 && s@ == key@,
                None => !self.spec_contains(key@),
            },
    {
        self.map.find_key(key)
    }

    /// Like `contains`, but can operate on any string slice that reads the
    /// same characters as a value.
    pub fn contains_equiv(&self, key: &str) -> (r: bool)
        requires
            self.wf(),
        ensures
            r == self.spec_contains(key@),
    {
        self.map.find_equiv(key).is_some()
    }

    /// Like `find_key`, but can operate on any string slice that reads the
    /// same characters as a value.
    pub fn find_key_equiv(&self, key: &str) -> (r: Option<&String>)
        requires
            self.wf(),
        ensures
            match r {
                Some(s) => self.spec_contains(key@) && *s == self.map.entries@[self.map.index_of(
                    key@,
                )].0 && s@ == key@,
                None => !self.spec_contains(key@),
            },
    {
        self.map.find_key_equiv(key)
    }

    /// Returns an iterator over the values in the set.
    ///
    /// Values are returned in an arbitrary but fixed order.
    pub fn iter<'a>(&'a self) -> (it: PhfSetValues<'a>)
        ensures
            it.iter.iter.wf(),
            it.iter.iter.entries@ == self.map.entries@,
            it.iter.iter.pos == 0,
            it.iter.iter.end == self.map.entries@.len(),
    {
        PhfSetValues { iter: self.map.keys() }
    }
}

/// An iterator over the values in a `PhfSet`.
pub struct PhfSetValues<'a> {
    /// The underlying key iterator.
    pub iter: PhfMapKeys<'a, ()>,
}

impl<'a> PhfSetValues<'a> {
    /// Returns the next value from the front.
    pub fn next(&mut self) -> (r: Option<&'a String>)
        requires
            old(self).iter.iter.wf(),
        ensures
            final(self).iter.iter.wf(),
            final(self).iter.iter.entries == old(self).iter.iter.entries,
            final(self).iter.iter.end == old(self).iter.iter.end,
            match r {
                Some(k) => old(self).iter.iter.pos < old(self).iter.iter.end && *k == old(self).iter.iter.entries@[old(self).iter.iter.pos as int].0 && final(self).iter.iter.pos == old(self).iter.iter.pos + 1,
                None => old(self).iter.iter.pos == old(self).iter.iter.end && *final(self) == *old(self),
            },
    {
        self.iter.next()
    }

    /// Returns the next value from the back.
    pub fn next_back(&mut self) -> (r: Option<&'a String>)
        requires
            old(self).iter.iter.wf(),
        ensures
            final(self).iter.iter.wf(),
            final(self).iter.iter.entries == old(self).iter.iter.entries,
            final(self).iter.iter.pos == old(self).iter.iter.pos,
            match r {
                Some(k) => old(self).iter.iter.pos < old(self).iter.iter.end && *k == old(self).iter.iter.entries@[old(self).iter.iter.end - 1].0 && final(self).iter.iter.end
                    == old(self).iter.iter.end - 1,
                None => old(self).iter.iter.pos == old(self).iter.iter.end && *final(self) == *old(self),
            },
    {
        self.iter.next_back()
    }

    /// Exact count of the values still to be returned.
    pub fn size_hint(&self) -> (r: (usize, Option<usize>))
        requires
            self.iter.iter.wf(),
        ensures
            r.0 == self.iter.iter.remaining().len(),
            r.1 == Some(self.iter.iter.remaining().len() as usize),
    {
        self.iter.size_hint()
    }
}

} // verus!
