//! Bounded caches over byte-string and integer keys. A full cache drops its
//! oldest entry, in insertion order, to make room for a new key.

use vstd::prelude::*;

use crate::assoc::{ByteKeyMap, U64KeyMap};

verus! {

/// A bounded map from byte strings to values.
pub struct SizedByteCache<V> {
    capacity: usize,
    entries: ByteKeyMap<V>,
}

impl<V> SizedByteCache<V> {
    /// Most entries the cache holds.
    pub closed spec fn spec_capacity(self) -> usize {
        self.capacity
    }

    /// The map held.
    pub closed spec fn view(self) -> Map<Seq<u8>, V> {
        self.entries@
    }

    /// The keys, oldest insertion first.
    pub closed spec fn entries_view(self) -> Seq<(Vec<u8>, V)> {
        self.entries.entries_view()
    }

    /// Number of entries.
    pub open spec fn spec_len(self) -> int {
        self.entries_view().len() as int
    }

    /// Entry keys are distinct and the capacity is respected.
    pub closed spec fn wf(self) -> bool {
        &&& self.entries.wf()
        &&& self.capacity >= 1
        &&& self.entries.spec_len() <= self.capacity
    }

    /// Every entry is present in the map with its value.
    pub proof fn lemma_cache_entry_in_view(self, i: int)
        requires
            self.wf(),
            0 <= i < self.entries_view().len(),
        ensures
            self@.contains_key(self.entries_view()[i].0@),
            self@[self.entries_view()[i].0@] == self.entries_view()[i].1,
    {
        self.entries.lemma_entry_in_view(i);
    }

    /// An empty cache with the given capacity.
    pub fn with_size(capacity: usize) -> (r: SizedByteCache<V>)
        requires
            capacity >= 1,
        ensures
            r.wf(),
            r@ == Map::<Seq<u8>, V>::empty(),
            r.spec_capacity() == capacity,
            r.spec_len() == 0,
    {
        SizedByteCache { capacity, entries: ByteKeyMap::new() }
    }

    /// The value under this key, if any.
    pub fn get(&self, k: &Vec<u8>) -> (r: Option<&V>)
        requires
            self.wf(),
        ensures
            match r {
                Some(v) => self@.contains_key(k@) && *v == self@[k@],
                None => !self@.contains_key(k@),
            },
    {
        self.entries.get(k)
    }

    /// Number of entries.
    pub fn len(&self) -> (r: usize)
        ensures
            r == self.spec_len(),
    {
        self.entries.len()
    }

    /// The entry at a position, oldest insertion first.
    pub fn entry_at(&self, i: usize) -> (r: &(Vec<u8>, V))
        requires
            i < self.entries_view().len(),
        ensures
            *r == self.entries_view()[i as int],
    {
        self.entries.entry_at(i)
    }

    /// Drop the binding for this key and hand its value back.
    pub fn remove(&mut self, k: &Vec<u8>) -> (r: Option<V>)
        requires
            old(self).wf(),
        ensures
            final(self).wf(),
            final(self)@ == old(self)@.remove(k@),
            final(self).spec_capacity() == old(self).spec_capacity(),
            final(self).spec_len() == old(self).spec_len() - (if old(self)@.contains_key(k@) {
                1int
            } else {
                0int
            }),
            match r {
                Some(v) => old(self)@.contains_key(k@) && v == old(self)@[k@],
                None => !old(self)@.contains_key(k@),
            },
    {
        self.entries.remove(k)
    }

    /// Bind the key to the value. A full cache first drops its oldest entry.
    pub fn set(&mut self, k: Vec<u8>, v: V)
        requires
            old(self).wf(),
        ensures
            final(self).wf(),
            final(self).spec_capacity() == old(self).spec_capacity(),
            final(self)@.contains_key(k@),
            final(self)@[k@] == v,
            forall|q: Seq<u8>|
                #[trigger] final(self)@.contains_key(q) && q != k@ ==> old(self)@.contains_key(q)
                    && final(self)@[q] == old(self)@[q],
            forall|q: Seq<u8>|
                #[trigger] old(self)@.contains_key(q) && q != k@ && !final(self)@.contains_key(q)
                    ==> old(self).spec_len() == old(self).spec_capacity(),
            old(self).spec_len() < old(self).spec_capacity() || old(self)@.contains_key(k@)
                ==> final(self)@ == old(self)@.insert(k@, v),
            final(self).spec_len() <= old(self).spec_len() + 1,
            old(self)@.contains_key(k@) ==> final(self).spec_len() == old(self).spec_len(),
    {
        let ghost o = *self;
        if !self.entries.contains_key(&k) && self.entries.len() >= self.capacity {
            let oldest = {
                let e = self.entries.entry_at(0);
                crate::bytes_util::clone_bytes(&e.0)
            };
            proof {
                self.entries.lemma_entry_in_view(0);
            }
            self.entries.remove(&oldest);
        }
        self.entries.insert(k, v);
    }
}

/// A bounded map from integer keys to values.
pub struct SizedU64Cache<V> {
    capacity: usize,
    entries: U64KeyMap<V>,
}

impl<V> SizedU64Cache<V> {
    /// Most entries the cache holds.
    pub closed spec fn spec_capacity(self) -> usize {
        self.capacity
    }

    /// The map held.
    pub closed spec fn view(self) -> Map<u64, V> {
        self.entries@
    }

    /// The entries, oldest insertion first.
    pub closed spec fn entries_view(self) -> Seq<(u64, V)> {
        self.entries.entries_view()
    }

    /// Number of entries.
    pub open spec fn spec_len(self) -> int {
        self.entries_view().len() as int
    }

    /// Entry keys are distinct and the capacity is respected.
    pub closed spec fn wf(self) -> bool {
        &&& self.entries.wf()
        &&& self.capacity >= 1
        &&& self.entries.spec_len() <= self.capacity
    }

    /// Every entry is present in the map with its value.
    pub proof fn lemma_cache_entry_in_view(self, i: int)
        requires
            self.wf(),
            0 <= i < self.entries_view().len(),
        ensures
            self@.contains_key(self.entries_view()[i].0),
            self@[self.entries_view()[i].0] == self.entries_view()[i].1,
    {
        self.entries.lemma_entry_in_view(i);
    }

    /// An empty cache with the given capacity.
    pub fn with_size(capacity: usize) -> (r: SizedU64Cache<V>)
        requires
            capacity >= 1,
        ensures
            r.wf(),
            r@ == Map::<u64, V>::empty(),
            r.spec_capacity() == capacity,
            r.spec_len() == 0,
    {
        SizedU64Cache { capacity, entries: U64KeyMap::new() }
    }

    /// The value under this key, if any.
    pub fn get(&self, k: u64) -> (r: Option<&V>)
        requires
            self.wf(),
        ensures
            match r {
                Some(v) => self@.contains_key(k) && *v == self@[k],
                None => !self@.contains_key(k),
            },
    {
        self.entries.get(k)
    }

    /// Number of entries.
    pub fn len(&self) -> (r: usize)
        ensures
            r == self.spec_len(),
    {
        self.entries.len()
    }

    /// The entry at a position, oldest insertion first.
    pub fn entry_at(&self, i: usize) -> (r: &(u64, V))
        requires
            i < self.entries_view().len(),
        ensures
            *r == self.entries_view()[i as int],
    {
        self.entries.entry_at(i)
    }

    /// Drop the binding for this key and hand its value back.
    pub fn remove(&mut self, k: u64) -> (r: Option<V>)
        requires
            old(self).wf(),
        ensures
            final(self).wf(),
            final(self)@ == old(self)@.remove(k),
            final(self).spec_capacity() == old(self).spec_capacity(),
            final(self).spec_len() == old(self).spec_len() - (if old(self)@.contains_key(k) {
                1int
            } else {
                0int
            }),
            match r {
                Some(v) => old(self)@.contains_key(k) && v == old(self)@[k],
                None => !old(self)@.contains_key(k),
            },
    {
        self.entries.remove(k)
    }

    /// Bind the key to the value. A full cache first drops its oldest entry.
    pub fn set(&mut self, k: u64, v: V)
        requires
            old(self).wf(),
        ensures
            final(self).wf(),
            final(self).spec_capacity() == old(self).spec_capacity(),
            final(self)@.contains_key(k),
            final(self)@[k] == v,
            forall|q: u64|
                #[trigger] final(self)@.contains_key(q) && q != k ==> old(self)@.contains_key(q)
                    && final(self)@[q] == old(self)@[q],
            forall|q: u64|
                #[trigger] old(self)@.contains_key(q) && q != k && !final(self)@.contains_key(q)
                    ==> old(self).spec_len() == old(self).spec_capacity(),
            old(self).spec_len() < old(self).spec_capacity() || old(self)@.contains_key(k)
                ==> final(self)@ == old(self)@.insert(k, v),
            final(self).spec_len() <= old(self).spec_len() + 1,
            old(self)@.contains_key(k) ==> final(self).spec_len() == old(self).spec_len(),
    {
        let ghost o = *self;
        if !self.entries.contains_key(k) && self.entries.len() >= self.capacity {
            let oldest = {
                let e = self.entries.entry_at(0);
                e.0
            };
            proof {
                self.entries.lemma_entry_in_view(0);
            }
            self.entries.remove(oldest);
        }
        self.entries.insert(k, v);
    }
}

} // verus!
