//! Small association maps over byte-string, byte-pair and integer keys,
//! held as entry vectors with distinct keys and viewed as maps.

use vstd::prelude::*;

use crate::bytes_util::bytes_eq;

verus! {

/// A map from byte strings to values, as a vector of entries with distinct
/// keys.
pub struct ByteKeyMap<V> {
    entries: Vec<(Vec<u8>, V)>,
}

impl<V> ByteKeyMap<V> {
    /// The raw entry sequence.
    pub closed spec fn entries_view(self) -> Seq<(Vec<u8>, V)> {
        self.entries@
    }

    /// Whether a key is present.
    pub closed spec fn spec_contains(self, k: Seq<u8>) -> bool {
        exists|i: int| 0 <= i < self.entries@.len() && #[trigger] self.entries@[i].0@ == k
    }

    /// The position of a key among the entries.
    pub closed spec fn key_index(self, k: Seq<u8>) -> int {
        choose|i: int| 0 <= i < self.entries@.len() && #[trigger] self.entries@[i].0@ == k
    }

    /// The value stored under a key.
    pub closed spec fn spec_get(self, k: Seq<u8>) -> V {
        self.entries@[self.key_index(k)].1
    }

    /// The map the entries stand for.
    pub open spec fn view(self) -> Map<Seq<u8>, V> {
        Map::new(|k: Seq<u8>| self.spec_contains(k), |k: Seq<u8>| self.spec_get(k))
    }

    /// Number of entries.
    pub open spec fn spec_len(self) -> int {
        self.entries_view().len() as int
    }

    /// Keys are distinct.
    pub closed spec fn wf(self) -> bool {
        forall|i: int, j: int|
            0 <= i < j < self.entries@.len() ==> (#[trigger] self.entries@[i].0@)
                != (#[trigger] self.entries@[j].0@)
    }

    /// Every entry is present in the map with its value.
    pub proof fn lemma_entry_in_view(self, i: int)
        requires
            self.wf(),
            0 <= i < self.entries_view().len(),
        ensures
            self@.contains_key(self.entries_view()[i].0@),
            self@[self.entries_view()[i].0@] == self.entries_view()[i].1,
            self.key_index(self.entries_view()[i].0@) == i,
    {
        let k = self.entries@[i].0@;
        assert(self.spec_contains(k));
        assert(self.key_index(k) == i);
    }

    /// Every key of the map is the key of some entry.
    pub proof fn lemma_view_in_entries(self, k: Seq<u8>)
        requires
            self.wf(),
            self@.contains_key(k),
        ensures
            0 <= self.key_index(k) < self.entries_view().len(),
            self.entries_view()[self.key_index(k)].0@ == k,
            self.entries_view()[self.key_index(k)].1 == self@[k],
    {
    }

    /// Entries at distinct positions hold distinct keys.
    pub proof fn lemma_entries_distinct(self, i: int, j: int)
        requires
            self.wf(),
            0 <= i < j < self.entries_view().len(),
        ensures
            self.entries_view()[i].0@ != self.entries_view()[j].0@,
    {
    }

    /// An empty map.
    pub fn new() -> (r: ByteKeyMap<V>)
        ensures
            r.wf(),
            r@ == Map::<Seq<u8>, V>::empty(),
            r.spec_len() == 0,
    {
        let r = ByteKeyMap { entries: Vec::new() };
        proof {
            assert(r@ =~= Map::<Seq<u8>, V>::empty());
        }
        r
    }

    /// The position of the entry holding this key, if any.
    fn find(&self, k: &Vec<u8>) -> (r: Option<usize>)
        requires
            self.wf(),
        ensures
            match r {
                Some(i) => i < self.entries_view().len() && self.entries_view()[i as int].0@ == k@
                    && self@.contains_key(k@) && self.key_index(k@) == i as int,
                None => !self@.contains_key(k@),
            },
    {
        let n = self.entries.len();
        let mut i: usize = 0;
        while i < n
            invariant
                self.wf(),
                n == self.entries@.len(),
                i <= n,
                forall|j: int| 0 <= j < i ==> (#[trigger] self.entries@[j].0@) != k@,
            decreases n - i,
        {
            if bytes_eq(&self.entries[i].0, k) {
                proof {
                    assert(self.spec_contains(k@));
                    assert(self.key_index(k@) == i as int);
                }
                return Some(i);
            }
            i += 1;
        }
        proof {
            if self.spec_contains(k@) {
                let j = choose|j: int|
                    0 <= j < self.entries@.len() && #[trigger] self.entries@[j].0@ == k@;
                assert(false);
            }
        }
        None
    }

    /// Whether the map holds this key.
    pub fn contains_key(&self, k: &Vec<u8>) -> (r: bool)
        requires
            self.wf(),
        ensures
            r == self@.contains_key(k@),
    {
        self.find(k).is_some()
    }

    /// The value under this key, if any.
    pub fn get(&self, k: &Vec<u8>) -> (r: Option<&V>)
        requires
            self.wf(),
        ensures
            match r {
                Some(v) => self@.contains_key(k@) && *v == self@[k@],
                None => !self@.contains_key(k@),
            },
    {
        match self.find(k) {
            Some(i) => Some(&self.entries[i].1),
            None => None,
        }
    }

    /// Number of entries.
    pub fn len(&self) -> (r: usize)
        ensures
            r == self.spec_len(),
    {
        self.entries.len()
    }

    /// The entry at a position.
    pub fn entry_at(&self, i: usize) -> (r: &(Vec<u8>, V))
        requires
            i < self.entries_view().len(),
        ensures
            *r == self.entries_view()[i as int],
    {
        &self.entries[i]
    }

    /// Bind the key to the value, replacing any earlier binding.
    pub fn insert(&mut self, k: Vec<u8>, v: V)
        requires
            old(self).wf(),
        ensures
            final(self).wf(),
            final(self)@ == old(self)@.insert(k@, v),
            final(self).spec_len() == old(self).spec_len() + (if old(self)@.contains_key(k@) {
                0int
            } else {
                1int
            }),
            old(self)@.contains_key(k@) ==> final(self).entries_view() == old(
                self,
            ).entries_view().update(old(self).key_index(k@), (k, v)),
            !old(self)@.contains_key(k@) ==> final(self).entries_view() == old(
                self,
            ).entries_view().push((k, v)),
    {
        let ghost o = *self;
        match self.find(&k) {
            Some(i) => {
                self.entries[i] = (k, v);
                proof {
                    let f = *self;
                    assert forall|q: Seq<u8>| #[trigger]
                        f.spec_contains(q) == (o.spec_contains(q) || q == k@) by {
                        if o.spec_contains(q) {
                            let j = choose|j: int|
                                0 <= j < o.entries@.len() && #[trigger] o.entries@[j].0@ == q;
                            if j == i as int {
                                assert(f.entries@[j].0@ == k@ && q == k@);
                            } else {
                                assert(f.entries@[j].0@ == q);
                            }
                        }
                        if f.spec_contains(q) {
                            let j = choose|j: int|
                                0 <= j < f.entries@.len() && #[trigger] f.entries@[j].0@ == q;
                            if j == i as int {
                                assert(q == k@);
                            } else {
                                assert(o.entries@[j].0@ == q);
                            }
                        }
                        if q == k@ {
                            assert(f.entries@[i as int].0@ == k@);
                        }
                    }
                    assert forall|i2: int, j2: int|
                        0 <= i2 < j2 < f.entries@.len() implies (#[trigger] f.entries@[i2].0@)
                        != (#[trigger] f.entries@[j2].0@) by {
                        assert(o.entries@[i2].0@ == (if i2 == i as int {
                            k@
                        } else {
                            f.entries@[i2].0@
                        }) || f.entries@[i2].0@ == o.entries@[i2].0@);
                        assert(i as int == o.key_index(k@));
                        if i2 != i as int && j2 != i as int {
                            assert(f.entries@[i2].0@ == o.entries@[i2].0@);
                            assert(f.entries@[j2].0@ == o.entries@[j2].0@);
                        } else if i2 == i as int {
                            assert(f.entries@[j2].0@ == o.entries@[j2].0@);
                            assert(o.entries@[i as int].0@ == k@);
                        } else {
                            assert(f.entries@[i2].0@ == o.entries@[i2].0@);
                            assert(o.entries@[i as int].0@ == k@);
                        }
                    }
                    assert forall|q: Seq<u8>| f.spec_contains(q) implies #[trigger] f.spec_get(q)
                        == (if q == k@ {
                        v
                    } else {
                        o.spec_get(q)
                    }) by {
                        let j = f.key_index(q);
                        if q == k@ {
                            assert(f.entries@[i as int].0@ == k@);
                            assert(j == i as int);
                        } else {
                            assert(f.entries@[j].0@ == q && j != i as int);
                            assert(o.entries@[j].0@ == q);
                            assert(o.key_index(q) == j);
                        }
                    }
                    assert(f@ =~= o@.insert(k@, v));
                }
            },
            None => {
                self.entries.push((k, v));
                proof {
                    let f = *self;
                    let n = o.entries@.len() as int;
                    assert(f.entries@[n].0@ == k@);
                    assert forall|q: Seq<u8>| #[trigger]
                        f.spec_contains(q) == (o.spec_contains(q) || q == k@) by {
                        if o.spec_contains(q) {
                            let j = choose|j: int|
                                0 <= j < o.entries@.len() && #[trigger] o.entries@[j].0@ == q;
                            assert(f.entries@[j].0@ == q);
                        }
                        if f.spec_contains(q) {
                            let j = choose|j: int|
                                0 <= j < f.entries@.len() && #[trigger] f.entries@[j].0@ == q;
                            if j < n {
                                assert(o.entries@[j].0@ == q);
                            } else {
                                assert(q == k@);
                            }
                        }
                    }
                    assert forall|i2: int, j2: int|
                        0 <= i2 < j2 < f.entries@.len() implies (#[trigger] f.entries@[i2].0@)
                        != (#[trigger] f.entries@[j2].0@) by {
                        if j2 == n {
                            assert(f.entries@[i2].0@ == o.entries@[i2].0@);
                            if o.entries@[i2].0@ == k@ {
                                assert(o.spec_contains(k@));
                            }
                        } else {
                            assert(f.entries@[i2].0@ == o.entries@[i2].0@);
                            assert(f.entries@[j2].0@ == o.entries@[j2].0@);
                        }
                    }
                    assert forall|q: Seq<u8>| f.spec_contains(q) implies #[trigger] f.spec_get(q)
                        == (if q == k@ {
                        v
                    } else {
                        o.spec_get(q)
                    }) by {
                        let j = f.key_index(q);
                        if q == k@ {
                            assert(j == n) by {
                                if j < n {
                                    assert(o.entries@[j].0@ == k@);
                                    assert(o.spec_contains(k@));
                                }
                            }
                        } else {
                            assert(f.entries@[j].0@ == q && j != n);
                            assert(o.entries@[j].0@ == q);
                            assert(o.key_index(q) == j);
                        }
                    }
                    assert(f@ =~= o@.insert(k@, v));
                }
            },
        }
    }

    /// Drop the binding for this key and hand its value back.
    pub fn remove(&mut self, k: &Vec<u8>) -> (r: Option<V>)
        requires
            old(self).wf(),
        ensures
            final(self).wf(),
            final(self)@ == old(self)@.remove(k@),
            match r {
                Some(v) => old(self)@.contains_key(k@) && v == old(self)@[k@],
                None => !old(self)@.contains_key(k@),
            },
            final(self).spec_len() == old(self).spec_len() - (if old(self)@.contains_key(k@) {
                1int
            } else {
                0int
            }),
            old(self)@.contains_key(k@) ==> final(self).entries_view() == old(
                self,
            ).entries_view().remove(old(self).key_index(k@)),
            !old(self)@.contains_key(k@) ==> final(self).entries_view() == old(
                self,
            ).entries_view(),
    {
        let ghost o = *self;
        match self.find(k) {
            Some(i) => {
                let entry = self.entries.remove(i);
                proof {
                    let f = *self;
                    let n = o.entries@.len() as int;
                    let iv = i as int;
                    assert forall|q: Seq<u8>| #[trigger]
                        f.spec_contains(q) == (o.spec_contains(q) && q != k@) by {
                        if f.spec_contains(q) {
                            let j = choose|j: int|
                                0 <= j < f.entries@.len() && #[trigger] f.entries@[j].0@ == q;
                            if j < iv {
                                assert(o.entries@[j].0@ == q);
                                assert(j != iv);
                                if q == k@ {
                                    assert(o.entries@[iv].0@ == k@);
                                }
                            } else {
                                assert(o.entries@[j + 1].0@ == q);
                                if q == k@ {
                                    assert(o.entries@[iv].0@ == k@);
                                }
                            }
                        }
                        if o.spec_contains(q) && q != k@ {
                            let j = choose|j: int|
                                0 <= j < o.entries@.len() && #[trigger] o.entries@[j].0@ == q;
                            assert(j != iv);
                            if j < iv {
                                assert(f.entries@[j].0@ == q);
                            } else {
                                assert(f.entries@[j - 1].0@ == q);
                            }
                        }
                    }
                    assert forall|i2: int, j2: int|
                        0 <= i2 < j2 < f.entries@.len() implies (#[trigger] f.entries@[i2].0@)
                        != (#[trigger] f.entries@[j2].0@) by {
                        let a: int = if i2 < iv {
                            i2
                        } else {
                            i2 + 1
                        };
                        let b: int = if j2 < iv {
                            j2
                        } else {
                            j2 + 1
                        };
                        assert(f.entries@[i2] == o.entries@[a] && f.entries@[j2] == o.entries@[b]);
                    }
                    assert forall|q: Seq<u8>| f.spec_contains(q) implies #[trigger] f.spec_get(q)
                        == o.spec_get(q) by {
                        let j = f.key_index(q);
                        assert(f.entries@[j].0@ == q);
                        let a: int = if j < iv {
                            j
                        } else {
                            j + 1
                        };
                        assert(o.entries@[a] == f.entries@[j]);
                        assert(o.key_index(q) == a);
                    }
                    assert(f@ =~= o@.remove(k@));
                    assert(o.key_index(k@) == iv);
                }
                Some(entry.1)
            },
            None => {
                proof {
                    assert(self@ =~= o@.remove(k@));
                }
                None
            },
        }
    }
}


/// The view of a pair key: both components' bytes.
pub open spec fn pair_view(k: (Vec<u8>, Vec<u8>)) -> (Seq<u8>, Seq<u8>) {
    (k.0@, k.1@)
}

/// A map from unordered-pair keys (two byte strings in canonical order) to
/// values, as a vector of entries with distinct keys.
pub struct PairKeyMap<V> {
    entries: Vec<((Vec<u8>, Vec<u8>), V)>,
}

impl<V> PairKeyMap<V> {
    /// The raw entry sequence.
    pub closed spec fn entries_view(self) -> Seq<((Vec<u8>, Vec<u8>), V)> {
        self.entries@
    }

    /// Whether a key is present.
    pub closed spec fn spec_contains(self, k: (Seq<u8>, Seq<u8>)) -> bool {
        exists|i: int| 0 <= i < self.entries@.len() && #[trigger] pair_view(self.entries@[i].0) == k
    }

    /// The position of a key among the entries.
    pub closed spec fn key_index(self, k: (Seq<u8>, Seq<u8>)) -> int {
        choose|i: int| 0 <= i < self.entries@.len() && #[trigger] pair_view(self.entries@[i].0) == k
    }

    /// The value stored under a key.
    pub closed spec fn spec_get(self, k: (Seq<u8>, Seq<u8>)) -> V {
        self.entries@[self.key_index(k)].1
    }

    /// The map the entries stand for.
    pub open spec fn view(self) -> Map<(Seq<u8>, Seq<u8>), V> {
        Map::new(|k: (Seq<u8>, Seq<u8>)| self.spec_contains(k), |k: (Seq<u8>, Seq<u8>)| self.spec_get(k))
    }

    /// Number of entries.
    pub open spec fn spec_len(self) -> int {
        self.entries_view().len() as int
    }

    /// Keys are distinct.
    pub closed spec fn wf(self) -> bool {
        forall|i: int, j: int|
            0 <= i < j < self.entries@.len() ==> (#[trigger] pair_view(self.entries@[i].0))
                != (#[trigger] pair_view(self.entries@[j].0))
    }

    /// Every entry is present in the map with its value.
    pub proof fn lemma_entry_in_view(self, i: int)
        requires
            self.wf(),
            0 <= i < self.entries_view().len(),
        ensures
            self@.contains_key(pair_view(self.entries_view()[i].0)),
            self@[pair_view(self.entries_view()[i].0)] == self.entries_view()[i].1,
            self.key_index(pair_view(self.entries_view()[i].0)) == i,
    {
        let k = pair_view(self.entries@[i].0);
        assert(self.spec_contains(k));
        assert(self.key_index(k) == i);
    }

    /// Every key of the map is the key of some entry.
    pub proof fn lemma_view_in_entries(self, k: (Seq<u8>, Seq<u8>))
        requires
            self.wf(),
            self@.contains_key(k),
        ensures
            0 <= self.key_index(k) < self.entries_view().len(),
            pair_view(self.entries_view()[self.key_index(k)].0) == k,
            self.entries_view()[self.key_index(k)].1 == self@[k],
    {
    }

    /// Entries at distinct positions hold distinct keys.
    pub proof fn lemma_entries_distinct(self, i: int, j: int)
        requires
            self.wf(),
            0 <= i < j < self.entries_view().len(),
        ensures
            pair_view(self.entries_view()[i].0) != pair_view(self.entries_view()[j].0),
    {
    }

    /// An empty map.
    pub fn new() -> (r: PairKeyMap<V>)
        ensures
            r.wf(),
            r@ == Map::<(Seq<u8>, Seq<u8>), V>::empty(),
            r.spec_len() == 0,
    {
        let r = PairKeyMap { entries: Vec::new() };
        proof {
            assert(r@ =~= Map::<(Seq<u8>, Seq<u8>), V>::empty());
        }
        r
    }

    /// The position of the entry holding this key, if any.
    fn find(&self, k: &(Vec<u8>, Vec<u8>)) -> (r: Option<usize>)
        requires
            self.wf(),
        ensures
            match r {
                Some(i) => i < self.entries_view().len() && pair_view(self.entries_view()[i as int].0) == pair_view(*k)
                    && self@.contains_key(pair_view(*k)) && self.key_index(pair_view(*k)) == i as int,
                None => !self@.contains_key(pair_view(*k)),
            },
    {
        let n = self.entries.len();
        let mut i: usize = 0;
        while i < n
            invariant
                self.wf(),
                n == self.entries@.len(),
                i <= n,
                forall|j: int| 0 <= j < i ==> (#[trigger] pair_view(self.entries@[j].0)) != pair_view(*k),
            decreases n - i,
        {
            proof {
                assert(pair_view(self.entries@[i as int].0) == (
                    self.entries@[i as int].0.0@,
                    self.entries@[i as int].0.1@,
                ));
            }
            if bytes_eq(&self.entries[i].0.0, &k.0) && bytes_eq(&self.entries[i].0.1, &k.1) {
                proof {
                    assert(pair_view(self.entries@[i as int].0) == pair_view(*k));
                    assert(self.spec_contains(pair_view(*k)));
                    assert(self.key_index(pair_view(*k)) == i as int);
                }
                return Some(i);
            }
            i += 1;
        }
        proof {
            if self.spec_contains(pair_view(*k)) {
                let j = choose|j: int|
                    0 <= j < self.entries@.len() && #[trigger] pair_view(self.entries@[j].0) == pair_view(*k);
                assert(false);
            }
        }
        None
    }

    /// Whether the map holds this key.
    pub fn contains_key(&self, k: &(Vec<u8>, Vec<u8>)) -> (r: bool)
        requires
            self.wf(),
        ensures
            r == self@.contains_key(pair_view(*k)),
    {
        self.find(k).is_some()
    }

    /// The value under this key, if any.
    pub fn get(&self, k: &(Vec<u8>, Vec<u8>)) -> (r: Option<&V>)
        requires
            self.wf(),
        ensures
            match r {
                Some(v) => self@.contains_key(pair_view(*k)) && *v == self@[pair_view(*k)],
                None => !self@.contains_key(pair_view(*k)),
            },
    {
        match self.find(k) {
            Some(i) => Some(&self.entries[i].1),
            None => None,
        }
    }

    /// Number of entries.
    pub fn len(&self) -> (r: usize)
        ensures
            r == self.spec_len(),
    {
        self.entries.len()
    }

    /// The entry at a position.
    pub fn entry_at(&self, i: usize) -> (r: &((Vec<u8>, Vec<u8>), V))
        requires
            i < self.entries_view().len(),
        ensures
            *r == self.entries_view()[i as int],
    {
        &self.entries[i]
    }

    /// Bind the key to the value, replacing any earlier binding.
    pub fn insert(&mut self, k: (Vec<u8>, Vec<u8>), v: V)
        requires
            old(self).wf(),
        ensures
            final(self).wf(),
            final(self)@ == old(self)@.insert(pair_view(k), v),
            final(self).spec_len() == old(self).spec_len() + (if old(self)@.contains_key(pair_view(k)) {
                0int
            } else {
                1int
            }),
    {
        let ghost o = *self;
        match self.find(&k) {
            Some(i) => {
                self.entries[i] = (k, v);
                proof {
                    let f = *self;
                    assert forall|q: (Seq<u8>, Seq<u8>)| #[trigger]
                        f.spec_contains(q) == (o.spec_contains(q) || q == pair_view(k)) by {
                        if o.spec_contains(q) {
                            let j = choose|j: int|
                                0 <= j < o.entries@.len() && #[trigger] pair_view(o.entries@[j].0) == q;
                            if j == i as int {
                                assert(pair_view(f.entries@[j].0) == pair_view(k) && q == pair_view(k));
                            } else {
                                assert(pair_view(f.entries@[j].0) == q);
                            }
                        }
                        if f.spec_contains(q) {
                            let j = choose|j: int|
                                0 <= j < f.entries@.len() && #[trigger] pair_view(f.entries@[j].0) == q;
                            if j == i as int {
                                assert(q == pair_view(k));
                            } else {
                                assert(pair_view(o.entries@[j].0) == q);
                            }
                        }
                        if q == pair_view(k) {
                            assert(pair_view(f.entries@[i as int].0) == pair_view(k));
                        }
                    }
                    assert forall|i2: int, j2: int|
                        0 <= i2 < j2 < f.entries@.len() implies (#[trigger] pair_view(f.entries@[i2].0))
                        != (#[trigger] pair_view(f.entries@[j2].0)) by {
                        assert(pair_view(o.entries@[i2].0) == (if i2 == i as int {
                            pair_view(k)
                        } else {
                            pair_view(f.entries@[i2].0)
                        }) || pair_view(f.entries@[i2].0) == pair_view(o.entries@[i2].0));
                        assert(i as int == o.key_index(pair_view(k)));
                        if i2 != i as int && j2 != i as int {
                            assert(pair_view(f.entries@[i2].0) == pair_view(o.entries@[i2].0));
                            assert(pair_view(f.entries@[j2].0) == pair_view(o.entries@[j2].0));
                        } else if i2 == i as int {
                            assert(pair_view(f.entries@[j2].0) == pair_view(o.entries@[j2].0));
                            assert(pair_view(o.entries@[i as int].0) == pair_view(k));
                        } else {
                            assert(pair_view(f.entries@[i2].0) == pair_view(o.entries@[i2].0));
                            assert(pair_view(o.entries@[i as int].0) == pair_view(k));
                        }
                    }
                    assert forall|q: (Seq<u8>, Seq<u8>)| f.spec_contains(q) implies #[trigger] f.spec_get(q)
                        == (if q == pair_view(k) {
                        v
                    } else {
                        o.spec_get(q)
                    }) by {
                        let j = f.key_index(q);
                        if q == pair_view(k) {
                            assert(pair_view(f.entries@[i as int].0) == pair_view(k));
                            assert(j == i as int);
                        } else {
                            assert(pair_view(f.entries@[j].0) == q && j != i as int);
                            assert(pair_view(o.entries@[j].0) == q);
                            assert(o.key_index(q) == j);
                        }
                    }
                    assert(f@ =~= o@.insert(pair_view(k), v));
                }
            },
            None => {
                self.entries.push((k, v));
                proof {
                    let f = *self;
                    let n = o.entries@.len() as int;
                    assert(pair_view(f.entries@[n].0) == pair_view(k));
                    assert forall|q: (Seq<u8>, Seq<u8>)| #[trigger]
                        f.spec_contains(q) == (o.spec_contains(q) || q == pair_view(k)) by {
                        if o.spec_contains(q) {
                            let j = choose|j: int|
                                0 <= j < o.entries@.len() && #[trigger] pair_view(o.entries@[j].0) == q;
                            assert(pair_view(f.entries@[j].0) == q);
                        }
                        if f.spec_contains(q) {
                            let j = choose|j: int|
                                0 <= j < f.entries@.len() && #[trigger] pair_view(f.entries@[j].0) == q;
                            if j < n {
                                assert(pair_view(o.entries@[j].0) == q);
                            } else {
                                assert(q == pair_view(k));
                            }
                        }
                    }
                    assert forall|i2: int, j2: int|
                        0 <= i2 < j2 < f.entries@.len() implies (#[trigger] pair_view(f.entries@[i2].0))
                        != (#[trigger] pair_view(f.entries@[j2].0)) by {
                        if j2 == n {
                            assert(pair_view(f.entries@[i2].0) == pair_view(o.entries@[i2].0));
                            if pair_view(o.entries@[i2].0) == pair_view(k) {
                                assert(o.spec_contains(pair_view(k)));
                            }
                        } else {
                            assert(pair_view(f.entries@[i2].0) == pair_view(o.entries@[i2].0));
                            assert(pair_view(f.entries@[j2].0) == pair_view(o.entries@[j2].0));
                        }
                    }
                    assert forall|q: (Seq<u8>, Seq<u8>)| f.spec_contains(q) implies #[trigger] f.spec_get(q)
                        == (if q == pair_view(k) {
                        v
                    } else {
                        o.spec_get(q)
                    }) by {
                        let j = f.key_index(q);
                        if q == pair_view(k) {
                            assert(j == n) by {
                                if j < n {
                                    assert(pair_view(o.entries@[j].0) == pair_view(k));
                                    assert(o.spec_contains(pair_view(k)));
                                }
                            }
                        } else {
                            assert(pair_view(f.entries@[j].0) == q && j != n);
                            assert(pair_view(o.entries@[j].0) == q);
                            assert(o.key_index(q) == j);
                        }
                    }
                    assert(f@ =~= o@.insert(pair_view(k), v));
                }
            },
        }
    }

    /// Drop the binding for this key and hand its value back.
    pub fn remove(&mut self, k: &(Vec<u8>, Vec<u8>)) -> (r: Option<V>)
        requires
            old(self).wf(),
        ensures
            final(self).wf(),
            final(self)@ == old(self)@.remove(pair_view(*k)),
            match r {
                Some(v) => old(self)@.contains_key(pair_view(*k)) && v == old(self)@[pair_view(*k)],
                None => !old(self)@.contains_key(pair_view(*k)),
            },
            final(self).spec_len() == old(self).spec_len() - (if old(self)@.contains_key(pair_view(*k)) {
                1int
            } else {
                0int
            }),
    {
        let ghost o = *self;
        match self.find(k) {
            Some(i) => {
                let entry = self.entries.remove(i);
                proof {
                    let f = *self;
                    let n = o.entries@.len() as int;
                    let iv = i as int;
                    assert forall|q: (Seq<u8>, Seq<u8>)| #[trigger]
                        f.spec_contains(q) == (o.spec_contains(q) && q != pair_view(*k)) by {
                        if f.spec_contains(q) {
                            let j = choose|j: int|
                                0 <= j < f.entries@.len() && #[trigger] pair_view(f.entries@[j].0) == q;
                            if j < iv {
                                assert(pair_view(o.entries@[j].0) == q);
                                assert(j != iv);
                                if q == pair_view(*k) {
                                    assert(pair_view(o.entries@[iv].0) == pair_view(*k));
                                }
                            } else {
                                assert(pair_view(o.entries@[j + 1].0) == q);
                                if q == pair_view(*k) {
                                    assert(pair_view(o.entries@[iv].0) == pair_view(*k));
                                }
                            }
                        }
                        if o.spec_contains(q) && q != pair_view(*k) {
                            let j = choose|j: int|
                                0 <= j < o.entries@.len() && #[trigger] pair_view(o.entries@[j].0) == q;
                            assert(j != iv);
                            if j < iv {
                                assert(pair_view(f.entries@[j].0) == q);
                            } else {
                                assert(pair_view(f.entries@[j - 1].0) == q);
                            }
                        }
                    }
                    assert forall|i2: int, j2: int|
                        0 <= i2 < j2 < f.entries@.len() implies (#[trigger] pair_view(f.entries@[i2].0))
                        != (#[trigger] pair_view(f.entries@[j2].0)) by {
                        let a: int = if i2 < iv {
                            i2
                        } else {
                            i2 + 1
                        };
                        let b: int = if j2 < iv {
                            j2
                        } else {
                            j2 + 1
                        };
                        assert(f.entries@[i2] == o.entries@[a] && f.entries@[j2] == o.entries@[b]);
                    }
                    assert forall|q: (Seq<u8>, Seq<u8>)| f.spec_contains(q) implies #[trigger] f.spec_get(q)
                        == o.spec_get(q) by {
                        let j = f.key_index(q);
                        assert(pair_view(f.entries@[j].0) == q);
                        let a: int = if j < iv {
                            j
                        } else {
                            j + 1
                        };
                        assert(o.entries@[a] == f.entries@[j]);
                        assert(o.key_index(q) == a);
                    }
                    assert(f@ =~= o@.remove(pair_view(*k)));
                    assert(o.key_index(pair_view(*k)) == iv);
                }
                Some(entry.1)
            },
            None => {
                proof {
                    assert(self@ =~= o@.remove(pair_view(*k)));
                }
                None
            },
        }
    }
}


/// A map from integer keys to values, as a vector of entries with distinct
/// keys.
pub struct U64KeyMap<V> {
    entries: Vec<(u64, V)>,
}

impl<V> U64KeyMap<V> {
    /// The raw entry sequence.
    pub closed spec fn entries_view(self) -> Seq<(u64, V)> {
        self.entries@
    }

    /// Whether a key is present.
    pub closed spec fn spec_contains(self, k: u64) -> bool {
        exists|i: int| 0 <= i < self.entries@.len() && #[trigger] self.entries@[i].0 == k
    }

    /// The position of a key among the entries.
    pub closed spec fn key_index(self, k: u64) -> int {
        choose|i: int| 0 <= i < self.entries@.len() && #[trigger] self.entries@[i].0 == k
    }

    /// The value stored under a key.
    pub closed spec fn spec_get(self, k: u64) -> V {
        self.entries@[self.key_index(k)].1
    }

    /// The map the entries stand for.
    pub open spec fn view(self) -> Map<u64, V> {
        Map::new(|k: u64| self.spec_contains(k), |k: u64| self.spec_get(k))
    }

    /// Number of entries.
    pub open spec fn spec_len(self) -> int {
        self.entries_view().len() as int
    }

    /// Keys are distinct.
    pub closed spec fn wf(self) -> bool {
        forall|i: int, j: int|
            0 <= i < j < self.entries@.len() ==> (#[trigger] self.entries@[i].0)
                != (#[trigger] self.entries@[j].0)
    }

    /// Every entry is present in the map with its value.
    pub proof fn lemma_entry_in_view(self, i: int)
        requires
            self.wf(),
            0 <= i < self.entries_view().len(),
        ensures
            self@.contains_key(self.entries_view()[i].0),
            self@[self.entries_view()[i].0] == self.entries_view()[i].1,
            self.key_index(self.entries_view()[i].0) == i,
    {
        let k = self.entries@[i].0;
        assert(self.spec_contains(k));
        assert(self.key_index(k) == i);
    }

    /// An empty map.
    pub fn new() -> (r: U64KeyMap<V>)
        ensures
            r.wf(),
            r@ == Map::<u64, V>::empty(),
            r.spec_len() == 0,
    {
        let r = U64KeyMap { entries: Vec::new() };
        proof {
            assert(r@ =~= Map::<u64, V>::empty());
        }
        r
    }

    /// The position of the entry holding this key, if any.
    fn find(&self, k: u64) -> (r: Option<usize>)
        requires
            self.wf(),
        ensures
            match r {
                Some(i) => i < self.entries_view().len() && self.entries_view()[i as int].0 == k
                    && self@.contains_key(k) && self.key_index(k) == i as int,
                None => !self@.contains_key(k),
            },
    {
        let n = self.entries.len();
        let mut i: usize = 0;
        while i < n
            invariant
                self.wf(),
                n == self.entries@.len(),
                i <= n,
                forall|j: int| 0 <= j < i ==> (#[trigger] self.entries@[j].0) != k,
            decreases n - i,
        {
            if self.entries[i].0 == k {
                proof {
                    assert(self.spec_contains(k));
                    assert(self.key_index(k) == i as int);
                }
                return Some(i);
            }
            i += 1;
        }
        proof {
            if self.spec_contains(k) {
                let j = choose|j: int|
                    0 <= j < self.entries@.len() && #[trigger] self.entries@[j].0 == k;
                assert(false);
            }
        }
        None
    }

    /// Whether the map holds this key.
    pub fn contains_key(&self, k: u64) -> (r: bool)
        requires
            self.wf(),
        ensures
            r == self@.contains_key(k),
    {
        self.find(k).is_some()
    }

    /// The value under this key, if any.
    pub fn get(&self, k: u64) -> (r: Option<&V>)
        requires
            self.wf(),
        ensures
            match r {
                Some(v) => self@.contains_key(k) && *v == self@[k],
                None => !self@.contains_key(k),
            },
    {
        match self.find(k) {
            Some(i) => Some(&self.entries[i].1),
            None => None,
        }
    }

    /// Number of entries.
    pub fn len(&self) -> (r: usize)
        ensures
            r == self.spec_len(),
    {
        self.entries.len()
    }

    /// The entry at a position.
    pub fn entry_at(&self, i: usize) -> (r: &(u64, V))
        requires
            i < self.entries_view().len(),
        ensures
            *r == self.entries_view()[i as int],
    {
        &self.entries[i]
    }

    /// Bind the key to the value, replacing any earlier binding.
    pub fn insert(&mut self, k: u64, v: V)
        requires
            old(self).wf(),
        ensures
            final(self).wf(),
            final(self)@ == old(self)@.insert(k, v),
            final(self).spec_len() == old(self).spec_len() + (if old(self)@.contains_key(k) {
                0int
            } else {
                1int
            }),
    {
        let ghost o = *self;
        match self.find(k) {
            Some(i) => {
                self.entries[i] = (k, v);
                proof {
                    let f = *self;
                    assert forall|q: u64| #[trigger]
                        f.spec_contains(q) == (o.spec_contains(q) || q == k) by {
                        if o.spec_contains(q) {
                            let j = choose|j: int|
                                0 <= j < o.entries@.len() && #[trigger] o.entries@[j].0 == q;
                            if j == i as int {
                                assert(f.entries@[j].0 == k && q == k);
                            } else {
                                assert(f.entries@[j].0 == q);
                            }
                        }
                        if f.spec_contains(q) {
                            let j = choose|j: int|
                                0 <= j < f.entries@.len() && #[trigger] f.entries@[j].0 == q;
                            if j == i as int {
                                assert(q == k);
                            } else {
                                assert(o.entries@[j].0 == q);
                            }
                        }
                        if q == k {
                            assert(f.entries@[i as int].0 == k);
                        }
                    }
                    assert forall|i2: int, j2: int|
                        0 <= i2 < j2 < f.entries@.len() implies (#[trigger] f.entries@[i2].0)
                        != (#[trigger] f.entries@[j2].0) by {
                        assert(o.entries@[i2].0 == (if i2 == i as int {
                            k
                        } else {
                            f.entries@[i2].0
                        }) || f.entries@[i2].0 == o.entries@[i2].0);
                        assert(i as int == o.key_index(k));
                        if i2 != i as int && j2 != i as int {
                            assert(f.entries@[i2].0 == o.entries@[i2].0);
                            assert(f.entries@[j2].0 == o.entries@[j2].0);
                        } else if i2 == i as int {
                            assert(f.entries@[j2].0 == o.entries@[j2].0);
                            assert(o.entries@[i as int].0 == k);
                        } else {
                            assert(f.entries@[i2].0 == o.entries@[i2].0);
                            assert(o.entries@[i as int].0 == k);
                        }
                    }
                    assert forall|q: u64| f.spec_contains(q) implies #[trigger] f.spec_get(q)
                        == (if q == k {
                        v
                    } else {
                        o.spec_get(q)
                    }) by {
                        let j = f.key_index(q);
                        if q == k {
                            assert(f.entries@[i as int].0 == k);
                            assert(j == i as int);
                        } else {
                            assert(f.entries@[j].0 == q && j != i as int);
                            assert(o.entries@[j].0 == q);
                            assert(o.key_index(q) == j);
                        }
                    }
                    assert(f@ =~= o@.insert(k, v));
                }
            },
            None => {
                self.entries.push((k, v));
                proof {
                    let f = *self;
                    let n = o.entries@.len() as int;
                    assert(f.entries@[n].0 == k);
                    assert forall|q: u64| #[trigger]
                        f.spec_contains(q) == (o.spec_contains(q) || q == k) by {
                        if o.spec_contains(q) {
                            let j = choose|j: int|
                                0 <= j < o.entries@.len() && #[trigger] o.entries@[j].0 == q;
                            assert(f.entries@[j].0 == q);
                        }
                        if f.spec_contains(q) {
                            let j = choose|j: int|
                                0 <= j < f.entries@.len() && #[trigger] f.entries@[j].0 == q;
                            if j < n {
                                assert(o.entries@[j].0 == q);
                            } else {
                                assert(q == k);
                            }
                        }
                    }
                    assert forall|i2: int, j2: int|
                        0 <= i2 < j2 < f.entries@.len() implies (#[trigger] f.entries@[i2].0)
                        != (#[trigger] f.entries@[j2].0) by {
                        if j2 == n {
                            assert(f.entries@[i2].0 == o.entries@[i2].0);
                            if o.entries@[i2].0 == k {
                                assert(o.spec_contains(k));
                            }
                        } else {
                            assert(f.entries@[i2].0 == o.entries@[i2].0);
                            assert(f.entries@[j2].0 == o.entries@[j2].0);
                        }
                    }
                    assert forall|q: u64| f.spec_contains(q) implies #[trigger] f.spec_get(q)
                        == (if q == k {
                        v
                    } else {
                        o.spec_get(q)
                    }) by {
                        let j = f.key_index(q);
                        if q == k {
                            assert(j == n) by {
                                if j < n {
                                    assert(o.entries@[j].0 == k);
                                    assert(o.spec_contains(k));
                                }
                            }
                        } else {
                            assert(f.entries@[j].0 == q && j != n);
                            assert(o.entries@[j].0 == q);
                            assert(o.key_index(q) == j);
                        }
                    }
                    assert(f@ =~= o@.insert(k, v));
                }
            },
        }
    }

    /// Drop the binding for this key and hand its value back.
    pub fn remove(&mut self, k: u64) -> (r: Option<V>)
        requires
            old(self).wf(),
        ensures
            final(self).wf(),
            final(self)@ == old(self)@.remove(k),
            match r {
                Some(v) => old(self)@.contains_key(k) && v == old(self)@[k],
                None => !old(self)@.contains_key(k),
            },
            final(self).spec_len() == old(self).spec_len() - (if old(self)@.contains_key(k) {
                1int
            } else {
                0int
            }),
    {
        let ghost o = *self;
        match self.find(k) {
            Some(i) => {
                let entry = self.entries.remove(i);
                proof {
                    let f = *self;
                    let n = o.entries@.len() as int;
                    let iv = i as int;
                    assert forall|q: u64| #[trigger]
                        f.spec_contains(q) == (o.spec_contains(q) && q != k) by {
                        if f.spec_contains(q) {
                            let j = choose|j: int|
                                0 <= j < f.entries@.len() && #[trigger] f.entries@[j].0 == q;
                            if j < iv {
                                assert(o.entries@[j].0 == q);
                                assert(j != iv);
                                if q == k {
                                    assert(o.entries@[iv].0 == k);
                                }
                            } else {
                                assert(o.entries@[j + 1].0 == q);
                                if q == k {
                                    assert(o.entries@[iv].0 == k);
                                }
                            }
                        }
                        if o.spec_contains(q) && q != k {
                            let j = choose|j: int|
                                0 <= j < o.entries@.len() && #[trigger] o.entries@[j].0 == q;
                            assert(j != iv);
                            if j < iv {
                                assert(f.entries@[j].0 == q);
                            } else {
                                assert(f.entries@[j - 1].0 == q);
                            }
                        }
                    }
                    assert forall|i2: int, j2: int|
                        0 <= i2 < j2 < f.entries@.len() implies (#[trigger] f.entries@[i2].0)
                        != (#[trigger] f.entries@[j2].0) by {
                        let a: int = if i2 < iv {
                            i2
                        } else {
                            i2 + 1
                        };
                        let b: int = if j2 < iv {
                            j2
                        } else {
                            j2 + 1
                        };
                        assert(f.entries@[i2] == o.entries@[a] && f.entries@[j2] == o.entries@[b]);
                    }
                    assert forall|q: u64| f.spec_contains(q) implies #[trigger] f.spec_get(q)
                        == o.spec_get(q) by {
                        let j = f.key_index(q);
                        assert(f.entries@[j].0 == q);
                        let a: int = if j < iv {
                            j
                        } else {
                            j + 1
                        };
                        assert(o.entries@[a] == f.entries@[j]);
                        assert(o.key_index(q) == a);
                    }
                    assert(f@ =~= o@.remove(k));
                    assert(o.key_index(k) == iv);
                }
                Some(entry.1)
            },
            None => {
                proof {
                    assert(self@ =~= o@.remove(k));
                }
                None
            },
        }
    }
}

} // verus!
