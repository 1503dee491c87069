//! A bounded map from request fingerprints to the previous hop, with
//! time-based eviction: each insertion sweeps out up to a batch of entries
//! older than the eviction timeout, and evicts the oldest entry if the cache
//! is still full.

use vstd::prelude::*;

use crate::assoc::ByteKeyMap;
use crate::bytes_util::clone_bytes;
use crate::types::{CryptoHash, PeerId};

verus! {

/// Whether an entry inserted at `t` has reached the eviction timeout at
/// `now`.
pub open spec fn is_stale(t: u64, now: u64, timeout: u64) -> bool {
    t + timeout <= now
}

/// How many entries of the sequence are stale.
pub open spec fn stale_count(s: Seq<(Vec<u8>, (PeerId, u64))>, now: u64, timeout: u64) -> int
    decreases s.len(),
{
    if s.len() == 0 {
        0
    } else {
        stale_count(s.drop_last(), now, timeout) + if is_stale(s.last().1.1, now, timeout) {
            1int
        } else {
            0int
        }
    }
}

/// The stale count lies between zero and the length.
proof fn lemma_stale_count_bounds(s: Seq<(Vec<u8>, (PeerId, u64))>, now: u64, timeout: u64)
    ensures
        0 <= stale_count(s, now, timeout) <= s.len(),
    decreases s.len(),
{
    if s.len() > 0 {
        lemma_stale_count_bounds(s.drop_last(), now, timeout);
    }
}

/// Taking one entry out lowers the stale count by one if the entry was
/// stale, else leaves it.
proof fn lemma_stale_count_remove(s: Seq<(Vec<u8>, (PeerId, u64))>, i: int, now: u64, timeout: u64)
    requires
        0 <= i < s.len(),
    ensures
        stale_count(s.remove(i), now, timeout) == stale_count(s, now, timeout) - (if is_stale(
            s[i].1.1,
            now,
            timeout,
        ) {
            1int
        } else {
            0int
        }),
    decreases s.len(),
{
    if i == s.len() - 1 {
        assert(s.remove(i) =~= s.drop_last());
    } else {
        assert(s.remove(i).drop_last() =~= s.drop_last().remove(i));
        assert(s.remove(i).last() == s.last());
        lemma_stale_count_remove(s.drop_last(), i, now, timeout);
    }
}

/// With a stale count of zero, no entry is stale.
proof fn lemma_stale_count_zero(s: Seq<(Vec<u8>, (PeerId, u64))>, now: u64, timeout: u64)
    requires
        stale_count(s, now, timeout) == 0,
    ensures
        forall|t: int| 0 <= t < s.len() ==> !is_stale((#[trigger] s[t]).1.1, now, timeout),
    decreases s.len(),
{
    if s.len() > 0 {
        lemma_stale_count_bounds(s.drop_last(), now, timeout);
        lemma_stale_count_zero(s.drop_last(), now, timeout);
        assert forall|t: int| 0 <= t < s.len() implies !is_stale(
            (#[trigger] s[t]).1.1,
            now,
            timeout,
        ) by {
            if t < s.len() - 1 {
                assert(s.drop_last()[t] == s[t]);
            }
        }
    }
}

/// The route-back cache: request fingerprint to the peer the request came
/// from and the time it was recorded.
pub struct RouteBackCache {
    capacity: u64,
    evict_timeout: u64,
    remove_batch: u64,
    entries: ByteKeyMap<(PeerId, u64)>,
}

impl RouteBackCache {
    /// Most entries the cache holds.
    pub closed spec fn spec_capacity(self) -> u64 {
        self.capacity
    }

    /// Age in milliseconds from which an entry may be swept out.
    pub closed spec fn spec_evict_timeout(self) -> u64 {
        self.evict_timeout
    }

    /// Most entries one insertion sweeps out.
    pub closed spec fn spec_remove_batch(self) -> u64 {
        self.remove_batch
    }

    /// The map held: fingerprint to previous hop and insertion time.
    pub closed spec fn view(self) -> Map<Seq<u8>, (PeerId, u64)> {
        self.entries@
    }

    /// How many entries are stale at `now`.
    pub closed spec fn spec_stale_count(self, now: u64) -> int {
        stale_count(self.entries.entries_view(), now, self.evict_timeout)
    }

    /// Entry keys are distinct and the capacity is respected.
    pub closed spec fn wf(self) -> bool {
        &&& self.entries.wf()
        &&& self.capacity >= 1
        &&& self.capacity as int <= usize::MAX as int
        &&& self.entries.spec_len() <= self.capacity
    }

    /// An empty cache with the given bounds.
    pub fn new(capacity: u64, evict_timeout: u64, remove_batch: u64) -> (r: RouteBackCache)
        requires
            capacity >= 1,
            capacity as int <= usize::MAX as int,
        ensures
            r.wf(),
            r@ == Map::<Seq<u8>, (PeerId, u64)>::empty(),
            r.spec_capacity() == capacity,
            r.spec_evict_timeout() == evict_timeout,
            r.spec_remove_batch() == remove_batch,
    {
        RouteBackCache { capacity, evict_timeout, remove_batch, entries: ByteKeyMap::new() }
    }

    /// The previous hop recorded for this fingerprint, if any.
    pub fn get(&self, hash: &CryptoHash) -> (r: Option<&PeerId>)
        requires
            self.wf(),
        ensures
            match r {
                Some(p) => self@.contains_key(hash@) && *p == self@[hash@].0,
                None => !self@.contains_key(hash@),
            },
    {
        match self.entries.get(&hash.bytes) {
            Some(v) => Some(&v.0),
            None => None,
        }
    }

    /// Take the previous hop recorded for this fingerprint out of the cache.
    pub fn remove(&mut self, hash: &CryptoHash) -> (r: Option<PeerId>)
        requires
            old(self).wf(),
        ensures
            final(self).wf(),
            final(self)@ == old(self)@.remove(hash@),
            final(self).spec_capacity() == old(self).spec_capacity(),
            final(self).spec_evict_timeout() == old(self).spec_evict_timeout(),
            final(self).spec_remove_batch() == old(self).spec_remove_batch(),
            match r {
                Some(p) => old(self)@.contains_key(hash@) && p == old(self)@[hash@].0,
                None => !old(self)@.contains_key(hash@),
            },
    {
        match self.entries.remove(&hash.bytes) {
            Some(v) => Some(v.0),
            None => None,
        }
    }

    /// Record the previous hop for a fingerprint at time `now`.
    ///
    /// Entries older than the eviction timeout are swept out, at most a
    /// batch of them per insertion; if at most a batch of entries was stale,
    /// no stale entry survives. If the cache is still full, the oldest entry
    /// is evicted.
    pub fn insert(&mut self, hash: CryptoHash, peer_id: PeerId, now: u64)
        requires
            old(self).wf(),
        ensures
            final(self).wf(),
            final(self).spec_capacity() == old(self).spec_capacity(),
            final(self).spec_evict_timeout() == old(self).spec_evict_timeout(),
            final(self).spec_remove_batch() == old(self).spec_remove_batch(),
            final(self)@.contains_key(hash@),
            final(self)@[hash@] == (peer_id, now),
            // What stays was there, unchanged.
            forall|k: Seq<u8>|
                #[trigger] final(self)@.contains_key(k) && k != hash@
                    ==> old(self)@.contains_key(k) && final(self)@[k] == old(self)@[k],
            // What goes is stale, or was the oldest entry of a full cache.
            forall|k: Seq<u8>|
                #[trigger] old(self)@.contains_key(k) && k != hash@
                    && !final(self)@.contains_key(k) ==> is_stale(
                    old(self)@[k].1,
                    now,
                    old(self).spec_evict_timeout(),
                ) || (forall|k2: Seq<u8>|
                    #[trigger] final(self)@.contains_key(k2) && k2 != hash@ ==> old(self)@[k].1
                        <= old(self)@[k2].1),
            // With at most a batch of stale entries, the sweep gets them all.
            old(self).spec_stale_count(now) <= old(self).spec_remove_batch() ==> (forall|
                k: Seq<u8>,
            |
                #[trigger] final(self)@.contains_key(k) && k != hash@ ==> !is_stale(
                    final(self)@[k].1,
                    now,
                    old(self).spec_evict_timeout(),
                )),
    {
        let ghost o = *self;
        let key = clone_bytes(&hash.bytes);
        let prior = self.entries.remove(&hash.bytes);
        let ghost o1 = *self;
        proof {
            if o.entries@.contains_key(hash@) {
                o.entries.lemma_view_in_entries(hash@);
                lemma_stale_count_remove(
                    o.entries.entries_view(),
                    o.entries.key_index(hash@),
                    now,
                    self.evict_timeout,
                );
            }
            lemma_stale_count_bounds(o1.entries.entries_view(), now, self.evict_timeout);
        }
        let timeout = self.evict_timeout;
        let batch = self.remove_batch;
        let mut removed: u64 = 0;
        let mut i: usize = 0;
        while i < self.entries.len() && removed < batch
            invariant
                self.entries.wf(),
                self.capacity == o.capacity && self.evict_timeout == o.evict_timeout
                    && self.remove_batch == o.remove_batch,
                timeout == o.evict_timeout && batch == o.remove_batch,
                self.entries.spec_len() <= o1.entries.spec_len(),
                i <= self.entries.spec_len(),
                removed <= batch,
                forall|j: int|
                    0 <= j < i ==> !is_stale(
                        (#[trigger] self.entries.entries_view()[j]).1.1,
                        now,
                        timeout,
                    ),
                forall|k: Seq<u8>|
                    #[trigger] self.entries@.contains_key(k) ==> o1.entries@.contains_key(k)
                        && self.entries@[k] == o1.entries@[k],
                forall|k: Seq<u8>|
                    #[trigger] o1.entries@.contains_key(k) && !self.entries@.contains_key(k)
                        ==> is_stale(o1.entries@[k].1, now, timeout),
                stale_count(self.entries.entries_view(), now, timeout) == stale_count(
                    o1.entries.entries_view(),
                    now,
                    timeout,
                ) - removed,
            decreases self.entries.spec_len() - i,
        {
            let (stale, kk) = {
                let e = self.entries.entry_at(i);
                let t = e.1.1;
                (now >= t && now - t >= timeout, clone_bytes(&e.0))
            };
            if stale {
                proof {
                    self.entries.lemma_entry_in_view(i as int);
                    assert(self.entries.key_index(kk@) == i as int);
                    lemma_stale_count_remove(self.entries.entries_view(), i as int, now, timeout);
                    lemma_stale_count_bounds(
                        self.entries.entries_view().remove(i as int),
                        now,
                        timeout,
                    );
                }
                let ghost before = *self;
                self.entries.remove(&kk);
                removed += 1;
                proof {
                    assert forall|j: int|
                        0 <= j < i implies !is_stale(
                        (#[trigger] self.entries.entries_view()[j]).1.1,
                        now,
                        timeout,
                    ) by {
                        assert(self.entries.entries_view()[j]
                            == before.entries.entries_view()[j]);
                    }
                }
            } else {
                i += 1;
            }
        }
        let ghost after_sweep = *self;
        proof {
            // Either every entry was scanned and the survivors are fresh, or
            // the batch was exhausted; in the latter case, if at most a
            // batch of entries was stale, the count has reached zero.
            if stale_count(o1.entries.entries_view(), now, timeout) <= batch {
                lemma_stale_count_bounds(self.entries.entries_view(), now, timeout);
                if i >= self.entries.spec_len() {
                } else {
                    assert(removed == batch);
                }
                assert(stale_count(self.entries.entries_view(), now, timeout) == 0 || (forall|
                    j: int,
                |
                    0 <= j < self.entries.entries_view().len() ==> !is_stale(
                        (#[trigger] self.entries.entries_view()[j]).1.1,
                        now,
                        timeout,
                    )));
                if stale_count(self.entries.entries_view(), now, timeout) == 0 {
                    lemma_stale_count_zero(self.entries.entries_view(), now, timeout);
                }
                assert forall|k: Seq<u8>|
                    #[trigger] after_sweep.entries@.contains_key(k) implies !is_stale(
                    after_sweep.entries@[k].1,
                    now,
                    timeout,
                ) by {
                    after_sweep.entries.lemma_view_in_entries(k);
                }
            }
        }
        let ghost mut evicted: Option<Seq<u8>> = None;
        if self.entries.len() as u64 >= self.capacity {
            // Still full: evict the oldest entry.
            let n = self.entries.len();
            let mut best: usize = 0;
            let mut best_t: u64 = {
                let e = self.entries.entry_at(0);
                e.1.1
            };
            let mut j: usize = 1;
            while j < n
                invariant
                    self.entries.wf(),
                    n == self.entries.spec_len(),
                    1 <= n,
                    best < n,
                    j <= n,
                    best_t == self.entries.entries_view()[best as int].1.1,
                    forall|t: int|
                        0 <= t < j ==> best_t <= (#[trigger] self.entries.entries_view()[t]).1.1,
                decreases n - j,
            {
                let t = {
                    let e = self.entries.entry_at(j);
                    e.1.1
                };
                if t < best_t {
                    best = j;
                    best_t = t;
                }
                j += 1;
            }
            let bk = {
                let e = self.entries.entry_at(best);
                clone_bytes(&e.0)
            };
            proof {
                self.entries.lemma_entry_in_view(best as int);
                assert(self.entries@.contains_key(bk@));
                assert forall|k2: Seq<u8>| #[trigger]
                    self.entries@.contains_key(k2) implies self.entries@[bk@].1
                    <= self.entries@[k2].1 by {
                    self.entries.lemma_view_in_entries(k2);
                }
                evicted = Some(bk@);
            }
            self.entries.remove(&bk);
        }
        let ghost after_evict = *self;
        proof {
            lemma_stale_count_bounds(self.entries.entries_view(), now, timeout);
        }
        self.entries.insert(key, (peer_id, now));
        proof {
            let f = *self;
            assert forall|k: Seq<u8>|
                #[trigger] o@.contains_key(k) && k != hash@ && !f@.contains_key(k) implies
                is_stale(o@[k].1, now, o.evict_timeout) || (forall|k2: Seq<u8>|
                #[trigger] f@.contains_key(k2) && k2 != hash@ ==> o@[k].1 <= o@[k2].1) by {
                assert(o1@.contains_key(k) && o1@[k] == o@[k]);
                if !after_sweep@.contains_key(k) {
                    assert(is_stale(o1@[k].1, now, timeout));
                } else {
                    assert(!after_evict@.contains_key(k));
                    assert(evicted == Some(k));
                    assert forall|k2: Seq<u8>|
                        #[trigger] f@.contains_key(k2) && k2 != hash@ implies o@[k].1
                        <= o@[k2].1 by {
                        assert(after_evict@.contains_key(k2) && after_evict@[k2] == f@[k2]);
                        assert(after_sweep@.contains_key(k2) && after_sweep@[k2]
                            == after_evict@[k2]);
                        assert(after_sweep@[k].1 <= after_sweep@[k2].1);
                        assert(o1@.contains_key(k2) && o1@[k2] == after_sweep@[k2]);
                    }
                }
            }
        }
    }
}

} // verus!
