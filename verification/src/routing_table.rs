//! The query side of the routing core: forwarding with round-robin next-hop
//! selection, the route-back cache, account announcements, and ping/pong
//! bookkeeping.

use vstd::prelude::*;

use crate::assoc::{pair_view, ByteKeyMap, PairKeyMap};
use crate::bytes_util::{bytes_lt, clone_bytes, lemma_lex_lt_transitive, lemma_lex_lt_trichotomy, lex_lt};
use crate::cache::{SizedByteCache, SizedU64Cache};
use crate::edge::Edge;
use crate::route_back::RouteBackCache;
use crate::store::Store;
use crate::types::{
    AccountId, AnnounceAccount, CryptoHash, FindRouteError, PeerId, PeerIdOrHash, Ping, Pong,
};
use crate::{
    ANNOUNCE_ACCOUNT_CACHE_SIZE, PING_PONG_CACHE_SIZE, ROUND_ROBIN_MAX_NONCE_DIFFERENCE_ALLOWED,
    ROUND_ROBIN_NONCE_CACHE_SIZE, ROUTE_BACK_CACHE_EVICT_TIMEOUT, ROUTE_BACK_CACHE_REMOVE_BATCH,
    ROUTE_BACK_CACHE_SIZE,
};

verus! {

/// The routing nonce a next-hop peer currently carries: its cache entry, or
/// zero if it has none.
pub open spec fn nonce_of(m: Map<Seq<u8>, u64>, q: Seq<u8>) -> int {
    if m.contains_key(q) {
        m[q] as int
    } else {
        0
    }
}

/// The round-robin preference order among next hops: smaller nonce first,
/// ties broken by lexicographic key order.
pub open spec fn sel_le(m: Map<Seq<u8>, u64>, a: Seq<u8>, b: Seq<u8>) -> bool {
    ||| nonce_of(m, a) < nonce_of(m, b)
    ||| (nonce_of(m, a) == nonce_of(m, b) && (a == b || lex_lt(a, b)))
}

/// The largest routing nonce among the candidates, or zero of none.
pub open spec fn max_nonce(m: Map<Seq<u8>, u64>, s: Seq<PeerId>) -> int
    decreases s.len(),
{
    if s.len() == 0 {
        0
    } else {
        let rest = max_nonce(m, s.drop_last());
        if nonce_of(m, s.last()@) > rest {
            nonce_of(m, s.last()@)
        } else {
            rest
        }
    }
}

/// The largest nonce among candidates depends only on their identities.
pub proof fn lemma_max_nonce_congruence(m: Map<Seq<u8>, u64>, s1: Seq<PeerId>, s2: Seq<PeerId>)
    requires
        s1.len() == s2.len(),
        forall|i: int| 0 <= i < s1.len() ==> (#[trigger] s1[i])@ == s2[i]@,
    ensures
        max_nonce(m, s1) == max_nonce(m, s2),
    decreases s1.len(),
{
    if s1.len() > 0 {
        assert forall|i: int| 0 <= i < s1.len() - 1 implies (#[trigger] s1.drop_last()[i])@
            == s2.drop_last()[i]@ by {
            assert(s1[i]@ == s2[i]@);
        }
        lemma_max_nonce_congruence(m, s1.drop_last(), s2.drop_last());
        assert(s1.last()@ == s2.last()@);
    }
}

/// The preference order is transitive.
pub proof fn lemma_sel_le_trans(m: Map<Seq<u8>, u64>, a: Seq<u8>, b: Seq<u8>, c: Seq<u8>)
    requires
        sel_le(m, a, b),
        sel_le(m, b, c),
    ensures
        sel_le(m, a, c),
{
    if nonce_of(m, a) == nonce_of(m, b) && nonce_of(m, b) == nonce_of(m, c) {
        if a != b && b != c && lex_lt(a, b) && lex_lt(b, c) {
            lemma_lex_lt_transitive(a, b, c);
            lemma_lex_lt_trichotomy(a, c);
        }
    }
}

/// Whether two announcements carry the same account, peer, epoch and
/// signature.
pub open spec fn ann_eq(a: AnnounceAccount, b: AnnounceAccount) -> bool {
    &&& a.account_id@ == b.account_id@
    &&& a.peer_id@ == b.peer_id@
    &&& a.epoch_id@ == b.epoch_id@
    &&& a.signature@ == b.signature@
}

/// The edge log without signatures, as handed out for reconciliation.
pub struct GetRoutingTableResult {
    pub edges_info: Vec<crate::edge::SimpleEdge>,
}

/// A snapshot of what the routing table knows: announced accounts and the
/// forwarding map.
pub struct RoutingTableInfo {
    pub account_peers: Vec<(AccountId, PeerId)>,
    pub peer_forwarding: Vec<(PeerId, Vec<PeerId>)>,
}

/// The routing table: the forwarding map, the signed-edge log, the
/// route-back cache, announced accounts backed by the store, and ping/pong
/// bookkeeping.
pub struct RoutingTable {
    account_peers: SizedByteCache<AnnounceAccount>,
    peer_forwarding: ByteKeyMap<Vec<PeerId>>,
    edges_info: PairKeyMap<Edge>,
    route_back: RouteBackCache,
    store: Store,
    route_nonce: SizedByteCache<u64>,
    ping_info: SizedU64Cache<(Ping, u64)>,
    pong_info: SizedU64Cache<(Pong, u64)>,
    waiting_pong: SizedByteCache<SizedU64Cache<u64>>,
    last_ping_nonce: SizedByteCache<u64>,
}

impl RoutingTable {
    /// The forwarding map: destination to the next hops toward it.
    pub closed spec fn spec_forwarding(self) -> Map<Seq<u8>, Vec<PeerId>> {
        self.peer_forwarding@
    }

    /// The routing nonces of the next hops.
    pub closed spec fn spec_route_nonce(self) -> Map<Seq<u8>, u64> {
        self.route_nonce@
    }

    /// The route-back cache.
    pub closed spec fn spec_route_back(self) -> Map<Seq<u8>, (PeerId, u64)> {
        self.route_back@
    }

    /// Age in milliseconds from which a route-back entry may be swept out.
    pub closed spec fn spec_route_back_timeout(self) -> u64 {
        self.route_back.spec_evict_timeout()
    }

    /// Most route-back entries one insertion sweeps out.
    pub closed spec fn spec_route_back_batch(self) -> u64 {
        self.route_back.spec_remove_batch()
    }

    /// How many route-back entries are stale at `now`.
    pub closed spec fn spec_route_back_stale_count(self, now: u64) -> int {
        self.route_back.spec_stale_count(now)
    }

    /// The edge log: canonical endpoint pair to its freshest edge.
    pub closed spec fn spec_edges(self) -> Map<(Seq<u8>, Seq<u8>), Edge> {
        self.edges_info@
    }

    /// The cached announcements.
    pub closed spec fn spec_account_cache(self) -> Map<Seq<u8>, AnnounceAccount> {
        self.account_peers@
    }

    /// The announcements persisted in the store.
    pub closed spec fn spec_account_store(self) -> Map<Seq<u8>, AnnounceAccount> {
        self.store.spec_announcements()
    }

    /// The announcement the table would answer with for an account: the
    /// cached one, else the stored one.
    pub open spec fn spec_announcement(self, a: Seq<u8>) -> Option<AnnounceAccount> {
        if self.spec_account_cache().contains_key(a) {
            Some(self.spec_account_cache()[a])
        } else if self.spec_account_store().contains_key(a) {
            Some(self.spec_account_store()[a])
        } else {
            None
        }
    }

    /// Ping tallies by nonce.
    pub closed spec fn spec_ping_info(self) -> Map<u64, (Ping, u64)> {
        self.ping_info@
    }

    /// Pong tallies by nonce.
    pub closed spec fn spec_pong_info(self) -> Map<u64, (Pong, u64)> {
        self.pong_info@
    }

    /// Pings sent and not yet answered: per target, nonce to send time.
    pub closed spec fn spec_waiting_pong(self) -> Map<Seq<u8>, SizedU64Cache<u64>> {
        self.waiting_pong@
    }

    /// The last ping nonce handed out per peer.
    pub closed spec fn spec_last_ping_nonce(self) -> Map<Seq<u8>, u64> {
        self.last_ping_nonce@
    }

    /// All components are internally consistent.
    pub closed spec fn wf(self) -> bool {
        &&& self.account_peers.wf()
        &&& self.peer_forwarding.wf()
        &&& self.edges_info.wf()
        &&& self.route_back.wf()
        &&& self.store.wf()
        &&& self.route_nonce.wf()
        &&& self.ping_info.wf()
        &&& self.pong_info.wf()
        &&& self.waiting_pong.wf()
        &&& self.last_ping_nonce.wf()
        &&& (forall|k: Seq<u8>|
            #[trigger] self.waiting_pong@.contains_key(k) ==> self.waiting_pong@[k].wf())
        &&& (forall|k: Seq<u8>|
            #[trigger] self.account_peers@.contains_key(k) ==> self.account_peers@[k].account_id@
                == k)
    }

    /// A fresh routing table over the given store.
    pub fn new(store: Store) -> (r: RoutingTable)
        requires
            store.wf(),
        ensures
            r.wf(),
            r.spec_forwarding() == Map::<Seq<u8>, Vec<PeerId>>::empty(),
            r.spec_route_nonce() == Map::<Seq<u8>, u64>::empty(),
            r.spec_route_back() == Map::<Seq<u8>, (PeerId, u64)>::empty(),
            r.spec_edges() == Map::<(Seq<u8>, Seq<u8>), Edge>::empty(),
            r.spec_account_cache() == Map::<Seq<u8>, AnnounceAccount>::empty(),
            r.spec_account_store() == store.spec_announcements(),
            r.spec_route_nonce_len() == 0,
            r.spec_route_nonce_capacity() == ROUND_ROBIN_NONCE_CACHE_SIZE as int,
            r.spec_route_back_timeout() == ROUTE_BACK_CACHE_EVICT_TIMEOUT,
            r.spec_route_back_batch() == ROUTE_BACK_CACHE_REMOVE_BATCH,
    {
        RoutingTable {
            account_peers: SizedByteCache::with_size(ANNOUNCE_ACCOUNT_CACHE_SIZE),
            peer_forwarding: ByteKeyMap::new(),
            edges_info: PairKeyMap::new(),
            route_back: RouteBackCache::new(
                ROUTE_BACK_CACHE_SIZE,
                ROUTE_BACK_CACHE_EVICT_TIMEOUT,
                ROUTE_BACK_CACHE_REMOVE_BATCH,
            ),
            store,
            route_nonce: SizedByteCache::with_size(ROUND_ROBIN_NONCE_CACHE_SIZE),
            ping_info: SizedU64Cache::with_size(PING_PONG_CACHE_SIZE),
            pong_info: SizedU64Cache::with_size(PING_PONG_CACHE_SIZE),
            waiting_pong: SizedByteCache::with_size(PING_PONG_CACHE_SIZE),
            last_ping_nonce: SizedByteCache::with_size(PING_PONG_CACHE_SIZE),
        }
    }

    /// Replace the forwarding map, as recomputed from the graph.
    pub fn set_peer_forwarding(&mut self, peer_forwarding: ByteKeyMap<Vec<PeerId>>)
        requires
            old(self).wf(),
            peer_forwarding.wf(),
        ensures
            final(self).wf(),
            final(self).spec_forwarding() == peer_forwarding@,
            final(self).spec_route_nonce() == old(self).spec_route_nonce(),
            final(self).spec_route_back() == old(self).spec_route_back(),
            final(self).spec_edges() == old(self).spec_edges(),
            final(self).spec_account_cache() == old(self).spec_account_cache(),
            final(self).spec_account_store() == old(self).spec_account_store(),
    {
        self.peer_forwarding = peer_forwarding;
    }

    /// The peers currently reachable: the keys of the forwarding map.
    pub fn reachable_peers(&self) -> (r: Vec<PeerId>)
        requires
            self.wf(),
        ensures
            forall|i: int|
                0 <= i < r@.len() ==> self.spec_forwarding().contains_key((#[trigger] r@[i])@),
            r@.len() == self.spec_forwarding().len() || (forall|k: Seq<u8>|
                self.spec_forwarding().contains_key(k) ==> exists|i: int|
                    0 <= i < r@.len() && (#[trigger] r@[i])@ == k),
    {
        let n = self.peer_forwarding.len();
        let mut r: Vec<PeerId> = Vec::new();
        let mut i: usize = 0;
        while i < n
            invariant
                self.wf(),
                n == self.peer_forwarding.spec_len(),
                i <= n,
                r@.len() == i,
                forall|j: int|
                    0 <= j < i ==> (#[trigger] r@[j])@
                        == self.peer_forwarding.entries_view()[j].0@,
            decreases n - i,
        {
            let e = self.peer_forwarding.entry_at(i);
            r.push(PeerId { key: clone_bytes(&e.0) });
            i += 1;
        }
        proof {
            assert forall|i2: int|
                0 <= i2 < r@.len() implies self.spec_forwarding().contains_key(
                (#[trigger] r@[i2])@,
            ) by {
                self.peer_forwarding.lemma_entry_in_view(i2);
            }
            assert forall|k: Seq<u8>|
                self.spec_forwarding().contains_key(k) implies exists|i2: int|
                0 <= i2 < r@.len() && (#[trigger] r@[i2])@ == k by {
                self.peer_forwarding.lemma_view_in_entries(k);
                let j = self.peer_forwarding.key_index(k);
                assert(r@[j]@ == k);
            }
        }
        r
    }

    /// Record the previous hop of a request, for routing its response back.
    ///
    /// The insertion sweeps out entries older than the eviction timeout, at
    /// most a batch of them; if at most a batch of entries was stale, no
    /// stale entry survives.
    pub fn add_route_back(&mut self, hash: CryptoHash, peer_id: PeerId, now: u64)
        requires
            old(self).wf(),
        ensures
            final(self).wf(),
            final(self).spec_route_back().contains_key(hash@),
            final(self).spec_route_back()[hash@] == (peer_id, now),
            final(self).spec_route_back_timeout() == old(self).spec_route_back_timeout(),
            final(self).spec_route_back_batch() == old(self).spec_route_back_batch(),
            forall|k: Seq<u8>|
                #[trigger] final(self).spec_route_back().contains_key(k) && k != hash@ ==> old(
                    self,
                ).spec_route_back().contains_key(k) && final(self).spec_route_back()[k] == old(
                    self,
                ).spec_route_back()[k],
            forall|k: Seq<u8>|
                #[trigger] old(self).spec_route_back().contains_key(k) && k != hash@
                    && !final(self).spec_route_back().contains_key(k) ==> crate::route_back::is_stale(
                    old(self).spec_route_back()[k].1,
                    now,
                    old(self).spec_route_back_timeout(),
                ) || (forall|k2: Seq<u8>|
                    #[trigger] final(self).spec_route_back().contains_key(k2) && k2 != hash@
                        ==> old(self).spec_route_back()[k].1 <= old(self).spec_route_back()[k2].1),
            old(self).spec_route_back_stale_count(now) <= old(self).spec_route_back_batch() ==> (
            forall|k: Seq<u8>|
                #[trigger] final(self).spec_route_back().contains_key(k) && k != hash@
                    ==> !crate::route_back::is_stale(
                    final(self).spec_route_back()[k].1,
                    now,
                    old(self).spec_route_back_timeout(),
                )),
            final(self).spec_forwarding() == old(self).spec_forwarding(),
            final(self).spec_route_nonce() == old(self).spec_route_nonce(),
            final(self).spec_edges() == old(self).spec_edges(),
    {
        self.route_back.insert(hash, peer_id, now);
    }

    /// Take the previous hop recorded for this fingerprint out of the cache.
    fn fetch_route_back(&mut self, hash: &CryptoHash) -> (r: Option<PeerId>)
        requires
            old(self).wf(),
        ensures
            final(self).wf(),
            final(self).spec_route_back() == old(self).spec_route_back().remove(hash@),
            match r {
                Some(p) => old(self).spec_route_back().contains_key(hash@) && p == old(
                    self,
                ).spec_route_back()[hash@].0,
                None => !old(self).spec_route_back().contains_key(hash@),
            },
            final(self).spec_forwarding() == old(self).spec_forwarding(),
            final(self).spec_route_nonce() == old(self).spec_route_nonce(),
            final(self).spec_edges() == old(self).spec_edges(),
    {
        self.route_back.remove(hash)
    }

    /// Whether this fingerprint is recorded with this peer as previous hop.
    pub fn compare_route_back(&mut self, hash: CryptoHash, peer_id: &PeerId) -> (r: bool)
        requires
            old(self).wf(),
        ensures
            *final(self) == *old(self),
            r == (old(self).spec_route_back().contains_key(hash@)
                && old(self).spec_route_back()[hash@].0@ == peer_id@),
    {
        match self.route_back.get(&hash) {
            Some(p) => crate::bytes_util::bytes_eq(&p.key, &peer_id.key),
            None => false,
        }
    }

    /// The next hop toward a destination peer: the candidate with the least
    /// routing nonce, ties broken by lexicographic key order. The chosen
    /// hop's nonce is bumped; a candidate whose nonce lags the largest by
    /// more than the allowed difference is first pulled up to that bound.
    pub fn find_route_from_peer_id(&mut self, peer_id: &PeerId) -> (r: Result<
        PeerId,
        FindRouteError,
    >)
        requires
            old(self).wf(),
        ensures
            final(self).wf(),
            final(self).spec_forwarding() == old(self).spec_forwarding(),
            final(self).spec_route_back() == old(self).spec_route_back(),
            final(self).spec_edges() == old(self).spec_edges(),
            final(self).spec_account_cache() == old(self).spec_account_cache(),
            r == Err::<PeerId, FindRouteError>(FindRouteError::PeerNotFound) <==> !old(
                self,
            ).spec_forwarding().contains_key(peer_id@),
            r == Err::<PeerId, FindRouteError>(FindRouteError::Disconnected) <==> (old(
                self,
            ).spec_forwarding().contains_key(peer_id@) && old(self).spec_forwarding()[peer_id@]@.len()
                == 0),
            old(self).spec_forwarding().contains_key(peer_id@)
                && old(self).spec_forwarding()[peer_id@]@.len() > 0 ==> r is Ok,
            r is Err ==> final(self).spec_route_nonce() == old(self).spec_route_nonce(),
            final(self).spec_route_nonce_capacity() == old(self).spec_route_nonce_capacity(),
            final(self).spec_route_nonce_len() <= old(self).spec_route_nonce_len() + 1,
            r matches Ok(h) ==> {
                let cands = old(self).spec_forwarding()[peer_id@]@;
                let m = old(self).spec_route_nonce();
                let mx = max_nonce(m, cands);
                let sel = h@;
                &&& old(self).spec_forwarding().contains_key(peer_id@)
                &&& cands.len() > 0
                &&& (exists|i: int| 0 <= i < cands.len() && (#[trigger] cands[i])@ == sel)
                &&& (forall|i: int| 0 <= i < cands.len() ==> sel_le(m, sel, (#[trigger] cands[i])@))
                &&& nonce_of(final(self).spec_route_nonce(), sel) == (if nonce_of(m, sel)
                    + ROUND_ROBIN_MAX_NONCE_DIFFERENCE_ALLOWED < mx {
                    mx - ROUND_ROBIN_MAX_NONCE_DIFFERENCE_ALLOWED + 1
                } else if nonce_of(m, sel) < u64::MAX {
                    nonce_of(m, sel) + 1
                } else {
                    u64::MAX as int
                })
                &&& (old(self).route_nonce_has_room() ==> (forall|q: Seq<u8>|
                    q != sel ==> nonce_of(final(self).spec_route_nonce(), q) == nonce_of(m, q)))
            },
    {
        let cands: Vec<PeerId> = match self.peer_forwarding.get(&peer_id.key) {
            None => {
                return Err(FindRouteError::PeerNotFound);
            },
            Some(v) => clone_peer_vec(v),
        };
        if cands.len() == 0 {
            return Err(FindRouteError::Disconnected);
        }
        let ghost m = self.route_nonce@;
        let n = cands.len();
        let mut best: usize = 0;
        let mut best_n: u64 = self.nonce_lookup(&cands[0]);
        let mut max_n: u64 = best_n;
        proof {
            assert(cands@.take(1).drop_last() =~= Seq::<PeerId>::empty());
            assert(max_nonce(m, Seq::<PeerId>::empty()) == 0);
            assert(cands@.take(1).last() == cands@[0]);
            assert(max_nonce(m, cands@.take(1)) == nonce_of(m, cands@[0]@));
        }
        let mut i: usize = 1;
        while i < n
            invariant
                self.wf(),
                self.route_nonce@ == m,
                n == cands@.len(),
                1 <= i <= n,
                best < i,
                best_n == nonce_of(m, cands@[best as int]@),
                forall|j: int| 0 <= j < i ==> sel_le(m, cands@[best as int]@, (#[trigger] cands@[j])@),
                max_n == max_nonce(m, cands@.take(i as int)),
            decreases n - i,
        {
            let ghost prev_best = cands@[best as int]@;
            let cn = self.nonce_lookup(&cands[i]);
            if cn < best_n || (cn == best_n && bytes_lt(&cands[i].key, &cands[best].key)) {
                proof {
                    assert(sel_le(m, cands@[i as int]@, prev_best));
                    assert forall|j: int|
                        0 <= j < i + 1 implies sel_le(
                        m,
                        cands@[i as int]@,
                        (#[trigger] cands@[j])@,
                    ) by {
                        if j < i {
                            lemma_sel_le_trans(m, cands@[i as int]@, prev_best, cands@[j]@);
                        }
                    }
                }
                best = i;
                best_n = cn;
            } else {
                proof {
                    lemma_lex_lt_trichotomy(cands@[i as int]@, prev_best);
                    assert(sel_le(m, prev_best, cands@[i as int]@));
                }
            }
            if cn > max_n {
                max_n = cn;
            }
            proof {
                assert(cands@.take(i + 1).drop_last() =~= cands@.take(i as int));
                assert(cands@.take(i + 1).last() == cands@[i as int]);
            }
            i += 1;
        }
        proof {
            assert(cands@.take(n as int) =~= cands@);
        }
        if max_n > ROUND_ROBIN_MAX_NONCE_DIFFERENCE_ALLOWED && best_n < max_n
            - ROUND_ROBIN_MAX_NONCE_DIFFERENCE_ALLOWED {
            let key = clone_bytes(&cands[best].key);
            self.route_nonce.set(key, max_n - ROUND_ROBIN_MAX_NONCE_DIFFERENCE_ALLOWED);
        }
        let cur = self.nonce_lookup(&cands[best]);
        let bumped: u64 = if cur < u64::MAX {
            cur + 1
        } else {
            u64::MAX
        };
        let key = clone_bytes(&cands[best].key);
        self.route_nonce.set(key, bumped);
        proof {
            let orig = old(self).spec_forwarding()[peer_id@]@;
            lemma_max_nonce_congruence(m, orig, cands@);
            assert(orig[best as int]@ == cands@[best as int]@);
            assert forall|i: int|
                0 <= i < orig.len() implies sel_le(m, cands@[best as int]@, (#[trigger] orig[i])@) by {
                assert(orig[i]@ == cands@[i]@);
                assert(sel_le(m, cands@[best as int]@, cands@[i]@));
            }
        }
        Ok(cands[best].clone())
    }

    /// Whether the routing-nonce cache can take one more peer without
    /// dropping another.
    pub open spec fn route_nonce_has_room(self) -> bool {
        self.spec_route_nonce_len() < self.spec_route_nonce_capacity()
    }

    /// Number of routing nonces cached.
    pub closed spec fn spec_route_nonce_len(self) -> int {
        self.route_nonce.spec_len()
    }

    /// Capacity of the routing-nonce cache.
    pub closed spec fn spec_route_nonce_capacity(self) -> int {
        self.route_nonce.spec_capacity() as int
    }

    /// The routing nonce a next hop carries, zero if uncached.
    fn nonce_lookup(&self, peer: &PeerId) -> (r: u64)
        requires
            self.wf(),
        ensures
            r == nonce_of(self.route_nonce@, peer@),
    {
        match self.route_nonce.get(&peer.key) {
            Some(v) => *v,
            None => 0,
        }
    }

    /// The next hop for a destination: by peer identity through the
    /// forwarding map, or by request fingerprint through the route-back
    /// cache, consuming the entry.
    pub fn find_route(&mut self, target: &PeerIdOrHash) -> (r: Result<PeerId, FindRouteError>)
        requires
            old(self).wf(),
        ensures
            final(self).wf(),
            match target {
                PeerIdOrHash::PeerId(peer_id) => {
                    &&& final(self).spec_forwarding() == old(self).spec_forwarding()
                    &&& final(self).spec_route_back() == old(self).spec_route_back()
                    &&& final(self).spec_edges() == old(self).spec_edges()
                    &&& (r == Err::<PeerId, FindRouteError>(FindRouteError::PeerNotFound) <==> !old(
                        self,
                    ).spec_forwarding().contains_key(peer_id@))
                    &&& (r == Err::<PeerId, FindRouteError>(FindRouteError::Disconnected) <==> (old(
                        self,
                    ).spec_forwarding().contains_key(peer_id@)
                        && old(self).spec_forwarding()[peer_id@]@.len() == 0))
                    &&& (old(self).spec_forwarding().contains_key(peer_id@)
                        && old(self).spec_forwarding()[peer_id@]@.len() > 0 ==> r is Ok)
                    &&& (r is Err ==> final(self).spec_route_nonce() == old(self).spec_route_nonce())
                    &&& final(self).spec_route_nonce_capacity() == old(
                        self,
                    ).spec_route_nonce_capacity()
                    &&& final(self).spec_route_nonce_len() <= old(self).spec_route_nonce_len() + 1
                    &&& (r matches Ok(h) ==> {
                        let cands = old(self).spec_forwarding()[peer_id@]@;
                        let m = old(self).spec_route_nonce();
                        let mx = max_nonce(m, cands);
                        let sel = h@;
                        &&& cands.len() > 0
                        &&& (exists|i: int| 0 <= i < cands.len() && (#[trigger] cands[i])@ == sel)
                        &&& (forall|i: int|
                            0 <= i < cands.len() ==> sel_le(m, sel, (#[trigger] cands[i])@))
                        &&& nonce_of(final(self).spec_route_nonce(), sel) == (if nonce_of(m, sel)
                            + ROUND_ROBIN_MAX_NONCE_DIFFERENCE_ALLOWED < mx {
                            mx - ROUND_ROBIN_MAX_NONCE_DIFFERENCE_ALLOWED + 1
                        } else if nonce_of(m, sel) < u64::MAX {
                            nonce_of(m, sel) + 1
                        } else {
                            u64::MAX as int
                        })
                        &&& (old(self).route_nonce_has_room() ==> (forall|q: Seq<u8>|
                            q != sel ==> nonce_of(final(self).spec_route_nonce(), q) == nonce_of(
                                m,
                                q,
                            )))
                    })
                },
                PeerIdOrHash::Hash(hash) => {
                    &&& final(self).spec_route_back() == old(self).spec_route_back().remove(hash@)
                    &&& (r matches Ok(p) ==> old(self).spec_route_back().contains_key(hash@) && p
                        == old(self).spec_route_back()[hash@].0)
                    &&& (r is Err ==> r == Err::<PeerId, FindRouteError>(
                        FindRouteError::RouteBackNotFound,
                    ) && !old(self).spec_route_back().contains_key(hash@))
                },
            },
    {
        match target {
            PeerIdOrHash::PeerId(peer_id) => self.find_route_from_peer_id(peer_id),
            PeerIdOrHash::Hash(hash) => {
                match self.fetch_route_back(hash) {
                    Some(p) => Ok(p),
                    None => Err(FindRouteError::RouteBackNotFound),
                }
            },
        }
    }

    /// Cache an announcement and write it through to the store.
    pub fn add_account(&mut self, announce_account: AnnounceAccount)
        requires
            old(self).wf(),
        ensures
            final(self).wf(),
            final(self).spec_account_cache().contains_key(announce_account.account_id@),
            ann_eq(
                final(self).spec_account_cache()[announce_account.account_id@],
                announce_account,
            ),
            final(self).spec_account_store().contains_key(announce_account.account_id@),
            ann_eq(
                final(self).spec_account_store()[announce_account.account_id@],
                announce_account,
            ),
            forall|q: Seq<u8>|
                #[trigger] final(self).spec_account_cache().contains_key(q) && q
                    != announce_account.account_id@ ==> old(self).spec_account_cache().contains_key(
                    q,
                ) && final(self).spec_account_cache()[q] == old(self).spec_account_cache()[q],
            forall|q: Seq<u8>|
                #[trigger] old(self).spec_account_store().contains_key(q) && q
                    != announce_account.account_id@
                    ==> final(self).spec_account_store().contains_key(q)
                    && final(self).spec_account_store()[q]
                    == old(self).spec_account_store()[q],
            final(self).spec_forwarding() == old(self).spec_forwarding(),
            final(self).spec_route_nonce() == old(self).spec_route_nonce(),
            final(self).spec_route_back() == old(self).spec_route_back(),
            final(self).spec_edges() == old(self).spec_edges(),
    {
        let cache_key = clone_bytes(&announce_account.account_id.name);
        let store_key = clone_bytes(&announce_account.account_id.name);
        let stored = announce_account.clone();
        self.account_peers.set(cache_key, announce_account);
        self.store.set_announcement(store_key, stored);
    }

    /// The announcement for an account: from the cache, else loaded from the
    /// store and re-cached.
    pub fn get_announce(&mut self, account_id: &AccountId) -> (r: Option<AnnounceAccount>)
        requires
            old(self).wf(),
        ensures
            final(self).wf(),
            r is Some <==> old(self).spec_announcement(account_id@) is Some,
            r matches Some(x) ==> ann_eq(x, old(self).spec_announcement(account_id@)->0),
            final(self).spec_forwarding() == old(self).spec_forwarding(),
            final(self).spec_route_nonce() == old(self).spec_route_nonce(),
            final(self).spec_route_back() == old(self).spec_route_back(),
            final(self).spec_edges() == old(self).spec_edges(),
    {
        let cached = match self.account_peers.get(&account_id.name) {
            Some(a) => Some(a.clone()),
            None => None,
        };
        if let Some(a) = cached {
            return Some(a);
        }
        let loaded = match self.store.get_announcement(account_id) {
            Some(a) => Some(a.clone()),
            None => None,
        };
        match loaded {
            Some(a) => {
                let out = a.clone();
                self.add_account(a);
                Some(out)
            },
            None => None,
        }
    }

    /// Whether an announcement exists for this account with this epoch.
    pub fn contains_account(&mut self, announce_account: &AnnounceAccount) -> (r: bool)
        requires
            old(self).wf(),
        ensures
            final(self).wf(),
            r == (old(self).spec_announcement(announce_account.account_id@) matches Some(x)
                && x.epoch_id@ == announce_account.epoch_id@),
            final(self).spec_forwarding() == old(self).spec_forwarding(),
            final(self).spec_route_nonce() == old(self).spec_route_nonce(),
            final(self).spec_route_back() == old(self).spec_route_back(),
            final(self).spec_edges() == old(self).spec_edges(),
    {
        match self.get_announce(&announce_account.account_id) {
            Some(current) => crate::bytes_util::bytes_eq(
                &current.epoch_id.bytes,
                &announce_account.epoch_id.bytes,
            ),
            None => false,
        }
    }

    /// The peer that owns this account, per its current announcement.
    pub fn account_owner(&mut self, account_id: &AccountId) -> (r: Result<PeerId, FindRouteError>)
        requires
            old(self).wf(),
        ensures
            final(self).wf(),
            r matches Ok(p) ==> old(self).spec_announcement(account_id@) is Some && p@ == old(
                self,
            ).spec_announcement(account_id@)->0.peer_id@,
            r is Err ==> r == Err::<PeerId, FindRouteError>(FindRouteError::AccountNotFound) && old(
                self,
            ).spec_announcement(account_id@) is None,
            final(self).spec_forwarding() == old(self).spec_forwarding(),
            final(self).spec_route_nonce() == old(self).spec_route_nonce(),
            final(self).spec_route_back() == old(self).spec_route_back(),
            final(self).spec_edges() == old(self).spec_edges(),
    {
        match self.get_announce(account_id) {
            Some(a) => Ok(a.peer_id),
            None => Err(FindRouteError::AccountNotFound),
        }
    }

    /// Number of announcements currently cached.
    pub closed spec fn spec_account_cache_len(self) -> int {
        self.account_peers.spec_len()
    }

    /// The account identifiers currently cached, oldest first.
    pub fn get_accounts_keys(&mut self) -> (r: Vec<AccountId>)
        requires
            old(self).wf(),
        ensures
            *final(self) == *old(self),
            r@.len() == old(self).spec_account_cache_len(),
            forall|i: int|
                0 <= i < r@.len() ==> old(self).spec_account_cache().contains_key(
                    (#[trigger] r@[i])@,
                ),
    {
        let n = self.account_peers.len();
        let mut r: Vec<AccountId> = Vec::new();
        let mut i: usize = 0;
        while i < n
            invariant
                self.wf(),
                n == self.account_peers.spec_len(),
                i <= n,
                r@.len() == i,
                forall|j: int|
                    0 <= j < i ==> (#[trigger] r@[j])@ == self.account_peers.entries_view()[j].0@,
            decreases n - i,
        {
            let e = self.account_peers.entry_at(i);
            r.push(AccountId { name: clone_bytes(&e.0) });
            i += 1;
        }
        proof {
            assert forall|i2: int|
                0 <= i2 < r@.len() implies self.spec_account_cache().contains_key(
                (#[trigger] r@[i2])@,
            ) by {
                self.account_peers.lemma_cache_entry_in_view(i2);
            }
        }
        r
    }

    /// The announcements currently cached, oldest first.
    pub fn get_announce_accounts(&mut self) -> (r: Vec<AnnounceAccount>)
        requires
            old(self).wf(),
        ensures
            *final(self) == *old(self),
            r@.len() == old(self).spec_account_cache_len(),
            forall|i: int|
                0 <= i < r@.len() ==> old(self).spec_account_cache().contains_key(
                    (#[trigger] r@[i]).account_id@,
                ) && ann_eq(r@[i], old(self).spec_account_cache()[r@[i].account_id@]),
    {
        let n = self.account_peers.len();
        let mut r: Vec<AnnounceAccount> = Vec::new();
        let mut i: usize = 0;
        while i < n
            invariant
                self.wf(),
                n == self.account_peers.spec_len(),
                i <= n,
                r@.len() == i,
                forall|j: int|
                    0 <= j < i ==> self.spec_account_cache().contains_key(
                        (#[trigger] r@[j]).account_id@,
                    ) && ann_eq(r@[j], self.spec_account_cache()[r@[j].account_id@]),
            decreases n - i,
        {
            let a = {
                let e = self.account_peers.entry_at(i);
                e.1.clone()
            };
            proof {
                self.account_peers.lemma_cache_entry_in_view(i as int);
                assert(self.spec_account_cache()[self.account_peers.entries_view()[i as int].0@]
                    == self.account_peers.entries_view()[i as int].1);
                assert(self.account_peers.entries_view()[i as int].1.account_id@
                    == self.account_peers.entries_view()[i as int].0@);
            }
            r.push(a);
            i += 1;
        }
        r
    }

    /// Number of announcements currently cached.
    pub fn get_announce_accounts_size(&mut self) -> (r: usize)
        ensures
            *final(self) == *old(self),
            r == old(self).spec_account_cache_len(),
    {
        self.account_peers.len()
    }

    /// Record an incoming ping under its nonce, bumping its tally.
    pub fn add_ping(&mut self, ping: Ping)
        requires
            old(self).wf(),
        ensures
            final(self).wf(),
            final(self).spec_ping_info().contains_key(ping.nonce),
            final(self).spec_ping_info()[ping.nonce].0 == ping,
            final(self).spec_ping_info()[ping.nonce].1 == (if old(
                self,
            ).spec_ping_info().contains_key(ping.nonce) && old(self).spec_ping_info()[ping.nonce].1
                < u64::MAX {
                old(self).spec_ping_info()[ping.nonce].1 + 1
            } else if !old(self).spec_ping_info().contains_key(ping.nonce) {
                1int
            } else {
                u64::MAX as int
            }),
            final(self).spec_forwarding() == old(self).spec_forwarding(),
            final(self).spec_edges() == old(self).spec_edges(),
            final(self).spec_pong_info() == old(self).spec_pong_info(),
    {
        let nonce = ping.nonce;
        let cnt: u64 = match self.ping_info.get(nonce) {
            Some(v) => v.1,
            None => 0,
        };
        let bumped: u64 = if cnt < u64::MAX {
            cnt + 1
        } else {
            u64::MAX
        };
        self.ping_info.set(nonce, (ping, bumped));
    }

    /// Record an incoming pong: if a ping with its nonce is awaiting an
    /// answer from its source, report the round trip in milliseconds. The
    /// pong is tallied under its nonce either way.
    pub fn add_pong(&mut self, pong: Pong, now: u64) -> (r: Option<u64>)
        requires
            old(self).wf(),
        ensures
            final(self).wf(),
            r is Some <==> (old(self).spec_waiting_pong().contains_key(pong.source@)
                && old(self).spec_waiting_pong()[pong.source@]@.contains_key(pong.nonce)),
            r matches Some(ms) ==> {
                let sent = old(self).spec_waiting_pong()[pong.source@]@[pong.nonce];
                ms == (if now >= sent {
                    now - sent
                } else {
                    0
                })
            },
            // The waiting entry is consumed: a second identical pong misses.
            old(self).spec_waiting_pong().contains_key(pong.source@)
                ==> final(self).spec_waiting_pong().contains_key(pong.source@)
                && final(self).spec_waiting_pong()[pong.source@]@ == old(self).spec_waiting_pong()[
                pong.source@
            ]@.remove(pong.nonce),
            !old(self).spec_waiting_pong().contains_key(pong.source@)
                ==> final(self).spec_waiting_pong() == old(self).spec_waiting_pong(),
            forall|q: Seq<u8>|
                #[trigger] final(self).spec_waiting_pong().contains_key(q) && q != pong.source@
                    ==> old(self).spec_waiting_pong().contains_key(q)
                    && final(self).spec_waiting_pong()[q] == old(self).spec_waiting_pong()[q],
            final(self).spec_pong_info().contains_key(pong.nonce),
            final(self).spec_pong_info()[pong.nonce].0 == pong,
            // The pong tally under this nonce is bumped.
            final(self).spec_pong_info()[pong.nonce].1 == (if old(
                self,
            ).spec_pong_info().contains_key(pong.nonce) && old(self).spec_pong_info()[pong.nonce].1
                < u64::MAX {
                old(self).spec_pong_info()[pong.nonce].1 + 1
            } else if !old(self).spec_pong_info().contains_key(pong.nonce) {
                1int
            } else {
                u64::MAX as int
            }),
            final(self).spec_forwarding() == old(self).spec_forwarding(),
            final(self).spec_edges() == old(self).spec_edges(),
            final(self).spec_ping_info() == old(self).spec_ping_info(),
    {
        let mut res: Option<u64> = None;
        let inner = self.waiting_pong.remove(&pong.source.key);
        if let Some(mut nonces) = inner {
            let sent = nonces.remove(pong.nonce);
            if let Some(t) = sent {
                res = Some(if now >= t {
                    now - t
                } else {
                    0
                });
            }
            let back_key = clone_bytes(&pong.source.key);
            self.waiting_pong.set(back_key, nonces);
        }
        let nonce = pong.nonce;
        let cnt: u64 = match self.pong_info.get(nonce) {
            Some(v) => v.1,
            None => 0,
        };
        let bumped: u64 = if cnt < u64::MAX {
            cnt + 1
        } else {
            u64::MAX
        };
        self.pong_info.set(nonce, (pong, bumped));
        res
    }

    /// Note the time a ping was sent, so that its pong can be timed.
    pub fn sending_ping(&mut self, nonce: u64, target: PeerId, now: u64)
        requires
            old(self).wf(),
        ensures
            final(self).wf(),
            final(self).spec_waiting_pong().contains_key(target@),
            final(self).spec_waiting_pong()[target@]@.contains_key(nonce),
            final(self).spec_waiting_pong()[target@]@[nonce] == now,
            final(self).spec_forwarding() == old(self).spec_forwarding(),
            final(self).spec_edges() == old(self).spec_edges(),
    {
        let existing = self.waiting_pong.remove(&target.key);
        let mut entry: SizedU64Cache<u64> = match existing {
            Some(e) => e,
            None => SizedU64Cache::with_size(10),
        };
        entry.set(nonce, now);
        self.waiting_pong.set(target.key, entry);
    }

    /// The next ping nonce for a peer: hands out the previous value and
    /// advances it.
    pub fn get_ping(&mut self, peer_id: PeerId) -> (r: u64)
        requires
            old(self).wf(),
        ensures
            final(self).wf(),
            r == (if old(self).spec_last_ping_nonce().contains_key(peer_id@) {
                old(self).spec_last_ping_nonce()[peer_id@] as int
            } else {
                0int
            }),
            final(self).spec_last_ping_nonce().contains_key(peer_id@),
            final(self).spec_last_ping_nonce()[peer_id@] == (if r < u64::MAX {
                r + 1
            } else {
                u64::MAX as int
            }),
            final(self).spec_forwarding() == old(self).spec_forwarding(),
            final(self).spec_edges() == old(self).spec_edges(),
    {
        let prev: u64 = match self.last_ping_nonce.get(&peer_id.key) {
            Some(v) => *v,
            None => 0,
        };
        let next: u64 = if prev < u64::MAX {
            prev + 1
        } else {
            u64::MAX
        };
        self.last_ping_nonce.set(peer_id.key, next);
        prev
    }

    /// The ping and pong tallies, by nonce, oldest first.
    pub fn fetch_ping_pong(&self) -> (r: (Vec<(u64, (Ping, u64))>, Vec<(u64, (Pong, u64))>))
        requires
            self.wf(),
        ensures
            forall|i: int|
                0 <= i < r.0@.len() ==> self.spec_ping_info().contains_key(
                    (#[trigger] r.0@[i]).0,
                ) && r.0@[i].1.1 == self.spec_ping_info()[r.0@[i].0].1,
            forall|i: int|
                0 <= i < r.1@.len() ==> self.spec_pong_info().contains_key(
                    (#[trigger] r.1@[i]).0,
                ) && r.1@[i].1.1 == self.spec_pong_info()[r.1@[i].0].1,
    {
        let mut pings: Vec<(u64, (Ping, u64))> = Vec::new();
        let n = self.ping_info.len();
        let mut i: usize = 0;
        while i < n
            invariant
                self.wf(),
                n == self.ping_info.spec_len(),
                i <= n,
                forall|j: int|
                    0 <= j < pings@.len() ==> self.spec_ping_info().contains_key(
                        (#[trigger] pings@[j]).0,
                    ) && pings@[j].1.1 == self.spec_ping_info()[pings@[j].0].1,
            decreases n - i,
        {
            let (nonce, entry) = {
                let e = self.ping_info.entry_at(i);
                (e.0, (e.1.0.clone(), e.1.1))
            };
            proof {
                self.ping_info.lemma_cache_entry_in_view(i as int);
            }
            pings.push((nonce, entry));
            i += 1;
        }
        let mut pongs: Vec<(u64, (Pong, u64))> = Vec::new();
        let m = self.pong_info.len();
        let mut j: usize = 0;
        while j < m
            invariant
                self.wf(),
                m == self.pong_info.spec_len(),
                j <= m,
                forall|t: int|
                    0 <= t < pongs@.len() ==> self.spec_pong_info().contains_key(
                        (#[trigger] pongs@[t]).0,
                    ) && pongs@[t].1.1 == self.spec_pong_info()[pongs@[t].0].1,
            decreases m - j,
        {
            let (nonce, entry) = {
                let e = self.pong_info.entry_at(j);
                (e.0, (e.1.0.clone(), e.1.1))
            };
            proof {
                self.pong_info.lemma_cache_entry_in_view(j as int);
            }
            pongs.push((nonce, entry));
            j += 1;
        }
        (pings, pongs)
    }

    /// Record the freshest edge for its endpoint pair.
    pub fn add_edge_info(&mut self, edge: Edge)
        requires
            old(self).wf(),
        ensures
            final(self).wf(),
            final(self).spec_edges() == old(self).spec_edges().insert(
                (edge.peer0@, edge.peer1@),
                edge,
            ),
            final(self).spec_forwarding() == old(self).spec_forwarding(),
            final(self).spec_route_back() == old(self).spec_route_back(),
            final(self).spec_route_nonce() == old(self).spec_route_nonce(),
    {
        let k0 = clone_bytes(&edge.peer0.key);
        let k1 = clone_bytes(&edge.peer1.key);
        proof {
            assert(pair_view((k0, k1)) == (edge.peer0@, edge.peer1@));
        }
        self.edges_info.insert((k0, k1), edge);
    }

    /// Forget the stored edges for these edges' endpoint pairs.
    pub fn remove_edges(&mut self, edges: &Vec<Edge>)
        requires
            old(self).wf(),
        ensures
            final(self).wf(),
            forall|t: int|
                0 <= t < edges@.len() ==> !final(self).spec_edges().contains_key(
                    ((#[trigger] edges@[t]).peer0@, edges@[t].peer1@),
                ),
            forall|k: (Seq<u8>, Seq<u8>)|
                (forall|t: int|
                    0 <= t < edges@.len() ==> k != ((#[trigger] edges@[t]).peer0@, edges@[t].peer1@))
                    ==> (#[trigger] final(self).spec_edges().contains_key(k)
                        == old(self).spec_edges().contains_key(k)
                        && (old(self).spec_edges().contains_key(k)
                        ==> final(self).spec_edges()[k] == old(self).spec_edges()[k])),
            final(self).spec_forwarding() == old(self).spec_forwarding(),
            final(self).spec_route_back() == old(self).spec_route_back(),
            final(self).spec_route_nonce() == old(self).spec_route_nonce(),
    {
        let n = edges.len();
        let mut i: usize = 0;
        while i < n
            invariant
                self.wf(),
                n == edges@.len(),
                i <= n,
                forall|t: int|
                    0 <= t < i ==> !self.spec_edges().contains_key(
                        ((#[trigger] edges@[t]).peer0@, edges@[t].peer1@),
                    ),
                forall|k: (Seq<u8>, Seq<u8>)|
                    #[trigger] self.spec_edges().contains_key(k) ==> old(
                        self,
                    ).spec_edges().contains_key(k) && self.spec_edges()[k] == old(
                        self,
                    ).spec_edges()[k],
                forall|k: (Seq<u8>, Seq<u8>)|
                    #[trigger] old(self).spec_edges().contains_key(k)
                        && !self.spec_edges().contains_key(k) ==> exists|t: int|
                        0 <= t < i && k == ((#[trigger] edges@[t]).peer0@, edges@[t].peer1@),
                self.spec_forwarding() == old(self).spec_forwarding(),
                self.spec_route_back() == old(self).spec_route_back(),
                self.spec_route_nonce() == old(self).spec_route_nonce(),
                self.spec_account_cache() == old(self).spec_account_cache(),
                self.spec_account_store() == old(self).spec_account_store(),
                self.spec_ping_info() == old(self).spec_ping_info(),
                self.spec_pong_info() == old(self).spec_pong_info(),
                self.spec_waiting_pong() == old(self).spec_waiting_pong(),
                self.spec_last_ping_nonce() == old(self).spec_last_ping_nonce(),
            decreases n - i,
        {
            let key = {
                let e = &edges[i];
                (clone_bytes(&e.peer0.key), clone_bytes(&e.peer1.key))
            };
            proof {
                assert(pair_view(key) == (edges@[i as int].peer0@, edges@[i as int].peer1@));
            }
            let ghost pre = *self;
            let _ = self.edges_info.remove(&key);
            proof {
                let ki = (edges@[i as int].peer0@, edges@[i as int].peer1@);
                assert forall|k: (Seq<u8>, Seq<u8>)| #[trigger]
                    self.spec_edges().contains_key(k) implies old(
                    self,
                ).spec_edges().contains_key(k) && self.spec_edges()[k] == old(
                    self,
                ).spec_edges()[k] by {
                    assert(pre.spec_edges().contains_key(k));
                    assert(pre.spec_edges()[k] == self.spec_edges()[k]);
                }
                assert forall|k: (Seq<u8>, Seq<u8>)|
                    #[trigger] old(self).spec_edges().contains_key(k)
                        && !self.spec_edges().contains_key(k) implies exists|t: int|
                    0 <= t < i + 1 && k == ((#[trigger] edges@[t]).peer0@, edges@[t].peer1@) by {
                    if k == ki {
                        assert(0 <= (i as int) && (i as int) < i + 1 && k == (
                            edges@[i as int].peer0@,
                            edges@[i as int].peer1@,
                        ));
                    } else {
                        assert(!pre.spec_edges().contains_key(k));
                        let t = choose|t: int|
                            0 <= t < i && k == ((#[trigger] edges@[t]).peer0@, edges@[t].peer1@);
                        assert(0 <= t < i + 1 && k == (edges@[t].peer0@, edges@[t].peer1@));
                    }
                }
            }
            i += 1;
        }
        proof {
            assert forall|k: (Seq<u8>, Seq<u8>)|
                (forall|t: int|
                    0 <= t < edges@.len() ==> k != ((#[trigger] edges@[t]).peer0@, edges@[t].peer1@))
                    implies (#[trigger] final(self).spec_edges().contains_key(k)
                == old(self).spec_edges().contains_key(k)
                && (old(self).spec_edges().contains_key(k)
                ==> final(self).spec_edges()[k] == old(self).spec_edges()[k])) by {
                if old(self).spec_edges().contains_key(k) && !self.spec_edges().contains_key(k) {
                    let t = choose|t: int|
                        0 <= t < n && k == ((#[trigger] edges@[t]).peer0@, edges@[t].peer1@);
                    assert(k == (edges@[t].peer0@, edges@[t].peer1@));
                }
            }
        }
    }

    /// The stored edge joining two peers, if any.
    pub fn get_edge(&mut self, peer0: PeerId, peer1: PeerId) -> (r: Option<Edge>)
        requires
            old(self).wf(),
        ensures
            *final(self) == *old(self),
            r is Some <==> old(self).spec_edges().contains_key(
                crate::edge::canonical_key(peer0@, peer1@),
            ),
            r matches Some(e) ==> crate::edge::edge_eq(
                e,
                old(self).spec_edges()[crate::edge::canonical_key(peer0@, peer1@)],
            ),
    {
        let (p0, p1) = Edge::key(peer0, peer1);
        let key = (p0.key, p1.key);
        proof {
            assert(pair_view(key) == crate::edge::canonical_key(peer0@, peer1@));
        }
        match self.edges_info.get(&key) {
            Some(e) => Some(e.clone()),
            None => None,
        }
    }

    /// A snapshot of the announced accounts and the forwarding map.
    pub fn info(&mut self) -> (r: RoutingTableInfo)
        requires
            old(self).wf(),
        ensures
            *final(self) == *old(self),
            forall|i: int|
                0 <= i < r.account_peers@.len() ==> old(self).spec_account_cache().contains_key(
                    (#[trigger] r.account_peers@[i]).0@,
                ) && r.account_peers@[i].1@ == old(self).spec_account_cache()[r.account_peers@[i].0@].peer_id@,
            forall|i: int|
                0 <= i < r.peer_forwarding@.len() ==> old(self).spec_forwarding().contains_key(
                    (#[trigger] r.peer_forwarding@[i]).0@,
                ),
    {
        let mut account_peers: Vec<(AccountId, PeerId)> = Vec::new();
        let n = self.account_peers.len();
        let mut i: usize = 0;
        while i < n
            invariant
                self.wf(),
                n == self.account_peers.spec_len(),
                i <= n,
                forall|j: int|
                    0 <= j < account_peers@.len() ==> self.spec_account_cache().contains_key(
                        (#[trigger] account_peers@[j]).0@,
                    ) && account_peers@[j].1@ == self.spec_account_cache()[account_peers@[j].0@].peer_id@,
            decreases n - i,
        {
            let pair = {
                let e = self.account_peers.entry_at(i);
                (AccountId { name: clone_bytes(&e.0) }, e.1.peer_id.clone())
            };
            proof {
                self.account_peers.lemma_cache_entry_in_view(i as int);
            }
            account_peers.push(pair);
            i += 1;
        }
        let mut peer_forwarding: Vec<(PeerId, Vec<PeerId>)> = Vec::new();
        let m = self.peer_forwarding.len();
        let mut j: usize = 0;
        while j < m
            invariant
                self.wf(),
                m == self.peer_forwarding.spec_len(),
                j <= m,
                forall|t: int|
                    0 <= t < peer_forwarding@.len() ==> self.spec_forwarding().contains_key(
                        (#[trigger] peer_forwarding@[t]).0@,
                    ),
            decreases m - j,
        {
            let pair = {
                let e = self.peer_forwarding.entry_at(j);
                (PeerId { key: clone_bytes(&e.0) }, clone_peer_vec(&e.1))
            };
            proof {
                self.peer_forwarding.lemma_entry_in_view(j as int);
            }
            peer_forwarding.push(pair);
            j += 1;
        }
        RoutingTableInfo { account_peers, peer_forwarding }
    }
}

/// Round-robin fairness, one step: over a candidate set whose nonces lie
/// within one of each other, selecting a least-loaded hop and bumping its
/// nonce keeps them within one of each other whenever some candidate was
/// still at the lower value; the spread never exceeds two.
pub proof fn lemma_round_robin_balance(
    m0: Map<Seq<u8>, u64>,
    m1: Map<Seq<u8>, u64>,
    cands: Seq<PeerId>,
    sel: Seq<u8>,
    b: int,
)
    requires
        cands.len() > 0,
        forall|i: int| 0 <= i < cands.len() ==> b <= nonce_of(m0, (#[trigger] cands[i])@) <= b + 1,
        exists|i: int| 0 <= i < cands.len() && (#[trigger] cands[i])@ == sel,
        forall|i: int| 0 <= i < cands.len() ==> sel_le(m0, sel, (#[trigger] cands[i])@),
        nonce_of(m1, sel) == nonce_of(m0, sel) + 1,
        forall|q: Seq<u8>| q != sel ==> nonce_of(m1, q) == nonce_of(m0, q),
    ensures
        forall|i: int| 0 <= i < cands.len() ==> b <= nonce_of(m1, (#[trigger] cands[i])@) <= b + 2,
        (exists|i: int| 0 <= i < cands.len() && nonce_of(m0, (#[trigger] cands[i])@) == b) ==> (
        forall|i: int| 0 <= i < cands.len() ==> b <= nonce_of(m1, (#[trigger] cands[i])@) <= b + 1),
{
    if exists|i: int| 0 <= i < cands.len() && nonce_of(m0, (#[trigger] cands[i])@) == b {
        let w = choose|i: int| 0 <= i < cands.len() && nonce_of(m0, (#[trigger] cands[i])@) == b;
        assert(sel_le(m0, sel, cands[w]@));
        assert(nonce_of(m0, sel) == b);
    }
}

/// Copy of a list of peers, identities preserved pointwise.
pub(crate) fn clone_peer_vec(v: &Vec<PeerId>) -> (r: Vec<PeerId>)
    ensures
        r@.len() == v@.len(),
        forall|i: int| 0 <= i < v@.len() ==> (#[trigger] r@[i])@ == v@[i]@,
{
    let n = v.len();
    let mut r: Vec<PeerId> = Vec::new();
    let mut i: usize = 0;
    while i < n
        invariant
            n == v@.len(),
            i <= n,
            r@.len() == i,
            forall|j: int| 0 <= j < i ==> (#[trigger] r@[j])@ == v@[j]@,
        decreases n - i,
    {
        r.push(v[i].clone());
        i += 1;
    }
    r
}

} // verus!
