//! The in-memory view of the network: an undirected simple graph over peers,
//! held as a slot arena with a free list, and the breadth-first computation
//! of next hops toward every reachable peer.

use vstd::prelude::*;

use crate::bytes_util::bytes_eq;
use crate::types::PeerId;
use crate::MAX_NUM_PEERS;

verus! {

/// The undirected graph of active links. Peers occupy integer slots;
/// slot 0 is this node and is never freed; emptied slots go to a free
/// list and are reused.
pub struct Graph {
    source: PeerId,
    id2p: Vec<PeerId>,
    used: Vec<bool>,
    unused: Vec<u32>,
    adjacency: Vec<Vec<u32>>,
    total_active_edges: u64,
}

impl Graph {
    /// This node's identity.
    pub closed spec fn spec_source(self) -> Seq<u8> {
        self.source@
    }

    /// How many links are currently active, kept as a gauge.
    pub closed spec fn spec_total_active_edges(self) -> u64 {
        self.total_active_edges
    }

    /// This node's identity.
    pub fn source(&self) -> (r: &PeerId)
        ensures
            r@ == self.spec_source(),
    {
        &self.source
    }

    /// Number of slots the arena holds.
    pub fn n_slots(&self) -> (r: usize)
        ensures
            r == self.n(),
    {
        self.id2p.len()
    }

    /// How many links are currently active.
    pub fn total_active_edges(&self) -> (r: u64)
        ensures
            r == self.spec_total_active_edges(),
    {
        self.total_active_edges
    }

    /// Number of slots.
    pub closed spec fn n(self) -> int {
        self.id2p@.len() as int
    }

    /// How many direct neighbors the source currently has.
    pub closed spec fn source_degree(self) -> int {
        self.adjacency@[0]@.len() as int
    }

    /// Whether slots `i` and `j` are adjacent.
    pub closed spec fn has_slot_edge(self, i: int, j: int) -> bool {
        self.adjacency@[i]@.contains(j as u32)
    }

    /// Whether some used slot holds the peer with key `p`.
    pub closed spec fn mapped(self, p: Seq<u8>) -> bool {
        exists|i: int| 0 <= i < self.n() && self.used@[i] && #[trigger] self.id2p@[i]@ == p
    }

    /// Whether the peers with keys `a` and `b` are joined by an edge.
    pub closed spec fn spec_has_edge(self, a: Seq<u8>, b: Seq<u8>) -> bool {
        exists|i: int, j: int|
            {
                &&& 0 <= i < self.n() && 0 <= j < self.n()
                &&& self.used@[i] && self.used@[j]
                &&& #[trigger] self.id2p@[i]@ == a && #[trigger] self.id2p@[j]@ == b
                &&& self.has_slot_edge(i, j)
            }
    }

    /// Structural well-formedness: parallel arrays of one length, slot 0 the
    /// source and in use, distinct peers in distinct used slots, the free
    /// list holding exactly the unused slots, and adjacency lists that are
    /// duplicate-free, point at used slots, and are symmetric.
    pub closed spec fn wf_core(self) -> bool {
        &&& self.used@.len() == self.n()
        &&& self.adjacency@.len() == self.n()
        &&& 1 <= self.n() < 0xFFFF_FFFF
        &&& self.used@[0]
        &&& self.id2p@[0]@ == self.source@
        &&& (forall|i: int, j: int|
            0 <= i < self.n() && 0 <= j < self.n() && i != j && self.used@[i] && self.used@[j]
                ==> #[trigger] self.id2p@[i]@ != #[trigger] self.id2p@[j]@)
        &&& (forall|k: int|
            0 <= k < self.unused@.len() ==> 0 < #[trigger] self.unused@[k] < self.n()
                && !self.used@[self.unused@[k] as int]
                && self.adjacency@[self.unused@[k] as int]@.len() == 0)
        &&& (forall|k: int, l: int|
            0 <= k < l < self.unused@.len() ==> #[trigger] self.unused@[k]
                != #[trigger] self.unused@[l])
        &&& (forall|i: int|
            0 < i < self.n() && !self.used@[i] ==> self.unused@.contains(i as u32))
        &&& (forall|i: int| 0 <= i < self.n() && !self.used@[i] ==> self.adjacency@[i]@.len() == 0)
        &&& (forall|i: int, k: int|
            0 <= i < self.n() && 0 <= k < self.adjacency@[i]@.len() ==> 0
                <= #[trigger] self.adjacency@[i]@[k] < self.n()
                && self.used@[self.adjacency@[i]@[k] as int] && self.adjacency@[i]@[k] != i)
        &&& (forall|i: int, k: int, l: int|
            0 <= i < self.n() && 0 <= k < l < self.adjacency@[i]@.len()
                ==> #[trigger] self.adjacency@[i]@[k] != #[trigger] self.adjacency@[i]@[l])
        &&& (forall|i: int, j: int|
            0 <= i < self.n() && 0 <= j < self.n() ==> (#[trigger] self.has_slot_edge(i, j)
                <==> #[trigger] self.has_slot_edge(j, i)))
    }

    /// Well-formedness: the structure above, and no used slot other than the
    /// source is left without a neighbor.
    pub closed spec fn wf(self) -> bool {
        &&& self.wf_core()
        &&& (forall|i: int|
            0 < i < self.n() && self.used@[i] ==> #[trigger] self.adjacency@[i]@.len() > 0)
    }

    /// Whether the slot sequence is a walk that starts at the source and
    /// follows adjacency.
    pub closed spec fn is_walk(self, p: Seq<int>) -> bool {
        &&& p.len() > 0
        &&& p[0] == 0
        &&& (forall|t: int| 0 <= t < p.len() ==> 0 <= #[trigger] p[t] < self.n())
        &&& (forall|t: int| 0 < t < p.len() ==> self.has_slot_edge(p[t - 1], #[trigger] p[t]))
    }

    /// Slots reachable from the source.
    pub closed spec fn slot_reachable(self, i: int) -> bool {
        exists|p: Seq<int>| self.is_walk(p) && p.last() == i
    }

    /// Whether the peer with key `p` is reachable from the source through
    /// active links.
    pub closed spec fn peer_reachable(self, p: Seq<u8>) -> bool {
        exists|i: int|
            0 <= i < self.n() && self.used@[i] && #[trigger] self.id2p@[i]@ == p
                && self.slot_reachable(i)
    }

    /// Whether the slot sequence follows adjacency, wherever it starts.
    pub closed spec fn is_chain(self, p: Seq<int>) -> bool {
        &&& p.len() > 0
        &&& (forall|t: int| 0 <= t < p.len() ==> 0 <= #[trigger] p[t] < self.n())
        &&& (forall|t: int| 0 < t < p.len() ==> self.has_slot_edge(p[t - 1], #[trigger] p[t]))
    }

    /// Whether some chain of links leads from slot `a` to slot `b`.
    pub closed spec fn chain_connects(self, a: int, b: int) -> bool {
        exists|p: Seq<int>| self.is_chain(p) && p[0] == a && p.last() == b
    }

    /// Whether some chain of links leads from the peer with key `a` to the
    /// peer with key `b`.
    pub closed spec fn peers_connected(self, a: Seq<u8>, b: Seq<u8>) -> bool {
        exists|i: int, j: int|
            {
                &&& 0 <= i < self.n() && 0 <= j < self.n()
                &&& self.used@[i] && self.used@[j]
                &&& #[trigger] self.id2p@[i]@ == a && #[trigger] self.id2p@[j]@ == b
                &&& self.chain_connects(i, j)
            }
    }

    /// A fresh graph holding only this node.
    pub fn new(source: PeerId) -> (r: Graph)
        ensures
            r.wf(),
            r.spec_source() == source@,
            r.n() == 1,
            r.source_degree() == 0,
            forall|q: Seq<u8>| #[trigger] r.mapped(q) <==> q == source@,
            forall|x: Seq<u8>, y: Seq<u8>| !r.spec_has_edge(x, y),
            r.spec_total_active_edges() == 0,
    {
        let mut id2p: Vec<PeerId> = Vec::new();
        id2p.push(source.clone());
        let mut used: Vec<bool> = Vec::new();
        used.push(true);
        let mut adjacency: Vec<Vec<u32>> = Vec::new();
        adjacency.push(Vec::new());
        let r = Graph {
            source,
            id2p,
            used,
            unused: Vec::new(),
            adjacency,
            total_active_edges: 0,
        };
        proof {
            assert forall|q: Seq<u8>| #[trigger] r.mapped(q) implies q == r.source@ by {}
            assert(r.used@[0] && r.id2p@[0]@ == r.source@);
            assert(r.mapped(r.spec_source()));
            assert forall|x: Seq<u8>, y: Seq<u8>| !r.spec_has_edge(x, y) by {
                assert(r.adjacency@[0]@.len() == 0);
            }
        }
        r
    }

    /// The used slot holding this peer, if any.
    fn find_slot(&self, peer: &PeerId) -> (r: Option<u32>)
        requires
            self.wf_core(),
        ensures
            match r {
                Some(i) => 0 <= i < self.n() && self.used@[i as int] && self.id2p@[i as int]@
                    == peer@,
                None => !self.mapped(peer@),
            },
    {
        let n = self.id2p.len();
        let mut i: usize = 0;
        while i < n
            invariant
                self.wf_core(),
                n == self.n(),
                i <= n,
                forall|j: int| 0 <= j < i ==> !(self.used@[j] && #[trigger] self.id2p@[j]@ == peer@),
            decreases n - i,
        {
            if self.used[i] && bytes_eq(&self.id2p[i].key, &peer.key) {
                return Some(i as u32);
            }
            i += 1;
        }
        None
    }

    /// Whether the two peers are joined by an edge.
    pub fn contains_edge(&self, peer0: &PeerId, peer1: &PeerId) -> (r: bool)
        requires
            self.wf_core(),
        ensures
            r == self.spec_has_edge(peer0@, peer1@),
    {
        match (self.find_slot(peer0), self.find_slot(peer1)) {
            (Some(id0), Some(id1)) => {
                let r = contains_u32(&self.adjacency[id0 as usize], id1);
                proof {
                    if self.spec_has_edge(peer0@, peer1@) {
                        let (i, j) = choose|i: int, j: int|
                            {
                                &&& 0 <= i < self.n() && 0 <= j < self.n()
                                &&& self.used@[i] && self.used@[j]
                                &&& #[trigger] self.id2p@[i]@ == peer0@
                                    && #[trigger] self.id2p@[j]@ == peer1@
                                &&& self.has_slot_edge(i, j)
                            };
                        assert(i == id0 as int && j == id1 as int);
                    }
                }
                r
            },
            _ => {
                proof {
                    if self.spec_has_edge(peer0@, peer1@) {
                        assert(self.mapped(peer0@) && self.mapped(peer1@));
                    }
                }
                false
            },
        }
    }
    /// The slot for this peer, allocating one if it has none: the last free
    /// slot if any is free, else a fresh slot at the end.
    fn get_id(&mut self, peer: &PeerId) -> (r: u32)
        requires
            old(self).wf_core(),
            old(self).n() < 0xFFFF_FFFE,
        ensures
            final(self).wf_core(),
            final(self).spec_source() == old(self).spec_source(),
            final(self).total_active_edges == old(self).total_active_edges,
            0 <= r < final(self).n(),
            final(self).used@[r as int],
            final(self).id2p@[r as int]@ == peer@,
            old(self).n() <= final(self).n() <= old(self).n() + 1,
            final(self).n() == old(self).n() || r as int == old(self).n(),
            old(self).mapped(peer@) ==> final(self).id2p@ == old(self).id2p@
                && final(self).used@ == old(self).used@
                && final(self).adjacency@ == old(self).adjacency@
                && final(self).unused@ == old(self).unused@,
            !old(self).mapped(peer@) ==> final(self).adjacency@[r as int]@.len() == 0,
            !old(self).mapped(peer@) ==> (r as int == old(self).n() || !old(self).used@[r as int]),
            !old(self).mapped(peer@) ==> (forall|i: int|
                0 <= i < old(self).n() && i != r as int
                    ==> final(self).used@[i] == old(self).used@[i]
                    && #[trigger] final(self).id2p@[i]@ == old(self).id2p@[i]@
                    && final(self).adjacency@[i]@ == old(self).adjacency@[i]@),
            forall|q: Seq<u8>|
                #[trigger] final(self).mapped(q) <==> (old(self).mapped(q) || q == peer@),
            forall|x: Seq<u8>, y: Seq<u8>|
                #[trigger] final(self).spec_has_edge(x, y) == old(self).spec_has_edge(x, y),
    {
        let ghost o = *self;
        match self.find_slot(peer) {
            Some(id) => {
                proof {
                    assert(o.mapped(peer@));
                    assert forall|q: Seq<u8>| #[trigger]
                        self.mapped(q) <==> (o.mapped(q) || q == peer@) by {
                        if q == peer@ {
                            assert(self.id2p@[id as int]@ == peer@);
                            assert(self.mapped(q));
                        }
                    }
                }
                id
            },
            None => {
                let popped = self.unused.pop();
                match popped {
                    Some(val) => {
                        let val_us = val as usize;
                        self.id2p[val_us] = peer.clone();
                        self.used[val_us] = true;
                        proof {
                            let f = *self;
                            let v = val as int;
                            assert(o.unused@[o.unused@.len() - 1] == val);
                            assert(0 < v < o.n() && !o.used@[v] && o.adjacency@[v]@.len() == 0);
                            assert(f.unused@ =~= o.unused@.drop_last());
                            assert(f.id2p@.len() == o.id2p@.len());
                            // The free list still holds exactly the free slots.
                            assert forall|i: int|
                                0 < i < f.n() && !f.used@[i] implies f.unused@.contains(
                                i as u32,
                            ) by {
                                assert(i != v);
                                assert(!o.used@[i]);
                                assert(o.unused@.contains(i as u32));
                                let k = choose|k: int|
                                    0 <= k < o.unused@.len() && o.unused@[k] == i as u32;
                                assert(o.unused@[o.unused@.len() - 1] == val);
                                assert(k != o.unused@.len() - 1);
                                assert(f.unused@[k] == i as u32);
                            }
                            // No used slot held this peer, so slots still hold
                            // distinct peers.
                            assert forall|i: int, j: int|
                                0 <= i < f.n() && 0 <= j < f.n() && i != j && f.used@[i]
                                    && f.used@[j] implies #[trigger] f.id2p@[i]@
                                != #[trigger] f.id2p@[j]@ by {
                                if i != v && j != v {
                                    assert(o.used@[i] && o.used@[j]);
                                } else if i == v {
                                    assert(o.used@[j] && o.id2p@[j]@ == f.id2p@[j]@);
                                    if f.id2p@[j]@ == peer@ {
                                        assert(o.id2p@[j]@ == peer@);
                                        assert(o.mapped(peer@));
                                    }
                                } else {
                                    assert(o.used@[i] && o.id2p@[i]@ == f.id2p@[i]@);
                                    if f.id2p@[i]@ == peer@ {
                                        assert(o.id2p@[i]@ == peer@);
                                        assert(o.mapped(peer@));
                                    }
                                }
                            }
                            assert(f.adjacency@ == o.adjacency@);
                            assert forall|i: int, k: int|
                                0 <= i < f.n() && 0 <= k < f.adjacency@[i]@.len() implies 0
                                <= #[trigger] f.adjacency@[i]@[k] < f.n()
                                && f.used@[f.adjacency@[i]@[k] as int]
                                && f.adjacency@[i]@[k] != i by {
                                assert(f.adjacency@[i]@ == o.adjacency@[i]@);
                                let t = o.adjacency@[i]@[k] as int;
                                assert(o.used@[t]);
                                assert(t != v);
                            }
                            assert forall|i: int, j: int|
                                0 <= i < f.n() && 0 <= j < f.n() implies (
                            #[trigger] f.has_slot_edge(i, j) <==> #[trigger] f.has_slot_edge(
                                j,
                                i,
                            )) by {
                                assert(f.adjacency@[i]@ == o.adjacency@[i]@);
                                assert(f.adjacency@[j]@ == o.adjacency@[j]@);
                                assert(o.has_slot_edge(i, j) <==> o.has_slot_edge(j, i));
                            }
                            assert(f.wf_core());
                            assert forall|q: Seq<u8>| #[trigger]
                                f.mapped(q) <==> (o.mapped(q) || q == peer@) by {
                                if f.mapped(q) {
                                    let i = choose|i: int|
                                        0 <= i < f.n() && f.used@[i] && #[trigger] f.id2p@[i]@
                                            == q;
                                    if i == v {
                                        assert(q == peer@);
                                    } else {
                                        assert(o.used@[i] && o.id2p@[i]@ == q);
                                    }
                                }
                                if q == peer@ {
                                    assert(f.used@[v] && f.id2p@[v]@ == q);
                                    assert(f.mapped(q));
                                }
                                if o.mapped(q) {
                                    let i = choose|i: int|
                                        0 <= i < o.n() && o.used@[i] && #[trigger] o.id2p@[i]@
                                            == q;
                                    assert(i != v);
                                    assert(f.used@[i] && f.id2p@[i]@ == q);
                                    assert(f.mapped(q));
                                }
                            }
                            assert forall|x: Seq<u8>, y: Seq<u8>| #[trigger]
                                f.spec_has_edge(x, y) == o.spec_has_edge(x, y) by {
                                lemma_has_edge_unchanged_new_slot(o, f, v, x, y);
                            }
                        }
                        val
                    },
                    None => {
                        let val = self.id2p.len() as u32;
                        self.id2p.push(peer.clone());
                        self.used.push(true);
                        self.adjacency.push(Vec::new());
                        proof {
                            let f = *self;
                            let v = val as int;
                            assert(f.n() == o.n() + 1);
                            assert forall|i: int, j: int|
                                0 <= i < f.n() && 0 <= j < f.n() && i != j && f.used@[i]
                                    && f.used@[j] implies #[trigger] f.id2p@[i]@
                                != #[trigger] f.id2p@[j]@ by {
                                if i != v && j != v {
                                    assert(o.used@[i] && o.used@[j]);
                                } else if i == v {
                                    assert(o.used@[j] && o.id2p@[j]@ == f.id2p@[j]@);
                                    if f.id2p@[j]@ == peer@ {
                                        assert(o.id2p@[j]@ == peer@);
                                        assert(o.mapped(peer@));
                                    }
                                } else {
                                    assert(o.used@[i] && o.id2p@[i]@ == f.id2p@[i]@);
                                    if f.id2p@[i]@ == peer@ {
                                        assert(o.id2p@[i]@ == peer@);
                                        assert(o.mapped(peer@));
                                    }
                                }
                            }
                            assert forall|i: int|
                                0 < i < f.n() && !f.used@[i] implies f.unused@.contains(
                                i as u32,
                            ) by {
                                assert(i < o.n() && !o.used@[i]);
                            }
                            assert forall|i: int, k: int|
                                0 <= i < f.n() && 0 <= k < f.adjacency@[i]@.len() implies 0
                                <= #[trigger] f.adjacency@[i]@[k] < f.n() && f.used@[f.adjacency@[i]@[k] as int]
                                && f.adjacency@[i]@[k] != i by {
                                assert(i != v);
                                assert(f.adjacency@[i]@ == o.adjacency@[i]@);
                            }
                            assert forall|i: int, j: int|
                                0 <= i < f.n() && 0 <= j < f.n() implies (
                            #[trigger] f.has_slot_edge(i, j) <==> #[trigger] f.has_slot_edge(
                                j,
                                i,
                            )) by {
                                lemma_slot_edge_sym_grow(o, f, v, i, j);
                            }
                            assert(f.wf_core());
                            assert forall|q: Seq<u8>| #[trigger]
                                f.mapped(q) <==> (o.mapped(q) || q == peer@) by {
                                if f.mapped(q) {
                                    let i = choose|i: int|
                                        0 <= i < f.n() && f.used@[i] && #[trigger] f.id2p@[i]@
                                            == q;
                                    if i == v {
                                        assert(q == peer@);
                                    } else {
                                        assert(o.used@[i] && o.id2p@[i]@ == q);
                                    }
                                }
                                if q == peer@ {
                                    assert(f.used@[v] && f.id2p@[v]@ == q);
                                    assert(f.mapped(q));
                                }
                                if o.mapped(q) {
                                    let i = choose|i: int|
                                        0 <= i < o.n() && o.used@[i] && #[trigger] o.id2p@[i]@
                                            == q;
                                    assert(f.used@[i] && f.id2p@[i]@ == q);
                                    assert(f.mapped(q));
                                }
                            }
                            assert forall|x: Seq<u8>, y: Seq<u8>| #[trigger]
                                f.spec_has_edge(x, y) == o.spec_has_edge(x, y) by {
                                lemma_has_edge_unchanged_new_slot(o, f, v, x, y);
                            }
                        }
                        val
                    },
                }
            },
        }
    }

    /// Join the two peers, allocating slots for them as needed. Does nothing
    /// if they are already adjacent.
    pub fn add_edge(&mut self, peer0: PeerId, peer1: PeerId)
        requires
            old(self).wf(),
            peer0@ != peer1@,
            old(self).n() + 2 < 0xFFFF_FFFF,
            old(self).spec_total_active_edges() < u64::MAX,
        ensures
            final(self).wf(),
            final(self).spec_source() == old(self).spec_source(),
            final(self).n() <= old(self).n() + 2,
            old(self).spec_has_edge(peer0@, peer1@) ==> *final(self) == *old(self),
            old(self).source_degree() <= final(self).source_degree() <= old(self).source_degree()
                + 1,
            final(self).spec_has_edge(peer0@, peer1@),
            forall|x: Seq<u8>, y: Seq<u8>|
                #[trigger] final(self).spec_has_edge(x, y) <==> (old(self).spec_has_edge(x, y) || (
                x == peer0@ && y == peer1@) || (x == peer1@ && y == peer0@)),
            forall|q: Seq<u8>|
                #[trigger] final(self).mapped(q) <==> (old(self).mapped(q) || (!old(
                    self,
                ).spec_has_edge(peer0@, peer1@) && (q == peer0@ || q == peer1@))),
            final(self).spec_total_active_edges() == old(self).spec_total_active_edges() + (
            if old(self).spec_has_edge(peer0@, peer1@) {
                0int
            } else {
                1int
            }),
    {
        let ghost o = *self;
        if !self.contains_edge(&peer0, &peer1) {
            let id0 = self.get_id(&peer0);
            let ghost s1 = *self;
            let id1 = self.get_id(&peer1);
            let ghost s2 = *self;
            proof {
                assert(s1.used@[id0 as int] && s1.id2p@[id0 as int]@ == peer0@);
                assert(id0 != id1) by {
                    if id0 == id1 {
                        if s1.mapped(peer1@) {
                            assert(s2.id2p@ == s1.id2p@);
                            assert(s2.id2p@[id1 as int]@ == peer1@);
                        } else {
                            assert(id1 as int == s1.n() || !s1.used@[id1 as int]);
                        }
                    }
                }
                assert(s2.used@[id0 as int] && s2.id2p@[id0 as int]@ == peer0@) by {
                    if !s1.mapped(peer1@) {
                        assert(s2.id2p@[id0 as int]@ == s1.id2p@[id0 as int]@);
                    }
                }
                assert(!s2.has_slot_edge(id0 as int, id1 as int)) by {
                    if s2.has_slot_edge(id0 as int, id1 as int) {
                        assert(s2.spec_has_edge(peer0@, peer1@));
                        assert(o.spec_has_edge(peer0@, peer1@));
                    }
                }
                assert(!s2.has_slot_edge(id1 as int, id0 as int));
            }
            let i0 = id0 as usize;
            let i1 = id1 as usize;
            let mut row0 = clone_u32_vec(&self.adjacency[i0]);
            row0.push(id1);
            self.adjacency[i0] = row0;
            let mut row1 = clone_u32_vec(&self.adjacency[i1]);
            row1.push(id0);
            self.adjacency[i1] = row1;
            self.total_active_edges = self.total_active_edges + 1;
            proof {
                let f = *self;
                let v0 = id0 as int;
                let v1 = id1 as int;
                assert(f.adjacency@[v0]@ =~= s2.adjacency@[v0]@.push(id1));
                assert(f.adjacency@[v1]@ =~= s2.adjacency@[v1]@.push(id0));
                // Which slot pairs are adjacent now.
                assert forall|i: int, j: int| 0 <= i < f.n() && 0 <= j < f.n() implies (
                #[trigger] f.has_slot_edge(i, j) <==> (s2.has_slot_edge(i, j) || (i == v0 && j
                    == v1) || (i == v1 && j == v0))) by {
                    if i == v0 {
                        lemma_push_contains(s2.adjacency@[v0]@, id1, j as u32);
                    } else if i == v1 {
                        lemma_push_contains(s2.adjacency@[v1]@, id0, j as u32);
                    } else {
                        assert(f.adjacency@[i]@ == s2.adjacency@[i]@);
                    }
                    assert(j as u32 == id1 <==> j == v1);
                    assert(j as u32 == id0 <==> j == v0);
                }
                assert(f.wf_core()) by {
                    assert forall|i: int, k: int|
                        0 <= i < f.n() && 0 <= k < f.adjacency@[i]@.len() implies 0
                        <= #[trigger] f.adjacency@[i]@[k] < f.n()
                        && f.used@[f.adjacency@[i]@[k] as int] && f.adjacency@[i]@[k] != i by {
                        if i == v0 {
                            if k < s2.adjacency@[v0]@.len() {
                                assert(f.adjacency@[i]@[k] == s2.adjacency@[v0]@[k]);
                            } else {
                                assert(f.adjacency@[i]@[k] == id1);
                            }
                        } else if i == v1 {
                            if k < s2.adjacency@[v1]@.len() {
                                assert(f.adjacency@[i]@[k] == s2.adjacency@[v1]@[k]);
                            } else {
                                assert(f.adjacency@[i]@[k] == id0);
                            }
                        } else {
                            assert(f.adjacency@[i]@ == s2.adjacency@[i]@);
                        }
                    }
                    assert forall|i: int, k: int, l: int|
                        0 <= i < f.n() && 0 <= k < l < f.adjacency@[i]@.len() implies #[trigger] f.adjacency@[i]@[k] != #[trigger] f.adjacency@[i]@[l] by {
                        if i == v0 {
                            if l == s2.adjacency@[v0]@.len() {
                                assert(f.adjacency@[i]@[l] == id1);
                                assert(f.adjacency@[i]@[k] == s2.adjacency@[v0]@[k]);
                                if s2.adjacency@[v0]@[k] == id1 {
                                    assert(s2.adjacency@[v0]@.contains(id1));
                                }
                            } else {
                                assert(f.adjacency@[i]@[k] == s2.adjacency@[v0]@[k]);
                                assert(f.adjacency@[i]@[l] == s2.adjacency@[v0]@[l]);
                            }
                        } else if i == v1 {
                            if l == s2.adjacency@[v1]@.len() {
                                assert(f.adjacency@[i]@[l] == id0);
                                assert(f.adjacency@[i]@[k] == s2.adjacency@[v1]@[k]);
                                if s2.adjacency@[v1]@[k] == id0 {
                                    assert(s2.adjacency@[v1]@.contains(id0));
                                }
                            } else {
                                assert(f.adjacency@[i]@[k] == s2.adjacency@[v1]@[k]);
                                assert(f.adjacency@[i]@[l] == s2.adjacency@[v1]@[l]);
                            }
                        } else {
                            assert(f.adjacency@[i]@ == s2.adjacency@[i]@);
                        }
                    }
                    assert forall|k: int|
                        0 <= k < f.unused@.len() implies 0 < #[trigger] f.unused@[k] < f.n()
                        && !f.used@[f.unused@[k] as int]
                        && f.adjacency@[f.unused@[k] as int]@.len() == 0 by {
                        let u = f.unused@[k] as int;
                        assert(!s2.used@[u]);
                        assert(u != v0 && u != v1);
                        assert(f.adjacency@[u]@ == s2.adjacency@[u]@);
                    }
                }
                assert(f.wf()) by {
                    assert forall|i: int|
                        0 < i < f.n() && f.used@[i] implies #[trigger] f.adjacency@[i]@.len()
                        > 0 by {
                        if i != v0 && i != v1 {
                            assert(i < o.n()) by {
                                assert(s1.n() == o.n() || v0 == o.n());
                                assert(s2.n() == s1.n() || v1 == s1.n());
                            }
                            assert(f.adjacency@[i]@ == s2.adjacency@[i]@);
                            assert(s2.adjacency@[i]@ == s1.adjacency@[i]@ && s2.used@[i]
                                == s1.used@[i]) by {
                                if !s1.mapped(peer1@) {
                                    assert(s2.id2p@[i]@ == s1.id2p@[i]@);
                                }
                            }
                            assert(s1.adjacency@[i]@ == o.adjacency@[i]@ && s1.used@[i]
                                == o.used@[i]) by {
                                if !o.mapped(peer0@) {
                                    assert(s1.id2p@[i]@ == o.id2p@[i]@);
                                }
                            }
                        }
                    }
                }
                // The peer-level edge relation gained exactly this pair.
                assert forall|x: Seq<u8>, y: Seq<u8>| #[trigger]
                    f.spec_has_edge(x, y) <==> (o.spec_has_edge(x, y) || (x == peer0@ && y
                    == peer1@) || (x == peer1@ && y == peer0@)) by {
                    if f.spec_has_edge(x, y) {
                        let (i, j) = choose|i: int, j: int|
                            {
                                &&& 0 <= i < f.n() && 0 <= j < f.n()
                                &&& f.used@[i] && f.used@[j]
                                &&& #[trigger] f.id2p@[i]@ == x && #[trigger] f.id2p@[j]@ == y
                                &&& f.has_slot_edge(i, j)
                            };
                        if s2.has_slot_edge(i, j) {
                            assert(s2.spec_has_edge(x, y));
                            assert(o.spec_has_edge(x, y));
                        } else if i == v0 && j == v1 {
                            assert(x == peer0@ && y == peer1@);
                        } else {
                            assert(i == v1 && j == v0);
                            assert(x == peer1@ && y == peer0@);
                        }
                    }
                    if o.spec_has_edge(x, y) {
                        assert(s2.spec_has_edge(x, y));
                        let (i, j) = choose|i: int, j: int|
                            {
                                &&& 0 <= i < s2.n() && 0 <= j < s2.n()
                                &&& s2.used@[i] && s2.used@[j]
                                &&& #[trigger] s2.id2p@[i]@ == x && #[trigger] s2.id2p@[j]@ == y
                                &&& s2.has_slot_edge(i, j)
                            };
                        assert(f.used@[i] && f.used@[j] && f.id2p@[i]@ == x && f.id2p@[j]@ == y);
                        assert(f.has_slot_edge(i, j));
                        assert(f.spec_has_edge(x, y));
                    }
                    if x == peer0@ && y == peer1@ {
                        assert(f.used@[v0] && f.used@[v1] && f.id2p@[v0]@ == x && f.id2p@[v1]@
                            == y);
                        assert(f.has_slot_edge(v0, v1));
                        assert(f.spec_has_edge(x, y));
                    }
                    if x == peer1@ && y == peer0@ {
                        assert(f.used@[v1] && f.used@[v0] && f.id2p@[v1]@ == x && f.id2p@[v0]@
                            == y);
                        assert(f.has_slot_edge(v1, v0));
                        assert(f.spec_has_edge(x, y));
                    }
                }
                assert(f.spec_has_edge(peer0@, peer1@));
                assert forall|q: Seq<u8>| #[trigger]
                    f.mapped(q) <==> (o.mapped(q) || (!o.spec_has_edge(peer0@, peer1@) && (q
                    == peer0@ || q == peer1@))) by {
                    assert(f.mapped(q) <==> s2.mapped(q)) by {
                        if s2.mapped(q) {
                            let i = choose|i: int|
                                0 <= i < s2.n() && s2.used@[i] && #[trigger] s2.id2p@[i]@ == q;
                            assert(f.used@[i] && f.id2p@[i]@ == q);
                        }
                        if f.mapped(q) {
                            let i = choose|i: int|
                                0 <= i < f.n() && f.used@[i] && #[trigger] f.id2p@[i]@ == q;
                            assert(s2.used@[i] && s2.id2p@[i]@ == q);
                        }
                    }
                }
            }
        } else {
            proof {
                assert forall|x: Seq<u8>, y: Seq<u8>| #[trigger]
                    self.spec_has_edge(x, y) <==> (o.spec_has_edge(x, y) || (x == peer0@ && y
                    == peer1@) || (x == peer1@ && y == peer0@)) by {
                    if x == peer1@ && y == peer0@ && !o.spec_has_edge(x, y) {
                        let (i, j) = choose|i: int, j: int|
                            {
                                &&& 0 <= i < o.n() && 0 <= j < o.n()
                                &&& o.used@[i] && o.used@[j]
                                &&& #[trigger] o.id2p@[i]@ == peer0@ && #[trigger] o.id2p@[j]@
                                    == peer1@
                                &&& o.has_slot_edge(i, j)
                            };
                        assert(o.has_slot_edge(j, i));
                        assert(o.spec_has_edge(peer1@, peer0@));
                    }
                }
            }
        }
    }

    /// Free the slot if its adjacency list is empty and it is not the
    /// source: mark it unused and put it on the free list.
    fn remove_if_unused(&mut self, id: u32)
        requires
            old(self).wf_core(),
            0 <= id < old(self).n(),
            old(self).used@[id as int],
        ensures
            final(self).wf_core(),
            final(self).source == old(self).source,
            final(self).total_active_edges == old(self).total_active_edges,
            final(self).id2p@ == old(self).id2p@,
            final(self).adjacency@ == old(self).adjacency@,
            final(self).n() == old(self).n(),
            old(self).adjacency@[id as int]@.len() == 0 && id != 0 ==> final(self).used@ == old(
                self,
            ).used@.update(id as int, false) && final(self).unused@ == old(self).unused@.push(id),
            !(old(self).adjacency@[id as int]@.len() == 0 && id != 0) ==> final(self).used@ == old(
                self,
            ).used@ && final(self).unused@ == old(self).unused@,
    {
        let ghost o = *self;
        if self.adjacency[id as usize].len() == 0 && id != 0 {
            self.used[id as usize] = false;
            self.unused.push(id);
            proof {
                let f = *self;
                let v = id as int;
                assert(f.used@ =~= o.used@.update(v, false));
                assert forall|k: int|
                    0 <= k < f.unused@.len() implies 0 < #[trigger] f.unused@[k] < f.n()
                    && !f.used@[f.unused@[k] as int]
                    && f.adjacency@[f.unused@[k] as int]@.len() == 0 by {
                    if k < o.unused@.len() {
                        assert(f.unused@[k] == o.unused@[k]);
                        assert(o.unused@[k] != id);
                    } else {
                        assert(f.unused@[k] == id);
                    }
                }
                assert forall|k: int, l: int|
                    0 <= k < l < f.unused@.len() implies #[trigger] f.unused@[k]
                    != #[trigger] f.unused@[l] by {
                    if l == o.unused@.len() {
                        assert(f.unused@[l] == id);
                        assert(o.unused@[k] != id);
                    }
                }
                assert forall|i: int|
                    0 < i < f.n() && !f.used@[i] implies f.unused@.contains(i as u32) by {
                    if i == v {
                        assert(f.unused@[o.unused@.len() as int] == id);
                    } else {
                        assert(!o.used@[i]);
                        assert(o.unused@.contains(i as u32));
                        let k = choose|k: int| 0 <= k < o.unused@.len() && o.unused@[k] == i as u32;
                        assert(f.unused@[k] == i as u32);
                    }
                }
                assert forall|i: int, k: int|
                    0 <= i < f.n() && 0 <= k < f.adjacency@[i]@.len() implies 0
                    <= #[trigger] f.adjacency@[i]@[k] < f.n()
                    && f.used@[f.adjacency@[i]@[k] as int] && f.adjacency@[i]@[k] != i by {
                    assert(o.used@[o.adjacency@[i]@[k] as int]);
                    assert(o.adjacency@[i]@[k] != id) by {
                        if o.adjacency@[i]@[k] == id {
                            assert(o.adjacency@[i]@.contains(id));
                            assert(o.has_slot_edge(i, v));
                            assert(o.has_slot_edge(v, i));
                            assert(o.adjacency@[v]@.len() == 0);
                        }
                    }
                }
                assert forall|i: int, j: int|
                    0 <= i < f.n() && 0 <= j < f.n() implies (#[trigger] f.has_slot_edge(i, j)
                    <==> #[trigger] f.has_slot_edge(j, i)) by {
                    assert(f.adjacency@[i]@ == o.adjacency@[i]@);
                    assert(f.adjacency@[j]@ == o.adjacency@[j]@);
                    assert(o.has_slot_edge(i, j) <==> o.has_slot_edge(j, i));
                }
                assert forall|i: int, j: int|
                    0 <= i < f.n() && 0 <= j < f.n() && i != j && f.used@[i] && f.used@[j] implies
                #[trigger] f.id2p@[i]@ != #[trigger] f.id2p@[j]@ by {
                    assert(o.used@[i] && o.used@[j]);
                }
                assert(f.wf_core());
            }
        }
    }

    /// Disconnect the two peers. Does nothing if they are not adjacent;
    /// otherwise removes each from the other's neighbor list, and frees any
    /// endpoint slot left without neighbors (except the source).
    #[verifier::rlimit(100)]
    pub fn remove_edge(&mut self, peer0: &PeerId, peer1: &PeerId)
        requires
            old(self).wf(),
            peer0@ != peer1@,
        ensures
            final(self).wf(),
            final(self).spec_source() == old(self).spec_source(),
            final(self).n() == old(self).n(),
            !old(self).spec_has_edge(peer0@, peer1@) ==> *final(self) == *old(self),
            final(self).source_degree() <= old(self).source_degree(),
            forall|x: Seq<u8>, y: Seq<u8>|
                #[trigger] final(self).spec_has_edge(x, y) <==> (old(self).spec_has_edge(x, y)
                    && !(x == peer0@ && y == peer1@) && !(x == peer1@ && y == peer0@)),
            forall|q: Seq<u8>|
                q != peer0@ && q != peer1@ ==> (#[trigger] final(self).mapped(q) <==> old(
                    self,
                ).mapped(q)),
            final(self).spec_total_active_edges() == (if old(self).spec_has_edge(peer0@, peer1@) {
                if old(self).spec_total_active_edges() > 0 {
                    (old(self).spec_total_active_edges() - 1) as u64
                } else {
                    0u64
                }
            } else {
                old(self).spec_total_active_edges()
            }),
    {
        let ghost o = *self;
        match (self.find_slot(peer0), self.find_slot(peer1)) {
            (Some(id0), Some(id1)) => {
                proof {
                    assert(id0 != id1);
                }
                let i0 = id0 as usize;
                let i1 = id1 as usize;
                if contains_u32(&self.adjacency[i0], id1) {
                    proof {
                        assert(o.has_slot_edge(id0 as int, id1 as int));
                        assert(o.has_slot_edge(id1 as int, id0 as int));
                    }
                    let row0 = remove_first_u32(&self.adjacency[i0], id1);
                    self.adjacency[i0] = row0;
                    let row1 = remove_first_u32(&self.adjacency[i1], id0);
                    self.adjacency[i1] = row1;
                    let ghost s2 = *self;
                    proof {
                        let v0 = id0 as int;
                        let v1 = id1 as int;
                        // Which slot pairs are adjacent now.
                        assert forall|i: int, j: int| 0 <= i < s2.n() && 0 <= j < s2.n() implies (
                        #[trigger] s2.has_slot_edge(i, j) <==> (o.has_slot_edge(i, j) && !(i == v0
                            && j == v1) && !(i == v1 && j == v0))) by {
                            if i == v0 {
                                assert(j as u32 == id1 <==> j == v1);
                            } else if i == v1 {
                                assert(j as u32 == id0 <==> j == v0);
                            } else {
                                assert(s2.adjacency@[i]@ == o.adjacency@[i]@);
                            }
                        }
                        assert(s2.wf_core()) by {
                            assert forall|i: int, k: int|
                                0 <= i < s2.n() && 0 <= k < s2.adjacency@[i]@.len() implies 0
                                <= #[trigger] s2.adjacency@[i]@[k] < s2.n()
                                && s2.used@[s2.adjacency@[i]@[k] as int] && s2.adjacency@[i]@[k]
                                != i by {
                                if i == v0 || i == v1 {
                                    assert(s2.adjacency@[i]@.contains(s2.adjacency@[i]@[k]));
                                    let x = s2.adjacency@[i]@[k];
                                    assert(o.adjacency@[i]@.contains(x));
                                    let m = choose|m: int|
                                        0 <= m < o.adjacency@[i]@.len() && o.adjacency@[i]@[m] == x;
                                    assert(0 <= o.adjacency@[i]@[m] < o.n());
                                } else {
                                    assert(s2.adjacency@[i]@ == o.adjacency@[i]@);
                                }
                            }
                            assert forall|i: int, k: int, l: int|
                                0 <= i < s2.n() && 0 <= k < l < s2.adjacency@[i]@.len() implies
                            #[trigger] s2.adjacency@[i]@[k] != #[trigger] s2.adjacency@[i]@[l] by {
                                if i != v0 && i != v1 {
                                    assert(s2.adjacency@[i]@ == o.adjacency@[i]@);
                                }
                            }
                            assert forall|k: int|
                                0 <= k < s2.unused@.len() implies 0 < #[trigger] s2.unused@[k]
                                < s2.n() && !s2.used@[s2.unused@[k] as int]
                                && s2.adjacency@[s2.unused@[k] as int]@.len() == 0 by {
                                let u = s2.unused@[k] as int;
                                assert(!o.used@[u]);
                                assert(u != v0 && u != v1);
                                assert(s2.adjacency@[u]@ == o.adjacency@[u]@);
                            }
                        }
                        // The peer-level edge relation lost exactly this pair.
                        assert forall|x: Seq<u8>, y: Seq<u8>| #[trigger]
                            s2.spec_has_edge(x, y) <==> (o.spec_has_edge(x, y) && !(x == peer0@
                            && y == peer1@) && !(x == peer1@ && y == peer0@)) by {
                            if s2.spec_has_edge(x, y) {
                                let (i, j) = choose|i: int, j: int|
                                    {
                                        &&& 0 <= i < s2.n() && 0 <= j < s2.n()
                                        &&& s2.used@[i] && s2.used@[j]
                                        &&& #[trigger] s2.id2p@[i]@ == x && #[trigger] s2.id2p@[j]@
                                            == y
                                        &&& s2.has_slot_edge(i, j)
                                    };
                                assert(o.spec_has_edge(x, y));
                                if x == peer0@ && y == peer1@ {
                                    assert(i == v0 && j == v1);
                                }
                                if x == peer1@ && y == peer0@ {
                                    assert(i == v1 && j == v0);
                                }
                            }
                            if o.spec_has_edge(x, y) && !(x == peer0@ && y == peer1@) && !(x
                                == peer1@ && y == peer0@) {
                                let (i, j) = choose|i: int, j: int|
                                    {
                                        &&& 0 <= i < o.n() && 0 <= j < o.n()
                                        &&& o.used@[i] && o.used@[j]
                                        &&& #[trigger] o.id2p@[i]@ == x && #[trigger] o.id2p@[j]@
                                            == y
                                        &&& o.has_slot_edge(i, j)
                                    };
                                assert(!(i == v0 && j == v1)) by {
                                    if i == v0 && j == v1 {
                                        assert(x == peer0@ && y == peer1@);
                                    }
                                }
                                assert(!(i == v1 && j == v0)) by {
                                    if i == v1 && j == v0 {
                                        assert(x == peer1@ && y == peer0@);
                                    }
                                }
                                assert(s2.has_slot_edge(i, j));
                                assert(s2.spec_has_edge(x, y));
                            }
                        }
                    }
                    self.remove_if_unused(id0);
                    let ghost s3 = *self;
                    proof {
                        assert(self.used@[id1 as int]);
                    }
                    self.remove_if_unused(id1);
                    let ghost s4 = *self;
                    if self.total_active_edges > 0 {
                        self.total_active_edges = self.total_active_edges - 1;
                    }
                    proof {
                        let f = *self;
                        assert(f.used@ == s4.used@ && f.id2p@ == s4.id2p@ && f.adjacency@
                            == s4.adjacency@ && f.unused@ == s4.unused@ && f.source == s4.source);
                        assert(f.wf_core()) by {
                            lemma_wf_core_same_fields(s4, f);
                        }
                        assert(f.adjacency@ == s2.adjacency@);
                        assert forall|x: Seq<u8>, y: Seq<u8>| #[trigger]
                            f.spec_has_edge(x, y) <==> s2.spec_has_edge(x, y) by {
                            if f.spec_has_edge(x, y) {
                                let (i, j) = choose|i: int, j: int|
                                    {
                                        &&& 0 <= i < f.n() && 0 <= j < f.n()
                                        &&& f.used@[i] && f.used@[j]
                                        &&& #[trigger] f.id2p@[i]@ == x && #[trigger] f.id2p@[j]@
                                            == y
                                        &&& f.has_slot_edge(i, j)
                                    };
                                assert(s2.used@[i] && s2.used@[j]);
                                assert(s2.spec_has_edge(x, y));
                            }
                            if s2.spec_has_edge(x, y) {
                                let (i, j) = choose|i: int, j: int|
                                    {
                                        &&& 0 <= i < s2.n() && 0 <= j < s2.n()
                                        &&& s2.used@[i] && s2.used@[j]
                                        &&& #[trigger] s2.id2p@[i]@ == x && #[trigger] s2.id2p@[j]@
                                            == y
                                        &&& s2.has_slot_edge(i, j)
                                    };
                                assert(s2.adjacency@[i]@.len() > 0);
                                assert(f.used@[i]) by {
                                    assert(s3.adjacency@[i]@ == s2.adjacency@[i]@);
                                    if i == id0 as int {
                                        assert(s3.used@[i]);
                                    } else {
                                        assert(s3.used@[i] == s2.used@[i]);
                                        if i == id1 as int {
                                            assert(s3.adjacency@[i]@.len() > 0);
                                        }
                                    }
                                }
                                assert(f.used@[j]) by {
                                    assert(s2.has_slot_edge(j, i));
                                    assert(s2.adjacency@[j]@.len() > 0);
                                    assert(s3.adjacency@[j]@ == s2.adjacency@[j]@);
                                    if j == id0 as int {
                                        assert(s3.used@[j]);
                                    } else {
                                        assert(s3.used@[j] == s2.used@[j]);
                                    }
                                }
                                assert(f.has_slot_edge(i, j));
                                assert(f.spec_has_edge(x, y));
                            }
                        }
                        assert forall|i: int|
                            0 < i < f.n() && f.used@[i] implies #[trigger] f.adjacency@[i]@.len()
                            > 0 by {
                            if i != id0 as int && i != id1 as int {
                                assert(s2.adjacency@[i]@ == o.adjacency@[i]@);
                                assert(s3.used@[i] == s2.used@[i]);
                                assert(s2.used@[i] == o.used@[i]);
                                assert(o.used@[i]);
                            } else if i == id0 as int {
                                assert(f.used@[i] == s3.used@[i]);
                                assert(s3.used@[i]);
                                assert(f.adjacency@[i]@ == s2.adjacency@[i]@);
                            } else {
                                assert(s3.adjacency@[i]@ == s2.adjacency@[i]@);
                                assert(f.adjacency@[i]@ == s2.adjacency@[i]@);
                            }
                        }
                        assert(f.wf()) by {
                            assert forall|i: int|
                                0 < i < f.n() && f.used@[i] implies #[trigger] f.adjacency@[i]@.len()
                                > 0 by {
                                if i != id0 as int && i != id1 as int {
                                    assert(s2.adjacency@[i]@ == o.adjacency@[i]@);
                                    assert(s3.used@[i] == s2.used@[i]);
                                    assert(s2.used@[i] == o.used@[i]);
                                    assert(o.used@[i]);
                                } else if i == id0 as int {
                                    assert(f.used@[i] == s3.used@[i]);
                                    assert(s3.used@[i]);
                                    assert(f.adjacency@[i]@ == s2.adjacency@[i]@);
                                } else {
                                    assert(s3.adjacency@[i]@ == s2.adjacency@[i]@);
                                    assert(f.adjacency@[i]@ == s2.adjacency@[i]@);
                                }
                            }
                        }
                        assert forall|q: Seq<u8>|
                            q != peer0@ && q != peer1@ implies (#[trigger] f.mapped(q) <==> o.mapped(
                            q,
                        )) by {
                            if f.mapped(q) {
                                let i = choose|i: int|
                                    0 <= i < f.n() && f.used@[i] && #[trigger] f.id2p@[i]@ == q;
                                assert(o.used@[i] && o.id2p@[i]@ == q);
                                assert(o.mapped(q));
                            }
                            if o.mapped(q) {
                                let i = choose|i: int|
                                    0 <= i < o.n() && o.used@[i] && #[trigger] o.id2p@[i]@ == q;
                                assert(i != id0 as int && i != id1 as int);
                                assert(f.used@[i] && f.id2p@[i]@ == q);
                                assert(f.mapped(q));
                            }
                        }
                    }
                } else {
                    proof {
                        lemma_no_edge_means_no_pair(o, peer0@, peer1@, id0 as int, id1 as int);
                    }
                }
            },
            _ => {
                proof {
                    assert forall|x: Seq<u8>, y: Seq<u8>| #[trigger]
                        self.spec_has_edge(x, y) <==> (o.spec_has_edge(x, y) && !(x == peer0@ && y
                        == peer1@) && !(x == peer1@ && y == peer0@)) by {
                        if o.spec_has_edge(peer0@, peer1@) {
                            assert(o.mapped(peer0@) && o.mapped(peer1@));
                        }
                        if o.spec_has_edge(peer1@, peer0@) {
                            assert(o.mapped(peer0@) && o.mapped(peer1@));
                        }
                    }
                }
            },
        }
    }

    /// For every peer reachable from the source, the direct neighbors of the
    /// source that lie on a shortest path to it: a breadth-first search from
    /// the source's neighbors, aggregating first-hop sets as bitsets.
    ///
    /// Only the first `MAX_NUM_PEERS` direct neighbors of the source are
    /// aggregated. Every returned peer is a used, reachable, non-source
    /// node, each of its next hops is a direct neighbor of the source, and
    /// no peer is returned twice.
    pub fn calculate_distance(&self) -> (r: Vec<(PeerId, Vec<PeerId>)>)
        requires
            self.wf(),
        ensures
            forall|k: int|
                0 <= k < r@.len() ==> (#[trigger] r@[k].0@) != self.spec_source()
                    && self.mapped(r@[k].0@) && self.peer_reachable(r@[k].0@) && r@[k].1@.len()
                    > 0,
            forall|k: int, t: int|
                0 <= k < r@.len() && 0 <= t < r@[k].1@.len() ==> self.spec_has_edge(
                    self.spec_source(),
                    (#[trigger] r@[k].1@[t])@,
                ),
            forall|k: int, l: int|
                0 <= k < l < r@.len() ==> (#[trigger] r@[k].0@) != (#[trigger] r@[l].0@),
            forall|k: int, t1: int, t2: int|
                0 <= k < r@.len() && 0 <= t1 < t2 < r@[k].1@.len() ==> (#[trigger] r@[k].1@[t1])@
                    != (#[trigger] r@[k].1@[t2])@,
            self.source_degree() <= MAX_NUM_PEERS as int ==> (forall|p: Seq<u8>|
                #[trigger] self.peer_reachable(p) && p != self.spec_source() ==> exists|kk: int|
                    0 <= kk < r@.len() && (#[trigger] r@[kk]).0@ == p),
            forall|k: int, t: int|
                0 <= k < r@.len() && 0 <= t < r@[k].1@.len() ==> self.peers_connected(
                    (#[trigger] r@[k].1@[t])@,
                    r@[k].0@,
                ),
    {
        let n = self.id2p.len();
        let mut distance: Vec<i64> = vec![-1i64; n];
        let mut routes: Vec<u128> = vec![0u128; n];
        distance[0] = 0;
        let ghost mut assigned: Set<int> = set![0int];
        proof {
            let p0: Seq<int> = seq![0int];
            assert(self.is_walk(p0) && p0.last() == 0);
            assert(self.slot_reachable(0));
            assert(assigned.len() == 1 && assigned.finite());
            assert(assigned.subset_of(vstd::set_lib::set_int_range(0, n as int)));
            vstd::set_lib::lemma_int_range(0, n as int);
            vstd::set_lib::lemma_len_subset(
                assigned,
                vstd::set_lib::set_int_range(0, n as int),
            );
        }
        let neighbors = &self.adjacency[0];
        let deg = neighbors.len();
        let m: usize = if deg < MAX_NUM_PEERS {
            deg
        } else {
            MAX_NUM_PEERS
        };
        let mut queue: Vec<u32> = Vec::new();
        proof {
            assert forall|v: int, b: int|
                #![trigger routes@[v], self.adjacency@[0]@[b]]
                0 <= v < n && 0 <= b < m && routes@[v] & (1u128 << (b as u128))
                    != 0 implies self.chain_connects(self.adjacency@[0]@[b] as int, v) by {
                assert(routes@[v] == 0);
                assert(0u128 & (1u128 << (b as u128)) == 0) by (bit_vector);
            }
        }
        let mut id: usize = 0;
        while id < m
            invariant
                self.wf(),
                n == self.n(),
                m <= deg && m <= MAX_NUM_PEERS,
                m == (if deg < MAX_NUM_PEERS {
                    deg as int
                } else {
                    MAX_NUM_PEERS as int
                }),
                deg == self.adjacency@[0]@.len(),
                neighbors == self.adjacency@[0],
                distance@.len() == n && routes@.len() == n,
                id <= m,
                assigned.finite(),
                assigned.subset_of(vstd::set_lib::set_int_range(0, n as int)),
                assigned.len() <= n,
                assigned.contains(0),
                distance@[0] == 0,
                forall|v: int| 0 <= v < n ==> (assigned.contains(v) <==> distance@[v] != -1),
                forall|v: int|
                    0 <= v < n && assigned.contains(v) ==> 0 <= #[trigger] distance@[v]
                        < assigned.len(),
                forall|v: int|
                    0 <= v < n && assigned.contains(v) ==> self.used@[v] && self.slot_reachable(
                        v,
                    ),
                forall|v: int|
                    0 <= v < n && assigned.contains(v) && v != 0 ==> has_low_bit(
                        #[trigger] routes@[v],
                        m as int,
                    ),
                forall|v: int, b: int|
                    #![trigger routes@[v], self.adjacency@[0]@[b]]
                    0 <= v < n && 0 <= b < m && routes@[v] & (1u128 << (b as u128)) != 0
                        ==> self.chain_connects(self.adjacency@[0]@[b] as int, v),
                forall|j: int|
                    0 <= j < id ==> assigned.contains(#[trigger] self.adjacency@[0]@[j] as int),
                queue@.len() <= id,
                forall|k: int|
                    0 <= k < queue@.len() ==> 0 < #[trigger] queue@[k] < n && assigned.contains(
                        queue@[k] as int,
                    ),
                forall|v: int|
                    0 <= v < n && assigned.contains(v) && v != 0 ==> queue@.contains(v as u32),
            decreases m - id,
        {
            let nbr = neighbors[id];
            let nbu = nbr as usize;
            proof {
                assert(self.adjacency@[0]@[id as int] == nbr);
                assert(0 <= nbr < n && self.used@[nbu as int] && nbr != 0);
                lemma_reachable_step(*self, 0, nbu as int);
            }
            let ghost q_pre = queue@;
            if distance[nbu] == -1 {
                queue.push(nbr);
                distance[nbu] = 1;
                proof {
                    let a2 = assigned.insert(nbu as int);
                    assert(a2.len() == assigned.len() + 1);
                    vstd::set_lib::lemma_int_range(0, n as int);
                    vstd::set_lib::lemma_len_subset(
                        a2,
                        vstd::set_lib::set_int_range(0, n as int),
                    );
                    assigned = a2;
                    assert forall|v: int|
                        0 <= v < n && assigned.contains(v) && v != 0 implies queue@.contains(
                        v as u32,
                    ) by {
                        if v == nbu as int {
                            assert(queue@[queue@.len() - 1] == nbr);
                        } else {
                            let ix = choose|ix: int|
                                0 <= ix < q_pre.len() && q_pre[ix] == v as u32;
                            assert(queue@[ix] == v as u32);
                        }
                    }
                }
            }
            let prior = routes[nbu];
            routes[nbu] = prior | (1u128 << (id as u128));
            proof {
                lemma_self_bit(id as u128);
                lemma_or_keeps_bit(prior, 1u128 << (id as u128), id as u128);
                assert(has_low_bit(routes@[nbu as int], m as int)) by {
                    assert(routes@[nbu as int] & (1u128 << ((id as int) as u128)) != 0);
                }
                assert forall|v: int, b: int|
                    #![trigger routes@[v], self.adjacency@[0]@[b]]
                    0 <= v < n && 0 <= b < m && routes@[v] & (1u128 << (b as u128)) != 0 implies self.chain_connects(
                    self.adjacency@[0]@[b] as int,
                    v,
                ) by {
                    if v == nbu as int {
                        lemma_or_bit_source(prior, 1u128 << (id as u128), b as u128);
                        if prior & (1u128 << (b as u128)) != 0 {
                        } else {
                            assert((1u128 << (id as u128)) & (1u128 << (b as u128)) != 0);
                            assert(b == id as int) by {
                                if b != id as int {
                                    lemma_distinct_bits(id as u128, b as u128);
                                }
                            }
                            lemma_chain_base(*self, nbu as int);
                        }
                    }
                }
                assert forall|v: int|
                    0 <= v < n && assigned.contains(v) && v != 0 implies has_low_bit(
                    #[trigger] routes@[v],
                    m as int,
                ) by {}
            }
            id += 1;
        }
        let mut qhead: usize = 0;
        while qhead < queue.len()
            invariant
                self.wf(),
                n == self.n(),
                m <= deg && m <= MAX_NUM_PEERS,
                m == (if deg < MAX_NUM_PEERS {
                    deg as int
                } else {
                    MAX_NUM_PEERS as int
                }),
                deg == self.adjacency@[0]@.len(),
                distance@.len() == n && routes@.len() == n,
                assigned.finite(),
                assigned.subset_of(vstd::set_lib::set_int_range(0, n as int)),
                assigned.len() <= n,
                assigned.contains(0),
                distance@[0] == 0,
                forall|v: int| 0 <= v < n ==> (assigned.contains(v) <==> distance@[v] != -1),
                forall|v: int|
                    0 <= v < n && assigned.contains(v) ==> 0 <= #[trigger] distance@[v]
                        < assigned.len(),
                forall|v: int|
                    0 <= v < n && assigned.contains(v) ==> self.used@[v] && self.slot_reachable(
                        v,
                    ),
                forall|v: int|
                    0 <= v < n && assigned.contains(v) && v != 0 ==> has_low_bit(
                        #[trigger] routes@[v],
                        m as int,
                    ),
                forall|v: int, b: int|
                    #![trigger routes@[v], self.adjacency@[0]@[b]]
                    0 <= v < n && 0 <= b < m && routes@[v] & (1u128 << (b as u128)) != 0
                        ==> self.chain_connects(self.adjacency@[0]@[b] as int, v),
                forall|j: int|
                    0 <= j < m ==> assigned.contains(#[trigger] self.adjacency@[0]@[j] as int),
                qhead <= queue@.len(),
                forall|k: int|
                    0 <= k < queue@.len() ==> 0 < #[trigger] queue@[k] < n && assigned.contains(
                        queue@[k] as int,
                    ),
                forall|v: int|
                    0 <= v < n && assigned.contains(v) && v != 0 ==> queue@.contains(v as u32),
                forall|idx: int, kk: int|
                    0 <= idx < qhead && 0 <= kk < self.adjacency@[queue@[idx] as int]@.len()
                        ==> assigned.contains(
                        #[trigger] self.adjacency@[queue@[idx] as int]@[kk] as int,
                    ),
            decreases 2 * (n - assigned.len()) + (queue@.len() - qhead),
        {
            let ghost a_start = assigned;
            let ghost qlen_start = queue@.len();
            let cur = queue[qhead];
            let curu = cur as usize;
            let cur_d = distance[curu];
            proof {
                assert(assigned.contains(curu as int));
                assert(0 <= cur_d < assigned.len());
                assert(self.slot_reachable(curu as int));
            }
            let row_len = self.adjacency[curu].len();
            let mut k: usize = 0;
            while k < row_len
                invariant
                    self.wf(),
                    n == self.n(),
                    m <= deg && m <= MAX_NUM_PEERS,
                    m == (if deg < MAX_NUM_PEERS {
                        deg as int
                    } else {
                        MAX_NUM_PEERS as int
                    }),
                    deg == self.adjacency@[0]@.len(),
                    distance@.len() == n && routes@.len() == n,
                    0 < curu < n,
                    self.slot_reachable(curu as int),
                    assigned.contains(curu as int),
                    row_len == self.adjacency@[curu as int]@.len(),
                    k <= row_len,
                    assigned.finite(),
                    assigned.subset_of(vstd::set_lib::set_int_range(0, n as int)),
                    assigned.len() <= n,
                    assigned.contains(0),
                    distance@[0] == 0,
                    0 <= cur_d < assigned.len(),
                    forall|v: int| 0 <= v < n ==> (assigned.contains(v) <==> distance@[v] != -1),
                    forall|v: int|
                        0 <= v < n && assigned.contains(v) ==> 0 <= #[trigger] distance@[v]
                            < assigned.len(),
                    forall|v: int|
                        0 <= v < n && assigned.contains(v) ==> self.used@[v]
                            && self.slot_reachable(v),
                    forall|v: int|
                        0 <= v < n && assigned.contains(v) && v != 0 ==> has_low_bit(
                            #[trigger] routes@[v],
                            m as int,
                        ),
                    forall|v: int, b: int|
                        #![trigger routes@[v], self.adjacency@[0]@[b]]
                        0 <= v < n && 0 <= b < m && routes@[v] & (1u128 << (b as u128)) != 0
                            ==> self.chain_connects(self.adjacency@[0]@[b] as int, v),
                    forall|j: int|
                        0 <= j < m ==> assigned.contains(#[trigger] self.adjacency@[0]@[j] as int),
                    qhead < queue@.len(),
                    queue@[qhead as int] == curu as u32,
                    forall|kk: int|
                        0 <= kk < queue@.len() ==> 0 < #[trigger] queue@[kk] < n
                            && assigned.contains(queue@[kk] as int),
                    forall|v: int|
                        0 <= v < n && assigned.contains(v) && v != 0 ==> queue@.contains(v as u32),
                    forall|idx: int, kk: int|
                        0 <= idx < qhead && 0 <= kk < self.adjacency@[queue@[idx] as int]@.len()
                            ==> assigned.contains(
                            #[trigger] self.adjacency@[queue@[idx] as int]@[kk] as int,
                        ),
                    forall|kk: int|
                        0 <= kk < k ==> assigned.contains(
                            #[trigger] self.adjacency@[curu as int]@[kk] as int,
                        ),
                    queue@.len() - assigned.len() == qlen_start - a_start.len(),
                    a_start.len() <= assigned.len(),
                decreases row_len - k,
            {
                let nb = self.adjacency[curu][k];
                let nbu = nb as usize;
                proof {
                    assert(self.adjacency@[curu as int]@[k as int] == nb);
                    assert(0 <= nb < n && self.used@[nbu as int]);
                    assert(self.adjacency@[curu as int]@.contains(nb));
                    assert(self.has_slot_edge(curu as int, nbu as int));
                    assert(nb != curu as u32);
                    lemma_reachable_step(*self, curu as int, nbu as int);
                }
                let ghost q_pre = queue@;
                let ghost newly = distance@[nbu as int] == -1;
                if distance[nbu] == -1 {
                    if cur_d < i64::MAX {
                        distance[nbu] = cur_d + 1;
                        queue.push(nb);
                        proof {
                            assert(nbu as int != 0);
                            let a2 = assigned.insert(nbu as int);
                            assert(a2.len() == assigned.len() + 1);
                            vstd::set_lib::lemma_int_range(0, n as int);
                            vstd::set_lib::lemma_len_subset(
                                a2,
                                vstd::set_lib::set_int_range(0, n as int),
                            );
                            assigned = a2;
                            assert forall|v: int|
                                0 <= v < n && assigned.contains(v) && v != 0 implies queue@.contains(
                                v as u32,
                            ) by {
                                if v == nbu as int {
                                    assert(queue@[queue@.len() - 1] == nb);
                                } else {
                                    let ix = choose|ix: int|
                                        0 <= ix < q_pre.len() && q_pre[ix] == v as u32;
                                    assert(queue@[ix] == v as u32);
                                }
                            }
                        }
                    }
                }
                let rc = routes[curu];
                let rn = routes[nbu];
                if distance[nbu] == cur_d + 1 {
                    routes[nbu] = rn | rc;
                    proof {
                        assert forall|v: int|
                            0 <= v < n && assigned.contains(v) && v != 0 implies has_low_bit(
                            #[trigger] routes@[v],
                            m as int,
                        ) by {
                            if v == nbu as int {
                                if newly {
                                    let b = choose|b: int|
                                        0 <= b < m && rc & (1u128 << (#[trigger] (b as u128)))
                                            != 0;
                                    lemma_or_keeps_bit(rn, rc, b as u128);
                                } else {
                                    let b = choose|b: int|
                                        0 <= b < m && rn & (1u128 << (#[trigger] (b as u128)))
                                            != 0;
                                    lemma_or_keeps_bit(rc, rn, b as u128);
                                }
                            }
                        }
                        // Every set bit names a neighbor from which a chain
                        // of links leads here.
                        assert forall|v: int, b: int|
                            #![trigger routes@[v], self.adjacency@[0]@[b]]
                            0 <= v < n && 0 <= b < m && routes@[v] & (1u128 << (b as u128))
                                != 0 implies self.chain_connects(
                            self.adjacency@[0]@[b] as int,
                            v,
                        ) by {
                            if v == nbu as int {
                                lemma_or_bit_source(rn, rc, b as u128);
                                if rn & (1u128 << (b as u128)) != 0 {
                                } else {
                                    assert(rc & (1u128 << (b as u128)) != 0);
                                    assert(self.chain_connects(
                                        self.adjacency@[0]@[b] as int,
                                        curu as int,
                                    ));
                                    lemma_chain_step(
                                        *self,
                                        self.adjacency@[0]@[b] as int,
                                        curu as int,
                                        nbu as int,
                                    );
                                }
                            }
                        }
                    }
                }
                k += 1;
            }
            qhead += 1;
        }
        proof {
            // At exhaustion, the assigned set is closed under adjacency.
            assert forall|v: int, kk: int|
                assigned.contains(v) && v != 0 && 0 <= v < n && 0 <= kk
                    < self.adjacency@[v]@.len() implies assigned.contains(
                #[trigger] self.adjacency@[v]@[kk] as int,
            ) by {
                assert(queue@.contains(v as u32));
                let idx = choose|idx: int| 0 <= idx < queue@.len() && queue@[idx] == v as u32;
                assert(self.adjacency@[queue@[idx] as int]@[kk] as int == self.adjacency@[v]@[kk] as int);
            }
            if deg <= MAX_NUM_PEERS {
                assert(m as int == deg as int);
                assert forall|v: int|
                    0 <= v < n && self.slot_reachable(v) implies assigned.contains(v) by {
                    let p = choose|p: Seq<int>| self.is_walk(p) && p.last() == v;
                    lemma_walk_assigned(*self, assigned, p);
                }
            }
        }
        let r = self.compute_result(&routes, &distance, Ghost(assigned));
        proof {
            if self.source_degree() <= MAX_NUM_PEERS as int {
                assert forall|p: Seq<u8>|
                    #[trigger] self.peer_reachable(p) && p != self.spec_source() implies exists|
                    kk: int,
                |
                    0 <= kk < r@.len() && (#[trigger] r@[kk]).0@ == p by {
                    let v = choose|v: int|
                        0 <= v < self.n() && self.used@[v] && #[trigger] self.id2p@[v]@ == p
                            && self.slot_reachable(v);
                    assert(v != 0);
                    assert(assigned.contains(v));
                }
            }
        }
        r
    }

    /// Walk the distance and first-hop tables and emit, for every reachable
    /// non-source node, the source neighbors its routes bitset names.
    fn compute_result(
        &self,
        routes: &Vec<u128>,
        distance: &Vec<i64>,
        assigned: Ghost<Set<int>>,
    ) -> (r: Vec<(PeerId, Vec<PeerId>)>)
        requires
            self.wf(),
            routes@.len() == self.n(),
            distance@.len() == self.n(),
            forall|v: int|
                0 <= v < self.n() ==> (#[trigger] distance@[v] != -1 <==> assigned@.contains(v)),
            forall|v: int|
                0 <= v < self.n() && assigned@.contains(v) ==> self.used@[v]
                    && self.slot_reachable(v),
            forall|v: int|
                0 <= v < self.n() && assigned@.contains(v) && v != 0 ==> has_low_bit(
                    #[trigger] routes@[v],
                    if self.source_degree() < MAX_NUM_PEERS as int {
                        self.source_degree()
                    } else {
                        MAX_NUM_PEERS as int
                    },
                ),
            forall|v: int, b: int|
                #![trigger routes@[v], self.adjacency@[0]@[b]]
                0 <= v < self.n() && 0 <= b < (if self.source_degree() < MAX_NUM_PEERS as int {
                    self.source_degree()
                } else {
                    MAX_NUM_PEERS as int
                }) && routes@[v] & (1u128 << (b as u128)) != 0 ==> self.chain_connects(
                    self.adjacency@[0]@[b] as int,
                    v,
                ),
        ensures
            forall|k: int|
                0 <= k < r@.len() ==> (#[trigger] r@[k].0@) != self.spec_source()
                    && self.mapped(r@[k].0@) && self.peer_reachable(r@[k].0@) && r@[k].1@.len()
                    > 0,
            forall|v: int|
                0 <= v < self.n() && #[trigger] assigned@.contains(v) && v != 0 ==> exists|kk: int|
                    0 <= kk < r@.len() && (#[trigger] r@[kk]).0@ == self.id2p@[v]@,
            forall|k: int, t: int|
                0 <= k < r@.len() && 0 <= t < r@[k].1@.len() ==> self.peers_connected(
                    (#[trigger] r@[k].1@[t])@,
                    r@[k].0@,
                ),
            forall|k: int, t: int|
                0 <= k < r@.len() && 0 <= t < r@[k].1@.len() ==> self.spec_has_edge(
                    self.spec_source(),
                    (#[trigger] r@[k].1@[t])@,
                ),
            forall|k: int, l: int|
                0 <= k < l < r@.len() ==> (#[trigger] r@[k].0@) != (#[trigger] r@[l].0@),
            forall|k: int, t1: int, t2: int|
                0 <= k < r@.len() && 0 <= t1 < t2 < r@[k].1@.len() ==> (#[trigger] r@[k].1@[t1])@
                    != (#[trigger] r@[k].1@[t2])@,
    {
        let n = self.id2p.len();
        let mut res: Vec<(PeerId, Vec<PeerId>)> = Vec::new();
        let ghost mut slots: Seq<int> = Seq::empty();
        let neighbors = &self.adjacency[0];
        let deg = neighbors.len();
        let m: usize = if deg < MAX_NUM_PEERS {
            deg
        } else {
            MAX_NUM_PEERS
        };
        let mut key: usize = 0;
        while key < n
            invariant
                self.wf(),
                n == self.n(),
                routes@.len() == n && distance@.len() == n,
                deg == self.adjacency@[0]@.len(),
                neighbors == self.adjacency@[0],
                m <= deg && m <= MAX_NUM_PEERS,
                key <= n,
                forall|v: int|
                    0 <= v < self.n() ==> (#[trigger] distance@[v] != -1 <==> assigned@.contains(
                        v,
                    )),
                forall|v: int|
                    0 <= v < self.n() && assigned@.contains(v) ==> self.used@[v]
                        && self.slot_reachable(v),
                forall|v: int|
                    0 <= v < self.n() && assigned@.contains(v) && v != 0 ==> has_low_bit(
                        #[trigger] routes@[v],
                        m as int,
                    ),
                forall|v: int, b: int|
                    #![trigger routes@[v], self.adjacency@[0]@[b]]
                    0 <= v < self.n() && 0 <= b < m && routes@[v] & (1u128 << (b as u128)) != 0
                        ==> self.chain_connects(self.adjacency@[0]@[b] as int, v),
                m == (if self.source_degree() < MAX_NUM_PEERS as int {
                    self.source_degree()
                } else {
                    MAX_NUM_PEERS as int
                }),
                forall|v: int|
                    0 <= v < key && #[trigger] assigned@.contains(v) && v != 0 ==> exists|kk: int|
                        0 <= kk < res@.len() && (#[trigger] res@[kk]).0@ == self.id2p@[v]@,
                slots.len() == res@.len(),
                forall|a: int|
                    0 <= a < res@.len() ==> 0 < #[trigger] slots[a] < key && self.used@[slots[a]]
                        && res@[a].0@ == self.id2p@[slots[a]]@ && self.slot_reachable(slots[a]),
                forall|a: int, b: int|
                    0 <= a < b < res@.len() ==> #[trigger] slots[a] < #[trigger] slots[b],
                forall|a: int| 0 <= a < res@.len() ==> (#[trigger] res@[a].1@).len() > 0,
                forall|a: int, t1: int, t2: int|
                    0 <= a < res@.len() && 0 <= t1 < t2 < res@[a].1@.len() ==> (
                    #[trigger] res@[a].1@[t1])@ != (#[trigger] res@[a].1@[t2])@,
                forall|a: int, t: int|
                    0 <= a < res@.len() && 0 <= t < res@[a].1@.len() ==> self.peers_connected(
                        (#[trigger] res@[a].1@[t])@,
                        res@[a].0@,
                    ),
                forall|a: int, t: int|
                    0 <= a < res@.len() && 0 <= t < res@[a].1@.len() ==> self.spec_has_edge(
                        self.spec_source(),
                        (#[trigger] res@[a].1@[t])@,
                    ),
            decreases n - key,
        {
            let ghost res_pre_iter = res@;
            let cur_route = routes[key];
            if !(key == 0 || distance[key] == -1 || cur_route == 0 || !self.used[key]) {
                let mut peer_set: Vec<PeerId> = Vec::new();
                let ghost mut hop_idx: Seq<int> = Seq::empty();
                let mut id: usize = 0;
                while id < m
                    invariant
                        self.wf(),
                        n == self.n(),
                        deg == self.adjacency@[0]@.len(),
                        neighbors == self.adjacency@[0],
                        m <= deg && m <= MAX_NUM_PEERS,
                        id <= m,
                        hop_idx.len() == peer_set@.len(),
                        forall|t: int| 0 <= t < hop_idx.len() ==> 0 <= #[trigger] hop_idx[t] < id,
                        forall|t1: int, t2: int|
                            0 <= t1 < t2 < hop_idx.len() ==> #[trigger] hop_idx[t1]
                                < #[trigger] hop_idx[t2],
                        forall|t: int|
                            0 <= t < hop_idx.len() ==> cur_route & (1u128 << ((
                            #[trigger] hop_idx[t]) as u128)) != 0,
                        forall|t: int|
                            0 <= t < peer_set@.len() ==> (#[trigger] peer_set@[t])@
                                == self.id2p@[self.adjacency@[0]@[hop_idx[t]] as int]@,
                        forall|t: int|
                            0 <= t < peer_set@.len() ==> self.spec_has_edge(
                                self.spec_source(),
                                (#[trigger] peer_set@[t])@,
                            ),
                        peer_set@.len() > 0 || (forall|j: int|
                            0 <= j < id ==> cur_route & (1u128 << (#[trigger] (j as u128)))
                                == 0),
                    decreases m - id,
                {
                    if (cur_route & (1u128 << (id as u128))) != 0 {
                        let nbr = neighbors[id];
                        proof {
                            assert(self.adjacency@[0]@[id as int] == nbr);
                            assert(self.adjacency@[0]@.contains(nbr));
                            assert(self.has_slot_edge(0, nbr as int));
                            assert(0 <= nbr < n && self.used@[nbr as int]);
                            assert(self.used@[0] && self.id2p@[0]@ == self.spec_source());
                            assert(self.spec_has_edge(
                                self.spec_source(),
                                self.id2p@[nbr as int]@,
                            ));
                        }
                        let ghost plen = peer_set@.len();
                        peer_set.push(self.id2p[nbr as usize].clone());
                        proof {
                            hop_idx = hop_idx.push(id as int);
                            assert(peer_set@[plen as int]@ == self.id2p@[nbr as int]@);
                            assert forall|t1: int, t2: int|
                                0 <= t1 < t2 < hop_idx.len() implies #[trigger] hop_idx[t1]
                                < #[trigger] hop_idx[t2] by {
                                if t2 == hop_idx.len() - 1 {
                                    assert(hop_idx[t1] < id as int);
                                }
                            }
                        }
                    }
                    id += 1;
                }
                proof {
                    // Distinct bit positions name distinct source neighbors,
                    // which occupy distinct slots and hold distinct peers.
                    assert forall|t1: int, t2: int|
                        0 <= t1 < t2 < peer_set@.len() implies (#[trigger] peer_set@[t1])@ != (
                    #[trigger] peer_set@[t2])@ by {
                        let s1 = self.adjacency@[0]@[hop_idx[t1]] as int;
                        let s2 = self.adjacency@[0]@[hop_idx[t2]] as int;
                        assert(self.adjacency@[0]@[hop_idx[t1]]
                            != self.adjacency@[0]@[hop_idx[t2]]);
                        assert(self.used@[s1] && self.used@[s2]);
                        assert(self.id2p@[s1]@ != self.id2p@[s2]@);
                    }
                }
                proof {
                    // Each named neighbor's bit records a chain of links
                    // from that neighbor to this slot.
                    assert forall|t: int|
                        0 <= t < peer_set@.len() implies self.peers_connected(
                        (#[trigger] peer_set@[t])@,
                        self.id2p@[key as int]@,
                    ) by {
                        let b = hop_idx[t];
                        assert(cur_route & (1u128 << (b as u128)) != 0);
                        assert(0 <= b < m);
                        assert(routes@[key as int] & (1u128 << (b as u128)) != 0);
                        assert(self.chain_connects(self.adjacency@[0]@[b] as int, key as int));
                        let nb = self.adjacency@[0]@[b] as int;
                        assert(self.used@[nb] && self.used@[key as int]);
                        assert(peer_set@[t]@ == self.id2p@[nb]@);
                    }
                    // An assigned slot always carries a low bit, so at least
                    // one source neighbor was named.
                    assert(assigned@.contains(key as int));
                    let b = choose|b: int|
                        0 <= b < m && routes@[key as int] & (1u128 << (#[trigger] (b as u128)))
                            != 0;
                    assert(peer_set@.len() > 0);
                }
                let ghost res_pre = res@;
                proof {
                    assert(distance@[key as int] != -1);
                    assert(self.used@[key as int] && self.slot_reachable(key as int));
                }
                res.push((self.id2p[key].clone(), peer_set));
                proof {
                    slots = slots.push(key as int);
                    assert forall|a: int, b: int|
                        0 <= a < b < res@.len() implies #[trigger] slots[a]
                        < #[trigger] slots[b] by {
                        if b == res@.len() - 1 {
                            assert(slots[a] < key as int);
                        }
                    }
                    assert((res@[res@.len() - 1]).0@ == self.id2p@[key as int]@);
                }
            }
            proof {
                assert forall|v: int|
                    0 <= v < key + 1 && #[trigger] assigned@.contains(v) && v != 0 implies exists|
                    kk: int,
                |
                    0 <= kk < res@.len() && (#[trigger] res@[kk]).0@ == self.id2p@[v]@ by {
                    if v == key as int {
                        // The filter cannot have skipped an assigned slot:
                        // its routes value carries a low bit and is nonzero.
                        let b = choose|b: int|
                            0 <= b < m && routes@[v] & (1u128 << (#[trigger] (b as u128))) != 0;
                        assert(routes@[v] != 0) by {
                            if routes@[v] == 0 {
                                assert(0u128 & (1u128 << (b as u128)) == 0) by (bit_vector);
                            }
                        }
                        assert((res@[res@.len() - 1]).0@ == self.id2p@[v]@);
                    } else {
                        let kk = choose|kk: int|
                            0 <= kk < res_pre_iter.len() && (#[trigger] res_pre_iter[kk]).0@
                                == self.id2p@[v]@;
                        assert(res@[kk] == res_pre_iter[kk]);
                    }
                }
            }
            key += 1;
        }
        proof {
            assert forall|k: int|
                0 <= k < res@.len() implies (#[trigger] res@[k].0@) != self.spec_source()
                && self.mapped(res@[k].0@) && self.peer_reachable(res@[k].0@) && res@[k].1@.len()
                > 0 by {
                let i = slots[k];
                assert(self.id2p@[i]@ != self.id2p@[0]@);
                assert(self.mapped(res@[k].0@));
                assert(self.peer_reachable(res@[k].0@));
            }
            assert forall|k: int, l: int|
                0 <= k < l < res@.len() implies (#[trigger] res@[k].0@) != (#[trigger] res@[l].0@) by {
                assert(slots[k] < slots[l]);
                assert(self.id2p@[slots[k]]@ != self.id2p@[slots[l]]@);
            }
        }
        res
    }
}

/// This node itself is always reachable.
pub proof fn lemma_source_reachable(g: Graph)
    requires
        g.wf(),
    ensures
        g.peer_reachable(g.spec_source()),
{
    let p0: Seq<int> = seq![0int];
    assert(g.is_walk(p0) && p0.last() == 0);
    assert(g.slot_reachable(0));
    assert(g.used@[0] && g.id2p@[0]@ == g.spec_source());
}

/// Reachability follows edges: a neighbor of a reachable peer is reachable.
pub proof fn lemma_reachable_edge_step(g: Graph, p: Seq<u8>, q: Seq<u8>)
    requires
        g.wf(),
        g.peer_reachable(p),
        g.spec_has_edge(p, q),
    ensures
        g.peer_reachable(q),
{
    let i0 = choose|i0: int|
        0 <= i0 < g.n() && g.used@[i0] && #[trigger] g.id2p@[i0]@ == p && g.slot_reachable(i0);
    let (i, j) = choose|i: int, j: int|
        {
            &&& 0 <= i < g.n() && 0 <= j < g.n()
            &&& g.used@[i] && g.used@[j]
            &&& #[trigger] g.id2p@[i]@ == p && #[trigger] g.id2p@[j]@ == q
            &&& g.has_slot_edge(i, j)
        };
    assert(i == i0);
    lemma_reachable_step(g, i0, j);
}

/// Reachability induction: a set of peers that holds this node and is
/// closed under following edges holds every reachable peer. In particular a
/// peer outside every such set is unreachable.
pub proof fn lemma_reachable_closed(g: Graph, s: Set<Seq<u8>>, p: Seq<u8>)
    requires
        g.wf(),
        s.contains(g.spec_source()),
        forall|a: Seq<u8>, b: Seq<u8>|
            s.contains(a) && #[trigger] g.spec_has_edge(a, b) ==> s.contains(b),
        g.peer_reachable(p),
    ensures
        s.contains(p),
{
    let v = choose|v: int|
        0 <= v < g.n() && g.used@[v] && #[trigger] g.id2p@[v]@ == p && g.slot_reachable(v);
    let w = choose|w: Seq<int>| g.is_walk(w) && w.last() == v;
    lemma_walk_views_closed(g, s, w);
}

/// Along any walk from the source, every visited used slot's peer stays in
/// an edge-closed set that holds the source.
proof fn lemma_walk_views_closed(g: Graph, s: Set<Seq<u8>>, w: Seq<int>)
    requires
        g.wf(),
        s.contains(g.spec_source()),
        forall|a: Seq<u8>, b: Seq<u8>|
            s.contains(a) && #[trigger] g.spec_has_edge(a, b) ==> s.contains(b),
        g.is_walk(w),
    ensures
        g.used@[w.last()] ==> s.contains(g.id2p@[w.last()]@),
        g.used@[w.last()],
    decreases w.len(),
{
    if w.len() == 1 {
        assert(w.last() == w[0]);
        assert(g.id2p@[0]@ == g.spec_source());
    } else {
        let ww = w.drop_last();
        assert(g.is_walk(ww)) by {
            assert(ww[0] == w[0]);
            assert forall|t: int| 0 <= t < ww.len() implies 0 <= #[trigger] ww[t] < g.n() by {
                assert(ww[t] == w[t]);
            }
            assert forall|t: int|
                0 < t < ww.len() implies g.has_slot_edge(ww[t - 1], #[trigger] ww[t]) by {
                assert(ww[t] == w[t] && ww[t - 1] == w[t - 1]);
            }
        }
        lemma_walk_views_closed(g, s, ww);
        let u = w[w.len() - 2];
        let v = w.last();
        assert(ww.last() == u);
        assert(g.has_slot_edge(u, v));
        assert(g.adjacency@[u]@.contains(v as u32));
        assert(g.used@[v]) by {
            let kk = choose|kk: int|
                0 <= kk < g.adjacency@[u]@.len() && g.adjacency@[u]@[kk] == v as u32;
            assert(g.used@[g.adjacency@[u]@[kk] as int]);
            assert(g.adjacency@[u]@[kk] as int == v);
        }
        assert(g.used@[u]) by {
            if !g.used@[u] {
                assert(g.adjacency@[u]@.len() == 0);
            }
        }
        assert(g.spec_has_edge(g.id2p@[u]@, g.id2p@[v]@));
    }
}

/// Graph symmetry: two peers are joined in one order iff they are joined in
/// the other.
pub proof fn lemma_graph_symmetric(g: Graph, a: Seq<u8>, b: Seq<u8>)
    requires
        g.wf(),
    ensures
        g.spec_has_edge(a, b) <==> g.spec_has_edge(b, a),
{
    if g.spec_has_edge(a, b) {
        let (i, j) = choose|i: int, j: int|
            {
                &&& 0 <= i < g.n() && 0 <= j < g.n()
                &&& g.used@[i] && g.used@[j]
                &&& #[trigger] g.id2p@[i]@ == a && #[trigger] g.id2p@[j]@ == b
                &&& g.has_slot_edge(i, j)
            };
        assert(g.has_slot_edge(j, i));
        assert(g.spec_has_edge(b, a));
    }
    if g.spec_has_edge(b, a) {
        let (i, j) = choose|i: int, j: int|
            {
                &&& 0 <= i < g.n() && 0 <= j < g.n()
                &&& g.used@[i] && g.used@[j]
                &&& #[trigger] g.id2p@[i]@ == b && #[trigger] g.id2p@[j]@ == a
                &&& g.has_slot_edge(i, j)
            };
        assert(g.has_slot_edge(j, i));
        assert(g.spec_has_edge(a, b));
    }
}

/// Slot-reuse soundness: a peer other than this node that is joined to no
/// one is not a node of the graph at all — its slot has been reclaimed and
/// no mapping refers to it.
pub proof fn lemma_isolated_peer_unmapped(g: Graph, p: Seq<u8>)
    requires
        g.wf(),
        p != g.spec_source(),
        forall|y: Seq<u8>| !g.spec_has_edge(p, y),
    ensures
        !g.mapped(p),
{
    if g.mapped(p) {
        let i = choose|i: int| 0 <= i < g.n() && g.used@[i] && #[trigger] g.id2p@[i]@ == p;
        assert(i != 0) by {
            assert(g.id2p@[0]@ == g.spec_source());
        }
        assert(g.adjacency@[i]@.len() > 0);
        let j = g.adjacency@[i]@[0] as int;
        assert(g.adjacency@[i]@.contains(g.adjacency@[i]@[0]));
        assert(g.has_slot_edge(i, j));
        assert(0 <= j < g.n() && g.used@[j]);
        assert(g.spec_has_edge(p, g.id2p@[j]@));
        assert(!g.spec_has_edge(p, g.id2p@[j]@));
    }
}

/// Whether the bitset has a set bit among the first `m` positions.
pub open spec fn has_low_bit(x: u128, m: int) -> bool {
    exists|b: int| 0 <= b < m && x & (1u128 << (#[trigger] (b as u128))) != 0
}

/// A one-bit mask is itself a set bit.
proof fn lemma_self_bit(id: u128)
    requires
        id < 128,
    ensures
        (1u128 << id) & (1u128 << id) != 0,
{
    assert((1u128 << id) & (1u128 << id) != 0) by (bit_vector)
        requires
            id < 128,
    ;
}

/// A set bit survives joining with any other bitset, on either side.
proof fn lemma_or_keeps_bit(a: u128, b: u128, id: u128)
    requires
        id < 128,
        b & (1u128 << id) != 0,
    ensures
        (a | b) & (1u128 << id) != 0,
        (b | a) & (1u128 << id) != 0,
{
    assert((a | b) & (1u128 << id) != 0 && (b | a) & (1u128 << id) != 0) by (bit_vector)
        requires
            id < 128 && b & (1u128 << id) != 0,
    ;
}

/// Every slot a walk from the source reaches lies in a set that holds the
/// source, all of the source's neighbors, and the neighbors of each of its
/// own non-source members.
proof fn lemma_walk_assigned(g: Graph, a: Set<int>, p: Seq<int>)
    requires
        g.wf(),
        g.is_walk(p),
        a.contains(0),
        forall|j: int|
            0 <= j < g.adjacency@[0]@.len() ==> a.contains(#[trigger] g.adjacency@[0]@[j] as int),
        forall|v: int, kk: int|
            a.contains(v) && v != 0 && 0 <= v < g.n() && 0 <= kk < g.adjacency@[v]@.len()
                ==> a.contains(#[trigger] g.adjacency@[v]@[kk] as int),
    ensures
        a.contains(p.last()),
    decreases p.len(),
{
    if p.len() == 1 {
        assert(p.last() == p[0]);
    } else {
        let pp = p.drop_last();
        assert(g.is_walk(pp)) by {
            assert(pp[0] == p[0]);
            assert forall|t: int| 0 <= t < pp.len() implies 0 <= #[trigger] pp[t] < g.n() by {
                assert(pp[t] == p[t]);
            }
            assert forall|t: int|
                0 < t < pp.len() implies g.has_slot_edge(pp[t - 1], #[trigger] pp[t]) by {
                assert(pp[t] == p[t] && pp[t - 1] == p[t - 1]);
            }
        }
        lemma_walk_assigned(g, a, pp);
        let u = p[p.len() - 2];
        let w = p.last();
        assert(pp.last() == u);
        assert(g.has_slot_edge(u, w));
        assert(g.adjacency@[u]@.contains(w as u32));
        let kk = choose|kk: int|
            0 <= kk < g.adjacency@[u]@.len() && g.adjacency@[u]@[kk] == w as u32;
        assert(0 <= w < g.n());
        assert(g.adjacency@[u]@[kk] as int == w);
    }
}

/// Every slot reaches itself by the one-slot chain.
proof fn lemma_chain_base(g: Graph, i: int)
    requires
        0 <= i < g.n(),
    ensures
        g.chain_connects(i, i),
{
    let p: Seq<int> = seq![i];
    assert(g.is_chain(p) && p[0] == i && p.last() == i);
}

/// A chain extends along one more link.
proof fn lemma_chain_step(g: Graph, a: int, u: int, w: int)
    requires
        g.chain_connects(a, u),
        g.has_slot_edge(u, w),
        0 <= w < g.n(),
    ensures
        g.chain_connects(a, w),
{
    let p = choose|p: Seq<int>| g.is_chain(p) && p[0] == a && p.last() == u;
    let p2 = p.push(w);
    assert(g.is_chain(p2)) by {
        assert(p2[0] == p[0]);
        assert forall|t: int| 0 <= t < p2.len() implies 0 <= #[trigger] p2[t] < g.n() by {
            if t < p.len() {
                assert(p2[t] == p[t]);
            }
        }
        assert forall|t: int| 0 < t < p2.len() implies g.has_slot_edge(p2[t - 1], #[trigger] p2[t]) by {
            if t < p.len() {
                assert(p2[t] == p[t] && p2[t - 1] == p[t - 1]);
            } else {
                assert(p2[t] == w && p2[t - 1] == p[p.len() - 1]);
                assert(p[p.len() - 1] == u);
            }
        }
    }
    assert(p2[0] == a && p2.last() == w);
}

/// Distinct positions mask to disjoint one-bit sets.
proof fn lemma_distinct_bits(i: u128, j: u128)
    requires
        i < 128,
        j < 128,
        i != j,
    ensures
        (1u128 << i) & (1u128 << j) == 0,
{
    assert((1u128 << i) & (1u128 << j) == 0) by (bit_vector)
        requires
            i < 128 && j < 128 && i != j,
    ;
}

/// One bit of a joined bitset comes from one of the two sides.
proof fn lemma_or_bit_source(a: u128, b: u128, id: u128)
    requires
        id < 128,
        (a | b) & (1u128 << id) != 0,
    ensures
        a & (1u128 << id) != 0 || b & (1u128 << id) != 0,
{
    assert(a & (1u128 << id) != 0 || b & (1u128 << id) != 0) by (bit_vector)
        requires
            id < 128 && (a | b) & (1u128 << id) != 0,
    ;
}

/// A slot adjacent to a reachable slot is reachable.
proof fn lemma_reachable_step(g: Graph, u: int, w: int)
    requires
        g.wf_core(),
        0 <= u < g.n(),
        0 <= w < g.n(),
        g.slot_reachable(u),
        g.has_slot_edge(u, w),
    ensures
        g.slot_reachable(w),
{
    let p = choose|p: Seq<int>| g.is_walk(p) && p.last() == u;
    let p2 = p.push(w);
    assert(p2.last() == w);
    assert(g.is_walk(p2)) by {
        assert(p2[0] == p[0]);
        assert forall|t: int| 0 <= t < p2.len() implies 0 <= #[trigger] p2[t] < g.n() by {
            if t < p.len() {
                assert(p2[t] == p[t]);
            }
        }
        assert forall|t: int| 0 < t < p2.len() implies g.has_slot_edge(p2[t - 1], #[trigger] p2[t]) by {
            if t < p.len() {
                assert(p2[t] == p[t] && p2[t - 1] == p[t - 1]);
            } else {
                assert(p2[t] == w && p2[t - 1] == p[p.len() - 1]);
                assert(p[p.len() - 1] == u);
            }
        }
    }
    assert(g.slot_reachable(w));
}

/// Well-formedness does not depend on the edge gauge: two graphs equal in
/// every structural field are equally well-formed.
proof fn lemma_wf_core_same_fields(a: Graph, b: Graph)
    requires
        a.wf_core(),
        b.used@ == a.used@,
        b.id2p@ == a.id2p@,
        b.adjacency@ == a.adjacency@,
        b.unused@ == a.unused@,
        b.source == a.source,
    ensures
        b.wf_core(),
{
    assert forall|i: int, j: int|
        0 <= i < b.n() && 0 <= j < b.n() implies (#[trigger] b.has_slot_edge(i, j)
        <==> #[trigger] b.has_slot_edge(j, i)) by {
        assert(b.adjacency@[i]@ == a.adjacency@[i]@);
        assert(b.adjacency@[j]@ == a.adjacency@[j]@);
        assert(a.has_slot_edge(i, j) <==> a.has_slot_edge(j, i));
    }
}

/// If the slots holding two peers are not adjacent, no edge joins the two
/// peers, in either order.
proof fn lemma_no_edge_means_no_pair(o: Graph, x: Seq<u8>, y: Seq<u8>, i0: int, i1: int)
    requires
        o.wf_core(),
        x != y,
        0 <= i0 < o.n() && 0 <= i1 < o.n(),
        o.used@[i0] && o.used@[i1],
        o.id2p@[i0]@ == x && o.id2p@[i1]@ == y,
        !o.has_slot_edge(i0, i1),
    ensures
        !o.spec_has_edge(x, y),
        !o.spec_has_edge(y, x),
{
    if o.spec_has_edge(x, y) {
        let (i, j) = choose|i: int, j: int|
            {
                &&& 0 <= i < o.n() && 0 <= j < o.n()
                &&& o.used@[i] && o.used@[j]
                &&& #[trigger] o.id2p@[i]@ == x && #[trigger] o.id2p@[j]@ == y
                &&& o.has_slot_edge(i, j)
            };
        assert(i == i0 && j == i1);
    }
    if o.spec_has_edge(y, x) {
        let (i, j) = choose|i: int, j: int|
            {
                &&& 0 <= i < o.n() && 0 <= j < o.n()
                &&& o.used@[i] && o.used@[j]
                &&& #[trigger] o.id2p@[i]@ == y && #[trigger] o.id2p@[j]@ == x
                &&& o.has_slot_edge(i, j)
            };
        assert(i == i1 && j == i0);
        assert(o.has_slot_edge(i0, i1));
    }
}

/// Copy of a vector of slot indices with the first occurrence of a value
/// taken out. With no duplicates present, the value is gone entirely and
/// every other value stays.
fn remove_first_u32(v: &Vec<u32>, x: u32) -> (r: Vec<u32>)
    requires
        v@.contains(x),
        forall|k: int, l: int| 0 <= k < l < v@.len() ==> v@[k] != v@[l],
    ensures
        r@.len() == v@.len() - 1,
        !r@.contains(x),
        forall|y: u32| y != x ==> (r@.contains(y) == v@.contains(y)),
        forall|k: int, l: int| 0 <= k < l < r@.len() ==> r@[k] != r@[l],
{
    let n = v.len();
    let mut idx: usize = 0;
    while idx < n && v[idx] != x
        invariant
            n == v@.len(),
            idx <= n,
            v@.contains(x),
            forall|j: int| 0 <= j < idx ==> v@[j] != x,
        decreases n - idx,
    {
        idx += 1;
    }
    proof {
        if idx == n {
            let k = choose|k: int| 0 <= k < v@.len() && v@[k] == x;
            assert(false);
        }
        assert(v@[idx as int] == x);
    }
    let mut r: Vec<u32> = Vec::new();
    let mut i: usize = 0;
    while i < n
        invariant
            n == v@.len(),
            idx < n,
            v@[idx as int] == x,
            forall|k: int, l: int| 0 <= k < l < v@.len() ==> v@[k] != v@[l],
            i <= n,
            r@ =~= (if i <= idx {
                v@.take(i as int)
            } else {
                v@.take(idx as int) + v@.subrange(idx + 1, i as int)
            }),
        decreases n - i,
    {
        if i != idx {
            r.push(v[i]);
        }
        i += 1;
    }
    proof {
        assert(r@ =~= v@.take(idx as int) + v@.subrange(idx + 1, n as int));
        assert forall|y: u32| #[trigger] r@.contains(y) implies v@.contains(y) && y != x by {
            let k = choose|k: int| 0 <= k < r@.len() && r@[k] == y;
            if k < idx {
                assert(v@[k] == y);
            } else {
                assert(v@[k + 1] == y);
            }
        }
        assert forall|y: u32| v@.contains(y) && y != x implies r@.contains(y) by {
            let k = choose|k: int| 0 <= k < v@.len() && v@[k] == y;
            if k < idx {
                assert(r@[k] == y);
            } else {
                assert(k != idx);
                assert(r@[k - 1] == y);
            }
        }
        if r@.contains(x) {
            assert(v@.contains(x) && x != x);
        }
        assert forall|k: int, l: int| 0 <= k < l < r@.len() implies r@[k] != r@[l] by {
            let a: int = if k < idx { k } else { k + 1 };
            let b: int = if l < idx { l } else { l + 1 };
            assert(r@[k] == v@[a] && r@[l] == v@[b]);
        }
    }
    r
}

/// A value is in a sequence extended by one element iff it is the element
/// or was already there.
proof fn lemma_push_contains(s: Seq<u32>, v: u32, x: u32)
    ensures
        s.push(v).contains(x) <==> (s.contains(x) || x == v),
{
    if s.push(v).contains(x) {
        let k = choose|k: int| 0 <= k < s.push(v).len() && s.push(v)[k] == x;
        if k < s.len() {
            assert(s[k] == x);
        }
    }
    if s.contains(x) {
        let k = choose|k: int| 0 <= k < s.len() && s[k] == x;
        assert(s.push(v)[k] == x);
    }
    if x == v {
        assert(s.push(v)[s.len() as int] == x);
    }
}

/// Adjacency is untouched when a slot is taken or appended, so slot
/// adjacency is still symmetric after a grow.
proof fn lemma_slot_edge_sym_grow(o: Graph, f: Graph, v: int, i: int, j: int)
    requires
        o.wf_core(),
        f.n() == o.n() + 1,
        v == o.n(),
        f.adjacency@.len() == f.n(),
        forall|i: int| 0 <= i < o.n() ==> #[trigger] f.adjacency@[i]@ == o.adjacency@[i]@,
        f.adjacency@[v]@.len() == 0,
        0 <= i < f.n(),
        0 <= j < f.n(),
    ensures
        f.has_slot_edge(i, j) <==> f.has_slot_edge(j, i),
{
    if i == v || j == v {
        if i == v {
            assert(!f.has_slot_edge(i, j));
            if j != v {
                assert(!o.adjacency@[j]@.contains(v as u32));
                assert(!f.has_slot_edge(j, i));
            }
        } else {
            assert(!f.has_slot_edge(j, i));
            assert(!o.adjacency@[i]@.contains(v as u32));
            assert(!f.has_slot_edge(i, j));
        }
    } else {
        assert(f.has_slot_edge(i, j) == o.has_slot_edge(i, j));
        assert(f.has_slot_edge(j, i) == o.has_slot_edge(j, i));
    }
}

/// The edge relation over peers is untouched when a slot with an empty
/// adjacency list is brought into use and every other slot keeps its peer
/// and neighbors.
proof fn lemma_has_edge_unchanged_new_slot(o: Graph, f: Graph, v: int, x: Seq<u8>, y: Seq<u8>)
    requires
        o.wf_core(),
        f.wf_core(),
        (v == o.n() && f.n() == o.n() + 1) || (0 < v < o.n() && !o.used@[v] && f.n() == o.n()),
        f.adjacency@[v]@.len() == 0,
        forall|i: int|
            0 <= i < o.n() && i != v ==> f.used@[i] == o.used@[i] && #[trigger] f.id2p@[i]@
                == o.id2p@[i]@ && f.adjacency@[i]@ == o.adjacency@[i]@,
    ensures
        f.spec_has_edge(x, y) == o.spec_has_edge(x, y),
{
    if f.spec_has_edge(x, y) {
        let (i, j) = choose|i: int, j: int|
            {
                &&& 0 <= i < f.n() && 0 <= j < f.n()
                &&& f.used@[i] && f.used@[j]
                &&& #[trigger] f.id2p@[i]@ == x && #[trigger] f.id2p@[j]@ == y
                &&& f.has_slot_edge(i, j)
            };
        assert(i != v) by {
            assert(f.adjacency@[v]@.len() == 0);
        }
        assert(0 <= i < o.n());
        assert(f.adjacency@[i]@ == o.adjacency@[i]@);
        assert(o.adjacency@[i]@.contains(j as u32));
        assert(j != v) by {
            let k = choose|k: int| 0 <= k < o.adjacency@[i]@.len() && o.adjacency@[i]@[k] == j as u32;
            assert(0 <= o.adjacency@[i]@[k] < o.n() && o.used@[o.adjacency@[i]@[k] as int]);
        }
        assert(0 <= j < o.n());
        assert(f.used@[i] == o.used@[i] && f.used@[j] == o.used@[j]);
        assert(o.used@[i] && o.used@[j]);
        assert(o.spec_has_edge(x, y));
    }
    if o.spec_has_edge(x, y) {
        let (i, j) = choose|i: int, j: int|
            {
                &&& 0 <= i < o.n() && 0 <= j < o.n()
                &&& o.used@[i] && o.used@[j]
                &&& #[trigger] o.id2p@[i]@ == x && #[trigger] o.id2p@[j]@ == y
                &&& o.has_slot_edge(i, j)
            };
        assert(i != v && j != v);
        assert(f.id2p@[i]@ == o.id2p@[i]@);
        assert(f.id2p@[j]@ == o.id2p@[j]@);
        assert(f.used@[i] && f.used@[j]);
        assert(f.adjacency@[i]@ == o.adjacency@[i]@);
        assert(f.has_slot_edge(i, j));
        assert(f.spec_has_edge(x, y));
    }
}

/// Whether the vector holds the value.
pub(crate) fn contains_u32(v: &Vec<u32>, x: u32) -> (r: bool)
    ensures
        r == v@.contains(x),
{
    let n = v.len();
    let mut i: usize = 0;
    while i < n
        invariant
            n == v@.len(),
            i <= n,
            forall|j: int| 0 <= j < i ==> v@[j] != x,
        decreases n - i,
    {
        if v[i] == x {
            return true;
        }
        i += 1;
    }
    false
}

/// Copy of a vector of slot indices.
pub(crate) fn clone_u32_vec(v: &Vec<u32>) -> (r: Vec<u32>)
    ensures
        r@ == v@,
{
    let n = v.len();
    let mut r: Vec<u32> = Vec::new();
    let mut i: usize = 0;
    while i < n
        invariant
            n == v@.len(),
            i <= n,
            r@ =~= v@.take(i as int),
        decreases n - i,
    {
        r.push(v[i]);
        i += 1;
    }
    proof {
        assert(r@ =~= v@);
    }
    r
}

} // verus!
