//! The owner of the network view: it ingests verified edges under the
//! nonce-dominance rule, keeps the graph in step with the edge log, tracks
//! when peers were last reachable, recomputes the forwarding map, and
//! compacts edges of long-unreachable peers into on-disk components.

use vstd::prelude::*;

use crate::assoc::{pair_view, ByteKeyMap, PairKeyMap};
use crate::bytes_util::{bytes_eq, clone_bytes, lex_lt};
use crate::edge::{edge_eq, Edge};
use crate::graph::Graph;
use crate::store::Store;
use crate::types::PeerId;
use crate::{MAX_NUM_PEERS, SAVE_PEERS_MAX_TIME};

verus! {

/// What ingesting a batch of edges produced: whether anything new was
/// accepted, and the accepted edges, for forward gossip.
pub struct ProcessEdgeResult {
    pub new_edge: bool,
    pub edges: Vec<Edge>,
}

/// The response to a request to ingest verified edges.
pub struct AddVerifiedEdgesResponse {
    pub new_edge: bool,
    pub added_edges: Vec<Edge>,
}

/// The engine that owns the routing state.
pub struct RoutingTableActor {
    edges_info: PairKeyMap<Edge>,
    raw_graph: Graph,
    peer_forwarding: ByteKeyMap<Vec<PeerId>>,
    peer_last_time_reachable: ByteKeyMap<u64>,
    store: Store,
    component_nonce: u64,
}

impl RoutingTableActor {
    /// The edge log: canonical endpoint pair to its freshest edge.
    pub closed spec fn spec_edges(self) -> Map<(Seq<u8>, Seq<u8>), Edge> {
        self.edges_info@
    }

    /// The nonce stored for an endpoint pair, zero if none is.
    pub open spec fn spec_stored_nonce(self, k: (Seq<u8>, Seq<u8>)) -> int {
        if self.spec_edges().contains_key(k) {
            self.spec_edges()[k].nonce as int
        } else {
            0
        }
    }

    /// The current graph of active links.
    pub closed spec fn graph(self) -> Graph {
        self.raw_graph
    }

    /// The forwarding map, as of the last recomputation.
    pub closed spec fn spec_forwarding(self) -> Map<Seq<u8>, Vec<PeerId>> {
        self.peer_forwarding@
    }

    /// When each tracked peer was last seen reachable, in seconds.
    pub closed spec fn spec_last_reachable(self) -> Map<Seq<u8>, u64> {
        self.peer_last_time_reachable@
    }

    /// The store this engine persists to.
    pub closed spec fn spec_store(self) -> Store {
        self.store
    }

    /// The next component nonce to allocate.
    pub closed spec fn spec_component_nonce(self) -> u64 {
        self.component_nonce
    }

    /// Whether a peer needs no touch: it is this node, or already tracked.
    pub open spec fn peer_known(self, p: Seq<u8>) -> bool {
        p == self.graph().spec_source() || self.spec_last_reachable().contains_key(p)
    }

    /// Whether the graph can take one more edge.
    pub open spec fn graph_has_room(self) -> bool {
        &&& self.graph().n() + 2 < 0xFFFF_FFFF
        &&& self.graph().spec_total_active_edges() < u64::MAX
    }

    /// Whether the graph can take `k` more edges.
    pub open spec fn graph_room_for(self, k: int) -> bool {
        &&& self.graph().n() + 2 * k + 2 < 0xFFFF_FFFF
        &&& self.graph().spec_total_active_edges() + k < u64::MAX
    }

    /// Whether a rehydrated component member ended up tracked as long-quiet
    /// with its membership record gone.
    pub open spec fn member_rehydrated(self, ep: Seq<u8>, now: u64) -> bool {
        &&& self.spec_last_reachable().contains_key(ep)
        &&& self.spec_last_reachable()[ep] == (if now >= SAVE_PEERS_MAX_TIME {
            (now - SAVE_PEERS_MAX_TIME) as u64
        } else {
            0u64
        })
        &&& !self.spec_store().spec_peer_component().contains_key(ep)
    }

    /// Whether a peer qualifies as a fellow member of component `c` when the
    /// component is rehydrated: not this node, not tracked, and recorded as
    /// a member of exactly that component.
    pub open spec fn component_member(self, p: Seq<u8>, c: u64) -> bool {
        &&& p != self.graph().spec_source()
        &&& !self.spec_last_reachable().contains_key(p)
        &&& self.spec_store().spec_peer_component().contains_key(p)
        &&& self.spec_store().spec_peer_component()[p] == c
    }

    /// Everything is internally consistent: the containers are well-formed,
    /// every logged edge sits under its own endpoint pair with distinct
    /// endpoints, and archived component edges have distinct endpoints.
    pub closed spec fn wf(self) -> bool {
        &&& self.edges_info.wf()
        &&& self.raw_graph.wf()
        &&& self.peer_forwarding.wf()
        &&& self.peer_last_time_reachable.wf()
        &&& self.store.wf()
        &&& (forall|k: (Seq<u8>, Seq<u8>)|
            #[trigger] self.edges_info@.contains_key(k) ==> (
            self.edges_info@[k].peer0@,
            self.edges_info@[k].peer1@,
        ) == k && self.edges_info@[k].peer0@ != self.edges_info@[k].peer1@ && !lex_lt(
            self.edges_info@[k].peer1@,
            self.edges_info@[k].peer0@,
        ))
        &&& (forall|k: (Seq<u8>, Seq<u8>)|
            #[trigger] self.edges_info@.contains_key(k) && self.edges_info@[k].nonce % 2 == 1
                ==> self.raw_graph.spec_has_edge(k.0, k.1))
        &&& (forall|c: u64, t: int|
            #[trigger] self.store.spec_component_edges().contains_key(c) && 0 <= t
                < self.store.spec_component_edges()[c]@.len() ==> (
            #[trigger] self.store.spec_component_edges()[c]@[t]).peer0@
                != self.store.spec_component_edges()[c]@[t].peer1@ && !lex_lt(
                self.store.spec_component_edges()[c]@[t].peer1@,
                self.store.spec_component_edges()[c]@[t].peer0@,
            ))
    }

    /// Every added link the log holds is an edge of the graph: the graph
    /// tracks the odd-nonce entries of the edge log (archival may leave the
    /// graph with extra edges among unreachable peers, never fewer).
    pub proof fn lemma_log_added_in_graph(self, k: (Seq<u8>, Seq<u8>))
        requires
            self.wf(),
            self.spec_edges().contains_key(k),
            self.spec_edges()[k].nonce % 2 == 1,
        ensures
            self.graph().spec_has_edge(k.0, k.1),
    {
    }

    /// A fresh engine for this node over the given store, continuing the
    /// component numbering at the next component id the store has recorded.
    pub fn new(peer_id: PeerId, store: Store) -> (r: RoutingTableActor)
        requires
            store.wf(),
            forall|c: u64, t: int|
                #[trigger] store.spec_component_edges().contains_key(c) && 0 <= t
                    < store.spec_component_edges()[c]@.len() ==> (
                #[trigger] store.spec_component_edges()[c]@[t]).peer0@
                    != store.spec_component_edges()[c]@[t].peer1@ && !lex_lt(
                    store.spec_component_edges()[c]@[t].peer1@,
                    store.spec_component_edges()[c]@[t].peer0@,
                ),
        ensures
            r.wf(),
            r.spec_edges() == Map::<(Seq<u8>, Seq<u8>), Edge>::empty(),
            r.graph().spec_source() == peer_id@,
            r.spec_forwarding() == Map::<Seq<u8>, Vec<PeerId>>::empty(),
            r.spec_last_reachable() == Map::<Seq<u8>, u64>::empty(),
            r.spec_store() == store,
            r.spec_component_nonce() == (match store.spec_last_component_nonce() {
                Some(n) => n,
                None => 0,
            }),
            forall|x: Seq<u8>, y: Seq<u8>| !r.graph().spec_has_edge(x, y),
            r.graph().n() == 1,
    {
        let component_nonce: u64 = match store.get_last_component_nonce() {
            Some(n) => n,
            None => 0,
        };
        RoutingTableActor {
            edges_info: PairKeyMap::new(),
            raw_graph: Graph::new(peer_id),
            peer_forwarding: ByteKeyMap::new(),
            peer_last_time_reachable: ByteKeyMap::new(),
            store,
            component_nonce,
        }
    }

    /// The next component nonce to allocate.
    pub fn component_nonce(&self) -> (r: u64)
        ensures
            r == self.spec_component_nonce(),
    {
        self.component_nonce
    }

    /// This node's identity.
    pub fn peer_id(&self) -> (r: &PeerId)
        ensures
            r@ == self.graph().spec_source(),
    {
        self.raw_graph.source()
    }

    /// The nonce stored for this endpoint pair, zero if none is.
    pub fn find_nonce(&self, edge: &(PeerId, PeerId)) -> (r: u64)
        requires
            self.wf(),
        ensures
            r == self.spec_stored_nonce((edge.0@, edge.1@)),
    {
        let key = (clone_bytes(&edge.0.key), clone_bytes(&edge.1.key));
        proof {
            assert(pair_view(key) == (edge.0@, edge.1@));
        }
        match self.edges_info.get(&key) {
            Some(e) => e.nonce,
            None => 0,
        }
    }

    /// The stored edge joining two peers, if any.
    pub fn get_edge(&self, peer0: PeerId, peer1: PeerId) -> (r: Option<Edge>)
        requires
            self.wf(),
        ensures
            r is Some <==> self.spec_edges().contains_key(
                crate::edge::canonical_key(peer0@, peer1@),
            ),
            r matches Some(e) ==> edge_eq(
                e,
                self.spec_edges()[crate::edge::canonical_key(peer0@, peer1@)],
            ),
    {
        let (p0, p1) = Edge::key(peer0, peer1);
        let key = (p0.key, p1.key);
        proof {
            assert(pair_view(key) == crate::edge::canonical_key(peer0@, peer1@));
        }
        match self.edges_info.get(&key) {
            Some(e) => Some(e.clone()),
            None => None,
        }
    }

    /// Number of edges in the log.
    pub fn get_edges_len(&self) -> (r: u64)
        requires
            self.wf(),
            self.spec_edges_len() <= u64::MAX,
        ensures
            r == self.spec_edges_len(),
    {
        self.edges_info.len() as u64
    }

    /// Number of edges in the log.
    pub closed spec fn spec_edges_len(self) -> int {
        self.edges_info.spec_len()
    }

    /// Forget the stored edge for this edge's endpoint pair, and disconnect
    /// the pair in the graph if an edge was stored.
    pub fn remove_edge(&mut self, edge: &Edge)
        requires
            old(self).wf(),
            edge.peer0@ != edge.peer1@,
        ensures
            final(self).wf(),
            final(self).spec_edges() == old(self).spec_edges().remove((edge.peer0@, edge.peer1@)),
            final(self).graph().spec_source() == old(self).graph().spec_source(),
            final(self).spec_forwarding() == old(self).spec_forwarding(),
            final(self).spec_last_reachable() == old(self).spec_last_reachable(),
            final(self).spec_store() == old(self).spec_store(),
            final(self).spec_component_nonce() == old(self).spec_component_nonce(),
            old(self).spec_edges().contains_key((edge.peer0@, edge.peer1@)) ==> (forall|
                x: Seq<u8>,
                y: Seq<u8>,
            |
                #[trigger] final(self).graph().spec_has_edge(x, y) <==> (old(self).graph().spec_has_edge(x, y)
                    && !(x == edge.peer0@ && y == edge.peer1@)
                    && !(x == edge.peer1@ && y == edge.peer0@))),
            !old(self).spec_edges().contains_key((edge.peer0@, edge.peer1@))
                ==> final(self).graph() == old(self).graph(),
    {
        let key = (clone_bytes(&edge.peer0.key), clone_bytes(&edge.peer1.key));
        proof {
            assert(pair_view(key) == (edge.peer0@, edge.peer1@));
        }
        let ghost o = *self;
        if self.edges_info.remove(&key).is_some() {
            self.raw_graph.remove_edge(&edge.peer0, &edge.peer1);
            proof {
                let kd = (edge.peer0@, edge.peer1@);
                assert forall|k2: (Seq<u8>, Seq<u8>)|
                    #[trigger] self.edges_info@.contains_key(k2) && self.edges_info@[k2].nonce % 2
                        == 1 implies self.raw_graph.spec_has_edge(k2.0, k2.1) by {
                    assert(o.edges_info@.contains_key(k2) && k2 != kd);
                    lemma_distinct_canonical_pairs(kd, k2);
                }
            }
        }
    }

    /// Ingest one edge under the nonce-dominance rule: it is accepted iff
    /// its nonce is larger than the stored one for its pair (and the graph
    /// has room). An accepted added edge joins its pair in the graph; an
    /// accepted removed edge disconnects it; the log keeps the edge.
    fn add_edge(&mut self, edge: Edge) -> (r: bool)
        requires
            old(self).wf(),
            edge.peer0@ != edge.peer1@,
            !lex_lt(edge.peer1@, edge.peer0@),
        ensures
            final(self).wf(),
            r == (edge.nonce > old(self).spec_stored_nonce((edge.peer0@, edge.peer1@))
                && old(self).graph_has_room()),
            r ==> final(self).spec_edges() == old(self).spec_edges().insert(
                (edge.peer0@, edge.peer1@),
                edge,
            ),
            !r ==> final(self).spec_edges() == old(self).spec_edges()
                && final(self).graph() == old(self).graph(),
            forall|k: (Seq<u8>, Seq<u8>)|
                final(self).spec_stored_nonce(k) >= old(self).spec_stored_nonce(k),
            final(self).graph().n() <= old(self).graph().n() + 2,
            final(self).graph().spec_total_active_edges() <= old(
                self,
            ).graph().spec_total_active_edges() + 1,
            final(self).graph().spec_source() == old(self).graph().spec_source(),
            final(self).spec_forwarding() == old(self).spec_forwarding(),
            final(self).spec_last_reachable() == old(self).spec_last_reachable(),
            final(self).spec_store() == old(self).spec_store(),
            final(self).spec_component_nonce() == old(self).spec_component_nonce(),
            r && edge.nonce % 2 == 1 ==> (forall|x: Seq<u8>, y: Seq<u8>|
                #[trigger] final(self).graph().spec_has_edge(x, y) <==> (old(self).graph().spec_has_edge(x, y)
                    || (x == edge.peer0@ && y == edge.peer1@)
                    || (x == edge.peer1@ && y == edge.peer0@))),
            r && edge.nonce % 2 == 0 ==> (forall|x: Seq<u8>, y: Seq<u8>|
                #[trigger] final(self).graph().spec_has_edge(x, y) <==> (old(self).graph().spec_has_edge(x, y)
                    && !(x == edge.peer0@ && y == edge.peer1@)
                    && !(x == edge.peer1@ && y == edge.peer0@))),
    {
        let ghost o = *self;
        let key = edge.get_pair();
        if self.find_nonce(&key) >= edge.nonce {
            // Newer information about this edge is already stored.
            return false;
        }
        if !(self.raw_graph.n_slots() < 0xFFFF_FFFDusize && self.raw_graph.total_active_edges()
            < u64::MAX) {
            return false;
        }
        if edge.nonce % 2 == 1 {
            self.raw_graph.add_edge(key.0, key.1);
        } else {
            self.raw_graph.remove_edge(&key.0, &key.1);
        }
        let map_key = (clone_bytes(&edge.peer0.key), clone_bytes(&edge.peer1.key));
        let ghost kd = (edge.peer0@, edge.peer1@);
        proof {
            assert(pair_view(map_key) == kd);
        }
        self.edges_info.insert(map_key, edge);
        proof {
            assert forall|k2: (Seq<u8>, Seq<u8>)|
                #[trigger] self.edges_info@.contains_key(k2) && self.edges_info@[k2].nonce % 2
                    == 1 implies self.raw_graph.spec_has_edge(k2.0, k2.1) by {
                if k2 != kd {
                    assert(o.edges_info@.contains_key(k2));
                    lemma_distinct_canonical_pairs(kd, k2);
                }
            }
        }
        true
    }

    /// Make a peer current: nothing happens if it is this node or already
    /// tracked; a peer with no archived component starts being tracked now;
    /// a peer archived in a component has the whole component deleted from
    /// the store and its edges ingested again, with its fellow members
    /// tracked as long-quiet.
    pub fn touch(&mut self, peer_id: &PeerId, now: u64)
        requires
            old(self).wf(),
        ensures
            final(self).wf(),
            forall|k: (Seq<u8>, Seq<u8>)|
                final(self).spec_stored_nonce(k) >= old(self).spec_stored_nonce(k),
            forall|q: Seq<u8>|
                #[trigger] old(self).spec_last_reachable().contains_key(q)
                    ==> final(self).spec_last_reachable().contains_key(q)
                    && final(self).spec_last_reachable()[q] == old(self).spec_last_reachable()[q],
            old(self).peer_known(peer_id@) ==> *final(self) == *old(self),
            !old(self).peer_known(peer_id@) && !old(self).spec_store().spec_peer_component().contains_key(
                peer_id@,
            ) ==> final(self).spec_last_reachable() == old(self).spec_last_reachable().insert(
                peer_id@,
                now,
            ) && final(self).spec_edges() == old(self).spec_edges() && final(self).graph() == old(
                self,
            ).graph() && final(self).spec_store() == old(self).spec_store(),
            !old(self).peer_known(peer_id@) && old(self).spec_store().spec_peer_component().contains_key(
                peer_id@,
            ) ==> {
                let o = *old(self);
                let f = *final(self);
                let c = o.spec_store().spec_peer_component()[peer_id@];
                let comp = o.spec_store().spec_component_edges();
                &&& f.spec_store().spec_component_edges() == comp.remove(c)
                &&& (comp.contains_key(c) && o.graph_room_for(comp[c]@.len() as int) ==> (forall|
                    t: int,
                |
                    0 <= t < comp[c]@.len() ==> final(self).spec_stored_nonce(
                        ((#[trigger] comp[c]@[t]).peer0@, comp[c]@[t].peer1@),
                    ) >= comp[c]@[t].nonce))
                &&& (comp.contains_key(c) ==> (forall|t: int|
                    0 <= t < comp[c]@.len() && o.component_member(
                        (#[trigger] comp[c]@[t]).peer0@,
                        c,
                    ) ==> f.member_rehydrated(comp[c]@[t].peer0@, now)))
                &&& (comp.contains_key(c) ==> (forall|t: int|
                    0 <= t < comp[c]@.len() && o.component_member(
                        (#[trigger] comp[c]@[t]).peer1@,
                        c,
                    ) ==> f.member_rehydrated(comp[c]@[t].peer1@, now)))
                &&& (forall|q: Seq<u8>|
                    #[trigger] o.spec_store().spec_peer_component().contains_key(q)
                        && !f.spec_store().spec_peer_component().contains_key(q)
                        ==> o.spec_store().spec_peer_component()[q] == c)
            },
            final(self).graph().spec_source() == old(self).graph().spec_source(),
            final(self).spec_forwarding() == old(self).spec_forwarding(),
            final(self).spec_component_nonce() == old(self).spec_component_nonce(),
            final(self).spec_store().spec_announcements() == old(
                self,
            ).spec_store().spec_announcements(),
            final(self).spec_store().spec_last_component_nonce() == old(
                self,
            ).spec_store().spec_last_component_nonce(),
    {
        let ghost o = *self;
        if bytes_eq(&peer_id.key, &self.raw_graph.source().key)
            || self.peer_last_time_reachable.contains_key(&peer_id.key) {
            return ;
        }
        match self.store.get_peer_component(peer_id) {
            None => {
                self.peer_last_time_reachable.insert(clone_bytes(&peer_id.key), now);
            },
            Some(nonce) => {
                let ghost comp = o.spec_store().spec_component_edges();
                let ghost have_comp = comp.contains_key(nonce);
                let edges: Vec<Edge> = match self.store.get_component_edges(nonce) {
                    Some(es) => clone_edge_vec(es),
                    None => Vec::new(),
                };
                let ghost comp_seq: Seq<Edge> = if have_comp {
                    comp[nonce]@
                } else {
                    Seq::empty()
                };
                proof {
                    assert(edges@.len() == comp_seq.len());
                }
                self.store.delete_component_edges(nonce);
                let quiet_since: u64 = if now >= SAVE_PEERS_MAX_TIME {
                    now - SAVE_PEERS_MAX_TIME
                } else {
                    0
                };
                let ghost hyp = have_comp && o.graph_room_for(comp_seq.len() as int);
                let n = edges.len();
                let mut i: usize = 0;
                while i < n
                    invariant
                        self.wf(),
                        n == edges@.len(),
                        n == comp_seq.len(),
                        i <= n,
                        quiet_since == (if now >= SAVE_PEERS_MAX_TIME {
                            (now - SAVE_PEERS_MAX_TIME) as u64
                        } else {
                            0u64
                        }),
                        hyp == (have_comp && o.graph_room_for(comp_seq.len() as int)),
                        forall|t: int| 0 <= t < n ==> edge_eq(#[trigger] edges@[t], comp_seq[t]),
                        forall|t: int|
                            0 <= t < n ==> (#[trigger] edges@[t]).peer0@ != edges@[t].peer1@
                                && !lex_lt(edges@[t].peer1@, edges@[t].peer0@),
                        forall|k: (Seq<u8>, Seq<u8>)|
                            self.spec_stored_nonce(k) >= o.spec_stored_nonce(k),
                        forall|q: Seq<u8>|
                            #[trigger] o.spec_last_reachable().contains_key(q)
                                ==> self.spec_last_reachable().contains_key(q)
                                && self.spec_last_reachable()[q] == o.spec_last_reachable()[q],
                        self.graph().spec_source() == o.graph().spec_source(),
                        self.spec_forwarding() == o.spec_forwarding(),
                        self.spec_component_nonce() == o.spec_component_nonce(),
                        self.spec_store().spec_announcements()
                            == o.spec_store().spec_announcements(),
                        self.spec_store().spec_last_component_nonce()
                            == o.spec_store().spec_last_component_nonce(),
                        self.spec_store().spec_component_edges() == comp.remove(nonce),
                        forall|q: Seq<u8>|
                            #[trigger] self.spec_store().spec_peer_component().contains_key(q)
                                ==> o.spec_store().spec_peer_component().contains_key(q)
                                && self.spec_store().spec_peer_component()[q]
                                == o.spec_store().spec_peer_component()[q],
                        forall|q: Seq<u8>|
                            #[trigger] o.spec_store().spec_peer_component().contains_key(q)
                                && !self.spec_store().spec_peer_component().contains_key(q)
                                ==> o.spec_store().spec_peer_component()[q] == nonce,
                        forall|q: Seq<u8>|
                            o.component_member(q, nonce) ==> self.member_rehydrated(q, now)
                                || self.component_member(q, nonce),
                        forall|t: int|
                            0 <= t < i && o.component_member(
                                (#[trigger] edges@[t]).peer0@,
                                nonce,
                            ) ==> self.member_rehydrated(edges@[t].peer0@, now),
                        forall|t: int|
                            0 <= t < i && o.component_member(
                                (#[trigger] edges@[t]).peer1@,
                                nonce,
                            ) ==> self.member_rehydrated(edges@[t].peer1@, now),
                        hyp ==> self.graph().n() <= o.graph().n() + 2 * i,
                        hyp ==> self.graph().spec_total_active_edges()
                            <= o.graph().spec_total_active_edges() + i,
                        hyp ==> (forall|t: int|
                            0 <= t < i ==> self.spec_stored_nonce(
                                ((#[trigger] edges@[t]).peer0@, edges@[t].peer1@),
                            ) >= edges@[t].nonce),
                    decreases n - i,
                {
                    let (ep0, ep1) = {
                        let e = &edges[i];
                        (e.peer0.clone(), e.peer1.clone())
                    };
                    self.touch_component_member(&ep0, nonce, quiet_since);
                    self.touch_component_member(&ep1, nonce, quiet_since);
                    let e = edges[i].clone();
                    proof {
                        assert(e.peer0@ != e.peer1@ && !lex_lt(e.peer1@, e.peer0@));
                        if hyp {
                            assert(self.graph_has_room()) by {
                                assert(self.graph().n() <= o.graph().n() + 2 * i);
                            }
                        }
                    }
                    let ghost pre_add = *self;
                    let accepted = self.add_edge(e);
                    proof {
                        if hyp {
                            assert(self.spec_stored_nonce(
                                (edges@[i as int].peer0@, edges@[i as int].peer1@),
                            ) >= edges@[i as int].nonce) by {
                                if !accepted {
                                    assert(edges@[i as int].nonce <= pre_add.spec_stored_nonce(
                                        (edges@[i as int].peer0@, edges@[i as int].peer1@),
                                    ));
                                }
                            }
                        }
                    }
                    i += 1;
                }
                proof {
                    if have_comp {
                        assert forall|t: int|
                            0 <= t < comp_seq.len() && o.component_member(
                                (#[trigger] comp_seq[t]).peer0@,
                                nonce,
                            ) implies self.member_rehydrated(comp_seq[t].peer0@, now) by {
                            assert(edges@[t].peer0@ == comp_seq[t].peer0@);
                        }
                        assert forall|t: int|
                            0 <= t < comp_seq.len() && o.component_member(
                                (#[trigger] comp_seq[t]).peer1@,
                                nonce,
                            ) implies self.member_rehydrated(comp_seq[t].peer1@, now) by {
                            assert(edges@[t].peer1@ == comp_seq[t].peer1@);
                        }
                        if hyp {
                            assert forall|t: int|
                                0 <= t < comp_seq.len() implies self.spec_stored_nonce(
                                ((#[trigger] comp_seq[t]).peer0@, comp_seq[t].peer1@),
                            ) >= comp_seq[t].nonce by {
                                assert(edges@[t].peer0@ == comp_seq[t].peer0@ && edges@[t].peer1@
                                    == comp_seq[t].peer1@ && edges@[t].nonce
                                    == comp_seq[t].nonce);
                            }
                        }
                    }
                }
            },
        }
    }

    /// Track a member of a rehydrated component as quiet since long ago, and
    /// forget its component membership, provided it is not this node, is not
    /// tracked yet, and belongs to the same component.
    fn touch_component_member(&mut self, ep: &PeerId, nonce: u64, quiet_since: u64)
        requires
            old(self).wf(),
        ensures
            final(self).wf(),
            final(self).spec_edges() == old(self).spec_edges(),
            final(self).graph() == old(self).graph(),
            forall|q: Seq<u8>|
                #[trigger] old(self).spec_last_reachable().contains_key(q)
                    ==> final(self).spec_last_reachable().contains_key(q)
                    && final(self).spec_last_reachable()[q] == old(self).spec_last_reachable()[q],
            final(self).spec_forwarding() == old(self).spec_forwarding(),
            final(self).spec_component_nonce() == old(self).spec_component_nonce(),
            final(self).spec_store().spec_announcements() == old(
                self,
            ).spec_store().spec_announcements(),
            final(self).spec_store().spec_last_component_nonce() == old(
                self,
            ).spec_store().spec_last_component_nonce(),
            final(self).spec_store().spec_component_edges() == old(
                self,
            ).spec_store().spec_component_edges(),
            old(self).component_member(ep@, nonce)
                ==> final(self).spec_last_reachable() == old(self).spec_last_reachable().insert(
                ep@,
                quiet_since,
            ) && final(self).spec_store().spec_peer_component() == old(
                self,
            ).spec_store().spec_peer_component().remove(ep@),
            !old(self).component_member(ep@, nonce) ==> *final(self) == *old(self),
    {
        if bytes_eq(&ep.key, &self.raw_graph.source().key) || self.peer_last_time_reachable.contains_key(
            &ep.key,
        ) {
            return ;
        }
        if let Some(cur_nonce) = self.store.get_peer_component(ep) {
            if cur_nonce == nonce {
                self.peer_last_time_reachable.insert(clone_bytes(&ep.key), quiet_since);
                self.store.delete_peer_component(ep);
            }
        }
    }

    /// Ingest a batch of verified edges: each endpoint is touched, then the
    /// edge is accepted iff its nonce dominates the stored one. Returns
    /// whether anything new was accepted, and the accepted edges.
    ///
    /// When every endpoint is already known and the graph has room for the
    /// whole batch, the stored nonce for each pair afterwards is exactly the
    /// larger of what was stored and the largest nonce the batch carries for
    /// that pair.
    pub fn process_edges(&mut self, edges: Vec<Edge>, now: u64) -> (r: ProcessEdgeResult)
        requires
            old(self).wf(),
            forall|t: int|
                0 <= t < edges@.len() ==> (#[trigger] edges@[t]).peer0@ != edges@[t].peer1@
                    && !lex_lt(edges@[t].peer1@, edges@[t].peer0@),
        ensures
            final(self).wf(),
            r.new_edge == (r.edges@.len() > 0),
            forall|k: (Seq<u8>, Seq<u8>)|
                final(self).spec_stored_nonce(k) >= old(self).spec_stored_nonce(k),
            forall|t: int|
                0 <= t < r.edges@.len() ==> final(self).spec_stored_nonce(
                    ((#[trigger] r.edges@[t]).peer0@, r.edges@[t].peer1@),
                ) >= r.edges@[t].nonce,
            final(self).graph().spec_source() == old(self).graph().spec_source(),
            final(self).spec_forwarding() == old(self).spec_forwarding(),
            final(self).spec_component_nonce() == old(self).spec_component_nonce(),
            batch_hypothesis(*old(self), edges@) ==> (forall|k: (Seq<u8>, Seq<u8>)|
                #[trigger] final(self).spec_stored_nonce(k) == max_int(
                    old(self).spec_stored_nonce(k),
                    batch_max_nonce(edges@, k),
                )),
    {
        let ghost o = *self;
        let ghost hyp = batch_hypothesis(o, edges@);
        let mut new_edge = false;
        let mut result: Vec<Edge> = Vec::new();
        let n = edges.len();
        let mut i: usize = 0;
        proof {
            assert(edges@.take(0) =~= Seq::<Edge>::empty());
        }
        while i < n
            invariant
                self.wf(),
                n == edges@.len(),
                i <= n,
                forall|t: int|
                    0 <= t < edges@.len() ==> (#[trigger] edges@[t]).peer0@ != edges@[t].peer1@
                        && !lex_lt(edges@[t].peer1@, edges@[t].peer0@),
                hyp == batch_hypothesis(o, edges@),
                new_edge == (result@.len() > 0),
                forall|k: (Seq<u8>, Seq<u8>)|
                    self.spec_stored_nonce(k) >= o.spec_stored_nonce(k),
                forall|t: int|
                    0 <= t < result@.len() ==> self.spec_stored_nonce(
                        ((#[trigger] result@[t]).peer0@, result@[t].peer1@),
                    ) >= result@[t].nonce,
                self.graph().spec_source() == o.graph().spec_source(),
                self.spec_forwarding() == o.spec_forwarding(),
                self.spec_component_nonce() == o.spec_component_nonce(),
                hyp ==> self.spec_last_reachable() == o.spec_last_reachable(),
                hyp ==> self.graph().n() <= o.graph().n() + 2 * i,
                hyp ==> self.graph().spec_total_active_edges() <= o.graph().spec_total_active_edges() + i,
                hyp ==> (forall|k: (Seq<u8>, Seq<u8>)|
                    #[trigger] self.spec_stored_nonce(k) == max_int(
                        o.spec_stored_nonce(k),
                        batch_max_nonce(edges@.take(i as int), k),
                    )),
            decreases n - i,
        {
            let (key0, key1) = {
                let e = &edges[i];
                (e.peer0.clone(), e.peer1.clone())
            };
            let ghost pre_touch = *self;
            self.touch(&key0, now);
            self.touch(&key1, now);
            proof {
                if hyp {
                    assert(pre_touch.peer_known(key0@));
                    assert(pre_touch.peer_known(key1@));
                }
            }
            let e = edges[i].clone();
            proof {
                assert(e.peer0@ == edges@[i as int].peer0@ && e.peer1@ == edges@[i as int].peer1@);
            }
            let ghost pre_add = *self;
            let accepted = self.add_edge(e);
            if accepted {
                new_edge = true;
                let ghost rlen = result@.len();
                result.push(edges_index_clone(&edges, i));
                proof {
                    assert(result@[rlen as int].peer0@ == edges@[i as int].peer0@);
                }
            }
            proof {
                if hyp {
                    assert(pre_add.graph_has_room()) by {
                        assert(pre_add.graph().n() <= o.graph().n() + 2 * i);
                    }
                    lemma_batch_max_step(edges@, i as int);
                    assert forall|k: (Seq<u8>, Seq<u8>)| #[trigger]
                        self.spec_stored_nonce(k) == max_int(
                        o.spec_stored_nonce(k),
                        batch_max_nonce(edges@.take(i + 1), k),
                    ) by {
                        let ki = (edges@[i as int].peer0@, edges@[i as int].peer1@);
                        if k == ki {
                            if accepted {
                            } else {
                                assert(edges@[i as int].nonce <= pre_add.spec_stored_nonce(ki));
                            }
                        } else {
                            assert(self.spec_stored_nonce(k) == pre_add.spec_stored_nonce(k));
                        }
                    }
                }
            }
            i += 1;
        }
        proof {
            assert(edges@.take(n as int) =~= edges@);
        }
        ProcessEdgeResult { new_edge, edges: result }
    }

    /// Whether a tracked peer has been unreachable for at least `timeout`
    /// seconds at `now`.
    pub open spec fn reach_stale(self, p: Seq<u8>, now: u64, timeout: u64) -> bool {
        &&& self.spec_last_reachable().contains_key(p)
        &&& self.spec_last_reachable()[p] + timeout <= now
    }

    /// Whether an endpoint pair touches a peer unreachable for `timeout`.
    pub open spec fn touches_stale(self, k: (Seq<u8>, Seq<u8>), now: u64, timeout: u64) -> bool {
        self.reach_stale(k.0, now, timeout) || self.reach_stale(k.1, now, timeout)
    }

    /// Whether pruning is skipped: not forced, and no tracked peer has been
    /// quiet for the full archival window.
    pub open spec fn no_prune(self, force: bool, now: u64) -> bool {
        &&& !force
        &&& (forall|p: Seq<u8>|
            #[trigger] self.spec_last_reachable().contains_key(p)
                ==> self.spec_last_reachable()[p] + SAVE_PEERS_MAX_TIME > now)
    }

    /// Archive the edges of long-unreachable peers: unless pruning is
    /// skipped, a fresh component nonce is allocated and persisted, every
    /// peer unreachable for `timeout` seconds is recorded as a member of
    /// that component and dropped from tracking, and every logged edge
    /// touching such a peer moves from the log into the component's archive.
    /// Returns the archived edges.
    #[verifier::rlimit(100)]
    pub fn try_save_edges(&mut self, force_pruning: bool, timeout: u64, now: u64) -> (r: Vec<
        Edge,
    >)
        requires
            old(self).wf(),
            old(self).spec_component_nonce() < u64::MAX,
        ensures
            final(self).wf(),
            final(self).graph() == old(self).graph(),
            final(self).spec_forwarding() == old(self).spec_forwarding(),
            final(self).spec_store().spec_announcements() == old(
                self,
            ).spec_store().spec_announcements(),
            old(self).no_prune(force_pruning, now) ==> *final(self) == *old(self) && r@.len() == 0,
            !old(self).no_prune(force_pruning, now) ==> {
                let o = *old(self);
                let f = *final(self);
                let cn = o.spec_component_nonce();
                &&& f.spec_component_nonce() == cn + 1
                &&& f.spec_store().spec_last_component_nonce() == Some((cn + 1) as u64)
                &&& (forall|p: Seq<u8>|
                    o.reach_stale(p, now, timeout) ==> !f.spec_last_reachable().contains_key(p)
                        && f.spec_store().spec_peer_component().contains_key(p)
                        && f.spec_store().spec_peer_component()[p] == cn)
                &&& (forall|p: Seq<u8>|
                    #[trigger] o.spec_last_reachable().contains_key(p) && !o.reach_stale(
                        p,
                        now,
                        timeout,
                    ) ==> f.spec_last_reachable().contains_key(p)
                        && f.spec_last_reachable()[p] == o.spec_last_reachable()[p])
                &&& (forall|p: Seq<u8>|
                    #[trigger] f.spec_last_reachable().contains_key(p)
                        ==> o.spec_last_reachable().contains_key(p))
                &&& (forall|k: (Seq<u8>, Seq<u8>)|
                    #[trigger] f.spec_edges().contains_key(k) <==> (o.spec_edges().contains_key(k)
                        && !o.touches_stale(k, now, timeout)))
                &&& (forall|k: (Seq<u8>, Seq<u8>)|
                    #[trigger] f.spec_edges().contains_key(k) ==> f.spec_edges()[k]
                        == o.spec_edges()[k])
                &&& (forall|t: int|
                    0 <= t < r@.len() ==> {
                        let k = ((#[trigger] r@[t]).peer0@, r@[t].peer1@);
                        &&& o.spec_edges().contains_key(k)
                        &&& edge_eq(r@[t], o.spec_edges()[k])
                        &&& o.touches_stale(k, now, timeout)
                    })
                &&& (forall|k: (Seq<u8>, Seq<u8>)|
                    #[trigger] o.spec_edges().contains_key(k) && o.touches_stale(k, now, timeout)
                        ==> exists|t: int|
                        0 <= t < r@.len() && ((#[trigger] r@[t]).peer0@, r@[t].peer1@) == k)
                &&& f.spec_store().spec_component_edges().contains_key(cn)
                &&& {
                    let archived = f.spec_store().spec_component_edges()[cn]@;
                    &&& archived.len() == r@.len()
                    &&& (forall|t: int| 0 <= t < r@.len() ==> edge_eq(#[trigger] archived[t], r@[t]))
                }
            },
    {
        let ghost o = *self;
        // Which tracked peers have been quiet for `timeout`, and whether any
        // has been quiet for the full archival window.
        let n = self.peer_last_time_reachable.len();
        let mut stale_keys: Vec<Vec<u8>> = Vec::new();
        let ghost mut src_idx: Seq<int> = Seq::empty();
        let mut prune_ok: bool = force_pruning;
        let mut i: usize = 0;
        while i < n
            invariant
                self.wf(),
                *self == o,
                n == self.peer_last_time_reachable.spec_len(),
                i <= n,
                prune_ok == (force_pruning || exists|t: int|
                    0 <= t < i && (#[trigger] self.peer_last_time_reachable.entries_view()[t]).1
                        + SAVE_PEERS_MAX_TIME <= now),
                src_idx.len() == stale_keys@.len(),
                forall|j: int|
                    0 <= j < src_idx.len() ==> 0 <= #[trigger] src_idx[j] < i,
                forall|j1: int, j2: int|
                    0 <= j1 < j2 < src_idx.len() ==> #[trigger] src_idx[j1] < #[trigger] src_idx[j2],
                forall|j: int|
                    0 <= j < src_idx.len() ==> (#[trigger] stale_keys@[j])@
                        == self.peer_last_time_reachable.entries_view()[src_idx[j]].0@,
                forall|j: int|
                    0 <= j < stale_keys@.len() ==> o.reach_stale(
                        (#[trigger] stale_keys@[j])@,
                        now,
                        timeout,
                    ),
                forall|t: int|
                    0 <= t < i && (#[trigger] self.peer_last_time_reachable.entries_view()[t]).1
                        + timeout <= now ==> exists|j: int|
                        0 <= j < stale_keys@.len() && (#[trigger] stale_keys@[j])@
                            == self.peer_last_time_reachable.entries_view()[t].0@,
            decreases n - i,
        {
            let (key, t) = {
                let e = self.peer_last_time_reachable.entry_at(i);
                (clone_bytes(&e.0), e.1)
            };
            proof {
                self.peer_last_time_reachable.lemma_entry_in_view(i as int);
            }
            if now >= t && now - t >= SAVE_PEERS_MAX_TIME {
                prune_ok = true;
            }
            let ghost sk_pre = stale_keys@;
            if now >= t && now - t >= timeout {
                let ghost jlen = stale_keys@.len();
                stale_keys.push(key);
                proof {
                    src_idx = src_idx.push(i as int);
                    assert(stale_keys@[jlen as int]@
                        == self.peer_last_time_reachable.entries_view()[i as int].0@);
                    assert forall|j1: int, j2: int|
                        0 <= j1 < j2 < src_idx.len() implies #[trigger] src_idx[j1]
                        < #[trigger] src_idx[j2] by {
                        if j2 == src_idx.len() - 1 {
                            assert(src_idx[j1] < i as int);
                        }
                    }
                }
            }
            proof {
                let stale_here = now >= t && now - t >= timeout;
                assert forall|t1: int|
                    0 <= t1 < i + 1 && (
                    #[trigger] self.peer_last_time_reachable.entries_view()[t1]).1 + timeout
                        <= now implies exists|j1: int|
                    0 <= j1 < stale_keys@.len() && (#[trigger] stale_keys@[j1])@
                        == self.peer_last_time_reachable.entries_view()[t1].0@ by {
                    if t1 == i as int {
                        assert(stale_here);
                        assert(stale_keys@[stale_keys@.len() - 1]@
                            == self.peer_last_time_reachable.entries_view()[i as int].0@);
                    } else {
                        let j1 = choose|j1: int|
                            0 <= j1 < sk_pre.len() && (#[trigger] sk_pre[j1])@
                                == self.peer_last_time_reachable.entries_view()[t1].0@;
                        assert(stale_keys@[j1] == sk_pre[j1]);
                    }
                }
            }
            i += 1;
        }
        let ghost stale_idx = src_idx;
        proof {
            // The listed keys are pairwise distinct.
            assert forall|j1: int, j2: int|
                0 <= j1 < j2 < stale_keys@.len() implies (#[trigger] stale_keys@[j1])@ != (
            #[trigger] stale_keys@[j2])@ by {
                o.peer_last_time_reachable.lemma_entries_distinct(stale_idx[j1], stale_idx[j2]);
            }
            if !prune_ok {
                assert forall|p: Seq<u8>|
                    #[trigger] o.spec_last_reachable().contains_key(p) implies o.spec_last_reachable()[p]
                    + SAVE_PEERS_MAX_TIME > now by {
                    o.peer_last_time_reachable.lemma_view_in_entries(p);
                }
                assert(o.no_prune(force_pruning, now));
            } else {
                if !force_pruning {
                    let t = choose|t: int|
                        0 <= t < n && (
                        #[trigger] o.peer_last_time_reachable.entries_view()[t]).1
                            + SAVE_PEERS_MAX_TIME <= now;
                    o.peer_last_time_reachable.lemma_entry_in_view(t);
                    let p = o.peer_last_time_reachable.entries_view()[t].0@;
                    assert(o.spec_last_reachable().contains_key(p));
                    assert(o.spec_last_reachable()[p] + SAVE_PEERS_MAX_TIME <= now);
                }
                assert(!o.no_prune(force_pruning, now));
            }
        }
        if !prune_ok {
            return Vec::new();
        }
        proof {
            // The listed keys are complete: every stale peer is on the list.
            assert forall|p: Seq<u8>|
                o.reach_stale(p, now, timeout) implies exists|j: int|
                0 <= j < stale_keys@.len() && (#[trigger] stale_keys@[j])@ == p by {
                o.peer_last_time_reachable.lemma_view_in_entries(p);
                let t = o.peer_last_time_reachable.key_index(p);
                assert((o.peer_last_time_reachable.entries_view()[t]).1 + timeout <= now);
            }
        }
        let component_nonce = self.component_nonce;
        self.component_nonce = self.component_nonce + 1;
        self.store.set_last_component_nonce(self.component_nonce);
        // Mark the stale peers as members of the component and stop tracking
        // them.
        let m = stale_keys.len();
        let mut j: usize = 0;
        while j < m
            invariant
                self.wf(),
                m == stale_keys@.len(),
                j <= m,
                self.edges_info@ == o.edges_info@,
                self.edges_info.entries_view() == o.edges_info.entries_view(),
                self.raw_graph == o.raw_graph,
                self.peer_forwarding@ == o.peer_forwarding@,
                self.component_nonce == o.component_nonce + 1,
                component_nonce == o.component_nonce,
                self.store.spec_announcements() == o.store.spec_announcements(),
                self.store.spec_component_edges() == o.store.spec_component_edges(),
                self.store.spec_last_component_nonce() == Some((component_nonce + 1) as u64),
                forall|j1: int, j2: int|
                    0 <= j1 < j2 < stale_keys@.len() ==> (#[trigger] stale_keys@[j1])@ != (
                    #[trigger] stale_keys@[j2])@,
                forall|j1: int|
                    0 <= j1 < stale_keys@.len() ==> o.reach_stale(
                        (#[trigger] stale_keys@[j1])@,
                        now,
                        timeout,
                    ),
                forall|p: Seq<u8>|
                    o.reach_stale(p, now, timeout) ==> exists|j1: int|
                        0 <= j1 < stale_keys@.len() && (#[trigger] stale_keys@[j1])@ == p,
                forall|j1: int|
                    0 <= j1 < j ==> self.store.spec_peer_component().contains_key(
                        (#[trigger] stale_keys@[j1])@,
                    ) && self.store.spec_peer_component()[stale_keys@[j1]@] == component_nonce,
                forall|p: Seq<u8>|
                    #[trigger] self.spec_last_reachable().contains_key(p)
                        == (o.spec_last_reachable().contains_key(p) && !(exists|j1: int|
                        0 <= j1 < j && (#[trigger] stale_keys@[j1])@ == p)),
                forall|p: Seq<u8>|
                    #[trigger] self.spec_last_reachable().contains_key(p)
                        ==> self.spec_last_reachable()[p] == o.spec_last_reachable()[p],
                forall|p: Seq<u8>|
                    #[trigger] self.store.spec_peer_component().contains_key(p)
                        == (o.store.spec_peer_component().contains_key(p) || (exists|j1: int|
                        0 <= j1 < j && (#[trigger] stale_keys@[j1])@ == p)),
            decreases m - j,
        {
            let key_for_store = clone_bytes(&stale_keys[j]);
            let ghost pre = *self;
            self.store.set_peer_component(key_for_store, component_nonce);
            let _ = self.peer_last_time_reachable.remove(&stale_keys[j]);
            proof {
                let kj = stale_keys@[j as int]@;
                assert forall|j1: int|
                    0 <= j1 < j + 1 implies self.store.spec_peer_component().contains_key(
                    (#[trigger] stale_keys@[j1])@,
                ) && self.store.spec_peer_component()[stale_keys@[j1]@] == component_nonce by {
                    if j1 < j {
                        assert(stale_keys@[j1]@ != kj);
                        assert(pre.store.spec_peer_component().contains_key(stale_keys@[j1]@));
                    }
                }
                assert forall|p: Seq<u8>|
                    #[trigger] self.spec_last_reachable().contains_key(p) == (
                o.spec_last_reachable().contains_key(p) && !(exists|j1: int|
                    0 <= j1 < j + 1 && (#[trigger] stale_keys@[j1])@ == p)) by {
                    if p == kj {
                        assert(0 <= (j as int) && (j as int) < j + 1 && stale_keys@[j as int]@
                            == p);
                        assert(!self.spec_last_reachable().contains_key(p));
                    } else {
                        assert(self.spec_last_reachable().contains_key(p)
                            == pre.spec_last_reachable().contains_key(p));
                        if exists|j1: int| 0 <= j1 < j && (#[trigger] stale_keys@[j1])@ == p {
                            let j1 = choose|j1: int|
                                0 <= j1 < j && (#[trigger] stale_keys@[j1])@ == p;
                            assert(0 <= j1 < j + 1 && stale_keys@[j1]@ == p);
                        }
                        if exists|j1: int| 0 <= j1 < j + 1 && (#[trigger] stale_keys@[j1])@ == p {
                            let j1 = choose|j1: int|
                                0 <= j1 < j + 1 && (#[trigger] stale_keys@[j1])@ == p;
                            if j1 == j as int {
                                assert(p == kj);
                            }
                        }
                    }
                }
                assert forall|p: Seq<u8>|
                    #[trigger] self.spec_last_reachable().contains_key(p) implies self.spec_last_reachable()[p]
                    == o.spec_last_reachable()[p] by {
                    assert(pre.spec_last_reachable().contains_key(p));
                    assert(self.spec_last_reachable()[p] == pre.spec_last_reachable()[p]);
                }
                assert forall|p: Seq<u8>|
                    #[trigger] self.store.spec_peer_component().contains_key(p) == (
                o.store.spec_peer_component().contains_key(p) || (exists|j1: int|
                    0 <= j1 < j + 1 && (#[trigger] stale_keys@[j1])@ == p)) by {
                    if p == kj {
                        assert(0 <= (j as int) && (j as int) < j + 1 && stale_keys@[j as int]@
                            == p);
                        assert(self.store.spec_peer_component().contains_key(p));
                    } else {
                        if exists|j1: int| 0 <= j1 < j && (#[trigger] stale_keys@[j1])@ == p {
                            let j1 = choose|j1: int|
                                0 <= j1 < j && (#[trigger] stale_keys@[j1])@ == p;
                            assert(0 <= j1 < j + 1 && stale_keys@[j1]@ == p);
                        }
                        if exists|j1: int| 0 <= j1 < j + 1 && (#[trigger] stale_keys@[j1])@ == p {
                            let j1 = choose|j1: int|
                                0 <= j1 < j + 1 && (#[trigger] stale_keys@[j1])@ == p;
                            if j1 == j as int {
                                assert(p == kj);
                            }
                        }
                    }
                }
            }
            j += 1;
        }
        let ghost s_c = *self;
        // Collect the endpoint pairs whose edges move to the archive.
        let en = self.edges_info.len();
        let mut doomed: Vec<(Vec<u8>, Vec<u8>)> = Vec::new();
        let ghost mut doomed_idx: Seq<int> = Seq::empty();
        let mut t: usize = 0;
        while t < en
            invariant
                self.wf(),
                *self == s_c,
                s_c.edges_info@ == o.edges_info@,
                s_c.edges_info.entries_view() == o.edges_info.entries_view(),
                en == self.edges_info.spec_len(),
                t <= en,
                forall|j1: int|
                    0 <= j1 < stale_keys@.len() ==> o.reach_stale(
                        (#[trigger] stale_keys@[j1])@,
                        now,
                        timeout,
                    ),
                forall|p: Seq<u8>|
                    o.reach_stale(p, now, timeout) ==> exists|j1: int|
                        0 <= j1 < stale_keys@.len() && (#[trigger] stale_keys@[j1])@ == p,
                doomed_idx.len() == doomed@.len(),
                forall|d1: int|
                    0 <= d1 < doomed_idx.len() ==> 0 <= #[trigger] doomed_idx[d1] < t,
                forall|d1: int, d2: int|
                    0 <= d1 < d2 < doomed_idx.len() ==> #[trigger] doomed_idx[d1]
                        < #[trigger] doomed_idx[d2],
                forall|d1: int|
                    0 <= d1 < doomed@.len() ==> pair_view(#[trigger] doomed@[d1]) == pair_view(
                        o.edges_info.entries_view()[doomed_idx[d1]].0,
                    ),
                forall|d1: int|
                    0 <= d1 < doomed@.len() ==> o.spec_edges().contains_key(
                        pair_view(#[trigger] doomed@[d1]),
                    ) && o.touches_stale(pair_view(doomed@[d1]), now, timeout),
                forall|u: int|
                    0 <= u < t && o.touches_stale(
                        pair_view((#[trigger] o.edges_info.entries_view()[u]).0),
                        now,
                        timeout,
                    ) ==> exists|d1: int|
                        0 <= d1 < doomed@.len() && pair_view(#[trigger] doomed@[d1]) == pair_view(
                            o.edges_info.entries_view()[u].0,
                        ),
            decreases en - t,
        {
            let (k0, k1) = {
                let e = self.edges_info.entry_at(t);
                (clone_bytes(&e.0.0), clone_bytes(&e.0.1))
            };
            proof {
                self.edges_info.lemma_entry_in_view(t as int);
                assert(pair_view(self.edges_info.entries_view()[t as int].0) == (k0@, k1@));
            }
            let touches = contains_bytes(&stale_keys, &k0) || contains_bytes(&stale_keys, &k1);
            proof {
                if touches {
                    assert(o.touches_stale((k0@, k1@), now, timeout));
                } else {
                    if o.touches_stale((k0@, k1@), now, timeout) {
                        if o.reach_stale(k0@, now, timeout) {
                            let j1 = choose|j1: int|
                                0 <= j1 < stale_keys@.len() && (#[trigger] stale_keys@[j1])@
                                    == k0@;
                            assert(false);
                        } else {
                            let j1 = choose|j1: int|
                                0 <= j1 < stale_keys@.len() && (#[trigger] stale_keys@[j1])@
                                    == k1@;
                            assert(false);
                        }
                    }
                }
            }
            let ghost doomed_pre = doomed@;
            if touches {
                let ghost dlen = doomed@.len();
                doomed.push((k0, k1));
                proof {
                    doomed_idx = doomed_idx.push(t as int);
                    assert(pair_view(doomed@[dlen as int]) == pair_view(
                        o.edges_info.entries_view()[t as int].0,
                    ));
                    assert forall|d1: int, d2: int|
                        0 <= d1 < d2 < doomed_idx.len() implies #[trigger] doomed_idx[d1]
                        < #[trigger] doomed_idx[d2] by {
                        if d2 == doomed_idx.len() - 1 {
                            assert(doomed_idx[d1] < t as int);
                        }
                    }
                }
            }
            proof {
                assert forall|u: int|
                    0 <= u < t + 1 && o.touches_stale(
                        pair_view((#[trigger] o.edges_info.entries_view()[u]).0),
                        now,
                        timeout,
                    ) implies exists|d1: int|
                    0 <= d1 < doomed@.len() && pair_view(#[trigger] doomed@[d1]) == pair_view(
                        o.edges_info.entries_view()[u].0,
                    ) by {
                    if u == t as int {
                        assert(touches);
                        assert(pair_view(doomed@[doomed@.len() - 1]) == pair_view(
                            o.edges_info.entries_view()[t as int].0,
                        ));
                    } else {
                        let d1 = choose|d1: int|
                            0 <= d1 < doomed_pre.len() && pair_view(#[trigger] doomed_pre[d1])
                                == pair_view(o.edges_info.entries_view()[u].0);
                        assert(doomed@[d1] == doomed_pre[d1]);
                        assert(pair_view(doomed@[d1]) == pair_view(
                            o.edges_info.entries_view()[u].0,
                        ));
                    }
                }
            }
            t += 1;
        }
        proof {
            // Doomed pairs are pairwise distinct.
            assert forall|d1: int, d2: int|
                0 <= d1 < d2 < doomed@.len() implies pair_view(#[trigger] doomed@[d1]) != pair_view(
                #[trigger] doomed@[d2],
            ) by {
                o.edges_info.lemma_entries_distinct(doomed_idx[d1], doomed_idx[d2]);
            }
            // Every logged pair touching a stale peer is doomed.
            assert forall|k: (Seq<u8>, Seq<u8>)|
                #[trigger] o.spec_edges().contains_key(k) && o.touches_stale(k, now, timeout)
                    implies exists|d1: int|
                0 <= d1 < doomed@.len() && pair_view(#[trigger] doomed@[d1]) == k by {
                o.edges_info.lemma_view_in_entries(k);
                let u = o.edges_info.key_index(k);
                assert(pair_view(o.edges_info.entries_view()[u].0) == k);
            }
        }
        // Move the doomed edges out of the log.
        let dn = doomed.len();
        let mut removed: Vec<Edge> = Vec::new();
        let mut d: usize = 0;
        while d < dn
            invariant
                self.wf(),
                dn == doomed@.len(),
                d <= dn,
                self.raw_graph == o.raw_graph,
                self.peer_forwarding@ == o.peer_forwarding@,
                self.peer_last_time_reachable@ == s_c.peer_last_time_reachable@,
                self.store.spec_peer_component() == s_c.store.spec_peer_component(),
                self.store.spec_last_component_nonce() == s_c.store.spec_last_component_nonce(),
                self.store.spec_component_edges() == s_c.store.spec_component_edges(),
                self.store.spec_announcements() == s_c.store.spec_announcements(),
                self.component_nonce == s_c.component_nonce,
                forall|d1: int|
                    0 <= d1 < dn ==> o.spec_edges().contains_key(pair_view(#[trigger] doomed@[d1]))
                        && o.touches_stale(pair_view(doomed@[d1]), now, timeout),
                forall|d1: int, d2: int|
                    0 <= d1 < d2 < dn ==> pair_view(#[trigger] doomed@[d1]) != pair_view(
                        #[trigger] doomed@[d2],
                    ),
                removed@.len() == d,
                forall|d1: int|
                    0 <= d1 < d ==> ((#[trigger] removed@[d1]).peer0@, removed@[d1].peer1@)
                        == pair_view(doomed@[d1]) && edge_eq(
                        removed@[d1],
                        o.spec_edges()[pair_view(doomed@[d1])],
                    ),
                forall|k: (Seq<u8>, Seq<u8>)|
                    #[trigger] self.spec_edges().contains_key(k) == (o.spec_edges().contains_key(k)
                        && !(exists|d1: int|
                        0 <= d1 < d && pair_view(#[trigger] doomed@[d1]) == k)),
                forall|k: (Seq<u8>, Seq<u8>)|
                    #[trigger] self.spec_edges().contains_key(k) ==> self.spec_edges()[k]
                        == o.spec_edges()[k],
            decreases dn - d,
        {
            proof {
                assert(pair_view(doomed@[d as int]) == (doomed@[d as int].0@, doomed@[d as int].1@));
                assert(self.spec_edges().contains_key(pair_view(doomed@[d as int]))) by {
                    if exists|d1: int| 0 <= d1 < d && pair_view(#[trigger] doomed@[d1]) == pair_view(
                        doomed@[d as int],
                    ) {
                        let d1 = choose|d1: int|
                            0 <= d1 < d && pair_view(#[trigger] doomed@[d1]) == pair_view(
                                doomed@[d as int],
                            );
                        assert(false);
                    }
                }
            }
            let ghost pre = *self;
            let e = self.edges_info.remove(&doomed[d]);
            match e {
                Some(edge) => {
                    removed.push(edge);
                },
                None => {
                    proof {
                        assert(false);
                    }
                },
            }
            proof {
                let kd = pair_view(doomed@[d as int]);
                assert forall|k: (Seq<u8>, Seq<u8>)|
                    #[trigger] self.spec_edges().contains_key(k) == (o.spec_edges().contains_key(k)
                        && !(exists|d1: int|
                        0 <= d1 < d + 1 && pair_view(#[trigger] doomed@[d1]) == k)) by {
                    if k == kd {
                        assert(0 <= (d as int) && (d as int) < d + 1 && pair_view(
                            doomed@[d as int],
                        ) == k);
                        assert(!self.spec_edges().contains_key(k));
                    } else {
                        assert(self.spec_edges().contains_key(k) == pre.spec_edges().contains_key(
                            k,
                        ));
                        if exists|d1: int| 0 <= d1 < d && pair_view(#[trigger] doomed@[d1]) == k {
                            let d1 = choose|d1: int|
                                0 <= d1 < d && pair_view(#[trigger] doomed@[d1]) == k;
                            assert(0 <= d1 < d + 1 && pair_view(doomed@[d1]) == k);
                        }
                        if exists|d1: int|
                            0 <= d1 < d + 1 && pair_view(#[trigger] doomed@[d1]) == k {
                            let d1 = choose|d1: int|
                                0 <= d1 < d + 1 && pair_view(#[trigger] doomed@[d1]) == k;
                            if d1 == d as int {
                                assert(k == kd);
                            }
                        }
                    }
                }
            }
            d += 1;
        }
        // Archive them under the component nonce.
        let ghost s_e = *self;
        let archived = clone_edge_vec(&removed);
        self.store.set_component_edges(component_nonce, archived);
        proof {
            let f = *self;
            assert(f.edges_info@ == s_e.edges_info@);
            assert forall|k: (Seq<u8>, Seq<u8>)|
                #[trigger] f.spec_edges().contains_key(k) <==> (o.spec_edges().contains_key(k)
                    && !o.touches_stale(k, now, timeout)) by {
                assert(f.spec_edges().contains_key(k) == s_e.spec_edges().contains_key(k));
                if o.spec_edges().contains_key(k) && o.touches_stale(k, now, timeout) {
                    let d1 = choose|d1: int|
                        0 <= d1 < doomed@.len() && pair_view(#[trigger] doomed@[d1]) == k;
                    assert(!s_e.spec_edges().contains_key(k));
                }
                if s_e.spec_edges().contains_key(k) && o.touches_stale(k, now, timeout) {
                    let d1 = choose|d1: int|
                        0 <= d1 < doomed@.len() && pair_view(#[trigger] doomed@[d1]) == k;
                    assert(false);
                }
            }
            assert forall|k: (Seq<u8>, Seq<u8>)|
                #[trigger] f.spec_edges().contains_key(k) implies f.spec_edges()[k]
                == o.spec_edges()[k] by {
                assert(s_e.spec_edges().contains_key(k) && s_e.spec_edges()[k]
                    == o.spec_edges()[k]);
                assert(f.spec_edges()[k] == s_e.spec_edges()[k]);
            }
            assert forall|t1: int|
                0 <= t1 < removed@.len() implies {
                let k = ((#[trigger] removed@[t1]).peer0@, removed@[t1].peer1@);
                &&& o.spec_edges().contains_key(k)
                &&& edge_eq(removed@[t1], o.spec_edges()[k])
                &&& o.touches_stale(k, now, timeout)
            } by {
                assert((removed@[t1].peer0@, removed@[t1].peer1@) == pair_view(doomed@[t1]));
            }
            assert forall|k: (Seq<u8>, Seq<u8>)|
                #[trigger] o.spec_edges().contains_key(k) && o.touches_stale(k, now, timeout)
                    implies exists|t1: int|
                0 <= t1 < removed@.len() && ((#[trigger] removed@[t1]).peer0@, removed@[t1].peer1@)
                    == k by {
                let d1 = choose|d1: int|
                    0 <= d1 < doomed@.len() && pair_view(#[trigger] doomed@[d1]) == k;
                assert((removed@[d1].peer0@, removed@[d1].peer1@) == k);
            }
            // The tracking and membership columns, as the pruning left them.
            let f = *self;
            let cn = o.spec_component_nonce();
            assert(f.spec_component_nonce() == cn + 1);
            assert(f.spec_store().spec_last_component_nonce() == Some((cn + 1) as u64));
            assert forall|p: Seq<u8>|
                o.reach_stale(p, now, timeout) implies !f.spec_last_reachable().contains_key(p)
                && f.spec_store().spec_peer_component().contains_key(p)
                && f.spec_store().spec_peer_component()[p] == cn by {
                let j1 = choose|j1: int|
                    0 <= j1 < stale_keys@.len() && (#[trigger] stale_keys@[j1])@ == p;
                assert(s_c.store.spec_peer_component().contains_key(stale_keys@[j1]@));
                assert(s_c.store.spec_peer_component()[stale_keys@[j1]@] == cn);
                assert(!s_c.spec_last_reachable().contains_key(p));
            }
            assert forall|p: Seq<u8>|
                #[trigger] o.spec_last_reachable().contains_key(p) && !o.reach_stale(
                    p,
                    now,
                    timeout,
                ) implies f.spec_last_reachable().contains_key(p) && f.spec_last_reachable()[p]
                == o.spec_last_reachable()[p] by {
                if exists|j1: int| 0 <= j1 < stale_keys@.len() && (#[trigger] stale_keys@[j1])@
                    == p {
                    let j1 = choose|j1: int|
                        0 <= j1 < stale_keys@.len() && (#[trigger] stale_keys@[j1])@ == p;
                    assert(o.reach_stale(stale_keys@[j1]@, now, timeout));
                }
                assert(s_c.spec_last_reachable().contains_key(p));
            }
            assert forall|p: Seq<u8>|
                #[trigger] f.spec_last_reachable().contains_key(p) implies o.spec_last_reachable().contains_key(
                p,
            ) by {
                assert(s_c.spec_last_reachable().contains_key(p));
            }
        }
        removed
    }

    /// Recompute the forwarding map from the graph, refresh the
    /// last-reachable time of every peer it names, and, when saving is
    /// allowed, archive the edges of long-unreachable peers. Returns the
    /// archived edges.
    pub fn update(&mut self, can_save_edges: bool, force_pruning: bool, timeout: u64, now: u64) -> (r:
        Vec<Edge>)
        requires
            old(self).wf(),
            old(self).spec_component_nonce() < u64::MAX,
        ensures
            final(self).wf(),
            update_post(
                *old(self),
                *final(self),
                r@,
                can_save_edges,
                force_pruning,
                timeout,
                now,
            ),
    {
        let result = self.raw_graph.calculate_distance();
        let ghost orig = result@;
        let ghost g = self.raw_graph;
        let mut result = result;
        let mut pf: ByteKeyMap<Vec<PeerId>> = ByteKeyMap::new();
        while result.len() > 0
            invariant
                self.wf(),
                self.raw_graph == g,
                g == old(self).graph(),
                self.edges_info@ == old(self).edges_info@,
                self.store == old(self).store,
                self.component_nonce == old(self).component_nonce,
                self.peer_forwarding@ == old(self).peer_forwarding@,
                result@.len() <= orig.len(),
                result@ =~= orig.take(result@.len() as int),
                forall|k: int|
                    0 <= k < orig.len() ==> (#[trigger] orig[k].0@) != g.spec_source()
                        && g.peer_reachable(orig[k].0@) && orig[k].1@.len() > 0,
                forall|k: int, t: int|
                    0 <= k < orig.len() && 0 <= t < orig[k].1@.len() ==> g.spec_has_edge(
                        g.spec_source(),
                        (#[trigger] orig[k].1@[t])@,
                    ),
                forall|k: int, t1: int, t2: int|
                    0 <= k < orig.len() && 0 <= t1 < t2 < orig[k].1@.len() ==> (
                    #[trigger] orig[k].1@[t1])@ != (#[trigger] orig[k].1@[t2])@,
                pf.wf(),
                forall|j: int|
                    result@.len() <= j < orig.len() ==> pf@.contains_key(
                        (#[trigger] orig[j].0)@,
                    ),
                forall|q: Seq<u8>|
                    #[trigger] self.spec_last_reachable().contains_key(q) <==> (old(
                        self,
                    ).spec_last_reachable().contains_key(q) || pf@.contains_key(q)),
                forall|q: Seq<u8>|
                    #[trigger] pf@.contains_key(q) ==> self.spec_last_reachable().contains_key(q)
                        && self.spec_last_reachable()[q] == now,
                forall|q: Seq<u8>|
                    !pf@.contains_key(q) && #[trigger] self.spec_last_reachable().contains_key(q)
                        ==> self.spec_last_reachable()[q] == old(self).spec_last_reachable()[q],
                forall|q: Seq<u8>|
                    #[trigger] pf@.contains_key(q) ==> q != g.spec_source() && g.peer_reachable(q)
                        && pf@[q]@.len() > 0,
                forall|q: Seq<u8>, t1: int, t2: int|
                    #[trigger] pf@.contains_key(q) && 0 <= t1 < t2 < pf@[q]@.len() ==> (
                    #[trigger] pf@[q]@[t1])@ != (#[trigger] pf@[q]@[t2])@,
                forall|q: Seq<u8>, t: int|
                    #[trigger] pf@.contains_key(q) && 0 <= t < pf@[q]@.len() ==> g.spec_has_edge(
                        g.spec_source(),
                        (#[trigger] pf@[q]@[t])@,
                    ),
            decreases result@.len(),
        {
            let ghost rlen = result@.len();
            let popped = result.pop();
            match popped {
                Some(pair) => {
                    proof {
                        assert(orig.take(rlen as int).last() == orig[rlen - 1]);
                        assert(pair == orig[rlen - 1]);
                        assert(result@ =~= orig.take(rlen - 1));
                    }
                    let (p, hops) = pair;
                    let ghost qv = p.key@;
                    let ghost hv = hops;
                    let ghost pf_pre = pf@;
                    let ghost plr_pre = self.peer_last_time_reachable@;
                    self.peer_last_time_reachable.insert(clone_bytes(&p.key), now);
                    pf.insert(p.key, hops);
                    proof {
                        assert(qv == orig[rlen - 1].0@ && hv == orig[rlen - 1].1);
                        assert(self.peer_last_time_reachable@ == plr_pre.insert(qv, now));
                        assert(pf@ == pf_pre.insert(qv, hv));
                        assert forall|q: Seq<u8>| #[trigger]
                            self.spec_last_reachable().contains_key(q) <==> (old(
                            self,
                        ).spec_last_reachable().contains_key(q) || pf@.contains_key(q)) by {
                            if q != qv {
                                assert(self.spec_last_reachable().contains_key(q)
                                    == plr_pre.contains_key(q));
                                assert(pf@.contains_key(q) == pf_pre.contains_key(q));
                            }
                        }
                        assert forall|q: Seq<u8>| #[trigger]
                            pf@.contains_key(q) implies self.spec_last_reachable().contains_key(q)
                            && self.spec_last_reachable()[q] == now by {
                            if q != qv {
                                assert(pf_pre.contains_key(q));
                                assert(plr_pre.contains_key(q) && plr_pre[q] == now);
                            }
                        }
                        assert forall|q: Seq<u8>|
                            !pf@.contains_key(q) && #[trigger] self.spec_last_reachable().contains_key(
                            q,
                        ) implies self.spec_last_reachable()[q] == old(
                            self,
                        ).spec_last_reachable()[q] by {
                            assert(q != qv);
                            assert(!pf_pre.contains_key(q));
                        }
                        assert forall|q: Seq<u8>| #[trigger]
                            pf@.contains_key(q) implies q != g.spec_source() && g.peer_reachable(
                            q,
                        ) && pf@[q]@.len() > 0 by {
                            if q != qv {
                                assert(pf_pre.contains_key(q) && pf@[q] == pf_pre[q]);
                            } else {
                                assert(pf@[q] == hv);
                            }
                        }
                        assert forall|q: Seq<u8>, t: int| #[trigger]
                            pf@.contains_key(q) && 0 <= t < pf@[q]@.len() implies g.spec_has_edge(
                            g.spec_source(),
                            (#[trigger] pf@[q]@[t])@,
                        ) by {
                            if q != qv {
                                assert(pf_pre.contains_key(q) && pf@[q] == pf_pre[q]);
                            } else {
                                assert(pf@[q] == hv);
                                assert(g.spec_has_edge(g.spec_source(), (orig[rlen - 1].1@[t])@));
                            }
                        }
                        assert forall|q: Seq<u8>, t1: int, t2: int| #[trigger]
                            pf@.contains_key(q) && 0 <= t1 < t2 < pf@[q]@.len() implies (
                        #[trigger] pf@[q]@[t1])@ != (#[trigger] pf@[q]@[t2])@ by {
                            if q != qv {
                                assert(pf_pre.contains_key(q) && pf@[q] == pf_pre[q]);
                            } else {
                                assert(pf@[q] == hv);
                                assert((orig[rlen - 1].1@[t1])@ != (orig[rlen - 1].1@[t2])@);
                            }
                        }
                        assert forall|j: int|
                            result@.len() <= j < orig.len() implies pf@.contains_key(
                            (#[trigger] orig[j].0)@,
                        ) by {
                            if j > rlen - 1 {
                                assert(pf_pre.contains_key(orig[j].0@));
                            } else {
                                assert(pf@.contains_key(qv));
                            }
                        }
                    }
                },
                None => {
                    proof {
                        assert(false);
                    }
                },
            }
        }
        let ghost pre_pf = *self;
        self.peer_forwarding = pf;
        let ghost mid_state = *self;
        proof {
            assert(mid_state.peer_last_time_reachable@ == pre_pf.peer_last_time_reachable@);
        }
        let r: Vec<Edge> = if can_save_edges {
            self.try_save_edges(force_pruning, timeout, now)
        } else {
            Vec::new()
        };
        proof {
            let f = *self;
            let oo = *old(self);
            let mid = refreshed_reachable(oo, f, now);
            assert(f.spec_forwarding() == pf@);
            assert(mid_state.spec_last_reachable() =~= mid) by {
                assert(mid_state.spec_last_reachable() == pre_pf.spec_last_reachable());
                assert forall|q: Seq<u8>|
                    mid_state.spec_last_reachable().contains_key(q)
                        == #[trigger] mid.contains_key(q) by {
                    assert(mid.contains_key(q) == (oo.spec_last_reachable().contains_key(q)
                        || pf@.contains_key(q)));
                    assert(pre_pf.spec_last_reachable().contains_key(q) == (
                    oo.spec_last_reachable().contains_key(q) || pf@.contains_key(q)));
                }
                assert forall|q: Seq<u8>| #[trigger]
                    mid.contains_key(q) implies mid_state.spec_last_reachable()[q] == mid[q] by {
                    if pf@.contains_key(q) {
                        assert(pre_pf.spec_last_reachable()[q] == now);
                    } else {
                        assert(pre_pf.spec_last_reachable().contains_key(q));
                        assert(pre_pf.spec_last_reachable()[q] == oo.spec_last_reachable()[q]);
                    }
                }
            }
            assert(mid_state.spec_edges() == oo.spec_edges());
            assert(mid_state.spec_store() == oo.spec_store());
            assert(mid_state.spec_component_nonce() == oo.spec_component_nonce());
            let prune = force_pruning || (exists|p: Seq<u8>|
                #[trigger] mid.contains_key(p) && mid[p] + SAVE_PEERS_MAX_TIME <= now);
            assert(mid_state.no_prune(force_pruning, now) <==> !prune) by {
                if prune && !force_pruning {
                    let p = choose|p: Seq<u8>|
                        #[trigger] mid.contains_key(p) && mid[p] + SAVE_PEERS_MAX_TIME <= now;
                    assert(mid_state.spec_last_reachable().contains_key(p));
                }
                if !mid_state.no_prune(force_pruning, now) && !force_pruning {
                    let p = choose|p: Seq<u8>|
                        #[trigger] mid_state.spec_last_reachable().contains_key(p)
                            && !(mid_state.spec_last_reachable()[p] + SAVE_PEERS_MAX_TIME > now);
                    assert(mid.contains_key(p) && mid[p] + SAVE_PEERS_MAX_TIME <= now);
                }
            }
            // The forwarding map is exactly the reachable peers when the
            // source degree is within the aggregation bound.
            if oo.graph().source_degree() <= MAX_NUM_PEERS as int {
                assert forall|k: Seq<u8>|
                    oo.graph().peer_reachable(k) && k != oo.graph().spec_source() implies
                    #[trigger] f.spec_forwarding().contains_key(k) by {
                    let kk = choose|kk: int|
                        0 <= kk < orig.len() && (#[trigger] orig[kk]).0@ == k;
                    assert(pf@.contains_key(orig[kk].0@));
                }
            }
        }
        r
    }

    /// Recompute the routing table and archive prunable edges; the archived
    /// edges are returned for the response.
    pub fn update_and_remove_edges(
        &mut self,
        can_save_edges: bool,
        force_pruning: bool,
        timeout: u64,
        now: u64,
    ) -> (r: Vec<Edge>)
        requires
            old(self).wf(),
            old(self).spec_component_nonce() < u64::MAX,
        ensures
            final(self).wf(),
            update_post(
                *old(self),
                *final(self),
                r@,
                can_save_edges,
                force_pruning,
                timeout,
                now,
            ),
    {
        self.update(can_save_edges, force_pruning, timeout, now)
    }

    /// Ingest a batch of already verified edges and report which were new.
    pub fn add_verified_edges_to_routing_table(&mut self, edges: Vec<Edge>, now: u64) -> (r:
        AddVerifiedEdgesResponse)
        requires
            old(self).wf(),
            forall|t: int|
                0 <= t < edges@.len() ==> (#[trigger] edges@[t]).peer0@ != edges@[t].peer1@
                    && !lex_lt(edges@[t].peer1@, edges@[t].peer0@),
        ensures
            final(self).wf(),
            r.new_edge == (r.added_edges@.len() > 0),
            forall|t: int|
                0 <= t < r.added_edges@.len() ==> final(self).spec_stored_nonce(
                    ((#[trigger] r.added_edges@[t]).peer0@, r.added_edges@[t].peer1@),
                ) >= r.added_edges@[t].nonce,
            forall|k: (Seq<u8>, Seq<u8>)|
                final(self).spec_stored_nonce(k) >= old(self).spec_stored_nonce(k),
            batch_hypothesis(*old(self), edges@) ==> (forall|k: (Seq<u8>, Seq<u8>)|
                #[trigger] final(self).spec_stored_nonce(k) == max_int(
                    old(self).spec_stored_nonce(k),
                    batch_max_nonce(edges@, k),
                )),
    {
        let result = self.process_edges(edges, now);
        AddVerifiedEdgesResponse { new_edge: result.new_edge, added_edges: result.edges }
    }

    /// Every edge currently in the log, in entry order.
    pub fn edges_snapshot(&self) -> (r: Vec<Edge>)
        requires
            self.wf(),
        ensures
            r@.len() == self.spec_edges_len(),
            forall|t: int|
                0 <= t < r@.len() ==> self.spec_edges().contains_key(
                    ((#[trigger] r@[t]).peer0@, r@[t].peer1@),
                ) && edge_eq(r@[t], self.spec_edges()[(r@[t].peer0@, r@[t].peer1@)]),
            forall|k: (Seq<u8>, Seq<u8>)|
                #[trigger] self.spec_edges().contains_key(k) ==> exists|t: int|
                    0 <= t < r@.len() && ((#[trigger] r@[t]).peer0@, r@[t].peer1@) == k,
    {
        let n = self.edges_info.len();
        let mut r: Vec<Edge> = Vec::new();
        let mut i: usize = 0;
        while i < n
            invariant
                self.wf(),
                n == self.edges_info.spec_len(),
                i <= n,
                r@.len() == i,
                forall|t: int|
                    0 <= t < r@.len() ==> self.spec_edges().contains_key(
                        ((#[trigger] r@[t]).peer0@, r@[t].peer1@),
                    ) && edge_eq(r@[t], self.spec_edges()[(r@[t].peer0@, r@[t].peer1@)]),
                forall|t: int|
                    0 <= t < r@.len() ==> edge_eq(
                        #[trigger] r@[t],
                        self.edges_info.entries_view()[t].1,
                    ),
            decreases n - i,
        {
            let e = {
                let entry = self.edges_info.entry_at(i);
                entry.1.clone()
            };
            proof {
                self.edges_info.lemma_entry_in_view(i as int);
                assert(pair_view(self.edges_info.entries_view()[i as int].0) == (
                    self.edges_info.entries_view()[i as int].1.peer0@,
                    self.edges_info.entries_view()[i as int].1.peer1@,
                ));
            }
            r.push(e);
            i += 1;
        }
        proof {
            assert forall|k: (Seq<u8>, Seq<u8>)|
                #[trigger] self.spec_edges().contains_key(k) implies exists|t: int|
                0 <= t < r@.len() && ((#[trigger] r@[t]).peer0@, r@[t].peer1@) == k by {
                self.edges_info.lemma_view_in_entries(k);
                let u = self.edges_info.key_index(k);
                assert(pair_view(self.edges_info.entries_view()[u].0) == k);
                assert(edge_eq(r@[u], self.edges_info.entries_view()[u].1));
                assert((self.edges_info.entries_view()[u].1.peer0@,
                    self.edges_info.entries_view()[u].1.peer1@) == k);
                assert((r@[u].peer0@, r@[u].peer1@) == k);
            }
        }
        r
    }

    /// The forwarding map as a list of destination and next-hop pairs.
    pub fn forwarding_snapshot(&self) -> (r: Vec<(PeerId, Vec<PeerId>)>)
        requires
            self.wf(),
        ensures
            forall|t: int|
                0 <= t < r@.len() ==> self.spec_forwarding().contains_key(
                    (#[trigger] r@[t]).0@,
                ),
            forall|t: int|
                0 <= t < r@.len() ==> (#[trigger] r@[t]).1@.len() == self.spec_forwarding()[
                    r@[t].0@
                ]@.len() && (forall|j: int|
                    0 <= j < r@[t].1@.len() ==> ((#[trigger] r@[t].1@[j])@) == self.spec_forwarding()[
                        r@[t].0@
                    ]@[j]@),
            forall|k: Seq<u8>|
                #[trigger] self.spec_forwarding().contains_key(k) ==> exists|t: int|
                    0 <= t < r@.len() && (#[trigger] r@[t]).0@ == k,
    {
        let n = self.peer_forwarding.len();
        let mut r: Vec<(PeerId, Vec<PeerId>)> = Vec::new();
        let mut i: usize = 0;
        while i < n
            invariant
                self.wf(),
                n == self.peer_forwarding.spec_len(),
                i <= n,
                r@.len() == i,
                forall|t: int|
                    0 <= t < r@.len() ==> (#[trigger] r@[t]).0@
                        == self.peer_forwarding.entries_view()[t].0@,
                forall|t: int|
                    0 <= t < r@.len() ==> self.spec_forwarding().contains_key(
                        (#[trigger] r@[t]).0@,
                    ),
                forall|t: int|
                    0 <= t < r@.len() ==> (#[trigger] r@[t]).1@.len() == self.spec_forwarding()[
                        r@[t].0@
                    ]@.len() && (forall|j: int|
                        0 <= j < r@[t].1@.len() ==> ((#[trigger] r@[t].1@[j])@)
                            == self.spec_forwarding()[r@[t].0@]@[j]@),
            decreases n - i,
        {
            let pair = {
                let e = self.peer_forwarding.entry_at(i);
                (PeerId { key: clone_bytes(&e.0) }, crate::routing_table::clone_peer_vec(&e.1))
            };
            proof {
                self.peer_forwarding.lemma_entry_in_view(i as int);
            }
            r.push(pair);
            i += 1;
        }
        proof {
            assert forall|k: Seq<u8>|
                #[trigger] self.spec_forwarding().contains_key(k) implies exists|t: int|
                0 <= t < r@.len() && (#[trigger] r@[t]).0@ == k by {
                self.peer_forwarding.lemma_view_in_entries(k);
                let u = self.peer_forwarding.key_index(k);
                assert(r@[u].0@ == k);
            }
        }
        r
    }

    /// Answer one message: ingest edges, hand out the edge log, or
    /// recompute the routing table.
    #[verifier::rlimit(100)]
    #[verifier::spinoff_prover]
    pub fn handle(&mut self, msg: RoutingTableMessages, now: u64) -> (r:
        RoutingTableMessagesResponse)
        requires
            old(self).wf(),
            old(self).spec_component_nonce() < u64::MAX,
            msg matches RoutingTableMessages::AddVerifiedEdges { edges } ==> forall|t: int|
                0 <= t < edges@.len() ==> (#[trigger] edges@[t]).peer0@ != edges@[t].peer1@
                    && !lex_lt(edges@[t].peer1@, edges@[t].peer0@),
        ensures
            final(self).wf(),
            match msg {
                RoutingTableMessages::AddVerifiedEdges { edges } => {
                    &&& r is AddVerifiedEdgesResponse
                    &&& (r matches RoutingTableMessagesResponse::AddVerifiedEdgesResponse(resp)
                        ==> add_edges_post(*old(self), *final(self), edges@, resp))
                },
                RoutingTableMessages::RequestRoutingTable => {
                    &&& *final(self) == *old(self)
                    &&& r is RequestRoutingTableResponse
                    &&& (r matches RoutingTableMessagesResponse::RequestRoutingTableResponse {
                        edges_info,
                    } ==> edges_snapshot_post(*old(self), edges_info@))
                },
                RoutingTableMessages::RoutingTableUpdate { can_save_edges, prune_edges, timeout } => {
                    &&& r is RoutingTableUpdateResponse
                    &&& (r matches RoutingTableMessagesResponse::RoutingTableUpdateResponse {
                        edges_to_remove,
                        peer_forwarding,
                    } ==> update_post(
                        *old(self),
                        *final(self),
                        edges_to_remove@,
                        can_save_edges,
                        prune_edges,
                        timeout,
                        now,
                    ) && forwarding_snapshot_post(*final(self), peer_forwarding@))
                },
            },
    {
        match msg {
            RoutingTableMessages::AddVerifiedEdges { edges } => {
                RoutingTableMessagesResponse::AddVerifiedEdgesResponse(
                    self.add_verified_edges_to_routing_table(edges, now),
                )
            },
            RoutingTableMessages::RequestRoutingTable => {
                RoutingTableMessagesResponse::RequestRoutingTableResponse {
                    edges_info: self.edges_snapshot(),
                }
            },
            RoutingTableMessages::RoutingTableUpdate { can_save_edges, prune_edges, timeout } => {
                let edges_to_remove = self.update_and_remove_edges(
                    can_save_edges,
                    prune_edges,
                    timeout,
                    now,
                );
                RoutingTableMessagesResponse::RoutingTableUpdateResponse {
                    edges_to_remove,
                    peer_forwarding: self.forwarding_snapshot(),
                }
            },
        }
    }
}

/// A request to the engine.
pub enum RoutingTableMessages {
    /// Ingest verified edges.
    AddVerifiedEdges { edges: Vec<Edge> },
    /// Hand out every edge in the log.
    RequestRoutingTable,
    /// Recompute the forwarding map, optionally archiving prunable edges.
    RoutingTableUpdate { can_save_edges: bool, prune_edges: bool, timeout: u64 },
}

/// The engine's answer to a request.
pub enum RoutingTableMessagesResponse {
    Empty,
    RequestRoutingTableResponse { edges_info: Vec<Edge> },
    AddVerifiedEdgesResponse(AddVerifiedEdgesResponse),
    RoutingTableUpdateResponse {
        edges_to_remove: Vec<Edge>,
        peer_forwarding: Vec<(PeerId, Vec<PeerId>)>,
    },
}

/// Two distinct canonical pairs with distinct components are not reverses
/// of one another.
proof fn lemma_distinct_canonical_pairs(a: (Seq<u8>, Seq<u8>), b: (Seq<u8>, Seq<u8>))
    requires
        a != b,
        a.0 != a.1,
        b.0 != b.1,
        !lex_lt(a.1, a.0),
        !lex_lt(b.1, b.0),
    ensures
        !(b.0 == a.0 && b.1 == a.1),
        !(b.0 == a.1 && b.1 == a.0),
{
    if b.0 == a.1 && b.1 == a.0 {
        crate::bytes_util::lemma_lex_lt_trichotomy(a.0, a.1);
    }
}

/// Whether a list of byte strings holds one with these bytes.
fn contains_bytes(v: &Vec<Vec<u8>>, x: &Vec<u8>) -> (r: bool)
    ensures
        r == (exists|j: int| 0 <= j < v@.len() && (#[trigger] v@[j])@ == x@),
{
    let n = v.len();
    let mut i: usize = 0;
    while i < n
        invariant
            n == v@.len(),
            i <= n,
            forall|j: int| 0 <= j < i ==> (#[trigger] v@[j])@ != x@,
        decreases n - i,
    {
        if crate::bytes_util::bytes_eq(&v[i], x) {
            return true;
        }
        i += 1;
    }
    false
}

/// The larger of two integers.
pub open spec fn max_int(a: int, b: int) -> int {
    if a > b {
        a
    } else {
        b
    }
}

/// The largest nonce a batch carries for an endpoint pair, zero if none.
pub open spec fn batch_max_nonce(s: Seq<Edge>, k: (Seq<u8>, Seq<u8>)) -> int
    decreases s.len(),
{
    if s.len() == 0 {
        0
    } else {
        let rest = batch_max_nonce(s.drop_last(), k);
        if (s.last().peer0@, s.last().peer1@) == k && s.last().nonce > rest {
            s.last().nonce as int
        } else {
            rest
        }
    }
}

/// Extending the prefix by one edge raises the batch maximum for that
/// edge's pair to its nonce if larger, and leaves every other pair.
proof fn lemma_batch_max_step(s: Seq<Edge>, i: int)
    requires
        0 <= i < s.len(),
    ensures
        forall|k: (Seq<u8>, Seq<u8>)|
            #[trigger] batch_max_nonce(s.take(i + 1), k) == (if (s[i].peer0@, s[i].peer1@) == k
                && s[i].nonce > batch_max_nonce(s.take(i), k) {
                s[i].nonce as int
            } else {
                batch_max_nonce(s.take(i), k)
            }),
{
    assert(s.take(i + 1).drop_last() =~= s.take(i));
    assert(s.take(i + 1).last() == s[i]);
}

/// The hypothesis under which a batch ingestion is pure nonce dominance:
/// every endpoint is this node or already tracked, and the graph has room
/// for the whole batch.
pub open spec fn batch_hypothesis(o: RoutingTableActor, edges: Seq<Edge>) -> bool {
    &&& (forall|t: int|
        0 <= t < edges.len() ==> o.peer_known((#[trigger] edges[t]).peer0@) && o.peer_known(
            edges[t].peer1@,
        ))
    &&& o.graph().n() + 2 * edges.len() + 2 < 0xFFFF_FFFF
    &&& o.graph().spec_total_active_edges() + edges.len() < u64::MAX
}

/// What one edge contributes to the batch maximum for a pair: its nonce if
/// it is an edge of that pair, else nothing.
pub open spec fn edge_contrib(e: Edge, k: (Seq<u8>, Seq<u8>)) -> int {
    if (e.peer0@, e.peer1@) == k {
        e.nonce as int
    } else {
        0
    }
}

/// Over a batch of two edges, the batch maximum is the larger contribution,
/// whichever order the batch lists them in.
pub proof fn lemma_batch_max_pair(a: Edge, b: Edge, k: (Seq<u8>, Seq<u8>))
    ensures
        batch_max_nonce(seq![a, b], k) == max_int(edge_contrib(a, k), edge_contrib(b, k)),
{
    let s = seq![a, b];
    let sa = s.drop_last();
    assert(s.len() == 2 && sa.len() == 1);
    assert(sa.drop_last() =~= Seq::<Edge>::empty());
    assert(batch_max_nonce(sa.drop_last(), k) == 0);
    assert(sa.last() == a) by {
        assert(sa[0] == s[0]);
    }
    assert(batch_max_nonce(sa, k) == edge_contrib(a, k));
    assert(s.last() == b);
    assert(batch_max_nonce(s, k) == max_int(edge_contrib(a, k), edge_contrib(b, k)));
}

/// Nonce monotonicity: ingesting two edges of one link in either order,
/// with both endpoints already known and room in the graph, leaves the log
/// at the larger of the stored nonce and the two edges' nonces — the same
/// state either way.
pub proof fn lemma_nonce_monotonic(
    o: RoutingTableActor,
    fa: RoutingTableActor,
    fb: RoutingTableActor,
    e1: Edge,
    e2: Edge,
)
    requires
        forall|k: (Seq<u8>, Seq<u8>)|
            #[trigger] fa.spec_stored_nonce(k) == max_int(
                o.spec_stored_nonce(k),
                batch_max_nonce(seq![e1, e2], k),
            ),
        forall|k: (Seq<u8>, Seq<u8>)|
            #[trigger] fb.spec_stored_nonce(k) == max_int(
                o.spec_stored_nonce(k),
                batch_max_nonce(seq![e2, e1], k),
            ),
    ensures
        forall|k: (Seq<u8>, Seq<u8>)|
            #[trigger] fa.spec_stored_nonce(k) == fb.spec_stored_nonce(k),
        (e1.peer0@, e1.peer1@) == (e2.peer0@, e2.peer1@) ==> fa.spec_stored_nonce(
            (e1.peer0@, e1.peer1@),
        ) == max_int(
            o.spec_stored_nonce((e1.peer0@, e1.peer1@)),
            max_int(e1.nonce as int, e2.nonce as int),
        ),
{
    assert forall|k: (Seq<u8>, Seq<u8>)|
        #[trigger] fa.spec_stored_nonce(k) == fb.spec_stored_nonce(k) by {
        lemma_batch_max_pair(e1, e2, k);
        lemma_batch_max_pair(e2, e1, k);
    }
    lemma_batch_max_pair(e1, e2, (e1.peer0@, e1.peer1@));
}

/// Whether a map of last-reachable times marks the peer quiet for at least
/// `timeout` seconds at `now`.
pub open spec fn map_stale(m: Map<Seq<u8>, u64>, p: Seq<u8>, now: u64, timeout: u64) -> bool {
    m.contains_key(p) && m[p] + timeout <= now
}

/// The last-reachable times right after a recomputation: every peer the new
/// forwarding map names is refreshed to `now`; every other tracked peer
/// keeps its time.
pub open spec fn refreshed_reachable(
    o: RoutingTableActor,
    f: RoutingTableActor,
    now: u64,
) -> Map<Seq<u8>, u64> {
    Map::new(
        |q: Seq<u8>| o.spec_last_reachable().contains_key(q) || f.spec_forwarding().contains_key(
            q,
        ),
        |q: Seq<u8>|
            if f.spec_forwarding().contains_key(q) {
                now
            } else {
                o.spec_last_reachable()[q]
            },
    )
}

/// What ingesting a batch through the message surface guarantees: the
/// response lists the accepted edges, each now stored at its nonce or
/// better, stored nonces never fall, and, for a batch of known peers with
/// room in the graph, each pair ends at exactly the larger of the stored and
/// batch nonces.
pub open spec fn add_edges_post(
    o: RoutingTableActor,
    f: RoutingTableActor,
    edges: Seq<Edge>,
    resp: AddVerifiedEdgesResponse,
) -> bool {
    &&& resp.new_edge == (resp.added_edges@.len() > 0)
    &&& (forall|t: int|
        0 <= t < resp.added_edges@.len() ==> f.spec_stored_nonce(
            ((#[trigger] resp.added_edges@[t]).peer0@, resp.added_edges@[t].peer1@),
        ) >= resp.added_edges@[t].nonce)
    &&& (forall|k: (Seq<u8>, Seq<u8>)| f.spec_stored_nonce(k) >= o.spec_stored_nonce(k))
    &&& (batch_hypothesis(o, edges) ==> (forall|k: (Seq<u8>, Seq<u8>)|
        #[trigger] f.spec_stored_nonce(k) == max_int(
            o.spec_stored_nonce(k),
            batch_max_nonce(edges, k),
        )))
}

/// What handing out the edge log guarantees: the response lists exactly the
/// logged edges, unchanged.
pub open spec fn edges_snapshot_post(o: RoutingTableActor, edges_info: Seq<Edge>) -> bool {
    &&& edges_info.len() == o.spec_edges_len()
    &&& (forall|t: int|
        0 <= t < edges_info.len() ==> o.spec_edges().contains_key(
            ((#[trigger] edges_info[t]).peer0@, edges_info[t].peer1@),
        ) && edge_eq(edges_info[t], o.spec_edges()[(edges_info[t].peer0@, edges_info[t].peer1@)]))
    &&& (forall|k: (Seq<u8>, Seq<u8>)|
        #[trigger] o.spec_edges().contains_key(k) ==> exists|t: int|
            0 <= t < edges_info.len() && ((#[trigger] edges_info[t]).peer0@, edges_info[t].peer1@)
                == k)
}

/// What the forwarding snapshot in a recomputation response guarantees: it
/// lists exactly the forwarding map, next hops preserved pointwise.
pub open spec fn forwarding_snapshot_post(
    f: RoutingTableActor,
    pf: Seq<(PeerId, Vec<PeerId>)>,
) -> bool {
    &&& (forall|t: int|
        0 <= t < pf.len() ==> f.spec_forwarding().contains_key((#[trigger] pf[t]).0@))
    &&& (forall|k: Seq<u8>|
        #[trigger] f.spec_forwarding().contains_key(k) ==> exists|t: int|
            0 <= t < pf.len() && (#[trigger] pf[t]).0@ == k)
    &&& (forall|t: int|
        0 <= t < pf.len() ==> (#[trigger] pf[t]).1@.len() == f.spec_forwarding()[pf[t].0@]@.len()
            && (forall|j: int|
            0 <= j < pf[t].1@.len() ==> ((#[trigger] pf[t].1@[j])@) == f.spec_forwarding()[
                pf[t].0@
            ]@[j]@))
}

/// What a routing-table recomputation guarantees, from state `o` to state
/// `f` with archived edges `r`: the graph is untouched; the forwarding map
/// names only reachable non-source peers with nonempty next-hop lists of
/// direct source neighbors, and — when the source has at most
/// `MAX_NUM_PEERS` neighbors — exactly the reachable ones; tracked times are
/// refreshed for every forwarding peer; and, when saving is allowed and some
/// peer has been quiet for the archival window (or pruning is forced), the
/// peers quiet for `timeout` move into a freshly numbered component together
/// with every logged edge touching them.
pub open spec fn update_post(
    o: RoutingTableActor,
    f: RoutingTableActor,
    r: Seq<Edge>,
    can_save_edges: bool,
    force_pruning: bool,
    timeout: u64,
    now: u64,
) -> bool {
    let mid = refreshed_reachable(o, f, now);
    let prune = force_pruning || (exists|p: Seq<u8>|
        #[trigger] mid.contains_key(p) && mid[p] + SAVE_PEERS_MAX_TIME <= now);
    let no_change = r.len() == 0 && f.spec_last_reachable() == mid && f.spec_edges()
        == o.spec_edges() && f.spec_store() == o.spec_store() && f.spec_component_nonce()
        == o.spec_component_nonce();
    &&& f.graph() == o.graph()
    &&& (forall|k: Seq<u8>|
        #[trigger] f.spec_forwarding().contains_key(k) ==> o.graph().peer_reachable(k) && k
            != o.graph().spec_source() && f.spec_forwarding()[k]@.len() > 0)
    &&& (forall|k: Seq<u8>, t: int|
        #[trigger] f.spec_forwarding().contains_key(k) && 0 <= t < f.spec_forwarding()[k]@.len()
            ==> o.graph().spec_has_edge(
            o.graph().spec_source(),
            (#[trigger] f.spec_forwarding()[k]@[t])@,
        ))
    &&& (forall|k: Seq<u8>, t1: int, t2: int|
        #[trigger] f.spec_forwarding().contains_key(k) && 0 <= t1 < t2
            < f.spec_forwarding()[k]@.len() ==> (#[trigger] f.spec_forwarding()[k]@[t1])@ != (
        #[trigger] f.spec_forwarding()[k]@[t2])@)
    &&& (o.graph().source_degree() <= MAX_NUM_PEERS as int ==> (forall|k: Seq<u8>|
        o.graph().peer_reachable(k) && k != o.graph().spec_source()
            ==> #[trigger] f.spec_forwarding().contains_key(k)))
    &&& (!can_save_edges ==> no_change)
    &&& (can_save_edges && !prune ==> no_change)
    &&& (can_save_edges && prune ==> {
        let cn = o.spec_component_nonce();
        &&& f.spec_component_nonce() == cn + 1
        &&& f.spec_store().spec_last_component_nonce() == Some((cn + 1) as u64)
        &&& f.spec_store().spec_announcements() == o.spec_store().spec_announcements()
        &&& (forall|p: Seq<u8>|
            map_stale(mid, p, now, timeout) ==> !f.spec_last_reachable().contains_key(p)
                && f.spec_store().spec_peer_component().contains_key(p)
                && f.spec_store().spec_peer_component()[p] == cn)
        &&& (forall|p: Seq<u8>|
            #[trigger] mid.contains_key(p) && !map_stale(mid, p, now, timeout)
                ==> f.spec_last_reachable().contains_key(p) && f.spec_last_reachable()[p]
                == mid[p])
        &&& (forall|p: Seq<u8>|
            #[trigger] f.spec_last_reachable().contains_key(p) ==> mid.contains_key(p))
        &&& (forall|k: (Seq<u8>, Seq<u8>)|
            #[trigger] f.spec_edges().contains_key(k) <==> (o.spec_edges().contains_key(k) && !(
            map_stale(mid, k.0, now, timeout) || map_stale(mid, k.1, now, timeout))))
        &&& (forall|k: (Seq<u8>, Seq<u8>)|
            #[trigger] f.spec_edges().contains_key(k) ==> f.spec_edges()[k] == o.spec_edges()[k])
        &&& (forall|t: int|
            0 <= t < r.len() ==> {
                let k = ((#[trigger] r[t]).peer0@, r[t].peer1@);
                &&& o.spec_edges().contains_key(k)
                &&& edge_eq(r[t], o.spec_edges()[k])
                &&& (map_stale(mid, k.0, now, timeout) || map_stale(mid, k.1, now, timeout))
            })
        &&& (forall|k: (Seq<u8>, Seq<u8>)|
            #[trigger] o.spec_edges().contains_key(k) && (map_stale(mid, k.0, now, timeout)
                || map_stale(mid, k.1, now, timeout)) ==> exists|t: int|
                0 <= t < r.len() && ((#[trigger] r[t]).peer0@, r[t].peer1@) == k)
        &&& f.spec_store().spec_component_edges().contains_key(cn)
        &&& {
            let archived = f.spec_store().spec_component_edges()[cn]@;
            &&& archived.len() == r.len()
            &&& (forall|t: int| 0 <= t < r.len() ==> edge_eq(#[trigger] archived[t], r[t]))
        }
    })
}

/// Copy of one edge of a list, contents preserved.
fn edges_index_clone(v: &Vec<Edge>, i: usize) -> (r: Edge)
    requires
        i < v@.len(),
    ensures
        edge_eq(r, v@[i as int]),
{
    v[i].clone()
}

/// Copy of a list of edges, contents preserved pointwise.
pub(crate) fn clone_edge_vec(v: &Vec<Edge>) -> (r: Vec<Edge>)
    ensures
        r@.len() == v@.len(),
        forall|i: int| 0 <= i < v@.len() ==> edge_eq(#[trigger] r@[i], v@[i]),
{
    let n = v.len();
    let mut r: Vec<Edge> = Vec::new();
    let mut i: usize = 0;
    while i < n
        invariant
            n == v@.len(),
            i <= n,
            r@.len() == i,
            forall|j: int| 0 <= j < i ==> edge_eq(#[trigger] r@[j], v@[j]),
        decreases n - i,
    {
        r.push(v[i].clone());
        i += 1;
    }
    r
}

} // verus!
