//! The key/value store the routing core persists to, modeled as four
//! columns: account announcements, the last component nonce, the component
//! each banished peer belongs to, and the edges of each component. A host
//! may mirror this value to durable storage.

use vstd::prelude::*;

use crate::assoc::{ByteKeyMap, U64KeyMap};
use crate::edge::Edge;
use crate::types::{AccountId, AnnounceAccount, PeerId};

verus! {

/// The four store columns.
pub struct Store {
    last_component_nonce: Option<u64>,
    peer_component: ByteKeyMap<u64>,
    component_edges: U64KeyMap<Vec<Edge>>,
    account_announcements: ByteKeyMap<AnnounceAccount>,
}

impl Store {
    /// The last component nonce written, if any.
    pub closed spec fn spec_last_component_nonce(self) -> Option<u64> {
        self.last_component_nonce
    }

    /// Component membership: banished peer key to component nonce.
    pub closed spec fn spec_peer_component(self) -> Map<Seq<u8>, u64> {
        self.peer_component@
    }

    /// The edges archived under each component nonce.
    pub closed spec fn spec_component_edges(self) -> Map<u64, Vec<Edge>> {
        self.component_edges@
    }

    /// The current announcement per account.
    pub closed spec fn spec_announcements(self) -> Map<Seq<u8>, AnnounceAccount> {
        self.account_announcements@
    }

    /// The columns' keys are distinct.
    pub closed spec fn wf(self) -> bool {
        &&& self.peer_component.wf()
        &&& self.component_edges.wf()
        &&& self.account_announcements.wf()
    }

    /// An empty store.
    pub fn new() -> (r: Store)
        ensures
            r.wf(),
            r.spec_last_component_nonce() is None,
            r.spec_peer_component() == Map::<Seq<u8>, u64>::empty(),
            r.spec_component_edges() == Map::<u64, Vec<Edge>>::empty(),
            r.spec_announcements() == Map::<Seq<u8>, AnnounceAccount>::empty(),
    {
        Store {
            last_component_nonce: None,
            peer_component: ByteKeyMap::new(),
            component_edges: U64KeyMap::new(),
            account_announcements: ByteKeyMap::new(),
        }
    }

    /// The last component nonce written, if any.
    pub fn get_last_component_nonce(&self) -> (r: Option<u64>)
        ensures
            r == self.spec_last_component_nonce(),
    {
        self.last_component_nonce
    }

    /// Write the last component nonce.
    pub fn set_last_component_nonce(&mut self, nonce: u64)
        requires
            old(self).wf(),
        ensures
            final(self).wf(),
            final(self).spec_last_component_nonce() == Some(nonce),
            final(self).spec_peer_component() == old(self).spec_peer_component(),
            final(self).spec_component_edges() == old(self).spec_component_edges(),
            final(self).spec_announcements() == old(self).spec_announcements(),
    {
        self.last_component_nonce = Some(nonce);
    }

    /// The component the peer was banished to, if any.
    pub fn get_peer_component(&self, peer: &PeerId) -> (r: Option<u64>)
        requires
            self.wf(),
        ensures
            match r {
                Some(c) => self.spec_peer_component().contains_key(peer@)
                    && self.spec_peer_component()[peer@] == c,
                None => !self.spec_peer_component().contains_key(peer@),
            },
    {
        match self.peer_component.get(&peer.key) {
            Some(c) => Some(*c),
            None => None,
        }
    }

    /// Record the component a peer is banished to.
    pub fn set_peer_component(&mut self, peer_key: Vec<u8>, nonce: u64)
        requires
            old(self).wf(),
        ensures
            final(self).wf(),
            final(self).spec_last_component_nonce() == old(self).spec_last_component_nonce(),
            final(self).spec_peer_component() == old(self).spec_peer_component().insert(
                peer_key@,
                nonce,
            ),
            final(self).spec_component_edges() == old(self).spec_component_edges(),
            final(self).spec_announcements() == old(self).spec_announcements(),
    {
        self.peer_component.insert(peer_key, nonce);
    }

    /// Forget the component a peer was banished to.
    pub fn delete_peer_component(&mut self, peer: &PeerId)
        requires
            old(self).wf(),
        ensures
            final(self).wf(),
            final(self).spec_last_component_nonce() == old(self).spec_last_component_nonce(),
            final(self).spec_peer_component() == old(self).spec_peer_component().remove(peer@),
            final(self).spec_component_edges() == old(self).spec_component_edges(),
            final(self).spec_announcements() == old(self).spec_announcements(),
    {
        let _ = self.peer_component.remove(&peer.key);
    }

    /// The edges archived under a component nonce, if any.
    pub fn get_component_edges(&self, nonce: u64) -> (r: Option<&Vec<Edge>>)
        requires
            self.wf(),
        ensures
            match r {
                Some(es) => self.spec_component_edges().contains_key(nonce) && *es
                    == self.spec_component_edges()[nonce],
                None => !self.spec_component_edges().contains_key(nonce),
            },
    {
        self.component_edges.get(nonce)
    }

    /// Archive the edges of a component.
    pub fn set_component_edges(&mut self, nonce: u64, edges: Vec<Edge>)
        requires
            old(self).wf(),
        ensures
            final(self).wf(),
            final(self).spec_last_component_nonce() == old(self).spec_last_component_nonce(),
            final(self).spec_peer_component() == old(self).spec_peer_component(),
            final(self).spec_component_edges() == old(self).spec_component_edges().insert(
                nonce,
                edges,
            ),
            final(self).spec_announcements() == old(self).spec_announcements(),
    {
        self.component_edges.insert(nonce, edges);
    }

    /// Drop the edges archived under a component nonce.
    pub fn delete_component_edges(&mut self, nonce: u64)
        requires
            old(self).wf(),
        ensures
            final(self).wf(),
            final(self).spec_last_component_nonce() == old(self).spec_last_component_nonce(),
            final(self).spec_peer_component() == old(self).spec_peer_component(),
            final(self).spec_component_edges() == old(self).spec_component_edges().remove(nonce),
            final(self).spec_announcements() == old(self).spec_announcements(),
    {
        let _ = self.component_edges.remove(nonce);
    }

    /// The announcement stored for an account, if any.
    pub fn get_announcement(&self, account_id: &AccountId) -> (r: Option<&AnnounceAccount>)
        requires
            self.wf(),
        ensures
            match r {
                Some(a) => self.spec_announcements().contains_key(account_id@) && *a
                    == self.spec_announcements()[account_id@],
                None => !self.spec_announcements().contains_key(account_id@),
            },
    {
        self.account_announcements.get(&account_id.name)
    }

    /// Store the current announcement for an account.
    pub fn set_announcement(&mut self, account_key: Vec<u8>, announcement: AnnounceAccount)
        requires
            old(self).wf(),
        ensures
            final(self).wf(),
            final(self).spec_last_component_nonce() == old(self).spec_last_component_nonce(),
            final(self).spec_peer_component() == old(self).spec_peer_component(),
            final(self).spec_component_edges() == old(self).spec_component_edges(),
            final(self).spec_announcements() == old(self).spec_announcements().insert(
                account_key@,
                announcement,
            ),
    {
        self.account_announcements.insert(account_key, announcement);
    }
}

} // verus!
