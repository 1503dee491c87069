//! Plain data types of the routing core: peer and account identities,
//! digests, announcements, ping/pong records, and routing query errors.

use vstd::prelude::*;

use crate::bytes_util::clone_bytes;

verus! {

/// Identity of a peer: the canonical serialization of its public key,
/// totally ordered by lexicographic byte order.
pub struct PeerId {
    pub key: Vec<u8>,
}

impl View for PeerId {
    type V = Seq<u8>;

    open spec fn view(&self) -> Seq<u8> {
        self.key@
    }
}

impl Clone for PeerId {
    fn clone(&self) -> (r: Self)
        ensures
            r@ == self@,
    {
        PeerId { key: clone_bytes(&self.key) }
    }
}

impl PeerId {
    pub fn new(key: Vec<u8>) -> (r: PeerId)
        ensures
            r@ == key@,
    {
        PeerId { key }
    }
}

/// A 32-byte digest, used both as a message fingerprint for route-back
/// pairing and as an epoch identifier.
pub struct CryptoHash {
    pub bytes: Vec<u8>,
}

impl View for CryptoHash {
    type V = Seq<u8>;

    open spec fn view(&self) -> Seq<u8> {
        self.bytes@
    }
}

impl Clone for CryptoHash {
    fn clone(&self) -> (r: Self)
        ensures
            r@ == self@,
    {
        CryptoHash { bytes: clone_bytes(&self.bytes) }
    }
}

impl CryptoHash {
    pub fn new(bytes: Vec<u8>) -> (r: CryptoHash)
        ensures
            r@ == bytes@,
    {
        CryptoHash { bytes }
    }
}

/// Identity of an account, as its name's bytes.
pub struct AccountId {
    pub name: Vec<u8>,
}

impl View for AccountId {
    type V = Seq<u8>;

    open spec fn view(&self) -> Seq<u8> {
        self.name@
    }
}

impl Clone for AccountId {
    fn clone(&self) -> (r: Self)
        ensures
            r@ == self@,
    {
        AccountId { name: clone_bytes(&self.name) }
    }
}

impl AccountId {
    pub fn new(name: Vec<u8>) -> (r: AccountId)
        ensures
            r@ == name@,
    {
        AccountId { name }
    }
}

/// A signed claim binding an account to a peer for one epoch.
pub struct AnnounceAccount {
    pub account_id: AccountId,
    pub peer_id: PeerId,
    pub epoch_id: CryptoHash,
    pub signature: Vec<u8>,
}

impl Clone for AnnounceAccount {
    fn clone(&self) -> (r: Self)
        ensures
            r.account_id@ == self.account_id@,
            r.peer_id@ == self.peer_id@,
            r.epoch_id@ == self.epoch_id@,
            r.signature@ == self.signature@,
    {
        AnnounceAccount {
            account_id: self.account_id.clone(),
            peer_id: self.peer_id.clone(),
            epoch_id: self.epoch_id.clone(),
            signature: clone_bytes(&self.signature),
        }
    }
}

/// Destination of a routed message: a peer, or the fingerprint of the
/// request a response answers.
pub enum PeerIdOrHash {
    PeerId(PeerId),
    Hash(CryptoHash),
}

/// A ping as received, keyed by the sender's nonce.
pub struct Ping {
    pub nonce: u64,
    pub source: PeerId,
}

impl Clone for Ping {
    fn clone(&self) -> (r: Self)
        ensures
            r.nonce == self.nonce,
            r.source@ == self.source@,
    {
        Ping { nonce: self.nonce, source: self.source.clone() }
    }
}

/// A pong as received, keyed by the nonce of the ping it answers.
pub struct Pong {
    pub nonce: u64,
    pub source: PeerId,
}

impl Clone for Pong {
    fn clone(&self) -> (r: Self)
        ensures
            r.nonce == self.nonce,
            r.source@ == self.source@,
    {
        Pong { nonce: self.nonce, source: self.source.clone() }
    }
}

/// Why a routing query returned no next hop.
#[derive(Clone, Copy, PartialEq, Eq, Structural, Debug)]
pub enum FindRouteError {
    /// The destination is known but currently has no live next hop.
    Disconnected,
    /// The destination is not in the forwarding map.
    PeerNotFound,
    /// No announcement is known for the account.
    AccountNotFound,
    /// The response's request fingerprint has expired or was never stored.
    RouteBackNotFound,
}

/// Smallest valid level of the set-reconciliation filters.
pub const MIN_IBF_LEVEL: u64 = 10;
/// Largest valid level of the set-reconciliation filters.
pub const MAX_IBF_LEVEL: u64 = 17;

/// A level of the set-reconciliation filters, valid between
/// `MIN_IBF_LEVEL` and `MAX_IBF_LEVEL`.
#[derive(Clone, Copy, PartialEq, Eq, Structural, Debug)]
pub struct ValidIBFLevel(pub u64);

impl ValidIBFLevel {
    /// The next level up, if it is still in the valid range.
    pub fn inc(&self) -> (r: Option<ValidIBFLevel>)
        ensures
            self.0 + 1 <= MAX_IBF_LEVEL && self.0 + 1 >= MIN_IBF_LEVEL ==> r
                == Some(ValidIBFLevel((self.0 + 1) as u64)),
            !(self.0 + 1 <= MAX_IBF_LEVEL && self.0 + 1 >= MIN_IBF_LEVEL) ==> r is None,
    {
        if self.0 < u64::MAX && self.0 + 1 >= MIN_IBF_LEVEL && self.0 + 1 <= MAX_IBF_LEVEL {
            Some(ValidIBFLevel(self.0 + 1))
        } else {
            None
        }
    }

    /// Whether the level lies in the valid range.
    pub fn is_valid(&self) -> (r: bool)
        ensures
            r == (self.0 >= MIN_IBF_LEVEL && self.0 <= MAX_IBF_LEVEL),
    {
        self.0 >= MIN_IBF_LEVEL && self.0 <= MAX_IBF_LEVEL
    }
}

/// Response to a request to change advanced routing options.
#[derive(Clone, Copy, PartialEq, Eq, Structural, Debug)]
pub struct SetAdvOptionsResult {}

} // verus!
