//! Signed link records. An edge binds two peers with a monotonic per-link
//! nonce: an odd nonce adds the link, an even nonce removes it. Both
//! endpoints sign the addition; one endpoint signs a removal.

use vstd::prelude::*;

use crate::bytes_util::{bytes_eq, bytes_lt, clone_bytes, lemma_lex_lt_trichotomy, lex_lt};
use crate::crypto::{pk_of, sha256, sha256_of, sig_valid, verify_signature, SecretKey};
use crate::types::PeerId;

verus! {

/// The bytes an edge's hash is computed over: both endpoint keys in
/// canonical order, then the nonce in little-endian.
pub open spec fn nonce_payload(p0: Seq<u8>, p1: Seq<u8>, nonce: u64) -> Seq<u8> {
    p0 + p1 + vstd::bytes::spec_u64_to_le_bytes(nonce)
}

/// The canonical hash of an edge at one nonce.
pub open spec fn edge_hash(p0: Seq<u8>, p1: Seq<u8>, nonce: u64) -> Seq<u8> {
    sha256_of(nonce_payload(p0, p1, nonce))
}

/// The unordered endpoint pair in canonical order: lesser key first.
pub open spec fn canonical_key(a: Seq<u8>, b: Seq<u8>) -> (Seq<u8>, Seq<u8>) {
    if lex_lt(b, a) {
        (b, a)
    } else {
        (a, b)
    }
}

/// The next nonce at which the link may be re-added: the successor for an
/// even (removed) nonce, the odd successor-but-one for an odd one.
pub open spec fn spec_next_nonce(nonce: u64) -> int {
    if nonce % 2 == 1 {
        nonce + 2
    } else {
        nonce + 1
    }
}

/// Whether two removal attestations hold the same side and signature.
pub open spec fn removal_eq(a: Option<(bool, Vec<u8>)>, b: Option<(bool, Vec<u8>)>) -> bool {
    match (a, b) {
        (None, None) => true,
        (Some(x), Some(y)) => x.0 == y.0 && x.1@ == y.1@,
        _ => false,
    }
}

/// Whether two edges carry the same content.
pub open spec fn edge_eq(a: Edge, b: Edge) -> bool {
    &&& a.peer0@ == b.peer0@
    &&& a.peer1@ == b.peer1@
    &&& a.nonce == b.nonce
    &&& a.signature0@ == b.signature0@
    &&& a.signature1@ == b.signature1@
    &&& removal_eq(a.removal_info, b.removal_info)
}

/// What `Edge::verify` decides: endpoints in canonical order; an added edge
/// carries no removal attestation and both endpoint signatures over the
/// current nonce's hash; a removed edge carries a positive even nonce, both
/// endpoint signatures over the previous (addition) nonce's hash, and a
/// removal signature over the current nonce's hash under the declared side's
/// key (side `false` is peer0, `true` is peer1).
pub open spec fn edge_verifies(e: Edge) -> bool {
    if lex_lt(e.peer1@, e.peer0@) {
        false
    } else if e.nonce % 2 == 1 {
        &&& e.removal_info is None
        &&& sig_valid(e.signature0@, edge_hash(e.peer0@, e.peer1@, e.nonce), e.peer0@)
        &&& sig_valid(e.signature1@, edge_hash(e.peer0@, e.peer1@, e.nonce), e.peer1@)
    } else {
        &&& e.nonce != 0
        &&& sig_valid(
            e.signature0@,
            edge_hash(e.peer0@, e.peer1@, (e.nonce - 1) as u64),
            e.peer0@,
        )
        &&& sig_valid(
            e.signature1@,
            edge_hash(e.peer0@, e.peer1@, (e.nonce - 1) as u64),
            e.peer1@,
        )
        &&& match e.removal_info {
            Some(ri) => sig_valid(
                ri.1@,
                edge_hash(e.peer0@, e.peer1@, e.nonce),
                if ri.0 {
                    e.peer1@
                } else {
                    e.peer0@
                },
            ),
            None => false,
        }
    }
}

/// One party's half of a proposed edge: the nonce it proposes and its
/// signature over the canonical hash at that nonce.
pub struct EdgeInfo {
    pub nonce: u64,
    pub signature: Vec<u8>,
}

impl Clone for EdgeInfo {
    fn clone(&self) -> (r: Self)
        ensures
            r.nonce == self.nonce,
            r.signature@ == self.signature@,
    {
        EdgeInfo { nonce: self.nonce, signature: clone_bytes(&self.signature) }
    }
}

impl EdgeInfo {
    /// Sign one party's half of an edge at the given nonce.
    pub fn new(peer0: PeerId, peer1: PeerId, nonce: u64, secret_key: &SecretKey) -> (r: EdgeInfo)
        ensures
            r.nonce == nonce,
            sig_valid(
                r.signature@,
                edge_hash(canonical_key(peer0@, peer1@).0, canonical_key(peer0@, peer1@).1, nonce),
                pk_of(secret_key@),
            ),
    {
        let (peer0, peer1) = Edge::key(peer0, peer1);
        let data = Edge::build_hash(&peer0, &peer1, nonce);
        let signature = secret_key.sign(&data);
        EdgeInfo { nonce, signature }
    }
}

/// Whether an edge adds or removes its link.
#[derive(Clone, Copy, PartialEq, Eq, Structural, Debug)]
pub enum EdgeType {
    Added,
    Removed,
}

/// A signed link record between two peers. `peer0` sorts at or before
/// `peer1` whenever the edge was assembled by this library.
pub struct Edge {
    pub peer0: PeerId,
    pub peer1: PeerId,
    /// Monotonic per-link counter; odd adds the link, even removes it.
    pub nonce: u64,
    /// Each endpoint's signature over the hash at the addition nonce.
    pub signature0: Vec<u8>,
    pub signature1: Vec<u8>,
    /// Present iff the edge is removed: which side removed it (`false` for
    /// peer0, `true` for peer1) and that side's signature at the even nonce.
    pub removal_info: Option<(bool, Vec<u8>)>,
}

impl Clone for Edge {
    fn clone(&self) -> (r: Self)
        ensures
            edge_eq(r, *self),
    {
        let removal_info = match &self.removal_info {
            Some(ri) => Some((ri.0, clone_bytes(&ri.1))),
            None => None,
        };
        Edge {
            peer0: self.peer0.clone(),
            peer1: self.peer1.clone(),
            nonce: self.nonce,
            signature0: clone_bytes(&self.signature0),
            signature1: clone_bytes(&self.signature1),
            removal_info,
        }
    }
}

impl Edge {
    /// Assemble an addition edge, swapping the endpoints and their
    /// signatures in parallel so that the lesser key comes first.
    pub fn new(peer0: PeerId, peer1: PeerId, nonce: u64, signature0: Vec<u8>, signature1: Vec<
        u8,
    >) -> (r: Edge)
        ensures
            r.nonce == nonce,
            r.removal_info is None,
            !lex_lt(r.peer1@, r.peer0@),
            (r.peer0@, r.peer1@) == canonical_key(peer0@, peer1@),
            lex_lt(peer0@, peer1@) ==> r.peer0@ == peer0@ && r.signature0@ == signature0@
                && r.peer1@ == peer1@ && r.signature1@ == signature1@,
            !lex_lt(peer0@, peer1@) ==> r.peer0@ == peer1@ && r.signature0@ == signature1@
                && r.peer1@ == peer0@ && r.signature1@ == signature0@,
    {
        proof {
            lemma_lex_lt_trichotomy(peer0@, peer1@);
        }
        let (peer0, signature0, peer1, signature1) = if bytes_lt(&peer0.key, &peer1.key) {
            (peer0, signature0, peer1, signature1)
        } else {
            (peer1, signature1, peer0, signature0)
        };
        Edge { peer0, peer1, nonce, signature0, signature1, removal_info: None }
    }

    /// The unordered endpoint pair in canonical order: lesser key first.
    pub fn key(peer0: PeerId, peer1: PeerId) -> (r: (PeerId, PeerId))
        ensures
            (r.0@, r.1@) == canonical_key(peer0@, peer1@),
            !lex_lt(r.1@, r.0@),
    {
        proof {
            lemma_lex_lt_trichotomy(peer0@, peer1@);
        }
        if bytes_lt(&peer0.key, &peer1.key) {
            (peer0, peer1)
        } else {
            (peer1, peer0)
        }
    }

    /// The canonical hash of the edge: SHA-256 over both keys and the
    /// little-endian nonce.
    pub fn build_hash(peer0: &PeerId, peer1: &PeerId, nonce: u64) -> (r: Vec<u8>)
        ensures
            r@ == edge_hash(peer0@, peer1@, nonce),
            r@.len() == 32,
    {
        let mut buffer = clone_bytes(&peer0.key);
        let mut rest = clone_bytes(&peer1.key);
        buffer.append(&mut rest);
        let mut nonce_bytes = vstd::bytes::u64_to_le_bytes(nonce);
        buffer.append(&mut nonce_bytes);
        proof {
            assert(buffer@ =~= nonce_payload(peer0@, peer1@, nonce));
        }
        sha256(&buffer)
    }

    /// An edge with the given endpoints as they come and empty signatures;
    /// it never verifies, but exercises the bookkeeping around edges.
    pub fn make_fake_edge(peer0: PeerId, peer1: PeerId, nonce: u64) -> (r: Edge)
        ensures
            r.peer0@ == peer0@,
            r.peer1@ == peer1@,
            r.nonce == nonce,
            r.removal_info is None,
            r.signature0@ == empty_signature_bytes(),
            r.signature1@ == empty_signature_bytes(),
    {
        Edge {
            peer0,
            peer1,
            nonce,
            signature0: empty_signature(),
            signature1: empty_signature(),
            removal_info: None,
        }
    }

    /// Assemble an edge from the other party's signature, signing our half.
    pub fn build_with_secret_key(
        peer0: PeerId,
        peer1: PeerId,
        nonce: u64,
        secret_key: &SecretKey,
        signature1: Vec<u8>,
    ) -> (r: Edge)
        ensures
            r.nonce == nonce,
            r.removal_info is None,
            (r.peer0@, r.peer1@) == canonical_key(peer0@, peer1@),
            lex_lt(peer0@, peer1@) ==> r.signature1@ == signature1@ && sig_valid(
                r.signature0@,
                edge_hash(r.peer0@, r.peer1@, nonce),
                pk_of(secret_key@),
            ),
            !lex_lt(peer0@, peer1@) ==> r.signature0@ == signature1@ && sig_valid(
                r.signature1@,
                edge_hash(r.peer0@, r.peer1@, nonce),
                pk_of(secret_key@),
            ),
    {
        let hash = if bytes_lt(&peer0.key, &peer1.key) {
            Edge::build_hash(&peer0, &peer1, nonce)
        } else {
            Edge::build_hash(&peer1, &peer0, nonce)
        };
        proof {
            lemma_lex_lt_trichotomy(peer0@, peer1@);
        }
        let signature0 = secret_key.sign(&hash);
        Edge::new(peer0, peer1, nonce, signature0, signature1)
    }

    /// The removal record for an added edge: the nonce is bumped to the next
    /// even value and the removing side attests it. `me` names the removing
    /// endpoint; side `false` stands for peer0 and `true` for peer1.
    pub fn remove_edge(&self, me: PeerId, sk: &SecretKey) -> (r: Edge)
        requires
            self.nonce % 2 == 1,
            self.nonce < u64::MAX,
        ensures
            r.peer0@ == self.peer0@,
            r.peer1@ == self.peer1@,
            r.nonce == self.nonce + 1,
            r.signature0@ == self.signature0@,
            r.signature1@ == self.signature1@,
            r.removal_info is Some,
            (r.removal_info->0).0 == (me@ != self.peer0@),
            sig_valid(
                (r.removal_info->0).1@,
                edge_hash(self.peer0@, self.peer1@, (self.nonce + 1) as u64),
                pk_of(sk@),
            ),
    {
        let new_nonce = self.nonce + 1;
        let hash = Edge::build_hash(&self.peer0, &self.peer1, new_nonce);
        let signature = sk.sign(&hash);
        let side = !bytes_eq(&me.key, &self.peer0.key);
        Edge {
            peer0: self.peer0.clone(),
            peer1: self.peer1.clone(),
            nonce: new_nonce,
            signature0: clone_bytes(&self.signature0),
            signature1: clone_bytes(&self.signature1),
            removal_info: Some((side, signature)),
        }
    }

    /// Check the edge's signatures, as [`edge_verifies`] states.
    pub fn verify(&self) -> (r: bool)
        ensures
            r == edge_verifies(*self),
    {
        if bytes_lt(&self.peer1.key, &self.peer0.key) {
            return false;
        }
        if self.nonce % 2 == 1 {
            match &self.removal_info {
                Some(_) => false,
                None => {
                    let data = Edge::build_hash(&self.peer0, &self.peer1, self.nonce);
                    verify_signature(&self.signature0, &data, &self.peer0.key) && verify_signature(
                        &self.signature1,
                        &data,
                        &self.peer1.key,
                    )
                },
            }
        } else {
            if self.nonce == 0 {
                return false;
            }
            let add_hash = Edge::build_hash(&self.peer0, &self.peer1, self.nonce - 1);
            if !verify_signature(&self.signature0, &add_hash, &self.peer0.key) {
                return false;
            }
            if !verify_signature(&self.signature1, &add_hash, &self.peer1.key) {
                return false;
            }
            match &self.removal_info {
                Some(ri) => {
                    let del_hash = Edge::build_hash(&self.peer0, &self.peer1, self.nonce);
                    if ri.0 {
                        verify_signature(&ri.1, &del_hash, &self.peer1.key)
                    } else {
                        verify_signature(&ri.1, &del_hash, &self.peer0.key)
                    }
                },
                None => false,
            }
        }
    }

    /// Check one party's proposed half against that party's key.
    pub fn partial_verify(peer0: PeerId, peer1: PeerId, edge_info: &EdgeInfo) -> (r: bool)
        ensures
            r == sig_valid(
                edge_info.signature@,
                edge_hash(
                    canonical_key(peer0@, peer1@).0,
                    canonical_key(peer0@, peer1@).1,
                    edge_info.nonce,
                ),
                peer1@,
            ),
    {
        let pk = clone_bytes(&peer1.key);
        let (peer0, peer1) = Edge::key(peer0, peer1);
        let data = Edge::build_hash(&peer0, &peer1, edge_info.nonce);
        verify_signature(&edge_info.signature, &data, &pk)
    }

    /// Both endpoints, cloned.
    pub fn get_pair(&self) -> (r: (PeerId, PeerId))
        ensures
            r.0@ == self.peer0@,
            r.1@ == self.peer1@,
    {
        (self.peer0.clone(), self.peer1.clone())
    }

    /// Added for an odd nonce, removed for an even one.
    pub fn edge_type(&self) -> (r: EdgeType)
        ensures
            r == (if self.nonce % 2 == 1 {
                EdgeType::Added
            } else {
                EdgeType::Removed
            }),
    {
        if self.nonce % 2 == 1 {
            EdgeType::Added
        } else {
            EdgeType::Removed
        }
    }

    /// The next nonce at which this link may legally be re-added.
    pub fn next_nonce(nonce: u64) -> (r: u64)
        requires
            nonce <= u64::MAX - 2,
        ensures
            r == spec_next_nonce(nonce),
    {
        if nonce % 2 == 1 {
            nonce + 2
        } else {
            nonce + 1
        }
    }

    /// The next legal addition nonce after this edge's.
    pub fn next(&self) -> (r: u64)
        requires
            self.nonce <= u64::MAX - 2,
        ensures
            r == spec_next_nonce(self.nonce),
    {
        Edge::next_nonce(self.nonce)
    }

    /// Whether the peer is one of the edge's endpoints.
    pub fn contains_peer(&self, peer_id: &PeerId) -> (r: bool)
        ensures
            r == (peer_id@ == self.peer0@ || peer_id@ == self.peer1@),
    {
        bytes_eq(&peer_id.key, &self.peer0.key) || bytes_eq(&peer_id.key, &self.peer1.key)
    }

    /// The endpoint other than `me`, or nothing if `me` is not an endpoint.
    pub fn other(&self, me: &PeerId) -> (r: Option<PeerId>)
        ensures
            me@ == self.peer0@ ==> r is Some && r->0@ == self.peer1@,
            me@ != self.peer0@ && me@ == self.peer1@ ==> r is Some && r->0@ == self.peer0@,
            me@ != self.peer0@ && me@ != self.peer1@ ==> r is None,
    {
        if bytes_eq(&self.peer0.key, &me.key) {
            Some(self.peer1.clone())
        } else if bytes_eq(&self.peer1.key, &me.key) {
            Some(self.peer0.clone())
        } else {
            None
        }
    }

    /// The same link without its signatures.
    pub fn to_simple_edge(&self) -> (r: SimpleEdge)
        ensures
            r.key.0@ == self.peer0@,
            r.key.1@ == self.peer1@,
            r.nonce == self.nonce,
    {
        SimpleEdge { key: (self.peer0.clone(), self.peer1.clone()), nonce: self.nonce }
    }
}

/// The all-zero serialized signature, a placeholder carrying no attestation.
pub open spec fn empty_signature_bytes() -> Seq<u8> {
    Seq::new(65, |i: int| 0u8)
}

/// The all-zero serialized signature.
pub fn empty_signature() -> (r: Vec<u8>)
    ensures
        r@ == empty_signature_bytes(),
{
    let mut r: Vec<u8> = Vec::new();
    let mut i: usize = 0;
    while i < 65
        invariant
            i <= 65,
            r@ =~= Seq::new(i as nat, |j: int| 0u8),
        decreases 65 - i,
    {
        r.push(0u8);
        i += 1;
    }
    proof {
        assert(r@ =~= empty_signature_bytes());
    }
    r
}

/// A link record without signatures: the canonical endpoint pair and the
/// nonce.
pub struct SimpleEdge {
    pub key: (PeerId, PeerId),
    pub nonce: u64,
}

impl Clone for SimpleEdge {
    fn clone(&self) -> (r: Self)
        ensures
            r.key.0@ == self.key.0@,
            r.key.1@ == self.key.1@,
            r.nonce == self.nonce,
    {
        SimpleEdge { key: (self.key.0.clone(), self.key.1.clone()), nonce: self.nonce }
    }
}

impl SimpleEdge {
    /// Assemble an unsigned link record with canonical endpoint order.
    pub fn new(peer0: PeerId, peer1: PeerId, nonce: u64) -> (r: SimpleEdge)
        ensures
            (r.key.0@, r.key.1@) == canonical_key(peer0@, peer1@),
            r.nonce == nonce,
    {
        let (peer0, peer1) = Edge::key(peer0, peer1);
        SimpleEdge { key: (peer0, peer1), nonce }
    }

    /// The canonical endpoint pair.
    pub fn key(&self) -> (r: &(PeerId, PeerId))
        ensures
            r.0@ == self.key.0@,
            r.1@ == self.key.1@,
    {
        &self.key
    }

    /// The link's nonce.
    pub fn nonce(&self) -> (r: u64)
        ensures
            r == self.nonce,
    {
        self.nonce
    }

    /// Added for an odd nonce, removed for an even one.
    pub fn edge_type(&self) -> (r: EdgeType)
        ensures
            r == (if self.nonce % 2 == 1 {
                EdgeType::Added
            } else {
                EdgeType::Removed
            }),
    {
        if self.nonce % 2 == 1 {
            EdgeType::Added
        } else {
            EdgeType::Removed
        }
    }
}

/// Assembling an edge canonicalizes the endpoint order: for distinct peers
/// the lesser key comes first, and assembling from the two orders, with the
/// signatures swapped in parallel, yields the same edge.
pub proof fn lemma_assemble_canonical(
    a: PeerId,
    b: PeerId,
    nonce: u64,
    sig_a: Vec<u8>,
    sig_b: Vec<u8>,
    e1: Edge,
    e2: Edge,
)
    requires
        a@ != b@,
        call_ensures(Edge::new, (a, b, nonce, sig_a, sig_b), e1),
        call_ensures(Edge::new, (b, a, nonce, sig_b, sig_a), e2),
    ensures
        lex_lt(e1.peer0@, e1.peer1@),
        edge_eq(e1, e2),
{
    lemma_lex_lt_trichotomy(a@, b@);
}

/// An added edge assembled from two halves verifies, provided each half was
/// signed by the key its endpoint stands for: the signatures cover the
/// canonical hash of the unordered pair at an odd nonce.
pub proof fn lemma_honest_added_edge_verifies(
    a: PeerId,
    b: PeerId,
    nonce: u64,
    sig_a: Vec<u8>,
    sig_b: Vec<u8>,
    e: Edge,
)
    requires
        nonce % 2 == 1,
        sig_valid(
            sig_a@,
            edge_hash(canonical_key(a@, b@).0, canonical_key(a@, b@).1, nonce),
            a@,
        ),
        sig_valid(
            sig_b@,
            edge_hash(canonical_key(a@, b@).0, canonical_key(a@, b@).1, nonce),
            b@,
        ),
        call_ensures(Edge::new, (a, b, nonce, sig_a, sig_b), e),
    ensures
        edge_verifies(e),
{
    lemma_lex_lt_trichotomy(a@, b@);
}

/// An honest removal of a verifying added edge verifies: the removing
/// endpoint signs the bumped nonce with the key it stands for.
pub proof fn lemma_honest_removal_verifies(e: Edge, me: PeerId, sk: SecretKey, r: Edge)
    requires
        e.nonce % 2 == 1,
        e.nonce < u64::MAX,
        edge_verifies(e),
        me@ == e.peer0@ || me@ == e.peer1@,
        pk_of(sk@) == me@,
        call_ensures(Edge::remove_edge, (&e, me, &sk), r),
    ensures
        edge_verifies(r),
{
    assert(r.nonce % 2 == 0) by {
        assert(e.nonce % 2 == 1 && r.nonce == e.nonce + 1);
    }
    assert((r.nonce - 1) as u64 == e.nonce);
}

} // verus!
