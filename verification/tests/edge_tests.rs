//! Signed edges: assembly, canonicalization, verification, removal.

use routing_core::crypto::SecretKey;
use routing_core::edge::{Edge, EdgeInfo, EdgeType};
use routing_core::types::{PeerId, ValidIBFLevel};

/// A key pair from a seed, as the library's secret key and the peer identity
/// its public key stands for.
fn keypair(seed: &str) -> (SecretKey, PeerId) {
    let sk = SecretKey::from_seed(seed);
    let pk = sk.public_key();
    (sk, PeerId::new(pk))
}

/// Two key pairs ordered so that the first peer's key sorts first.
fn ordered_pair() -> (SecretKey, PeerId, SecretKey, PeerId) {
    let (sk_a, p_a) = keypair("alpha");
    let (sk_b, p_b) = keypair("bravo");
    if p_a.key < p_b.key {
        (sk_a, p_a, sk_b, p_b)
    } else {
        (sk_b, p_b, sk_a, p_a)
    }
}

/// An honestly signed added edge between the two peers at this nonce.
fn signed_edge(sk0: &SecretKey, p0: &PeerId, sk1: &SecretKey, p1: &PeerId, nonce: u64) -> Edge {
    let sig0 = EdgeInfo::new(p0.clone(), p1.clone(), nonce, sk0).signature;
    let sig1 = EdgeInfo::new(p0.clone(), p1.clone(), nonce, sk1).signature;
    Edge::new(p0.clone(), p1.clone(), nonce, sig0, sig1)
}

#[test]
fn key_derivation_matches_backend() {
    let sk = near_crypto::SecretKey::from_seed(near_crypto::KeyType::ED25519, "alpha");
    let pk_bytes = borsh::to_vec(&sk.public_key()).unwrap();
    let (_, p) = keypair("alpha");
    assert_eq!(p.key, pk_bytes);
}

#[test]
fn build_hash_is_the_canonical_digest() {
    let (_, p0) = keypair("alpha");
    let (_, p1) = keypair("bravo");
    let nonce: u64 = 77;
    let mut payload = p0.key.clone();
    payload.extend_from_slice(&p1.key);
    payload.extend_from_slice(&nonce.to_le_bytes());
    let expected = near_primitives::hash::hash(&payload).0.to_vec();
    let got = Edge::build_hash(&p0, &p1, nonce);
    assert_eq!(got.len(), 32);
    assert_eq!(got, expected);
    assert_ne!(got, payload);
}

#[test]
fn assemble_canonicalizes_endpoints() {
    let (sk0, p0, sk1, p1) = ordered_pair();
    let sig0 = EdgeInfo::new(p0.clone(), p1.clone(), 1, &sk0).signature;
    let sig1 = EdgeInfo::new(p0.clone(), p1.clone(), 1, &sk1).signature;
    let a = Edge::new(p0.clone(), p1.clone(), 1, sig0.clone(), sig1.clone());
    let b = Edge::new(p1.clone(), p0.clone(), 1, sig1.clone(), sig0.clone());
    assert!(a.peer0.key < a.peer1.key);
    assert_eq!(a.peer0.key, b.peer0.key);
    assert_eq!(a.peer1.key, b.peer1.key);
    assert_eq!(a.signature0, b.signature0);
    assert_eq!(a.signature1, b.signature1);
    assert_eq!(a.nonce, b.nonce);
}

#[test]
fn honest_added_edge_verifies() {
    let (sk0, p0, sk1, p1) = ordered_pair();
    let edge = signed_edge(&sk0, &p0, &sk1, &p1, 1);
    assert!(matches!(edge.edge_type(), EdgeType::Added));
    assert!(edge.verify());
}

#[test]
fn build_with_secret_key_verifies() {
    let (sk0, p0, sk1, p1) = ordered_pair();
    let other_half = EdgeInfo::new(p0.clone(), p1.clone(), 3, &sk1).signature;
    let edge = Edge::build_with_secret_key(p0.clone(), p1.clone(), 3, &sk0, other_half);
    assert!(edge.verify());
}

#[test]
fn tampered_added_edge_fails() {
    let (sk0, p0, sk1, p1) = ordered_pair();
    let edge = signed_edge(&sk0, &p0, &sk1, &p1, 1);

    // One flipped bit in the first signature.
    let mut bad = edge.clone();
    bad.signature0[10] ^= 1;
    assert!(!bad.verify());

    // One flipped bit in the second signature.
    let mut bad = edge.clone();
    bad.signature1[20] ^= 1;
    assert!(!bad.verify());

    // One flipped bit in an endpoint key.
    let mut bad = edge.clone();
    bad.peer0.key[5] ^= 1;
    assert!(!bad.verify());
    let mut bad = edge.clone();
    bad.peer1.key[5] ^= 1;
    assert!(!bad.verify());

    // A different nonce of the same parity.
    let mut bad = edge.clone();
    bad.nonce = 3;
    assert!(!bad.verify());
}

/// Two peers agree on a link at nonce one, one of them removes it at nonce
/// two, and a flipped bit in the removal attestation is rejected.
#[test]
fn removal_round_trip() {
    let (sk0, p0, sk1, p1) = ordered_pair();
    let edge = signed_edge(&sk0, &p0, &sk1, &p1, 1);
    assert!(edge.verify());

    let removed = edge.remove_edge(p0.clone(), &sk0);
    assert_eq!(removed.nonce, 2);
    assert!(matches!(removed.edge_type(), EdgeType::Removed));
    let (side, _) = removed.removal_info.clone().unwrap();
    assert_eq!(side, false);
    assert!(removed.verify());

    let mut bad = removed.clone();
    let (side, mut sig) = bad.removal_info.take().unwrap();
    sig[7] ^= 1;
    bad.removal_info = Some((side, sig));
    assert!(!bad.verify());

    let _ = sk1;
    let _ = p1;
}

#[test]
fn removal_by_second_peer_verifies() {
    let (sk0, p0, sk1, p1) = ordered_pair();
    let edge = signed_edge(&sk0, &p0, &sk1, &p1, 5);
    let removed = edge.remove_edge(p1.clone(), &sk1);
    assert_eq!(removed.nonce, 6);
    let (side, _) = removed.removal_info.clone().unwrap();
    assert_eq!(side, true);
    assert!(removed.verify());
    let _ = p0;
}

#[test]
fn removal_without_attestation_fails() {
    let (sk0, p0, sk1, p1) = ordered_pair();
    let mut edge = signed_edge(&sk0, &p0, &sk1, &p1, 1);
    edge.nonce = 2;
    assert!(!edge.verify());
}

#[test]
fn fake_edge_never_verifies() {
    let (_, p0) = keypair("alpha");
    let (_, p1) = keypair("bravo");
    let fake = Edge::make_fake_edge(p0, p1, 1);
    assert!(!fake.verify());
}

#[test]
fn partial_verify_checks_one_half() {
    let (sk0, p0, sk1, p1) = ordered_pair();
    let info = EdgeInfo::new(p0.clone(), p1.clone(), 1, &sk1);
    assert!(Edge::partial_verify(p0.clone(), p1.clone(), &info));
    let wrong_signer = EdgeInfo::new(p0.clone(), p1.clone(), 1, &sk0);
    assert!(!Edge::partial_verify(p0.clone(), p1.clone(), &wrong_signer));
}

#[test]
fn next_nonce_steps_to_the_next_addition() {
    assert_eq!(Edge::next_nonce(1), 3);
    assert_eq!(Edge::next_nonce(2), 3);
    assert_eq!(Edge::next_nonce(0), 1);
    let (sk0, p0, sk1, p1) = ordered_pair();
    let edge = signed_edge(&sk0, &p0, &sk1, &p1, 7);
    assert_eq!(edge.next(), 9);
}

#[test]
fn edge_endpoint_queries() {
    let (sk0, p0, sk1, p1) = ordered_pair();
    let edge = signed_edge(&sk0, &p0, &sk1, &p1, 1);
    let (_, stranger) = keypair("charlie");
    assert!(edge.contains_peer(&p0));
    assert!(edge.contains_peer(&p1));
    assert!(!edge.contains_peer(&stranger));
    assert_eq!(edge.other(&p0).unwrap().key, edge.peer1.key.clone());
    assert_eq!(edge.other(&p1).unwrap().key, edge.peer0.key.clone());
    assert!(edge.other(&stranger).is_none());
    let pair = edge.get_pair();
    assert_eq!(pair.0.key, edge.peer0.key);
    assert_eq!(pair.1.key, edge.peer1.key);
    let simple = edge.to_simple_edge();
    assert_eq!(simple.nonce(), 1);
    assert_eq!(simple.key().0.key, edge.peer0.key);
    assert!(matches!(simple.edge_type(), EdgeType::Added));
}

#[test]
fn ibf_levels_have_a_valid_range() {
    assert!(ValidIBFLevel(10).is_valid());
    assert!(ValidIBFLevel(17).is_valid());
    assert!(!ValidIBFLevel(9).is_valid());
    assert!(!ValidIBFLevel(18).is_valid());
    assert_eq!(ValidIBFLevel(10).inc(), Some(ValidIBFLevel(11)));
    assert_eq!(ValidIBFLevel(16).inc(), Some(ValidIBFLevel(17)));
    assert_eq!(ValidIBFLevel(17).inc(), None);
    assert_eq!(ValidIBFLevel(8).inc(), None);
}
