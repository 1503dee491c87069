//! Signature primitives behind trusted declarations: SHA-256 digests,
//! ed25519 key derivation from a seed, signing, and verification.
//!
//! Keys, signatures and digests cross this boundary as their canonical byte
//! serializations (a one-byte key-type tag, 0 for ed25519, followed by the
//! raw key or signature bytes), so that everything the rest of the library
//! reads of them is a plain byte string.

use vstd::prelude::*;

verus! {

/// The SHA-256 digest of a byte string.
pub uninterp spec fn sha256_of(data: Seq<u8>) -> Seq<u8>;

/// Whether `sig` is a valid signature over `data` under the public key
/// serialized as `signer`. Malformed `sig` or `signer` bytes never validate.
pub uninterp spec fn sig_valid(sig: Seq<u8>, data: Seq<u8>, signer: Seq<u8>) -> bool;

/// The serialized ed25519 secret key derived from a seed string.
pub uninterp spec fn sk_of_seed(seed: Seq<char>) -> Seq<u8>;

/// The serialized public key belonging to a serialized secret key.
pub uninterp spec fn pk_of(sk: Seq<u8>) -> Seq<u8>;

/// An ed25519 secret key, held as the serialized secret-and-public key pair.
///
/// The field is private and the only constructor is [`SecretKey::from_seed`],
/// so every value of this type holds a consistent key pair and signing with
/// it cannot fail.
pub struct SecretKey {
    bytes: Vec<u8>,
}

impl View for SecretKey {
    type V = Seq<u8>;

    closed spec fn view(&self) -> Seq<u8> {
        self.bytes@
    }
}

impl SecretKey {
    /// Relies on `near_crypto::SecretKey::from_seed`: the derivation of an
    /// ed25519 key pair from a seed string is deterministic.
    #[verifier::external_body]
    pub fn from_seed(seed: &str) -> (r: SecretKey)
        ensures
            r@ == sk_of_seed(seed@),
    {
        let sk = near_crypto::SecretKey::from_seed(near_crypto::KeyType::ED25519, seed);
        let mut bytes = vec![0u8];
        bytes.extend_from_slice(&sk.unwrap_as_ed25519().0);
        SecretKey { bytes }
    }

    /// Relies on `near_crypto::SecretKey::public_key`: reading the public
    /// half of a key pair is deterministic; the result is returned in its
    /// borsh serialization (tag byte, then the raw key).
    #[verifier::external_body]
    pub fn public_key(&self) -> (r: Vec<u8>)
        ensures
            r@ == pk_of(self@),
    {
        let sk = near_crypto::SecretKey::ED25519(near_crypto::ED25519SecretKey(
            self.bytes[1..65].try_into().unwrap(),
        ));
        borsh::to_vec(&sk.public_key()).unwrap()
    }

    /// Relies on `near_crypto::SecretKey::sign` and
    /// `near_crypto::Signature::verify`: signing produces a signature that
    /// verifies over the signed data under the key pair's public key.
    #[verifier::external_body]
    pub fn sign(&self, data: &Vec<u8>) -> (r: Vec<u8>)
        ensures
            sig_valid(r@, data@, pk_of(self@)),
    {
        let sk = near_crypto::SecretKey::ED25519(near_crypto::ED25519SecretKey(
            self.bytes[1..65].try_into().unwrap(),
        ));
        borsh::to_vec(&sk.sign(data.as_slice())).unwrap()
    }
}

/// Relies on `near_primitives::hash::hash`: the SHA-256 digest of the input,
/// 32 bytes long.
#[verifier::external_body]
pub(crate) fn sha256(data: &Vec<u8>) -> (r: Vec<u8>)
    ensures
        r@ == sha256_of(data@),
        r@.len() == 32,
{
    near_primitives::hash::hash(data.as_slice()).0.to_vec()
}

/// Relies on `near_crypto::Signature::verify`: the outcome depends only on
/// the signature bytes, the data, and the public-key bytes; bytes that do not
/// deserialize to a signature or a key verify as false.
#[verifier::external_body]
pub(crate) fn verify_signature(sig: &Vec<u8>, data: &Vec<u8>, signer: &Vec<u8>) -> (r: bool)
    ensures
        r == sig_valid(sig@, data@, signer@),
{
    let sig = match borsh::from_slice::<near_crypto::Signature>(sig.as_slice()) {
        Ok(s) => s,
        Err(_) => return false,
    };
    let pk = match borsh::from_slice::<near_crypto::PublicKey>(signer.as_slice()) {
        Ok(p) => p,
        Err(_) => return false,
    };
    sig.verify(data.as_slice(), &pk)
}

} // verus!
