//! Expansion of a 32-byte secret seed into the keypair that fixes the
//! service identity, and the address derived from it.
//!
//! The expansion is deterministic: the same seed always gives the same
//! keypair and so the same address, in every run.

use vstd::prelude::*;
use crate::address::{get_onion_address, spec_onion_address};

verus! {

/// What `ed25519_dalek::hazmat::ExpandedSecretKey::from` yields for a seed,
/// as 64 bytes: the clamped, reduced scalar, then the 32-byte hash prefix.
/// A function of the seed alone.
pub uninterp spec fn expanded_secret_of(seed: Seq<u8>) -> Seq<u8>;

/// What the public key of an expanded secret key is, as 32 bytes. A function
/// of the 64 key bytes alone.
pub uninterp spec fn expanded_public_of(key_bytes: Seq<u8>) -> Seq<u8>;

/// Relies on `ed25519_dalek::hazmat::ExpandedSecretKey::from(&SecretKey)`:
/// the SHA-512 expansion of the seed, its lower half clamped and reduced to
/// the scalar, its upper half kept as the hash prefix — a function of the
/// seed bytes alone. `Scalar::to_bytes` extracts the scalar half.
#[verifier::external_body]
fn expand_seed_bytes(seed: &[u8; 32]) -> (r: [u8; 64])
    ensures
        r@ == expanded_secret_of(seed@),
{
    let esk = ed25519_dalek::hazmat::ExpandedSecretKey::from(seed);
    let mut out = [0u8; 64];
    out[..32].copy_from_slice(&esk.scalar.to_bytes());
    out[32..].copy_from_slice(&esk.hash_prefix);
    out
}

/// Relies on `tor_llcrypto::pk::ed25519::ExpandedKeypair::from_secret_key_bytes`
/// and `ExpandedKeypair::public`: the keypair is rebuilt from the 64 bytes
/// alone (the scalar half read mod the group order, which cannot fail, so the
/// reconstruction always returns a keypair) and its public half is a function
/// of those bytes.
#[verifier::external_body]
fn expanded_public_bytes(key_bytes: &[u8; 64]) -> (r: [u8; 32])
    ensures
        r@ == expanded_public_of(key_bytes@),
{
    let kp = tor_llcrypto::pk::ed25519::ExpandedKeypair::from_secret_key_bytes(*key_bytes)
        .expect("reading a scalar mod the group order cannot fail");
    *kp.public().as_bytes()
}

/// A keypair expanded from a secret seed: 64 bytes, the 32-byte scalar then
/// the 32-byte hash prefix.
pub struct ExpandedKeypair {
    bytes: [u8; 64],
}

impl View for ExpandedKeypair {
    type V = Seq<u8>;

    closed spec fn view(&self) -> Seq<u8> {
        self.bytes@
    }
}

impl ExpandedKeypair {
    /// The 64-byte representation: scalar, then hash prefix.
    pub fn to_secret_key_bytes(&self) -> (r: [u8; 64])
        ensures
            r@ == self@,
    {
        self.bytes
    }

    /// The public key of this keypair.
    pub fn public(&self) -> (r: [u8; 32])
        ensures
            r@ == expanded_public_of(self@),
    {
        expanded_public_bytes(&self.bytes)
    }
}

/// Expands a 32-byte secret seed into the keypair of the service identity.
/// Total and deterministic: every bit pattern is a valid seed, and equal
/// seeds give equal keypairs.
pub fn keypair_from_sk(secret_key: [u8; 32]) -> (kp: ExpandedKeypair)
    ensures
        kp@ == expanded_secret_of(secret_key@),
{
    ExpandedKeypair { bytes: expand_seed_bytes(&secret_key) }
}

/// The public key a seed expands to.
pub open spec fn spec_public_of_seed(seed: Seq<u8>) -> Seq<u8> {
    expanded_public_of(expanded_secret_of(seed))
}

/// The service address a seed expands to, without the `.onion` suffix.
pub open spec fn spec_address_of_seed(seed: Seq<u8>) -> Seq<char> {
    spec_onion_address(spec_public_of_seed(seed))
}

/// The service address derived from a 32-byte secret seed: expand the seed,
/// take the public key, encode it as an address.
pub fn onion_address_from_seed(secret_key: [u8; 32]) -> (r: String)
    ensures
        r@ == spec_address_of_seed(secret_key@),
        r@.len() == 56,
{
    let kp = keypair_from_sk(secret_key);
    let pk = kp.public();
    get_onion_address(pk.as_slice())
}

/// Law: expanding then deriving is deterministic — the same seed gives the
/// same keypair, the same public key and the same address, across repeated
/// runs and across restarts.
pub proof fn lemma_address_of_seed_deterministic(seed1: Seq<u8>, seed2: Seq<u8>)
    requires
        seed1 == seed2,
    ensures
        expanded_secret_of(seed1) == expanded_secret_of(seed2),
        spec_public_of_seed(seed1) == spec_public_of_seed(seed2),
        spec_address_of_seed(seed1) == spec_address_of_seed(seed2),
{
}

} // verus!
