//! The cryptographic primitives the protocol relies on: BLAKE2b-256 hashing, sr25519
//! signing and verification, and SCALE compact length prefixes.

use vstd::prelude::*;
use sp_core::Pair as _;
use sp_runtime::traits::Hash as _;
use parity_scale_codec::Encode as _;
use crate::types::{AuthorityId, AuthoritySignature};

verus! {

/// The BLAKE2b-256 digest of a byte string.
pub uninterp spec fn blake2_256_digest(data: Seq<u8>) -> Seq<u8>;

/// The sr25519 public key that a 32-byte mini-secret seed expands to.
pub uninterp spec fn sr25519_public_of(seed: Seq<u8>) -> Seq<u8>;

/// Whether a 64-byte sr25519 signature over a message is valid for a 32-byte public key
/// (under the signing context that the protocol uses).
pub uninterp spec fn sr25519_verifies(signature: Seq<u8>, message: Seq<u8>, public: Seq<u8>) -> bool;

/// The SCALE compact encoding of a `u32`, used as the length prefix of a sequence.
pub open spec fn compact_u32_encoding(n: u32) -> Seq<u8> {
    if n < 64 {
        seq![(n * 4) as u8]
    } else if n < 0x4000 {
        let v = n * 4 + 1;
        seq![(v % 256) as u8, (v / 256) as u8]
    } else if n < 0x4000_0000 {
        let v = n * 4 + 2;
        seq![(v % 256) as u8, ((v / 256) % 256) as u8, ((v / 65536) % 256) as u8, (v / 16777216) as u8]
    } else {
        seq![3u8, (n % 256) as u8, ((n / 256) % 256) as u8, ((n / 65536) % 256) as u8, (n / 16777216) as u8]
    }
}

/// `sp_runtime::traits::BlakeTwo256::hash`: the 32 bytes of the result are the BLAKE2b-256
/// digest of `data`, a function of `data` alone.
#[verifier::external_body]
pub(crate) fn blake_two_256(data: &[u8]) -> (r: [u8; 32])
    ensures
        r@ == blake2_256_digest(data@),
{
    sp_runtime::traits::BlakeTwo256::hash(data).0
}

/// `sp_core::sr25519::Pair::public` on the pair that `Pair::from_seed` builds from `seed`:
/// the public key is a function of the seed alone.
#[verifier::external_body]
fn sr25519_public_from_seed(seed: &[u8; 32]) -> (r: [u8; 32])
    ensures
        r@ == sr25519_public_of(seed@),
{
    sp_core::sr25519::Pair::from_seed(seed).public().0
}

/// `sp_core::sr25519::Pair::sign` on the pair that `Pair::from_seed` builds from `seed`.
/// The signature is randomized, so nothing fixes its bytes; what is claimed is what the
/// scheme guarantees of every outcome: it verifies for `message` against the public key
/// of that pair.
#[verifier::external_body]
fn sr25519_sign(seed: &[u8; 32], message: &[u8]) -> (r: [u8; 64])
    ensures
        sr25519_verifies(r@, message@, sr25519_public_of(seed@)),
{
    sp_core::sr25519::Pair::from_seed(seed).sign(message).0
}

/// `sp_core::sr25519::Pair::verify`: whether `signature` is a valid signature of
/// `message` by `public`, a function of the three byte strings alone.
#[verifier::external_body]
pub(crate) fn sr25519_verify(signature: &[u8; 64], message: &[u8], public: &[u8; 32]) -> (r: bool)
    ensures
        r == sr25519_verifies(signature@, message@, public@),
{
    sp_core::sr25519::Pair::verify(
        &sp_core::sr25519::Signature::from_raw(*signature),
        message,
        &sp_core::sr25519::Public::from_raw(*public),
    )
}

/// `parity_scale_codec::Compact::<u32>::encode`: the SCALE compact encoding of `n`.
#[verifier::external_body]
pub(crate) fn scale_compact_u32(n: u32) -> (r: Vec<u8>)
    ensures
        r@ == compact_u32_encoding(n),
{
    parity_scale_codec::Compact(n).encode()
}

/// An sr25519 signing key, held as the 32-byte mini-secret seed it is expanded from,
/// together with the public key that the seed yields.
pub struct KeyPair {
    seed: [u8; 32],
    public: AuthorityId,
}

impl KeyPair {
    #[verifier::type_invariant]
    spec fn inv(self) -> bool {
        self.public.0@ == sr25519_public_of(self.seed@)
    }

    /// The seed the key pair is expanded from.
    pub closed spec fn seed_bytes(self) -> Seq<u8> {
        self.seed@
    }

    /// The public key of the pair.
    pub closed spec fn public_key(self) -> AuthorityId {
        self.public
    }

    /// Expands a 32-byte mini-secret seed into a key pair.
    pub fn from_seed(seed: &[u8; 32]) -> (r: KeyPair)
        ensures
            r.seed_bytes() == seed@,
            r.public_key().0@ == sr25519_public_of(seed@),
    {
        let public = AuthorityId(sr25519_public_from_seed(seed));
        KeyPair { seed: *seed, public }
    }

    /// The public key of the pair.
    pub fn public(&self) -> (r: AuthorityId)
        ensures
            r == self.public_key(),
            r.0@ == sr25519_public_of(self.seed_bytes()),
    {
        proof {
            use_type_invariant(self);
        }
        self.public
    }

    /// Signs `message`; every signature returned verifies for `message` against the
    /// public key of the pair.
    pub fn sign(&self, message: &[u8]) -> (r: AuthoritySignature)
        ensures
            sr25519_verifies(r.0@, message@, self.public_key().0@),
    {
        proof {
            use_type_invariant(self);
        }
        AuthoritySignature(sr25519_sign(&self.seed, message))
    }
}

} // verus!
