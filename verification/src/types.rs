//! Identifiers and raw byte values shared by the whole library.

use vstd::prelude::*;
use vstd::std_specs::cmp::PartialEqSpecImpl;

verus! {

broadcast use vstd::array::group_array_axioms;

/// Compares two byte arrays of the same length element by element.
pub fn bytes_eq<const N: usize>(a: &[u8; N], b: &[u8; N]) -> (r: bool)
    ensures
        r == (*a == *b),
{
    let mut i: usize = 0;
    while i < N
        invariant
            i <= N,
            forall|k: int| 0 <= k < i ==> a@[k] == b@[k],
        decreases N - i,
    {
        if a[i] != b[i] {
            return false;
        }
        i += 1;
    }
    proof {
        assert(*a =~= *b);
    }
    true
}

/// The identifier of an authority: the 32 raw bytes of its sr25519 public key.
#[derive(Clone, Copy, Debug, Hash)]
pub struct AuthorityId(pub [u8; 32]);

impl AuthorityId {
    /// Builds an identifier from the raw bytes of a public key.
    pub fn from_raw(bytes: [u8; 32]) -> (r: AuthorityId)
        ensures
            r.0 == bytes,
    {
        AuthorityId(bytes)
    }

    /// The raw bytes of the public key.
    pub fn to_raw(&self) -> (r: [u8; 32])
        ensures
            r == self.0,
    {
        self.0
    }
}

impl PartialEq for AuthorityId {
    fn eq(&self, other: &Self) -> (r: bool) {
        bytes_eq(&self.0, &other.0)
    }
}

impl Eq for AuthorityId {
}

impl PartialEqSpecImpl for AuthorityId {
    open spec fn obeys_eq_spec() -> bool {
        true
    }

    open spec fn eq_spec(&self, other: &Self) -> bool {
        self.0 == other.0
    }
}

/// An sr25519 signature: 64 raw bytes.
#[derive(Clone, Copy, Debug)]
pub struct AuthoritySignature(pub [u8; 64]);

impl AuthoritySignature {
    /// Builds a signature from its raw bytes.
    pub fn from_raw(bytes: [u8; 64]) -> (r: AuthoritySignature)
        ensures
            r.0 == bytes,
    {
        AuthoritySignature(bytes)
    }
}

impl PartialEq for AuthoritySignature {
    fn eq(&self, other: &Self) -> (r: bool) {
        bytes_eq(&self.0, &other.0)
    }
}

impl Eq for AuthoritySignature {
}

impl PartialEqSpecImpl for AuthoritySignature {
    open spec fn obeys_eq_spec() -> bool {
        true
    }

    open spec fn eq_spec(&self, other: &Self) -> bool {
        self.0 == other.0
    }
}

} // verus!
