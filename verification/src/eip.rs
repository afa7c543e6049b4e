//! The elastic Initiation Proposal (eIP): the leader of an epoch announces the seed the
//! schedule is drawn from, signs it, and the other validators verify and answer it.

use vstd::prelude::*;
use crate::crypto::{self, KeyPair};
use crate::seqs::append_bytes;
use crate::types::{AuthorityId, AuthoritySignature};

verus! {

broadcast use vstd::array::group_array_axioms;

/// The eight little-endian bytes of a `u64`.
pub open spec fn le_bytes(x: u64) -> Seq<u8> {
    vstd::bytes::spec_u64_to_le_bytes(x)
}

/// The bytes the random seed of an epoch is hashed from: the epoch and the timestamp
/// (little-endian) around the parent hash.
pub open spec fn seed_input(epoch: u64, parent_hash: Seq<u8>, timestamp: u64) -> Seq<u8> {
    le_bytes(epoch) + parent_hash + le_bytes(timestamp)
}

/// The raw bytes of a list of authorities, one after the other.
pub open spec fn authorities_bytes(vs: Seq<AuthorityId>) -> Seq<u8>
    decreases vs.len(),
{
    if vs.len() == 0 {
        Seq::empty()
    } else {
        authorities_bytes(vs.drop_last()) + vs.last().0@
    }
}

/// The sixty-four zero bytes of an unsigned signature.
pub open spec fn is_blank_signature(sig: AuthoritySignature) -> bool {
    sig.0@ == Seq::new(64, |_i: int| 0u8)
}

/// Errors that can occur during eIP verification.
#[derive(Clone, Copy, Debug, PartialEq, Eq, Structural)]
pub enum VerificationError {
    /// No validators in the list.
    NoValidators,
    /// Leader doesn't match expected (first validator).
    InvalidLeader,
    /// Signature verification failed.
    InvalidSignature,
    /// Random seed doesn't match expected deterministic value.
    InvalidRandomSeed,
    /// Timestamp is unreasonable.
    InvalidTimestamp,
    /// Epoch number is wrong.
    InvalidEpoch,
}

/// The elastic Initiation Proposal message.
#[derive(Debug)]
pub struct ElasticInitiationProposal {
    /// The epoch number this proposal is for.
    pub epoch: u64,
    /// Random seed for schedule generation.
    pub random_seed: [u8; 32],
    /// The leader (the first validator of the epoch).
    pub leader_id: AuthorityId,
    /// The final block hash of the previous epoch.
    pub parent_hash: [u8; 32],
    /// Timestamp of proposal creation.
    pub timestamp: u64,
    /// The active validators of the epoch.
    pub validators: Vec<AuthorityId>,
    /// The leader's signature.
    pub signature: AuthoritySignature,
}

impl ElasticInitiationProposal {
    /// The bytes that the leader signs: epoch, seed, parent hash, timestamp and the
    /// validators' keys.
    pub open spec fn message(&self) -> Seq<u8> {
        le_bytes(self.epoch) + self.random_seed@ + self.parent_hash@ + le_bytes(self.timestamp) + authorities_bytes(self.validators@)
    }

    /// The SCALE encoding of the proposal: its fields in order, the validator list
    /// prefixed with its compact length.
    pub open spec fn encoding(&self) -> Seq<u8> {
        le_bytes(self.epoch) + self.random_seed@ + self.leader_id.0@ + self.parent_hash@ + le_bytes(self.timestamp)
            + crypto::compact_u32_encoding(self.validators@.len() as u32) + authorities_bytes(self.validators@)
            + self.signature.0@
    }

    /// What verification of the proposal gives.
    pub open spec fn verification(&self) -> Result<(), VerificationError> {
        if self.validators@.len() == 0 {
            Err(VerificationError::NoValidators)
        } else if self.leader_id != self.validators@[0] {
            Err(VerificationError::InvalidLeader)
        } else if !crypto::sr25519_verifies(self.signature.0@, self.message(), self.leader_id.0@) {
            Err(VerificationError::InvalidSignature)
        } else if self.random_seed@ != crypto::blake2_256_digest(seed_input(self.epoch, self.parent_hash@, self.timestamp)) {
            Err(VerificationError::InvalidRandomSeed)
        } else {
            Ok(())
        }
    }

    /// The bytes the random seed is hashed from.
    pub(crate) fn seed_bytes(epoch: u64, parent_hash: &[u8; 32], timestamp: u64) -> (r: Vec<u8>)
        ensures
            r@ == seed_input(epoch, parent_hash@, timestamp),
    {
        let mut seed_data: Vec<u8> = Vec::new();
        let e = vstd::bytes::u64_to_le_bytes(epoch);
        append_bytes(&mut seed_data, e.as_slice());
        append_bytes(&mut seed_data, parent_hash.as_slice());
        let t = vstd::bytes::u64_to_le_bytes(timestamp);
        append_bytes(&mut seed_data, t.as_slice());
        seed_data
    }

    /// Creates a new eIP: the leader is the first validator, and the random seed is the
    /// BLAKE2b-256 hash of the epoch, the parent hash and the timestamp. The signature is
    /// blank until the leader signs.
    pub fn new(epoch: u64, validators: Vec<AuthorityId>, parent_hash: [u8; 32], timestamp: u64) -> (r: Self)
        requires
            validators@.len() > 0,
        ensures
            r.epoch == epoch,
            r.leader_id == validators@[0],
            r.parent_hash == parent_hash,
            r.timestamp == timestamp,
            r.validators@ == validators@,
            r.random_seed@ == crypto::blake2_256_digest(seed_input(epoch, parent_hash@, timestamp)),
            is_blank_signature(r.signature),
    {
        let leader_id = validators[0];
        let seed_data = Self::seed_bytes(epoch, &parent_hash, timestamp);
        let random_seed = crypto::blake_two_256(seed_data.as_slice());
        let signature = AuthoritySignature::from_raw([0u8; 64]);
        assert(signature.0@ =~= Seq::new(64, |_i: int| 0u8));
        Self { epoch, random_seed, leader_id, parent_hash, timestamp, validators, signature }
    }

    /// The bytes to sign.
    pub fn signable_message(&self) -> (r: Vec<u8>)
        ensures
            r@ == self.message(),
    {
        let mut data: Vec<u8> = Vec::new();
        let e = vstd::bytes::u64_to_le_bytes(self.epoch);
        append_bytes(&mut data, e.as_slice());
        append_bytes(&mut data, self.random_seed.as_slice());
        append_bytes(&mut data, self.parent_hash.as_slice());
        let t = vstd::bytes::u64_to_le_bytes(self.timestamp);
        append_bytes(&mut data, t.as_slice());
        let ghost head = data@;
        let mut i: usize = 0;
        while i < self.validators.len()
            invariant
                i <= self.validators@.len(),
                data@ == head + authorities_bytes(self.validators@.subrange(0, i as int)),
            decreases self.validators@.len() - i,
        {
            proof {
                assert(self.validators@.subrange(0, i as int + 1).drop_last() =~= self.validators@.subrange(0, i as int));
            }
            append_bytes(&mut data, self.validators[i].0.as_slice());
            i += 1;
            proof {
                assert(data@ =~= head + authorities_bytes(self.validators@.subrange(0, i as int)));
            }
        }
        proof {
            assert(self.validators@.subrange(0, i as int) =~= self.validators@);
            assert(data@ =~= self.message());
        }
        data
    }

    /// The SCALE encoding of the proposal.
    pub fn encode(&self) -> (r: Vec<u8>)
        requires
            self.validators@.len() <= u32::MAX,
        ensures
            r@ == self.encoding(),
    {
        let mut data: Vec<u8> = Vec::new();
        let e = vstd::bytes::u64_to_le_bytes(self.epoch);
        append_bytes(&mut data, e.as_slice());
        append_bytes(&mut data, self.random_seed.as_slice());
        append_bytes(&mut data, self.leader_id.0.as_slice());
        append_bytes(&mut data, self.parent_hash.as_slice());
        let t = vstd::bytes::u64_to_le_bytes(self.timestamp);
        append_bytes(&mut data, t.as_slice());
        let len = crypto::scale_compact_u32(self.validators.len() as u32);
        append_bytes(&mut data, len.as_slice());
        let ghost head = data@;
        let mut i: usize = 0;
        while i < self.validators.len()
            invariant
                i <= self.validators@.len(),
                data@ == head + authorities_bytes(self.validators@.subrange(0, i as int)),
            decreases self.validators@.len() - i,
        {
            proof {
                assert(self.validators@.subrange(0, i as int + 1).drop_last() =~= self.validators@.subrange(0, i as int));
            }
            append_bytes(&mut data, self.validators[i].0.as_slice());
            i += 1;
            proof {
                assert(data@ =~= head + authorities_bytes(self.validators@.subrange(0, i as int)));
            }
        }
        append_bytes(&mut data, self.signature.0.as_slice());
        proof {
            assert(self.validators@.subrange(0, i as int) =~= self.validators@);
            assert(data@ =~= self.encoding());
        }
        data
    }

    /// Signs the eIP with the leader's key pair: only the signature changes, and it
    /// verifies for the signable message against the pair's public key.
    pub fn sign(&mut self, key_pair: &KeyPair)
        ensures
            final(self).epoch == old(self).epoch,
            final(self).random_seed == old(self).random_seed,
            final(self).leader_id == old(self).leader_id,
            final(self).parent_hash == old(self).parent_hash,
            final(self).timestamp == old(self).timestamp,
            final(self).validators@ == old(self).validators@,
            crypto::sr25519_verifies(final(self).signature.0@, old(self).message(), key_pair.public_key().0@),
    {
        let message = self.signable_message();
        self.signature = key_pair.sign(message.as_slice());
    }

    /// Verifies a received eIP: the validator list is not empty, the leader is its first
    /// validator, the signature verifies against the leader's key, and the random seed is
    /// the hash of the epoch, the parent hash and the timestamp.
    pub fn verify(&self) -> (r: Result<(), VerificationError>)
        ensures
            r == self.verification(),
    {
        if self.validators.len() == 0 {
            return Err(VerificationError::NoValidators);
        }
        if !(self.leader_id == self.validators[0]) {
            return Err(VerificationError::InvalidLeader);
        }
        let message = self.signable_message();
        if !crypto::sr25519_verify(&self.signature.0, message.as_slice(), &self.leader_id.0) {
            return Err(VerificationError::InvalidSignature);
        }
        let expected_seed_data = Self::seed_bytes(self.epoch, &self.parent_hash, self.timestamp);
        let expected_seed = crypto::blake_two_256(expected_seed_data.as_slice());
        if !crate::types::bytes_eq(&self.random_seed, &expected_seed) {
            proof {
                if self.random_seed@ == expected_seed@ {
                    assert(self.random_seed =~= expected_seed);
                }
            }
            return Err(VerificationError::InvalidRandomSeed);
        }
        Ok(())
    }

    /// Whether `my_authority` is the leader of the proposal.
    pub fn is_leader(&self, my_authority: &AuthorityId) -> (r: bool)
        ensures
            r == (self.leader_id == *my_authority),
    {
        self.leader_id == *my_authority
    }
}

} // verus!

verus! {

/// The bytes a response's signature covers: the epoch (little-endian), the hash of the
/// proposal, and one byte for the answer (1 to accept, 0 to reject).
pub open spec fn response_message(epoch: u64, eip_hash: Seq<u8>, accepted: bool) -> Seq<u8> {
    le_bytes(epoch) + eip_hash + seq![if accepted { 1u8 } else { 0u8 }]
}

/// A validator's answer to an eIP broadcast.
#[derive(Debug)]
pub struct ElasticInitiationResponse {
    /// The epoch this response is for.
    pub epoch: u64,
    /// Hash of the eIP being acknowledged.
    pub eip_hash: [u8; 32],
    /// The responding validator.
    pub validator: AuthorityId,
    /// Accept or reject.
    pub accepted: bool,
    /// Signature from the validator.
    pub signature: AuthoritySignature,
}

impl ElasticInitiationResponse {
    /// The bytes the response's signature covers.
    pub open spec fn message(&self) -> Seq<u8> {
        response_message(self.epoch, self.eip_hash@, self.accepted)
    }

    /// Creates a response to an eIP: it names the proposal by the BLAKE2b-256 hash of its
    /// SCALE encoding. The signature is blank until the validator signs.
    pub fn new(eip: &ElasticInitiationProposal, validator: AuthorityId, accepted: bool) -> (r: Self)
        requires
            eip.validators@.len() <= u32::MAX,
        ensures
            r.epoch == eip.epoch,
            r.eip_hash@ == crypto::blake2_256_digest(eip.encoding()),
            r.validator == validator,
            r.accepted == accepted,
            is_blank_signature(r.signature),
    {
        let encoded = eip.encode();
        let eip_hash = crypto::blake_two_256(encoded.as_slice());
        let signature = AuthoritySignature::from_raw([0u8; 64]);
        assert(signature.0@ =~= Seq::new(64, |_i: int| 0u8));
        Self { epoch: eip.epoch, eip_hash, validator, accepted, signature }
    }

    /// The bytes the signature covers.
    fn signed_bytes(&self) -> (r: Vec<u8>)
        ensures
            r@ == self.message(),
    {
        let mut message: Vec<u8> = Vec::new();
        let e = vstd::bytes::u64_to_le_bytes(self.epoch);
        append_bytes(&mut message, e.as_slice());
        append_bytes(&mut message, self.eip_hash.as_slice());
        message.push(if self.accepted { 1 } else { 0 });
        assert(message@ =~= self.message());
        message
    }

    /// Signs the response: only the signature changes, and it verifies for the
    /// response's message against the pair's public key.
    pub fn sign(&mut self, key_pair: &KeyPair)
        ensures
            final(self).epoch == old(self).epoch,
            final(self).eip_hash == old(self).eip_hash,
            final(self).validator == old(self).validator,
            final(self).accepted == old(self).accepted,
            crypto::sr25519_verifies(final(self).signature.0@, old(self).message(), key_pair.public_key().0@),
    {
        let message = self.signed_bytes();
        self.signature = key_pair.sign(message.as_slice());
    }

    /// Whether the signature verifies for the response's message against the responding
    /// validator's key.
    pub fn verify(&self) -> (r: bool)
        ensures
            r == crypto::sr25519_verifies(self.signature.0@, self.message(), self.validator.0@),
    {
        let message = self.signed_bytes();
        crypto::sr25519_verify(&self.signature.0, message.as_slice(), &self.validator.0)
    }
}

/// A proposal created for a validator list and then signed with the key of its first
/// validator verifies: `new`, then `sign` by the leader, then `verify` gives `Ok`.
pub proof fn law_leader_signed_proposal_verifies(
    created: ElasticInitiationProposal,
    signed: ElasticInitiationProposal,
    validators: Seq<AuthorityId>,
    parent_hash: [u8; 32],
    epoch: u64,
    timestamp: u64,
    key_pair: KeyPair,
)
    requires
        validators.len() > 0,
        key_pair.public_key() == validators[0],
        // what `new(epoch, validators, parent_hash, timestamp)` returns
        created.epoch == epoch,
        created.leader_id == validators[0],
        created.parent_hash == parent_hash,
        created.timestamp == timestamp,
        created.validators@ == validators,
        created.random_seed@ == crypto::blake2_256_digest(seed_input(epoch, parent_hash@, timestamp)),
        // what `sign(&key_pair)` makes of it
        signed.epoch == created.epoch,
        signed.random_seed == created.random_seed,
        signed.leader_id == created.leader_id,
        signed.parent_hash == created.parent_hash,
        signed.timestamp == created.timestamp,
        signed.validators@ == created.validators@,
        crypto::sr25519_verifies(signed.signature.0@, created.message(), key_pair.public_key().0@),
    ensures
        signed.verification() == Ok::<(), VerificationError>(()),
{
    assert(signed.message() == created.message());
}

/// A response signed with the key of the validator it names verifies.
pub proof fn law_signed_response_verifies(
    created: ElasticInitiationResponse,
    signed: ElasticInitiationResponse,
    key_pair: KeyPair,
)
    requires
        key_pair.public_key() == created.validator,
        signed.epoch == created.epoch,
        signed.eip_hash == created.eip_hash,
        signed.validator == created.validator,
        signed.accepted == created.accepted,
        crypto::sr25519_verifies(signed.signature.0@, created.message(), key_pair.public_key().0@),
    ensures
        crypto::sr25519_verifies(signed.signature.0@, signed.message(), signed.validator.0@),
{
}

/// Changing the seed of a verified proposal is detected: with everything else equal,
/// a proposal whose seed differs from the hash of its epoch, parent hash and timestamp
/// fails verification, with `InvalidRandomSeed` once leader and signature check out.
pub proof fn law_tampered_seed_rejected(p: ElasticInitiationProposal)
    requires
        p.random_seed@ != crypto::blake2_256_digest(seed_input(p.epoch, p.parent_hash@, p.timestamp)),
    ensures
        p.verification() is Err,
        p.validators@.len() > 0 && p.leader_id == p.validators@[0]
            && crypto::sr25519_verifies(p.signature.0@, p.message(), p.leader_id.0@)
            ==> p.verification() == Err::<(), VerificationError>(VerificationError::InvalidRandomSeed),
{
}

/// Only the first validator may lead: a proposal with validators whose leader is not the
/// first of them fails verification with `InvalidLeader`, whatever else it holds, and a
/// proposal verifies only when its leader is its first validator.
pub proof fn law_leader_is_first_validator(p: ElasticInitiationProposal)
    ensures
        p.validators@.len() > 0 && p.leader_id != p.validators@[0] ==> p.verification() == Err::<(), VerificationError>(
            VerificationError::InvalidLeader,
        ),
        p.verification() is Ok ==> p.validators@.len() > 0 && p.leader_id == p.validators@[0],
{
}

} // verus!
