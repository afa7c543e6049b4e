use posc::crypto::KeyPair;
use posc::eip::{ElasticInitiationProposal, ElasticInitiationResponse, VerificationError};
use posc::types::{AuthorityId, AuthoritySignature};

const SEED_EPOCH_1_TS_1000: [u8; 32] = [
    216, 167, 74, 129, 142, 21, 109, 23, 173, 40, 23, 210, 108, 5, 11, 64, 13, 176, 138, 35, 255, 142, 179, 229, 9,
    164, 239, 79, 0, 11, 169, 204,
];

#[test]
fn test_eip_creation_and_verification() {
    let key_pair = KeyPair::from_seed(&[1u8; 32]);
    let leader_id = key_pair.public();
    let validators = vec![leader_id.clone()];
    let parent_hash = [0u8; 32];
    let mut eip = ElasticInitiationProposal::new(1, validators, parent_hash, 1000);
    eip.sign(&key_pair);
    assert!(eip.verify().is_ok());
}

#[test]
fn eip_seed_is_blake2_256_of_epoch_parent_and_timestamp() {
    let validators = vec![AuthorityId::from_raw([3u8; 32]), AuthorityId::from_raw([4u8; 32])];
    let eip = ElasticInitiationProposal::new(1, validators, [0u8; 32], 1000);
    assert_eq!(eip.random_seed, SEED_EPOCH_1_TS_1000);
    assert_eq!(eip.leader_id, AuthorityId::from_raw([3u8; 32]));
    assert_eq!(eip.signature, AuthoritySignature::from_raw([0u8; 64]));
}

#[test]
fn eip_public_key_differs_from_seed() {
    let key_pair = KeyPair::from_seed(&[1u8; 32]);
    assert_ne!(key_pair.public(), AuthorityId::from_raw([1u8; 32]));
    let other = KeyPair::from_seed(&[2u8; 32]);
    assert_ne!(key_pair.public(), other.public());
    assert_eq!(key_pair.public(), KeyPair::from_seed(&[1u8; 32]).public());
}

#[test]
fn eip_verify_reports_each_error() {
    let key_pair = KeyPair::from_seed(&[1u8; 32]);
    let leader_id = key_pair.public();

    let mut empty = ElasticInitiationProposal::new(1, vec![leader_id], [0u8; 32], 1000);
    empty.validators.clear();
    assert_eq!(empty.verify(), Err(VerificationError::NoValidators));

    let mut wrong_leader = ElasticInitiationProposal::new(1, vec![leader_id], [0u8; 32], 1000);
    wrong_leader.leader_id = AuthorityId::from_raw([9u8; 32]);
    assert_eq!(wrong_leader.verify(), Err(VerificationError::InvalidLeader));

    let unsigned = ElasticInitiationProposal::new(1, vec![leader_id], [0u8; 32], 1000);
    assert_eq!(unsigned.verify(), Err(VerificationError::InvalidSignature));

    let mut other_key = ElasticInitiationProposal::new(1, vec![leader_id], [0u8; 32], 1000);
    other_key.sign(&KeyPair::from_seed(&[2u8; 32]));
    assert_eq!(other_key.verify(), Err(VerificationError::InvalidSignature));

    let mut bad_seed = ElasticInitiationProposal::new(1, vec![leader_id], [0u8; 32], 1000);
    bad_seed.random_seed[0] ^= 1;
    bad_seed.sign(&key_pair);
    assert_eq!(bad_seed.verify(), Err(VerificationError::InvalidRandomSeed));
}

#[test]
fn eip_signature_covers_the_message() {
    let key_pair = KeyPair::from_seed(&[5u8; 32]);
    let mut eip = ElasticInitiationProposal::new(7, vec![key_pair.public()], [1u8; 32], 42);
    eip.sign(&key_pair);
    assert!(eip.verify().is_ok());
    eip.timestamp = 43;
    assert!(eip.verify().is_err());
}

#[test]
fn eip_signable_message_layout() {
    let validators = vec![AuthorityId::from_raw([3u8; 32]), AuthorityId::from_raw([4u8; 32])];
    let eip = ElasticInitiationProposal::new(1, validators, [0u8; 32], 1000);
    let message = eip.signable_message();
    assert_eq!(message.len(), 8 + 32 + 32 + 8 + 64);
    assert_eq!(&message[0..8], &1u64.to_le_bytes());
    assert_eq!(&message[8..40], &SEED_EPOCH_1_TS_1000);
    assert_eq!(&message[72..80], &1000u64.to_le_bytes());
    assert_eq!(&message[80..112], &[3u8; 32]);
}

#[test]
fn eip_scale_encoding_prefixes_validators_with_compact_length() {
    let validators = vec![AuthorityId::from_raw([3u8; 32])];
    let eip = ElasticInitiationProposal::new(1, validators, [0u8; 32], 1000);
    let encoded = eip.encode();
    assert_eq!(encoded.len(), 8 + 32 + 32 + 32 + 8 + 1 + 32 + 64);
    assert_eq!(encoded[112], 4);
    assert_eq!(&encoded[40..72], &[3u8; 32]);

    let many: Vec<AuthorityId> = (0..70u8).map(|i| AuthorityId::from_raw([i; 32])).collect();
    let big = ElasticInitiationProposal::new(1, many, [0u8; 32], 1000);
    let encoded = big.encode();
    assert_eq!(&encoded[112..114], &[(70u16 * 4 + 1) as u8, ((70u16 * 4 + 1) >> 8) as u8]);
}

#[test]
fn eip_is_leader() {
    let validators = vec![AuthorityId::from_raw([3u8; 32]), AuthorityId::from_raw([4u8; 32])];
    let eip = ElasticInitiationProposal::new(1, validators, [0u8; 32], 1000);
    assert!(eip.is_leader(&AuthorityId::from_raw([3u8; 32])));
    assert!(!eip.is_leader(&AuthorityId::from_raw([4u8; 32])));
}

#[test]
fn eip_response_signed_by_validator_verifies() {
    let leader = KeyPair::from_seed(&[1u8; 32]);
    let voter = KeyPair::from_seed(&[2u8; 32]);
    let mut eip = ElasticInitiationProposal::new(3, vec![leader.public(), voter.public()], [0u8; 32], 99);
    eip.sign(&leader);
    let mut response = ElasticInitiationResponse::new(&eip, voter.public(), true);
    assert_eq!(response.epoch, 3);
    assert!(!response.verify());
    response.sign(&voter);
    assert!(response.verify());
    response.accepted = false;
    assert!(!response.verify());
}

#[test]
fn eip_response_names_the_proposal_by_hash() {
    let leader = KeyPair::from_seed(&[1u8; 32]);
    let eip_a = ElasticInitiationProposal::new(3, vec![leader.public()], [0u8; 32], 99);
    let eip_b = ElasticInitiationProposal::new(3, vec![leader.public()], [0u8; 32], 100);
    let ra = ElasticInitiationResponse::new(&eip_a, leader.public(), true);
    let rb = ElasticInitiationResponse::new(&eip_b, leader.public(), true);
    let ra2 = ElasticInitiationResponse::new(&eip_a, leader.public(), false);
    assert_ne!(ra.eip_hash, rb.eip_hash);
    assert_eq!(ra.eip_hash, ra2.eip_hash);
    assert_ne!(ra.eip_hash, [0u8; 32]);
}
