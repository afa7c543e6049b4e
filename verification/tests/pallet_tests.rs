use std::collections::HashMap;

use posc::pallet::{DbAccesses, DispatchError, Error, Event, Origin, Pallet, Config};
use posc::types::AuthorityId;

/// Randomness of the test runtime: the first eight bytes are the subject's.
fn mock_randomness(subject: [u8; 8]) -> Vec<u8> {
    let mut hash = [0u8; 32];
    hash[..8].copy_from_slice(&subject);
    hash.to_vec()
}

fn proportional_share(remaining: u64, score: u64, total: u64) -> u64 {
    let proportion = score as f64 / total as f64;
    (remaining as f64 * proportion) as usize as u64
}

type TestPallet = Pallet<fn([u8; 8]) -> Vec<u8>, fn(u64, u64, u64) -> u64>;

fn test_config() -> Config {
    Config {
        epoch_duration: 10,
        expected_block_time: 1000,
        minimum_stake: 1000,
        default_security_score: 75,
        minimum_security_score: 50,
        max_authorities: 10,
    }
}

fn new_test_ext() -> TestPallet {
    Pallet::new(test_config(), mock_randomness as fn([u8; 8]) -> Vec<u8>, proportional_share as fn(u64, u64, u64) -> u64)
}

fn create_authorities(n: u32) -> Vec<AuthorityId> {
    (0..n)
        .map(|i| {
            let mut bytes = [0u8; 32];
            bytes[0] = i as u8;
            AuthorityId::from_raw(bytes)
        })
        .collect()
}

#[test]
fn test_initialize_authorities() {
    let mut posc = new_test_ext();
    let authorities = create_authorities(3);
    assert!(posc.initialize_authorities(authorities.clone()).is_ok());
    assert_eq!(posc.authorities.len(), 3);
    assert!(posc.current_schedule.is_some());
}

#[test]
fn test_schedule_generation() {
    let mut posc = new_test_ext();
    let authorities = create_authorities(3);
    assert!(posc.initialize_authorities(authorities.clone()).is_ok());
    let schedule = posc.current_schedule.as_ref().unwrap();
    assert_eq!(schedule.epoch, 0);
    assert_eq!(schedule.duration, 10);
    assert_eq!(schedule.schedule.len(), 10);
    for block in &schedule.schedule {
        assert!(authorities.contains(&block.authority));
    }
}

#[test]
fn test_is_scheduled() {
    let mut posc = new_test_ext();
    let authorities = create_authorities(3);
    assert!(posc.initialize_authorities(authorities.clone()).is_ok());
    let schedule = posc.current_schedule.as_ref().unwrap();
    let first_block = schedule.schedule[0];
    assert!(posc.is_scheduled(first_block.slot, &first_block.authority));
    for auth in &authorities {
        if auth != &first_block.authority {
            assert!(!posc.is_scheduled(first_block.slot, auth));
        }
    }
}

#[test]
fn test_scheduled_authority() {
    let mut posc = new_test_ext();
    let authorities = create_authorities(3);
    assert!(posc.initialize_authorities(authorities.clone()).is_ok());
    let schedule = posc.current_schedule.as_ref().unwrap();
    for scheduled_block in &schedule.schedule {
        let scheduled_auth = posc.scheduled_authority(scheduled_block.slot);
        assert_eq!(scheduled_auth, Some(scheduled_block.authority));
    }
    let out_of_range_slot = 100u64;
    assert_eq!(posc.scheduled_authority(out_of_range_slot), None);
}

#[test]
fn test_epoch_change() {
    let mut posc = new_test_ext();
    let authorities = create_authorities(3);
    assert!(posc.initialize_authorities(authorities.clone()).is_ok());
    assert_eq!(posc.epoch_index, 0);
    posc.current_slot = 10;
    assert!(posc.should_epoch_change(10));
    posc.change_epoch(1, 10);
    assert_eq!(posc.epoch_index, 1);
    assert!(posc.current_schedule.is_some());
    let new_schedule = posc.current_schedule.as_ref().unwrap();
    assert_eq!(new_schedule.start_slot, 0);
}

#[test]
fn test_bgs_calculation() {
    let posc = new_test_ext();
    let authorities = create_authorities(1);
    let authority = &authorities[0];
    let bgs = posc.calculate_bgs(authority);
    assert_eq!(bgs.security_score, 75);
    assert_eq!(bgs.stake, 10000);
    assert!(bgs.score > 0);
}

#[test]
fn test_deterministic_schedule() {
    let mut posc = new_test_ext();
    let authorities = create_authorities(3);
    assert!(posc.initialize_authorities(authorities.clone()).is_ok());
    let schedule1 = posc.current_schedule.take().unwrap();
    assert!(posc.initialize_authorities(authorities.clone()).is_ok());
    let schedule2 = posc.current_schedule.take().unwrap();
    assert_eq!(schedule1.randomness, schedule2.randomness);
}

#[test]
fn test_force_new_epoch() {
    let mut posc = new_test_ext();
    let authorities = create_authorities(3);
    assert!(posc.initialize_authorities(authorities).is_ok());
    let initial_epoch = posc.epoch_index;
    assert!(posc.force_new_epoch(Origin::Root, 1).is_ok());
    assert_eq!(posc.epoch_index, initial_epoch + 1);
}

#[test]
fn test_too_many_authorities() {
    let mut posc = new_test_ext();
    let authorities = create_authorities(11);
    assert_eq!(
        posc.initialize_authorities(authorities),
        Err(DispatchError::Module(Error::TooManyAuthorities))
    );
}

#[test]
fn test_schedule_fairness() {
    let mut posc = new_test_ext();
    let authorities = create_authorities(3);
    assert!(posc.initialize_authorities(authorities.clone()).is_ok());
    let schedule = posc.current_schedule.as_ref().unwrap();
    let mut slot_counts = HashMap::new();
    for block in &schedule.schedule {
        *slot_counts.entry(block.authority).or_insert(0u64) += 1;
    }
    let expected_slots = schedule.duration / 3;
    for (auth, count) in slot_counts {
        assert!(
            count >= expected_slots - 1 && count <= expected_slots + 2,
            "Authority {:?} has {} slots, expected around {}",
            auth,
            count,
            expected_slots
        );
    }
}

#[test]
fn pallet_bgs_value_counts_a_small_stake_as_one_million() {
    let posc = new_test_ext();
    let bgs = posc.calculate_bgs(&AuthorityId::from_raw([7u8; 32]));
    assert_eq!(bgs.score, 75);
    assert_eq!(bgs.authority, AuthorityId::from_raw([7u8; 32]));
}

#[test]
fn pallet_scores_are_stored_and_announced() {
    let mut posc = new_test_ext();
    let authorities = create_authorities(2);
    assert!(posc.initialize_authorities(authorities.clone()).is_ok());
    assert_eq!(posc.authority_scores.len(), 2);
    assert_eq!(posc.events.len(), 3);
    assert_eq!(
        posc.events[0],
        Event::AuthorityScoreCalculated { authority: authorities[0], score: 75, stake: 10000 }
    );
    assert_eq!(posc.events[2], Event::ScheduleGenerated { epoch_index: 0, schedule_length: 10 });
    // a second generation replaces the records instead of adding new ones
    assert!(posc.initialize_authorities(authorities.clone()).is_ok());
    assert_eq!(posc.authority_scores.len(), 2);
}

#[test]
fn pallet_generated_schedule_is_consecutive() {
    let mut posc = new_test_ext();
    let authorities = create_authorities(4);
    assert!(posc.initialize_authorities(authorities).is_ok());
    posc.change_epoch(5, 10);
    let next = posc.next_schedule.as_ref().unwrap();
    assert_eq!(next.epoch, 2);
    assert_eq!(next.start_slot, 20);
    for (k, block) in next.schedule.iter().enumerate() {
        assert_eq!(block.slot, 20 + k as u64);
    }
    let mut expected_seed = [0u8; 32];
    expected_seed[..8].copy_from_slice(&2u64.to_le_bytes());
    assert_eq!(next.randomness, expected_seed);
    assert_eq!(posc.last_epoch_change, 5);
    assert_eq!(
        *posc.events.last().unwrap(),
        Event::EpochChanged { epoch_index: 1, start_slot: 10, authorities: 4 }
    );
}

#[test]
fn pallet_epoch_change_rotates_authorities_and_schedules() {
    let mut posc = new_test_ext();
    assert!(posc.initialize_authorities(create_authorities(3)).is_ok());
    posc.on_new_session(true, create_authorities(5));
    assert_eq!(posc.next_authorities.len(), 5);
    posc.change_epoch(2, 10);
    assert_eq!(posc.authorities.len(), 5);
    // epoch 2's schedule was generated; epoch 0's is still current
    assert_eq!(posc.current_schedule.as_ref().unwrap().epoch, 0);
    posc.change_epoch(3, 20);
    assert_eq!(posc.current_schedule.as_ref().unwrap().epoch, 2);
    assert_eq!(posc.next_schedule.as_ref().unwrap().epoch, 3);
    assert_eq!(posc.epoch_index, 2);
}

#[test]
fn pallet_on_initialize_changes_epoch_at_epoch_boundary() {
    let mut posc = new_test_ext();
    assert!(posc.initialize_authorities(create_authorities(3)).is_ok());
    let accesses = posc.on_initialize(1, 5000);
    assert_eq!(accesses, DbAccesses { reads: 3, writes: 2 });
    assert_eq!(posc.current_slot, 5);
    assert_eq!(posc.epoch_index, 0);
    posc.on_initialize(2, 10_500);
    assert_eq!(posc.current_slot, 10);
    assert_eq!(posc.epoch_index, 1);
}

#[test]
fn pallet_on_initialize_without_block_time_does_nothing() {
    let mut config = test_config();
    config.expected_block_time = 0;
    let mut posc: TestPallet = Pallet::new(config, mock_randomness as fn([u8; 8]) -> Vec<u8>, proportional_share as fn(u64, u64, u64) -> u64);
    posc.on_initialize(1, 10_000);
    assert_eq!(posc.current_slot, 0);
    assert_eq!(posc.epoch_index, 0);
}

#[test]
fn pallet_should_epoch_change_needs_nonzero_duration() {
    let posc = new_test_ext();
    assert!(posc.should_epoch_change(0));
    assert!(posc.should_epoch_change(20));
    assert!(!posc.should_epoch_change(15));
    let mut config = test_config();
    config.epoch_duration = 0;
    let other: TestPallet = Pallet::new(config, mock_randomness as fn([u8; 8]) -> Vec<u8>, proportional_share as fn(u64, u64, u64) -> u64);
    assert!(!other.should_epoch_change(0));
}

#[test]
fn pallet_origins_are_checked() {
    let mut posc = new_test_ext();
    assert_eq!(posc.force_new_epoch(Origin::Signed(1), 1), Err(DispatchError::BadOrigin));
    assert_eq!(posc.force_new_epoch(Origin::Unsigned, 1), Err(DispatchError::BadOrigin));
    assert_eq!(posc.epoch_index, 0);
    assert_eq!(posc.report_equivocation(Origin::Signed(7), vec![1, 2, 3]), Ok(()));
    assert_eq!(posc.report_equivocation(Origin::Root, vec![]), Err(DispatchError::BadOrigin));
}

#[test]
fn pallet_genesis_session_ignores_oversized_sets() {
    let mut posc = new_test_ext();
    posc.on_genesis_session(create_authorities(11));
    assert!(posc.authorities.is_empty());
    assert!(posc.current_schedule.is_none());
    posc.on_genesis_session(create_authorities(2));
    assert_eq!(posc.authorities.len(), 2);
    assert!(posc.current_schedule.is_some());
    posc.on_new_session(false, create_authorities(4));
    assert!(posc.next_authorities.is_empty());
}

#[test]
fn pallet_without_authorities_generates_nothing() {
    let mut posc = new_test_ext();
    posc.generate_next_schedule(1, 10);
    assert!(posc.next_schedule.is_none());
    assert!(posc.events.is_empty());
}

#[test]
fn pallet_random_output_of_wrong_length_gives_zero_seed() {
    let mut posc = new_test_ext();
    posc.authorities = create_authorities(2);
    posc.generate_next_schedule_from(4, 40, &[9u8; 5]);
    assert_eq!(posc.next_schedule.as_ref().unwrap().randomness, [0u8; 32]);
    posc.generate_next_schedule_from(4, 40, &[9u8; 32]);
    assert_eq!(posc.next_schedule.as_ref().unwrap().randomness, [9u8; 32]);
}

#[test]
fn pallet_randomness_is_asked_for_the_epoch_index() {
    let mut posc = new_test_ext();
    assert!(posc.initialize_authorities(create_authorities(3)).is_ok());
    let genesis = posc.current_schedule.as_ref().unwrap();
    assert_eq!(genesis.randomness[..8], 0u64.to_le_bytes());
    assert_eq!(genesis.randomness[8..], [0u8; 24]);
    assert!(posc.force_new_epoch(Origin::Root, 5).is_ok());
    let next = posc.next_schedule.as_ref().unwrap();
    assert_eq!(next.epoch, 2);
    assert_eq!(next.randomness[..8], 2u64.to_le_bytes());
}

#[test]
fn pallet_no_authorities_nothing_changes() {
    let mut posc = new_test_ext();
    posc.generate_next_schedule(4, u64::MAX);
    assert!(posc.next_schedule.is_none());
    assert!(posc.authority_scores.is_empty());
    assert!(posc.events.is_empty());
}
