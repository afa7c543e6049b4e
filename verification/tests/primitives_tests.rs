use posc::primitives::{BlockGenerationScore, EpochSchedule, ScheduleConfig, ScheduledBlock, POSC_ENGINE_ID};
use posc::schedule::ScheduleGenerator;
use posc::types::AuthorityId;

fn share(remaining: u64, score: u64, total: u64) -> u64 {
    let proportion = score as f64 / total as f64;
    (remaining as f64 * proportion) as usize as u64
}

fn scores(values: &[u64]) -> Vec<BlockGenerationScore> {
    values
        .iter()
        .enumerate()
        .map(|(i, v)| BlockGenerationScore {
            authority: AuthorityId::from_raw([i as u8; 32]),
            security_score: 75,
            stake: 0,
            score: *v,
        })
        .collect()
}

fn sample_schedule() -> EpochSchedule {
    let a = AuthorityId::from_raw([1u8; 32]);
    let b = AuthorityId::from_raw([2u8; 32]);
    EpochSchedule {
        epoch: 3,
        start_slot: 100,
        duration: 3,
        schedule: vec![
            ScheduledBlock { slot: 100, authority: a, authority_index: 0 },
            ScheduledBlock { slot: 101, authority: b, authority_index: 1 },
            ScheduledBlock { slot: 101, authority: a, authority_index: 0 },
        ],
        randomness: [0u8; 32],
    }
}

#[test]
fn primitives_engine_id_is_posc() {
    assert_eq!(&POSC_ENGINE_ID, b"PoSc");
}

#[test]
fn primitives_bgs_calculation() {
    assert_eq!(BlockGenerationScore::calculate(75, 50_000_000), 3750);
    assert_eq!(BlockGenerationScore::calculate(75, 10_000), 75);
    assert_eq!(BlockGenerationScore::calculate(75, 0), 0);
    assert_eq!(BlockGenerationScore::calculate(75, 1_000_001), 75);
    assert_eq!(BlockGenerationScore::calculate(75, 1_500_000), 75);
    assert_eq!(BlockGenerationScore::calculate(75, 999_999), 75);
    assert_eq!(BlockGenerationScore::calculate(u64::MAX, 5_000_000), u64::MAX);
}

#[test]
fn primitives_default_config() {
    let config = ScheduleConfig::default();
    assert_eq!(config.min_blocks_per_validator, 1);
    assert_eq!(config.max_consecutive_blocks, 3);
    assert!(config.shuffle_schedule);
}

#[test]
fn primitives_slot_lookup() {
    let s = sample_schedule();
    let a = AuthorityId::from_raw([1u8; 32]);
    let b = AuthorityId::from_raw([2u8; 32]);
    assert_eq!(s.get_authority_for_slot(99), None);
    assert_eq!(s.get_authority_for_slot(100), Some(&a));
    assert_eq!(s.get_authority_for_slot(101), Some(&b));
    assert_eq!(s.get_authority_for_slot(102), None);
    assert_eq!(s.get_authority_for_slot(103), None);
    assert!(s.is_scheduled(101, &b));
    assert!(!s.is_scheduled(101, &a));
    assert!(!s.is_scheduled(105, &a));
}

#[test]
fn primitives_schedule_length_and_indices() {
    let config = ScheduleConfig::default();
    let sc = scores(&[3750, 2250, 1500]);
    let schedule = ScheduleGenerator::generate_schedule(&sc, 30, [42u8; 32], &config, share);
    assert_eq!(schedule.len(), 30);
    for index in &schedule {
        assert!((*index as usize) < sc.len());
    }
    for i in 0..3u32 {
        assert!(schedule.iter().filter(|x| **x == i).count() >= 1);
    }
}

#[test]
fn primitives_allocation_without_shuffle_or_limit() {
    let config = ScheduleConfig { min_blocks_per_validator: 1, max_consecutive_blocks: 0, shuffle_schedule: false };
    let sc = scores(&[3, 1]);
    // minimum: [0, 1]; remaining 8: index 0 gets 6, index 1 gets 2
    let schedule = ScheduleGenerator::generate_schedule(&sc, 10, [0u8; 32], &config, share);
    assert_eq!(schedule, vec![0, 1, 0, 0, 0, 0, 0, 0, 1, 1]);
    // zero scores: round-robin fill after the minimum
    let zero = scores(&[0, 0, 0]);
    let schedule = ScheduleGenerator::generate_schedule(&zero, 7, [0u8; 32], &config, share);
    assert_eq!(schedule, vec![0, 1, 2, 0, 1, 2, 0]);
}

#[test]
fn primitives_consecutive_limit() {
    let config = ScheduleConfig { min_blocks_per_validator: 0, max_consecutive_blocks: 2, shuffle_schedule: false };
    let sc = scores(&[3, 1]);
    // allocation [0 x 6, 1 x 2]; each run of 0 longer than 2 gets a 1 swapped in after 2
    let schedule = ScheduleGenerator::generate_schedule(&sc, 8, [0u8; 32], &config, share);
    assert_eq!(schedule, vec![0, 0, 1, 0, 0, 1, 0, 0]);
}

#[test]
fn primitives_shuffle_is_deterministic() {
    let config = ScheduleConfig::default();
    let sc = scores(&[5, 5, 5, 5]);
    let a = ScheduleGenerator::generate_schedule(&sc, 20, [9u8; 32], &config, share);
    let b = ScheduleGenerator::generate_schedule(&sc, 20, [9u8; 32], &config, share);
    assert_eq!(a, b);
    let mut sorted = a.clone();
    sorted.sort();
    assert_eq!(sorted, vec![0, 0, 0, 0, 0, 1, 1, 1, 1, 1, 2, 2, 2, 2, 2, 3, 3, 3, 3, 3]);
}

#[test]
fn primitives_empty_schedule() {
    let config = ScheduleConfig::default();
    assert!(ScheduleGenerator::generate_schedule(&[], 10, [0u8; 32], &config, share).is_empty());
    assert!(ScheduleGenerator::generate_schedule(&scores(&[1]), 0, [0u8; 32], &config, share).is_empty());
    assert_eq!(ScheduleGenerator::total_score(&scores(&[1, 2, 3])), 6);
}

fn longest_run<T: PartialEq>(s: &[T]) -> usize {
    let mut best = 0;
    let mut run = 0;
    for i in 0..s.len() {
        run = if i > 0 && s[i] == s[i - 1] { run + 1 } else { 1 };
        best = best.max(run);
    }
    best
}

#[test]
fn schedule_limit_holds_where_the_single_pass_leaves_a_long_run() {
    let config = ScheduleConfig { min_blocks_per_validator: 0, max_consecutive_blocks: 2, shuffle_schedule: false };
    let schedule = ScheduleGenerator::generate_schedule(&scores(&[3, 5]), 8, [0u8; 32], &config, share);
    assert_eq!(schedule.len(), 8);
    assert!(longest_run(&schedule) <= 2);
    assert_eq!(schedule.iter().filter(|v| **v == 0).count(), 3);
    assert_eq!(schedule.iter().filter(|v| **v == 1).count(), 5);
}

#[test]
fn schedule_limit_holds_after_the_shuffle() {
    for seed_byte in 0..20u8 {
        let config = ScheduleConfig { min_blocks_per_validator: 1, max_consecutive_blocks: 2, shuffle_schedule: true };
        let schedule = ScheduleGenerator::generate_schedule(&scores(&[10, 30, 60]), 20, [seed_byte; 32], &config, share);
        assert_eq!(schedule.len(), 20);
        assert!(longest_run(&schedule) <= 2);
    }
}

#[test]
fn schedule_limit_kept_where_already_met() {
    let config = ScheduleConfig { min_blocks_per_validator: 1, max_consecutive_blocks: 3, shuffle_schedule: false };
    let schedule = ScheduleGenerator::generate_schedule(&scores(&[1, 1, 1]), 3, [0u8; 32], &config, share);
    assert_eq!(schedule, vec![0, 1, 2]);
}

#[test]
fn schedule_limit_impossible_leaves_blocks_unchanged() {
    let config = ScheduleConfig { min_blocks_per_validator: 0, max_consecutive_blocks: 1, shuffle_schedule: false };
    let schedule = ScheduleGenerator::generate_schedule(&scores(&[1]), 4, [0u8; 32], &config, share);
    assert_eq!(schedule, vec![0, 0, 0, 0]);
}

#[test]
fn schedule_limit_out_of_reach_keeps_the_pass_order() {
    let config = ScheduleConfig { min_blocks_per_validator: 0, max_consecutive_blocks: 3, shuffle_schedule: false };
    let schedule = ScheduleGenerator::generate_schedule(&scores(&[7, 1]), 8, [0u8; 32], &config, share);
    assert_eq!(schedule, vec![0, 0, 0, 1, 0, 0, 0, 0]);
}
