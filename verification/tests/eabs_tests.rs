use std::collections::HashMap;

use posc::eabs::{ElasticScheduleGenerator, ScheduleMatrix};
use posc::primitives::BlockGenerationScore;
use posc::types::AuthorityId;

fn eabs_share(remaining: u64, score: u64, total: u64) -> u64 {
    let proportion = (score as f64) / (total as f64);
    (remaining as f64 * proportion) as u32 as u64
}

fn create_test_scores() -> Vec<BlockGenerationScore> {
    vec![
        BlockGenerationScore { authority: AuthorityId::from_raw([1u8; 32]), security_score: 75, stake: 50_000_000, score: 3750 },
        BlockGenerationScore { authority: AuthorityId::from_raw([2u8; 32]), security_score: 75, stake: 30_000_000, score: 2250 },
        BlockGenerationScore { authority: AuthorityId::from_raw([3u8; 32]), security_score: 75, stake: 20_000_000, score: 1500 },
    ]
}

#[test]
fn test_eabs_schedule_generation() {
    let scores = create_test_scores();
    let blocks_per_epoch = 30;
    let random_seed = [42u8; 32];
    let min_blocks = 1;
    let schedule = ElasticScheduleGenerator::generate_schedule(&scores, blocks_per_epoch, random_seed, min_blocks, eabs_share);
    assert_eq!(schedule.len(), blocks_per_epoch as usize);
    let mut counts = HashMap::new();
    for validator in &schedule {
        *counts.entry(validator.clone()).or_insert(0) += 1;
    }
    assert_eq!(counts.len(), 3);
    let v1_count = counts.get(&scores[0].authority).unwrap_or(&0);
    assert!(*v1_count >= 12 && *v1_count <= 18);
}

#[test]
fn test_matrix_creation() {
    let bgs_shares = vec![
        (AuthorityId::from_raw([1u8; 32]), 5),
        (AuthorityId::from_raw([2u8; 32]), 3),
        (AuthorityId::from_raw([3u8; 32]), 2),
    ];
    let mut matrix = ScheduleMatrix::new(10, 20);
    matrix.fill_elastic(&bgs_shares);
    for col in 0..20 {
        assert_eq!(matrix.cell(0, col), Some(AuthorityId::from_raw([1u8; 32])));
    }
}

#[test]
fn eabs_matrix_rows_follow_shares() {
    let bgs_shares = vec![(AuthorityId::from_raw([1u8; 32]), 2), (AuthorityId::from_raw([2u8; 32]), 3)];
    let mut matrix = ScheduleMatrix::new(4, 3);
    assert_eq!(matrix.total_rows(), 4);
    assert_eq!(matrix.total_cols(), 3);
    assert_eq!(matrix.cell(3, 2), None);
    matrix.fill_elastic(&bgs_shares);
    assert_eq!(matrix.cell(1, 2), Some(AuthorityId::from_raw([1u8; 32])));
    assert_eq!(matrix.cell(2, 0), Some(AuthorityId::from_raw([2u8; 32])));
    assert_eq!(matrix.cell(3, 1), Some(AuthorityId::from_raw([2u8; 32])));
}

#[test]
fn eabs_matrix_draw_without_rows_is_empty() {
    let matrix = ScheduleMatrix::new(0, 5);
    assert!(matrix.generate_schedule([7u8; 32]).is_empty());
    let mut one = ScheduleMatrix::new(1, 4);
    one.fill_elastic(&[(AuthorityId::from_raw([8u8; 32]), 1)]);
    assert_eq!(one.generate_schedule([7u8; 32]), vec![AuthorityId::from_raw([8u8; 32]); 4]);
}

#[test]
fn eabs_empty_inputs_give_empty_schedule() {
    assert!(ElasticScheduleGenerator::generate_schedule(&[], 30, [1u8; 32], 1, eabs_share).is_empty());
    assert!(ElasticScheduleGenerator::generate_schedule(&create_test_scores(), 0, [1u8; 32], 1, eabs_share).is_empty());
}

#[test]
fn eabs_schedule_is_deterministic_and_seed_dependent() {
    let scores = create_test_scores();
    let a = ElasticScheduleGenerator::generate_schedule(&scores, 30, [42u8; 32], 1, eabs_share);
    let b = ElasticScheduleGenerator::generate_schedule(&scores, 30, [42u8; 32], 1, eabs_share);
    let c = ElasticScheduleGenerator::generate_schedule(&scores, 30, [43u8; 32], 1, eabs_share);
    assert_eq!(a, b);
    assert_ne!(a, c);
}

#[test]
fn eabs_zero_scores_share_equally() {
    let mut scores = create_test_scores();
    for s in &mut scores {
        s.score = 0;
    }
    let schedule = ElasticScheduleGenerator::generate_schedule(&scores, 30, [5u8; 32], 1, eabs_share);
    assert_eq!(schedule.len(), 30);
    for v in &schedule {
        assert!(scores.iter().any(|s| s.authority == *v));
    }
}

#[test]
fn eabs_minimum_taking_every_block() {
    let scores = create_test_scores();
    let schedule = ElasticScheduleGenerator::generate_schedule(&scores, 6, [5u8; 32], 2, eabs_share);
    assert_eq!(schedule.len(), 6);
    for v in &schedule {
        assert!(scores.iter().any(|s| s.authority == *v));
    }
}

#[test]
fn eabs_counts_match_shares() {
    let scores = create_test_scores();
    for seed in [[42u8; 32], [0u8; 32], [200u8; 32]] {
        let schedule = ElasticScheduleGenerator::generate_schedule(&scores, 30, seed, 1, eabs_share);
        let count = |i: usize| schedule.iter().filter(|v| **v == scores[i].authority).count();
        assert_eq!((count(0), count(1), count(2)), (15, 9, 6));
    }
}

fn longest_run(s: &[AuthorityId]) -> usize {
    let mut best = 0;
    let mut run = 0;
    for i in 0..s.len() {
        run = if i > 0 && s[i] == s[i - 1] { run + 1 } else { 1 };
        best = best.max(run);
    }
    best
}

#[test]
fn eabs_runs_stay_within_three() {
    let scores = vec![
        BlockGenerationScore { authority: AuthorityId::from_raw([1u8; 32]), security_score: 75, stake: 0, score: 900 },
        BlockGenerationScore { authority: AuthorityId::from_raw([2u8; 32]), security_score: 75, stake: 0, score: 100 },
    ];
    for seed_byte in 0..30u8 {
        let schedule = ElasticScheduleGenerator::generate_schedule(&scores, 5, [seed_byte; 32], 1, eabs_share);
        assert_eq!(schedule.len(), 5);
        assert!(longest_run(&schedule) <= 3);
    }
}
