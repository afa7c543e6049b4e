use posc::agreement_sim;
use posc::byzantine_sim::{generate_schedule_from_seed, ElasticInitiationProposal, Node, NodeBehavior};
use posc::consensus_sim::{Authority, PoScConsensus, Schedule, Slot};
use posc::schedule_sim::{generate_schedule, Validator};
use posc::types::AuthorityId;

fn authorities() -> Vec<Authority> {
    vec![Authority { id: 0, stake: 50 }, Authority { id: 1, stake: 30 }, Authority { id: 2, stake: 20 }]
}

fn expected_assignment(auths: &[Authority], slot: u64) -> Authority {
    let total: u64 = auths.iter().map(|a| a.stake).sum();
    let selection = slot.wrapping_mul(2654435761) % total;
    let mut cumulative = 0;
    for a in auths {
        cumulative += a.stake;
        if selection < cumulative {
            return *a;
        }
    }
    unreachable!()
}

#[test]
fn sim_schedule_assigns_every_slot_of_the_epoch() {
    let auths = authorities();
    let schedule = Schedule::new(&auths, 10, 0);
    assert_eq!(schedule.epoch, 0);
    for slot in 0..10u64 {
        assert_eq!(schedule.get_scheduled_authority(Slot(slot)), Some(&expected_assignment(&auths, slot)));
    }
    assert_eq!(schedule.get_scheduled_authority(Slot(10)), None);
    let next = Schedule::new(&auths, 10, 1);
    assert_eq!(next.get_scheduled_authority(Slot(9)), None);
    assert!(next.get_scheduled_authority(Slot(15)).is_some());
}

#[test]
fn sim_slot_one_goes_to_authority_by_stake_range() {
    // 2654435761 % 100 = 61: cumulative stakes 50, 80 -> authority 1
    let schedule = Schedule::new(&authorities(), 10, 0);
    assert_eq!(schedule.get_scheduled_authority(Slot(1)).unwrap().id, 1);
    // slot 0 selects 0 -> authority 0
    assert_eq!(schedule.get_scheduled_authority(Slot(0)).unwrap().id, 0);
}

#[test]
fn sim_only_scheduled_authority_produces() {
    let auths = authorities();
    for authority in &auths {
        let consensus = PoScConsensus::new(*authority, Schedule::new(&auths, 10, 0));
        for slot in 0..10u64 {
            let scheduled = expected_assignment(&auths, slot) == *authority;
            assert_eq!(consensus.can_produce_block(Slot(slot)), scheduled);
            let result = consensus.try_produce_block(Slot(slot));
            assert_eq!(result.is_ok(), scheduled);
        }
    }
}

#[test]
fn sim_production_messages() {
    let auths = authorities();
    let consensus = PoScConsensus::new(auths[1], Schedule::new(&auths, 10, 0));
    assert_eq!(consensus.try_produce_block(Slot(1)), Ok("\u{2705} Block produced by Authority 1 at slot 1".to_string()));
    assert_eq!(consensus.try_produce_block(Slot(0)), Err("\u{274c} Authority 1 NOT scheduled for slot 0".to_string()));
    assert_eq!(consensus.try_produce_block(Slot(12)), Err("\u{274c} Authority 1 NOT scheduled for slot 12".to_string()));
}

fn logic_share(remaining: u64, bgs: u64, total: u64) -> u64 {
    let proportion = (bgs as f64) / (total as f64);
    (remaining as f64 * proportion) as usize as u64
}

#[test]
fn sim_validator_bgs() {
    let v = Validator { id: 0, stake: 50_000_000, security_score: 75 };
    assert_eq!(v.calculate_bgs(), 3750);
    let small = Validator { id: 1, stake: 999_999, security_score: 75 };
    assert_eq!(small.calculate_bgs(), 0);
}

#[test]
fn sim_generate_schedule_counts() {
    let validators = vec![
        Validator { id: 0, stake: 10_000_000, security_score: 75 },
        Validator { id: 1, stake: 10_000_000, security_score: 75 },
        Validator { id: 2, stake: 10_000_000, security_score: 75 },
    ];
    let schedule = generate_schedule(&validators, 30, 42, logic_share);
    assert_eq!(schedule.len(), 30);
    for id in 0..3u32 {
        assert_eq!(schedule.iter().filter(|x| **x == id).count(), 10);
    }
    assert_eq!(schedule, generate_schedule(&validators, 30, 42, logic_share));
}

#[test]
fn sim_generate_schedule_proportional() {
    let validators = vec![
        Validator { id: 0, stake: 50_000_000, security_score: 75 },
        Validator { id: 1, stake: 30_000_000, security_score: 75 },
        Validator { id: 2, stake: 10_000_000, security_score: 75 },
    ];
    // one each, then 27 * 5/9 = 15, 27 * 3/9 = 9, 27 * 1/9 = 3
    let schedule = generate_schedule(&validators, 30, 42, logic_share);
    assert_eq!(schedule.iter().filter(|x| **x == 0).count(), 16);
    assert_eq!(schedule.iter().filter(|x| **x == 1).count(), 10);
    assert_eq!(schedule.iter().filter(|x| **x == 2).count(), 4);
    assert!(generate_schedule(&[], 30, 42, logic_share).is_empty());
}

#[test]
fn sim_byzantine_nodes_diverge() {
    let validators: Vec<AuthorityId> = (1..=5u8).map(|i| AuthorityId::from_raw([i; 32])).collect();
    let eip = ElasticInitiationProposal::new(1, validators.clone());
    assert_eq!(eip.random_seed[0], 137);
    assert_eq!(eip.random_seed[5], 142);
    assert_eq!(eip.leader_id, validators[0]);
    let honest_a = Node { id: "Node-A".to_string(), behavior: NodeBehavior::Honest };
    let honest_b = Node { id: "Node-B".to_string(), behavior: NodeBehavior::Honest };
    let byzantine = Node { id: "Node-D".to_string(), behavior: NodeBehavior::Byzantine };
    let faulty = Node { id: "Node-C".to_string(), behavior: NodeBehavior::Faulty };
    let reference = generate_schedule_from_seed(eip.random_seed, &validators, 30);
    assert_eq!(reference.len(), 30);
    assert_eq!(honest_a.process_eip(&eip), reference);
    assert_eq!(honest_b.process_eip(&eip), reference);
    assert_ne!(byzantine.process_eip(&eip), reference);
    assert_ne!(faulty.process_eip(&eip), reference);
}

#[test]
fn sim_partitioned_epochs_differ() {
    let validators: Vec<AuthorityId> = (1..=5u8).map(|i| AuthorityId::from_raw([i; 32])).collect();
    let e1 = ElasticInitiationProposal::new(1, validators.clone());
    let e2 = ElasticInitiationProposal::new(2, validators.clone());
    let node = Node { id: "Group".to_string(), behavior: NodeBehavior::Honest };
    assert_ne!(node.process_eip(&e1), node.process_eip(&e2));
}

fn stake_share(remaining: u32, stake: u128, total: u128) -> u32 {
    let proportion = (stake as f64) / (total as f64);
    (remaining as f64 * proportion) as u32
}

fn agreement_validators() -> Vec<AuthorityId> {
    vec![AuthorityId::from_raw([1u8; 32]), AuthorityId::from_raw([2u8; 32]), AuthorityId::from_raw([3u8; 32])]
}

fn agreement_node(id: &str) -> agreement_sim::Node {
    agreement_sim::Node {
        id: id.to_string(),
        validators: agreement_validators(),
        stakes: vec![50_000_000u128, 30_000_000u128, 20_000_000u128],
    }
}

#[test]
fn agreement_seed_mixes_epoch_parent_and_timestamp() {
    let eip = agreement_sim::ElasticInitiationProposal::new(100, agreement_validators(), [0xAAu8; 32], 1234567890);
    assert_eq!(
        eip.random_seed,
        [
            158, 26, 30, 30, 26, 26, 38, 38, 136, 56, 116, 57, 42, 42, 38, 38, 10, 11, 12, 13, 14, 15, 16, 17, 18, 19,
            20, 21, 22, 23, 24, 25
        ]
    );
    assert_eq!(eip.leader_id, AuthorityId::from_raw([1u8; 32]));
    assert!(eip.verify());
}

#[test]
fn agreement_inconsistent_proposals_are_refused() {
    let mut eip = agreement_sim::ElasticInitiationProposal::new(100, agreement_validators(), [0xAAu8; 32], 1234567890);
    eip.random_seed[3] ^= 1;
    assert!(!eip.verify());
    assert_eq!(agreement_node("Node-A").process_eip(&eip, stake_share), Err("Node Node-A: eIP verification failed".to_string()));
    let mut eip = agreement_sim::ElasticInitiationProposal::new(100, agreement_validators(), [0xAAu8; 32], 1234567890);
    eip.leader_id = AuthorityId::from_raw([2u8; 32]);
    assert!(!eip.verify());
    let mut eip = agreement_sim::ElasticInitiationProposal::new(100, agreement_validators(), [0xAAu8; 32], 1234567890);
    eip.validators.clear();
    assert!(!eip.verify());
}

#[test]
fn agreement_all_nodes_draw_the_same_schedule() {
    let eip = agreement_sim::ElasticInitiationProposal::new(100, agreement_validators(), [0xAAu8; 32], 1234567890);
    let reference = agreement_node("Node-A").process_eip(&eip, stake_share).unwrap();
    assert_eq!(reference.len(), 30);
    for id in ["Node-B", "Node-C", "Node-D", "Node-E"] {
        assert_eq!(agreement_node(id).process_eip(&eip, stake_share).unwrap(), reference);
    }
    let again = agreement_sim::ElasticInitiationProposal::new(100, agreement_validators(), [0xAAu8; 32], 1234567890);
    assert_eq!(agreement_node("Test").process_eip(&again, stake_share).unwrap(), reference);
    // The timestamp is mixed into seed bytes 8..16, which the draw does not read.
    let later = agreement_sim::ElasticInitiationProposal::new(100, agreement_validators(), [0xAAu8; 32], 1234567891);
    assert_ne!(later.random_seed, eip.random_seed);
    assert_eq!(later.random_seed[..8], eip.random_seed[..8]);
    assert_eq!(agreement_node("Test").process_eip(&later, stake_share).unwrap(), reference);
    let next = agreement_sim::ElasticInitiationProposal::new(101, agreement_validators(), [0xAAu8; 32], 1234567890);
    assert_ne!(agreement_node("Test").process_eip(&next, stake_share).unwrap(), reference);
}

#[test]
fn agreement_shares_follow_stakes() {
    let shares = agreement_sim::calculate_bgs_shares(
        &agreement_validators(),
        &[50_000_000u128, 30_000_000u128, 20_000_000u128],
        30,
        1,
        stake_share,
    );
    let v = agreement_validators();
    assert_eq!(shares, vec![(v[0], 14), (v[1], 9), (v[2], 6)]);
    let no_stake = agreement_sim::calculate_bgs_shares(&v, &[0u128, 0, 0], 30, 1, stake_share);
    assert_eq!(no_stake, vec![(v[0], 1), (v[1], 1), (v[2], 1)]);
    let all_minimum = agreement_sim::calculate_bgs_shares(&v, &[5u128, 5, 5], 6, 2, stake_share);
    assert_eq!(all_minimum, vec![(v[0], 2), (v[1], 2), (v[2], 2)]);
}

#[test]
fn agreement_matrix_rows_follow_shares() {
    let a = AuthorityId::from_raw([1u8; 32]);
    let b = AuthorityId::from_raw([2u8; 32]);
    let single = agreement_sim::ScheduleMatrix::new(&[(a, 1), (b, 0)], 5);
    assert_eq!(single.generate_schedule([9u8; 32]), vec![a; 5]);
    let empty = agreement_sim::ScheduleMatrix::new(&[(a, 0)], 5);
    assert!(empty.generate_schedule([9u8; 32]).is_empty());
    let two = agreement_sim::ScheduleMatrix::new(&[(a, 1), (b, 1)], 8);
    let seed = [3u8; 32];
    let expected = generate_schedule_from_seed(seed, &[a, b], 8);
    assert_eq!(two.generate_schedule(seed), expected);
}

#[test]
fn sim_slot_counts_per_validator() {
    let validators = vec![
        Validator { id: 4, stake: 1, security_score: 1 },
        Validator { id: 9, stake: 1, security_score: 1 },
        Validator { id: 2, stake: 1, security_score: 1 },
    ];
    assert_eq!(posc::schedule_sim::slot_counts(&[9, 4, 9, 9, 7], &validators), vec![1, 3, 0]);
}

#[test]
fn byzantine_agreement_counts() {
    let a = AuthorityId::from_raw([1u8; 32]);
    let b = AuthorityId::from_raw([2u8; 32]);
    let reference = vec![a, b];
    let schedules = vec![vec![a, b], vec![b, a], vec![a, b], vec![a]];
    assert_eq!(posc::byzantine_sim::count_agreeing(&schedules, &reference), 2);
    assert!(posc::byzantine_sim::same_schedule(&vec![a, b], &reference));
    assert!(!posc::byzantine_sim::same_schedule(&vec![a], &reference));
}
