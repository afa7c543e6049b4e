//! Proof of Schedule (PoSc) consensus: deterministic block schedules built from
//! block-generation scores, epoch initiation proposals, and the epoch state machine.

pub mod types;
pub mod crypto;
pub mod seqs;
pub mod runs;
pub mod primitives;
pub mod schedule;
pub mod eabs;
pub mod eip;
pub mod pallet;
pub mod consensus_sim;
pub mod schedule_sim;
pub mod byzantine_sim;
pub mod agreement_sim;
