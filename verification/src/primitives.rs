//! Core PoSc types: scheduled blocks, epoch schedules, block generation scores, and the
//! schedule configuration.

use vstd::prelude::*;
use crate::types::{AuthorityId, AuthoritySignature};

verus! {

/// The consensus engine identifier of PoSc.
pub const POSC_ENGINE_ID: [u8; 4] = [80u8, 111u8, 83u8, 99u8];

/// The index of an authority in the authority set.
pub type AuthorityIndex = u32;

/// Evidence that an authority produced two blocks for one slot.
pub struct EquivocationProof<Header> {
    /// The authority that produced the equivocation.
    pub offender: AuthorityId,
    /// The slot at which the equivocation happened.
    pub slot: u64,
    /// The first header involved in the equivocation.
    pub first_header: Header,
    /// The second header involved in the equivocation.
    pub second_header: Header,
}

/// A block assignment: which authority produces the block of a slot.
#[derive(Clone, Copy, Debug)]
pub struct ScheduledBlock {
    /// The slot number of the block.
    pub slot: u64,
    /// The authority assigned to produce the block.
    pub authority: AuthorityId,
    /// The index of that authority.
    pub authority_index: AuthorityIndex,
}

/// The position of the first block of `blocks` scheduled for `slot`, if any.
pub open spec fn first_block_for_slot(blocks: Seq<ScheduledBlock>, slot: u64) -> Option<int> {
    if exists|k: int|
        0 <= k < blocks.len() && blocks[k].slot == slot && forall|m: int|
            0 <= m < k ==> blocks[m].slot != slot {
        Some(
            choose|k: int|
                0 <= k < blocks.len() && blocks[k].slot == slot && forall|m: int|
                    0 <= m < k ==> blocks[m].slot != slot,
        )
    } else {
        None
    }
}

/// The complete schedule of an epoch.
#[derive(Debug)]
pub struct EpochSchedule {
    /// The epoch number.
    pub epoch: u64,
    /// The first slot of the epoch.
    pub start_slot: u64,
    /// The number of slots in the epoch.
    pub duration: u64,
    /// The scheduled blocks of the epoch.
    pub schedule: Vec<ScheduledBlock>,
    /// The randomness the schedule was generated from.
    pub randomness: [u8; 32],
}

impl EpochSchedule {
    /// Whether `slot` lies in this epoch: `start_slot <= slot < start_slot + duration`.
    pub open spec fn covers(&self, slot: u64) -> bool {
        self.start_slot <= slot && slot - self.start_slot < self.duration
    }

    /// The authority scheduled for `slot`: that of the first scheduled block for the
    /// slot, provided the slot lies in this epoch.
    pub open spec fn authority_at(&self, slot: u64) -> Option<AuthorityId> {
        if !self.covers(slot) {
            None
        } else {
            match first_block_for_slot(self.schedule@, slot) {
                Some(k) => Some(self.schedule@[k].authority),
                None => None,
            }
        }
    }

    /// Gets the authority assigned to a specific slot.
    pub fn get_authority_for_slot(&self, slot: u64) -> (r: Option<&AuthorityId>)
        ensures
            match r {
                Some(a) => self.authority_at(slot) == Some(*a),
                None => self.authority_at(slot) is None,
            },
    {
        if slot < self.start_slot {
            return None;
        }
        let slot_offset = slot - self.start_slot;
        if slot_offset >= self.duration {
            return None;
        }
        let mut i: usize = 0;
        while i < self.schedule.len()
            invariant
                i <= self.schedule@.len(),
                self.covers(slot),
                forall|m: int| 0 <= m < i ==> self.schedule@[m].slot != slot,
            decreases self.schedule@.len() - i,
        {
            if self.schedule[i].slot == slot {
                proof {
                    let k = i as int;
                    assert(0 <= k < self.schedule@.len() && self.schedule@[k].slot == slot
                        && forall|m: int| 0 <= m < k ==> self.schedule@[m].slot != slot);
                    assert(exists|k: int|
                        0 <= k < self.schedule@.len() && self.schedule@[k].slot == slot
                            && forall|m: int| 0 <= m < k ==> self.schedule@[m].slot != slot);
                    let c = first_block_for_slot(self.schedule@, slot)->0;
                    assert(c == k) by {
                        if c < k {
                            assert(self.schedule@[c].slot != slot);
                        } else if c > k {
                            assert(self.schedule@[k].slot != slot);
                        }
                    }
                }
                return Some(&self.schedule[i].authority);
            }
            i += 1;
        }
        None
    }

    /// Whether `authority` is the authority scheduled for `slot`.
    pub fn is_scheduled(&self, slot: u64, authority: &AuthorityId) -> (r: bool)
        ensures
            r == (self.authority_at(slot) == Some(*authority)),
    {
        match self.get_authority_for_slot(slot) {
            Some(scheduled) => *scheduled == *authority,
            None => false,
        }
    }
}

/// The normalised stake of a block generation score: the stake in whole millions, cut
/// to 64 bits, except that a positive stake below one million counts as one.
pub open spec fn normalized_stake(stake: u128) -> u64 {
    if 0 < stake < 1_000_000 {
        1
    } else {
        ((stake / 1_000_000) as u128) as u64
    }
}

/// The block generation score of a security score and a stake: their product with the
/// stake normalised, saturating at `u64::MAX`.
pub open spec fn bgs_value(security_score: u64, stake: u128) -> u64 {
    let p = security_score as int * normalized_stake(stake) as int;
    if p <= u64::MAX { p as u64 } else { u64::MAX }
}

/// The block generation score (BGS) of an authority.
#[derive(Clone, Copy, Debug)]
pub struct BlockGenerationScore {
    /// The authority.
    pub authority: AuthorityId,
    /// Security score (0-100).
    pub security_score: u64,
    /// Stake amount.
    pub stake: u128,
    /// Calculated BGS value.
    pub score: u64,
}

impl BlockGenerationScore {
    /// Calculates the BGS of a security score and a stake: `security_score` times the
    /// stake counted in whole millions (a positive stake below one million counts as
    /// one), saturating.
    pub fn calculate(security_score: u64, stake: u128) -> (r: u64)
        ensures
            r == bgs_value(security_score, stake),
    {
        let millions: u128 = if 0 < stake && stake < 1_000_000 { 1 } else { stake / 1_000_000 };
        let normalized_stake = #[verifier::truncate] (millions as u64);
        match security_score.checked_mul(normalized_stake) {
            Some(v) => v,
            None => u64::MAX,
        }
    }
}

/// Configuration of the schedule generation.
#[derive(Clone, Copy, Debug)]
pub struct ScheduleConfig {
    /// Minimum blocks guaranteed per validator.
    pub min_blocks_per_validator: u32,
    /// Maximum consecutive blocks for a single validator.
    pub max_consecutive_blocks: u32,
    /// Whether to shuffle the final schedule.
    pub shuffle_schedule: bool,
}

impl Default for ScheduleConfig {
    fn default() -> (r: Self)
        ensures
            r.min_blocks_per_validator == 1,
            r.max_consecutive_blocks == 3,
            r.shuffle_schedule,
    {
        ScheduleConfig { min_blocks_per_validator: 1, max_consecutive_blocks: 3, shuffle_schedule: true }
    }
}

/// The pre-runtime digest of a PoSc block.
#[derive(Clone, Copy, Debug)]
pub struct PreDigest {
    /// The slot number.
    pub slot: u64,
    /// The index of the authority that created the block.
    pub authority_index: AuthorityIndex,
}

/// A PoSc digest item added to the block header.
#[derive(Clone, Copy, Debug)]
pub enum DigestItem {
    /// A pre-runtime digest.
    PreRuntime(PreDigest),
    /// A seal signature.
    Seal(AuthoritySignature),
}

} // verus!

verus! {

/// A schedule has at most one authority per slot: an authority scheduled for a slot is
/// the one `authority_at` names, so two authorities scheduled for one slot are equal.
pub proof fn law_one_authority_per_slot(s: EpochSchedule, slot: u64, a1: AuthorityId, a2: AuthorityId)
    requires
        s.authority_at(slot) == Some(a1),
        s.authority_at(slot) == Some(a2),
    ensures
        a1 == a2,
{
}

/// No authority is scheduled for a slot outside the epoch.
pub proof fn law_no_authority_outside_epoch(s: EpochSchedule, slot: u64)
    requires
        !s.covers(slot),
    ensures
        s.authority_at(slot) is None,
{
}

/// In a schedule whose `k`-th block is for slot `start_slot + k`, one block per slot of
/// the epoch, the authority of each slot is the authority of its block.
pub proof fn law_consecutive_schedule_lookup(s: EpochSchedule, k: int)
    requires
        s.schedule@.len() == s.duration,
        forall|i: int| 0 <= i < s.schedule@.len() ==> #[trigger] s.schedule@[i].slot == s.start_slot + i,
        0 <= k < s.schedule@.len(),
    ensures
        s.authority_at((s.start_slot + k) as u64) == Some(s.schedule@[k].authority),
{
    let slot = (s.start_slot + k) as u64;
    assert(s.schedule@[k].slot == slot);
    assert forall|m: int| 0 <= m < k implies s.schedule@[m].slot != slot by {
        assert(s.schedule@[m].slot == s.start_slot + m);
    }
    assert(exists|j: int|
        0 <= j < s.schedule@.len() && s.schedule@[j].slot == slot && forall|m: int| 0 <= m < j ==> s.schedule@[m].slot != slot);
    let c = first_block_for_slot(s.schedule@, slot)->0;
    assert(c == k) by {
        if c < k {
            assert(s.schedule@[c].slot == s.start_slot + c);
        } else if c > k {
            assert(s.schedule@[k].slot == slot);
        }
    }
}

} // verus!
