//! A slot-assignment model of PoSc block production: each slot of an epoch is given to
//! the authority whose cumulative stake range contains a hash of the slot number, and an
//! authority may produce a block only in the slots assigned to it.

use vstd::prelude::*;
use std::collections::HashMap;

verus! {

broadcast use vstd::std_specs::hash::group_hash_axioms;

/// A slot number.
#[derive(Clone, Copy, Debug, PartialEq, Eq, Hash, Structural)]
pub struct Slot(pub u64);

/// An authority and its stake.
#[derive(Clone, Copy, Debug, PartialEq, Eq, Hash, Structural)]
pub struct Authority {
    /// The authority's identifier.
    pub id: u32,
    /// The authority's stake.
    pub stake: u64,
}

/// The stake of the first `k` authorities.
pub open spec fn stake_prefix(auths: Seq<Authority>, k: int) -> int
    decreases k,
{
    if k <= 0 || k > auths.len() {
        0
    } else {
        stake_prefix(auths, k - 1) + auths[k - 1].stake
    }
}

/// The stake of all the authorities.
pub open spec fn total_stake(auths: Seq<Authority>) -> int {
    stake_prefix(auths, auths.len() as int)
}

/// The selection value of a slot: its number times 2654435761 (wrapping), modulo the
/// total stake.
pub open spec fn slot_selection(slot: u64, total: u64) -> u64 {
    (slot.wrapping_mul(2654435761) % total) as u64
}

/// The first authority from position `k` on whose cumulative stake exceeds `sel`.
pub open spec fn pick_from(auths: Seq<Authority>, sel: int, k: int) -> Option<Authority>
    decreases auths.len() - k,
{
    if k < 0 || k >= auths.len() {
        None
    } else if sel < stake_prefix(auths, k + 1) {
        Some(auths[k])
    } else {
        pick_from(auths, sel, k + 1)
    }
}

/// The authority assigned to a slot: the one whose cumulative stake range contains the
/// slot's selection value.
pub open spec fn assignment_for(auths: Seq<Authority>, slot: u64) -> Option<Authority> {
    pick_from(auths, slot_selection(slot, total_stake(auths) as u64) as int, 0)
}

/// The assignments of epoch `epoch`: every slot from `epoch * epoch_length` on, for
/// `epoch_length` slots, that has an assigned authority.
pub open spec fn epoch_assignments(auths: Seq<Authority>, epoch_length: u64, epoch: u64) -> Map<u64, Authority> {
    Map::new(
        |s: u64| epoch * epoch_length <= s < epoch * epoch_length + epoch_length && assignment_for(auths, s) is Some,
        |s: u64| assignment_for(auths, s)->0,
    )
}

/// The stake prefixes grow with the prefix.
pub proof fn lemma_stake_prefix_mono(auths: Seq<Authority>, j: int, k: int)
    requires
        0 <= j <= k <= auths.len(),
    ensures
        0 <= stake_prefix(auths, j) <= stake_prefix(auths, k),
    decreases k,
{
    if j < k {
        lemma_stake_prefix_mono(auths, j, k - 1);
    } else if k > 0 {
        lemma_stake_prefix_mono(auths, 0, k - 1);
    }
}

/// Every slot of an epoch has an assigned authority once the authorities hold stake.
pub proof fn law_every_slot_assigned(auths: Seq<Authority>, slot: u64)
    requires
        0 < total_stake(auths) <= u64::MAX,
    ensures
        assignment_for(auths, slot) is Some,
{
    let sel = slot_selection(slot, total_stake(auths) as u64) as int;
    assert(sel < total_stake(auths));
    lemma_pick_finds(auths, sel, 0);
}

/// A selection below the stake of the authorities from `k` on is picked up.
pub proof fn lemma_pick_finds(auths: Seq<Authority>, sel: int, k: int)
    requires
        0 <= k < auths.len() || (k == auths.len() && sel < stake_prefix(auths, k)),
        stake_prefix(auths, k) <= sel < total_stake(auths) || k == 0 && sel < total_stake(auths),
        0 <= sel,
    ensures
        pick_from(auths, sel, k) is Some,
    decreases auths.len() - k,
{
    if k < auths.len() && sel >= stake_prefix(auths, k + 1) {
        lemma_pick_finds(auths, sel, k + 1);
    }
}

/// The schedule of an epoch: the authority assigned to each slot.
pub struct Schedule {
    /// The epoch.
    pub epoch: u64,
    /// The authority assigned to each slot, by slot number.
    pub assignments: HashMap<u64, Authority>,
}

impl Schedule {
    /// Generates the deterministic schedule of epoch `epoch`: each of its `epoch_length`
    /// slots goes to the authority whose cumulative stake range contains the slot's
    /// selection value.
    pub fn new(authorities: &[Authority], epoch_length: u64, epoch: u64) -> (r: Self)
        requires
            total_stake(authorities@) <= u64::MAX,
            epoch_length > 0 ==> total_stake(authorities@) > 0,
            epoch * epoch_length + epoch_length <= u64::MAX,
        ensures
            r.epoch == epoch,
            r.assignments@ == epoch_assignments(authorities@, epoch_length, epoch),
    {
        let mut assignments: HashMap<u64, Authority> = HashMap::new();
        let mut total_stake_acc: u64 = 0;
        let mut i: usize = 0;
        while i < authorities.len()
            invariant
                i <= authorities@.len(),
                total_stake(authorities@) <= u64::MAX,
                total_stake_acc == stake_prefix(authorities@, i as int),
            decreases authorities@.len() - i,
        {
            proof {
                lemma_stake_prefix_mono(authorities@, i as int + 1, authorities@.len() as int);
            }
            total_stake_acc = total_stake_acc + authorities[i].stake;
            i += 1;
        }
        let total = total_stake_acc;
        let start = epoch * epoch_length;
        let mut slot = start;
        let mut n: u64 = 0;
        while n < epoch_length
            invariant
                total == total_stake(authorities@),
                total > 0 || epoch_length == 0,
                start == epoch * epoch_length,
                start + epoch_length <= u64::MAX,
                n <= epoch_length,
                slot == start + n,
                assignments@ == Map::new(
                    |s: u64| start <= s < slot && assignment_for(authorities@, s) is Some,
                    |s: u64| assignment_for(authorities@, s)->0,
                ),
            decreases epoch_length - n,
        {
            let slot_hash = slot.wrapping_mul(2654435761);
            let selection = slot_hash % total;
            let mut cumulative: u64 = 0;
            let mut k: usize = 0;
            let mut found = false;
            let ghost sel = selection as int;
            let ghost before = assignments@;
            assert(selection == slot_selection(slot, total));
            while k < authorities.len() && !found
                invariant
                    total == total_stake(authorities@),
                    total_stake(authorities@) <= u64::MAX,
                    k <= authorities@.len(),
                    !found ==> cumulative == stake_prefix(authorities@, k as int),
                    !found ==> pick_from(authorities@, sel, 0) == pick_from(authorities@, sel, k as int),
                    !found ==> assignments@ == before,
                    found ==> k > 0 && pick_from(authorities@, sel, 0) == Some(authorities@[k as int - 1]),
                    found ==> assignments@ == before.insert(slot, authorities@[k as int - 1]),
                    sel == selection,
                decreases authorities@.len() - k,
            {
                proof {
                    lemma_stake_prefix_mono(authorities@, k as int + 1, authorities@.len() as int);
                }
                cumulative = cumulative + authorities[k].stake;
                if selection < cumulative {
                    assignments.insert(slot, authorities[k]);
                    found = true;
                }
                k += 1;
            }
            proof {
                assert(assignments@ =~= Map::new(
                    |s: u64| start <= s < slot + 1 && assignment_for(authorities@, s) is Some,
                    |s: u64| assignment_for(authorities@, s)->0,
                ));
            }
            slot = slot + 1;
            n = n + 1;
        }
        proof {
            assert(assignments@ =~= epoch_assignments(authorities@, epoch_length, epoch));
        }
        Schedule { epoch, assignments }
    }

    /// The authority assigned to `slot`, if any.
    pub fn get_scheduled_authority(&self, slot: Slot) -> (r: Option<&Authority>)
        ensures
            match r {
                Some(a) => self.assignments@.contains_key(slot.0) && self.assignments@[slot.0] == *a,
                None => !self.assignments@.contains_key(slot.0),
            },
    {
        self.assignments.get(&slot.0)
    }
}

/// The decimal digits of a number.
pub open spec fn decimal(n: nat) -> Seq<char>
    decreases n,
{
    if n < 10 {
        seq![(48 + n) as char]
    } else {
        decimal(n / 10).push((48 + n % 10) as char)
    }
}

/// The message of a produced block.
pub open spec fn produced_message(id: u32, slot: u64) -> Seq<char> {
    "\u{2705} Block produced by Authority "@ + decimal(id as nat) + " at slot "@ + decimal(slot as nat)
}

/// The message of a refused block.
pub open spec fn refused_message(id: u32, slot: u64) -> Seq<char> {
    "\u{274c} Authority "@ + decimal(id as nat) + " NOT scheduled for slot "@ + decimal(slot as nat)
}

/// `format!` of the produced-block message: `Display` writes the numbers in decimal.
#[verifier::external_body]
fn format_produced(id: u32, slot: u64) -> (r: String)
    ensures
        r@ == produced_message(id, slot),
{
    format!("\u{2705} Block produced by Authority {} at slot {}", id, slot)
}

/// `format!` of the refused-block message: `Display` writes the numbers in decimal.
#[verifier::external_body]
fn format_refused(id: u32, slot: u64) -> (r: String)
    ensures
        r@ == refused_message(id, slot),
{
    format!("\u{274c} Authority {} NOT scheduled for slot {}", id, slot)
}

/// The consensus engine of one authority: it follows the epoch schedule.
pub struct PoScConsensus {
    /// The authority this engine produces blocks for.
    pub my_authority: Authority,
    /// The schedule of the current epoch.
    pub current_schedule: Schedule,
}

impl PoScConsensus {
    /// Whether the schedule assigns `slot` to this engine's authority.
    pub open spec fn may_produce(&self, slot: Slot) -> bool {
        self.current_schedule.assignments@.contains_key(slot.0)
            && self.current_schedule.assignments@[slot.0] == self.my_authority
    }

    /// Creates the engine of `my_authority` following `schedule`.
    pub fn new(my_authority: Authority, schedule: Schedule) -> (r: Self)
        ensures
            r.my_authority == my_authority,
            r.current_schedule == schedule,
    {
        PoScConsensus { my_authority, current_schedule: schedule }
    }

    /// Whether this authority may produce a block at `slot`: only the authority the
    /// schedule assigns to the slot may.
    pub fn can_produce_block(&self, slot: Slot) -> (r: bool)
        ensures
            r == self.may_produce(slot),
    {
        match self.current_schedule.get_scheduled_authority(slot) {
            Some(scheduled) => *scheduled == self.my_authority,
            None => false,
        }
    }

    /// Attempts to produce a block at `slot`: succeeds with the produced-block message
    /// exactly when the authority is scheduled, and fails with the refusal otherwise.
    pub fn try_produce_block(&self, slot: Slot) -> (r: Result<String, String>)
        ensures
            match r {
                Ok(m) => self.may_produce(slot) && m@ == produced_message(self.my_authority.id, slot.0),
                Err(m) => !self.may_produce(slot) && m@ == refused_message(self.my_authority.id, slot.0),
            },
    {
        if self.can_produce_block(slot) {
            Ok(format_produced(self.my_authority.id, slot.0))
        } else {
            Err(format_refused(self.my_authority.id, slot.0))
        }
    }
}

/// Exactly one validator per slot: two engines that follow the same schedule for
/// different authorities never may both produce the block of a slot.
pub proof fn law_one_producer_per_slot(c1: PoScConsensus, c2: PoScConsensus, slot: Slot)
    requires
        c1.current_schedule == c2.current_schedule,
        c1.my_authority != c2.my_authority,
    ensures
        !(c1.may_produce(slot) && c2.may_produce(slot)),
{
}

} // verus!
