//! A model of nodes deriving an epoch schedule from a shared proposal seed, where a node
//! may deviate from the protocol: a Byzantine node alters the seed, a faulty node uses the
//! validator list in the wrong order.

use vstd::prelude::*;
use crate::eabs;
use crate::seqs::{self, read_le_u64};
use crate::types::AuthorityId;

verus! {

/// The seed bytes of a proposal for `epoch`: byte `i` is `(epoch * 137 + i) mod 256`.
pub open spec fn epoch_seed(epoch: u64) -> Seq<u8> {
    Seq::new(32, |i: int| ((epoch * 137 + i) % 256) as u8)
}

/// A proposal as the nodes of the model receive it.
#[derive(Debug)]
pub struct ElasticInitiationProposal {
    /// The epoch.
    pub epoch: u64,
    /// The seed the schedule is drawn from.
    pub random_seed: [u8; 32],
    /// The leader (the first validator).
    pub leader_id: AuthorityId,
    /// The validators of the epoch.
    pub validators: Vec<AuthorityId>,
}

impl ElasticInitiationProposal {
    /// Creates the proposal of `epoch`: the first validator leads, and the seed is
    /// derived from the epoch number.
    pub fn new(epoch: u64, validators: Vec<AuthorityId>) -> (r: Self)
        requires
            validators@.len() > 0,
            epoch * 137 + 31 <= u64::MAX,
        ensures
            r.epoch == epoch,
            r.leader_id == validators@[0],
            r.validators@ == validators@,
            r.random_seed@ == epoch_seed(epoch),
    {
        let leader_id = validators[0];
        let mut random_seed: [u8; 32] = [0u8; 32];
        let mut i: usize = 0;
        while i < 32
            invariant
                i <= 32,
                epoch * 137 + 31 <= u64::MAX,
                forall|k: int| 0 <= k < i ==> random_seed@[k] == ((epoch * 137 + k) % 256) as u8,
            decreases 32 - i,
        {
            let x = epoch * 137 + i as u64;
            let v = x & 0xFF;
            assert(v == x % 256) by (bit_vector)
                requires
                    v == x & 0xFF,
            ;
            random_seed[i] = v as u8;
            i += 1;
        }
        assert(random_seed@ =~= epoch_seed(epoch));
        Self { epoch, random_seed, leader_id, validators }
    }
}

/// How a node follows the protocol.
#[derive(Clone, Copy, Debug, PartialEq, Eq, Structural)]
pub enum NodeBehavior {
    /// Follows the protocol.
    Honest,
    /// Alters the seed.
    Byzantine,
    /// Uses the validator list in the wrong order.
    Faulty,
}

/// The schedule drawn from `seed` over `validators`: for each block the generator
/// (seeded by the first eight bytes of the seed) steps and picks validator
/// `state % len`.
pub open spec fn schedule_from_seed(seed: Seq<u8>, validators: Seq<AuthorityId>, num_blocks: nat) -> Seq<AuthorityId>
    decreases num_blocks,
{
    if num_blocks == 0 {
        Seq::empty()
    } else {
        schedule_from_seed(seed, validators, (num_blocks - 1) as nat).push(
            validators[(rng_after(seeds_start(seed), num_blocks) as usize) as int % validators.len() as int],
        )
    }
}

/// The generator state the schedule starts from.
pub open spec fn seeds_start(seed: Seq<u8>) -> u64 {
    seqs::le_u64_at(seed, 0)
}

/// The generator state after `k` steps from `start`.
pub open spec fn rng_after(start: u64, k: nat) -> u64
    decreases k,
{
    if k == 0 {
        start
    } else {
        eabs::pcg_step(rng_after(start, (k - 1) as nat))
    }
}

/// A schedule drawn over a non-empty list has one block per slot, each for a validator
/// of the list.
pub proof fn lemma_schedule_from_seed_shape(seed: Seq<u8>, validators: Seq<AuthorityId>, num_blocks: nat)
    requires
        validators.len() > 0,
    ensures
        schedule_from_seed(seed, validators, num_blocks).len() == num_blocks,
        forall|k: int|
            0 <= k < num_blocks ==> validators.contains(#[trigger] schedule_from_seed(seed, validators, num_blocks)[k]),
    decreases num_blocks,
{
    if num_blocks > 0 {
        let prev = schedule_from_seed(seed, validators, (num_blocks - 1) as nat);
        lemma_schedule_from_seed_shape(seed, validators, (num_blocks - 1) as nat);
        let j = (rng_after(seeds_start(seed), num_blocks) as usize) as int % validators.len() as int;
        assert(validators.contains(validators[j]));
        assert forall|k: int| 0 <= k < num_blocks implies validators.contains(
            #[trigger] schedule_from_seed(seed, validators, num_blocks)[k],
        ) by {
            if k < num_blocks - 1 {
                assert(schedule_from_seed(seed, validators, num_blocks)[k] == prev[k]);
            }
        }
    }
}

/// Draws `num_blocks` blocks from `seed` over `validators`.
pub fn generate_schedule_from_seed(seed: [u8; 32], validators: &[AuthorityId], num_blocks: usize) -> (r: Vec<AuthorityId>)
    requires
        num_blocks > 0 ==> validators@.len() > 0,
    ensures
        r@ == schedule_from_seed(seed@, validators@, num_blocks as nat),
{
    let mut schedule: Vec<AuthorityId> = Vec::new();
    let mut rng_state = read_le_u64(&seed, 0);
    let mut k: usize = 0;
    while k < num_blocks
        invariant
            k <= num_blocks,
            num_blocks > 0 ==> validators@.len() > 0,
            rng_state == rng_after(seeds_start(seed@), k as nat),
            schedule@ == schedule_from_seed(seed@, validators@, k as nat),
        decreases num_blocks - k,
    {
        rng_state = rng_state.wrapping_mul(6364136223846793005).wrapping_add(1442695040888963407);
        let selected = (#[verifier::truncate] (rng_state as usize)) % validators.len();
        schedule.push(validators[selected]);
        k += 1;
    }
    schedule
}

/// A node of the model.
pub struct Node {
    /// The node's name.
    pub id: String,
    /// How the node follows the protocol.
    pub behavior: NodeBehavior,
}

/// The seed with its first byte incremented (wrapping).
pub open spec fn altered_seed(seed: Seq<u8>) -> Seq<u8> {
    seed.update(0, ((seed[0] + 1) % 256) as u8)
}

impl Node {
    /// The schedule this node derives from the proposal, over 30 blocks: an honest node
    /// uses the seed and the validators as given, a Byzantine node alters the seed, a
    /// faulty node reverses the validators.
    pub open spec fn derived_schedule(&self, seed: Seq<u8>, validators: Seq<AuthorityId>) -> Seq<AuthorityId> {
        match self.behavior {
            NodeBehavior::Honest => schedule_from_seed(seed, validators, 30),
            NodeBehavior::Byzantine => schedule_from_seed(altered_seed(seed), validators, 30),
            NodeBehavior::Faulty => schedule_from_seed(seed, validators.reverse(), 30),
        }
    }

    /// Processes the proposal according to the node's behaviour.
    pub fn process_eip(&self, eip: &ElasticInitiationProposal) -> (r: Vec<AuthorityId>)
        requires
            eip.validators@.len() > 0,
        ensures
            r@ == self.derived_schedule(eip.random_seed@, eip.validators@),
    {
        match self.behavior {
            NodeBehavior::Honest => generate_schedule_from_seed(eip.random_seed, eip.validators.as_slice(), 30),
            NodeBehavior::Byzantine => {
                let mut bad_seed = eip.random_seed;
                bad_seed[0] = bad_seed[0].wrapping_add(1);
                proof {
                    assert(bad_seed@ =~= altered_seed(eip.random_seed@));
                }
                generate_schedule_from_seed(bad_seed, eip.validators.as_slice(), 30)
            },
            NodeBehavior::Faulty => {
                let mut wrong_validators: Vec<AuthorityId> = Vec::new();
                let mut i: usize = eip.validators.len();
                while i > 0
                    invariant
                        i <= eip.validators@.len(),
                        wrong_validators@ == eip.validators@.subrange(i as int, eip.validators@.len() as int).reverse(),
                    decreases i,
                {
                    i -= 1;
                    wrong_validators.push(eip.validators[i]);
                    proof {
                        assert(wrong_validators@ =~= eip.validators@.subrange(i as int, eip.validators@.len() as int).reverse());
                    }
                }
                proof {
                    assert(eip.validators@.subrange(0, eip.validators@.len() as int) =~= eip.validators@);
                }
                generate_schedule_from_seed(eip.random_seed, wrong_validators.as_slice(), 30)
            },
        }
    }
}

/// Honest nodes agree: two honest nodes that process the same proposal derive the same
/// schedule.
pub proof fn law_honest_nodes_agree(a: Node, b: Node, seed: Seq<u8>, validators: Seq<AuthorityId>)
    requires
        a.behavior == NodeBehavior::Honest,
        b.behavior == NodeBehavior::Honest,
    ensures
        a.derived_schedule(seed, validators) == b.derived_schedule(seed, validators),
{
}

/// Whether two schedules are the same.
pub fn same_schedule(a: &Vec<AuthorityId>, b: &Vec<AuthorityId>) -> (r: bool)
    ensures
        r == (a@ == b@),
{
    if a.len() != b.len() {
        return false;
    }
    let mut i: usize = 0;
    while i < a.len()
        invariant
            a@.len() == b@.len(),
            i <= a@.len(),
            forall|k: int| 0 <= k < i ==> a@[k] == b@[k],
        decreases a@.len() - i,
    {
        if a[i] != b[i] {
            return false;
        }
        i += 1;
    }
    assert(a@ =~= b@);
    true
}

/// The number of the schedules that equal `reference`.
pub open spec fn agreeing_count(schedules: Seq<Vec<AuthorityId>>, reference: Seq<AuthorityId>) -> nat
    decreases schedules.len(),
{
    if schedules.len() == 0 {
        0
    } else {
        agreeing_count(schedules.drop_last(), reference) + if schedules.last()@ == reference { 1nat } else { 0nat }
    }
}

/// Counts the nodes whose schedule equals `reference`.
pub fn count_agreeing(schedules: &Vec<Vec<AuthorityId>>, reference: &Vec<AuthorityId>) -> (r: usize)
    ensures
        r == agreeing_count(schedules@, reference@),
{
    let mut count: usize = 0;
    let mut i: usize = 0;
    while i < schedules.len()
        invariant
            i <= schedules@.len(),
            count == agreeing_count(schedules@.subrange(0, i as int), reference@),
            count <= i,
        decreases schedules@.len() - i,
    {
        assert(schedules@.subrange(0, i + 1).drop_last() =~= schedules@.subrange(0, i as int));
        if same_schedule(&schedules[i], reference) {
            count = count + 1;
        }
        i += 1;
    }
    assert(schedules@.subrange(0, i as int) =~= schedules@);
    count
}

} // verus!
