//! A model of the agreement protocol: the leader announces a proposal whose seed is mixed
//! from the epoch, the parent hash and the timestamp; every node checks the proposal,
//! computes the stake shares of the validators, fills a matrix with one row per share and
//! draws the epoch schedule from it.

use vstd::prelude::*;
use crate::byzantine_sim::schedule_from_seed;
use crate::eabs::{expanded_rows, lemma_expanded_rows_len, sum_shares};
use crate::eip::seed_input;
use crate::seqs::{self, read_le_u64};
use crate::types::{self, AuthorityId};

verus! {

broadcast use vstd::array::group_array_axioms;

/// Byte `b` at position `i` of the seed input, mixed: `b * 137 + i`, wrapping in a byte.
pub open spec fn mixed_byte(b: u8, i: u8) -> u8 {
    b.wrapping_mul(137).wrapping_add(i)
}

/// The seed after the first `n` bytes of `data` are mixed in: starting from 32 zero
/// bytes, byte `i` of the data is mixed and XORed into position `i mod 32`.
pub open spec fn fold_seed(data: Seq<u8>, n: nat) -> Seq<u8>
    decreases n,
{
    if n == 0 {
        Seq::new(32, |_i: int| 0u8)
    } else {
        let s = fold_seed(data, (n - 1) as nat);
        let k = (n - 1) % 32;
        s.update(k, s[k] ^ mixed_byte(data[n - 1], ((n - 1) % 256) as u8))
    }
}

/// The seed of a proposal: the epoch, the parent hash and the timestamp, all mixed in.
pub open spec fn agreement_seed(epoch: u64, parent_hash: Seq<u8>, timestamp: u64) -> Seq<u8> {
    fold_seed(seed_input(epoch, parent_hash, timestamp), 48)
}

/// The seed keeps its length while bytes are mixed in.
pub proof fn lemma_fold_seed_len(data: Seq<u8>, n: nat)
    ensures
        fold_seed(data, n).len() == 32,
    decreases n,
{
    if n > 0 {
        lemma_fold_seed_len(data, (n - 1) as nat);
    }
}

/// Mixes the seed input into a 32-byte seed.
fn mix_seed(epoch: u64, parent_hash: &[u8; 32], timestamp: u64) -> (r: [u8; 32])
    ensures
        r@ == agreement_seed(epoch, parent_hash@, timestamp),
{
    let seed_data = crate::eip::ElasticInitiationProposal::seed_bytes(epoch, parent_hash, timestamp);
    let mut random_seed: [u8; 32] = [0u8; 32];
    assert(random_seed@ =~= fold_seed(seed_data@, 0));
    proof {
        vstd::bytes::lemma_auto_spec_u64_to_from_le_bytes();
    }
    let mut i: usize = 0;
    while i < seed_data.len()
        invariant
            i <= seed_data@.len(),
            seed_data@.len() == 48,
            random_seed@ == fold_seed(seed_data@, i as nat),
        decreases seed_data@.len() - i,
    {
        proof {
            lemma_fold_seed_len(seed_data@, i as nat);
        }
        let byte = seed_data[i];
        let k = i % 32;
        let mixed = byte.wrapping_mul(137).wrapping_add(i as u8);
        random_seed[k] = random_seed[k] ^ mixed;
        i += 1;
        proof {
            assert(random_seed@ =~= fold_seed(seed_data@, i as nat));
        }
    }
    random_seed
}

/// A proposal as the nodes of the model receive it.
#[derive(Clone, Debug)]
pub struct ElasticInitiationProposal {
    /// The epoch.
    pub epoch: u64,
    /// The seed the schedule is drawn from.
    pub random_seed: [u8; 32],
    /// The leader (the first validator).
    pub leader_id: AuthorityId,
    /// The validators of the epoch.
    pub validators: Vec<AuthorityId>,
    /// The hash of the parent block.
    pub parent_hash: [u8; 32],
    /// When the proposal was made.
    pub timestamp: u64,
}

impl ElasticInitiationProposal {
    /// Whether the proposal is consistent: it has validators, the first of them leads,
    /// and the seed is the one mixed from its epoch, parent hash and timestamp.
    pub open spec fn is_consistent(&self) -> bool {
        &&& self.validators@.len() > 0
        &&& self.leader_id == self.validators@[0]
        &&& self.random_seed@ == agreement_seed(self.epoch, self.parent_hash@, self.timestamp)
    }

    /// Creates the proposal: the first validator leads and the seed is mixed from the
    /// epoch, the parent hash and the timestamp. Such a proposal is consistent.
    pub fn new(epoch: u64, validators: Vec<AuthorityId>, parent_hash: [u8; 32], timestamp: u64) -> (r: Self)
        requires
            validators@.len() > 0,
        ensures
            r.epoch == epoch,
            r.leader_id == validators@[0],
            r.validators@ == validators@,
            r.parent_hash == parent_hash,
            r.timestamp == timestamp,
            r.random_seed@ == agreement_seed(epoch, parent_hash@, timestamp),
            r.is_consistent(),
    {
        let leader_id = validators[0];
        let random_seed = mix_seed(epoch, &parent_hash, timestamp);
        Self { epoch, random_seed, leader_id, validators, parent_hash, timestamp }
    }

    /// Checks the proposal: true exactly when it is consistent.
    pub fn verify(&self) -> (r: bool)
        ensures
            r == self.is_consistent(),
    {
        if self.validators.len() == 0 || self.leader_id != self.validators[0] {
            return false;
        }
        let expected_seed = mix_seed(self.epoch, &self.parent_hash, self.timestamp);
        let same = types::bytes_eq(&self.random_seed, &expected_seed);
        proof {
            if self.random_seed@ == expected_seed@ {
                assert(self.random_seed =~= expected_seed);
            }
        }
        same
    }
}

/// The matrix of the model: one row per share, each row holding its owner in every
/// column (one column per block).
pub struct ScheduleMatrix {
    matrix: Vec<Vec<AuthorityId>>,
    rows: usize,
    cols: usize,
    owners: Ghost<Seq<AuthorityId>>,
}

impl ScheduleMatrix {
    /// The owner of each row.
    pub closed spec fn owners(&self) -> Seq<AuthorityId> {
        self.owners@
    }

    /// The number of rows.
    pub closed spec fn rows(&self) -> nat {
        self.rows as nat
    }

    /// The number of columns.
    pub closed spec fn cols(&self) -> nat {
        self.cols as nat
    }

    /// The rows are as many as the owners, and row `r` holds owner `r` in every column.
    pub closed spec fn wf(&self) -> bool {
        &&& self.matrix@.len() == self.rows
        &&& self.owners@.len() == self.rows
        &&& forall|r: int| 0 <= r < self.rows ==> (#[trigger] self.matrix@[r])@ == seqs::repeat(self.cols as nat, self.owners@[r])
    }

    /// Fills the matrix from the shares: validator `v` with `c` shares owns the next `c`
    /// rows.
    pub fn new(bgs_shares: &[(AuthorityId, u32)], blocks_per_epoch: usize) -> (r: Self)
        requires
            sum_shares(bgs_shares@) <= usize::MAX,
        ensures
            r.wf(),
            r.owners() == expanded_rows(bgs_shares@),
            r.rows() == sum_shares(bgs_shares@),
            r.cols() == blocks_per_epoch,
    {
        let mut matrix: Vec<Vec<AuthorityId>> = Vec::new();
        let ghost mut owners: Seq<AuthorityId> = Seq::empty();
        let mut total_rows: usize = 0;
        let mut k: usize = 0;
        while k < bgs_shares.len()
            invariant
                k <= bgs_shares@.len(),
                sum_shares(bgs_shares@) <= usize::MAX,
                owners == expanded_rows(bgs_shares@.subrange(0, k as int)),
                total_rows == sum_shares(bgs_shares@.subrange(0, k as int)),
                matrix@.len() == owners.len(),
                forall|r: int| 0 <= r < owners.len() ==> (#[trigger] matrix@[r])@ == seqs::repeat(blocks_per_epoch as nat, owners[r]),
            decreases bgs_shares@.len() - k,
        {
            let (validator, share_count) = bgs_shares[k];
            proof {
                assert(bgs_shares@.subrange(0, k + 1).drop_last() =~= bgs_shares@.subrange(0, k as int));
                crate::eabs::lemma_sum_shares_prefix(bgs_shares@, k + 1);
            }
            let ghost before = owners;
            let mut j: u32 = 0;
            while j < share_count
                invariant
                    j <= share_count,
                    owners == before + seqs::repeat(j as nat, validator),
                    matrix@.len() == owners.len(),
                    forall|r: int| 0 <= r < owners.len() ==> (#[trigger] matrix@[r])@ == seqs::repeat(blocks_per_epoch as nat, owners[r]),
                decreases share_count - j,
            {
                let row = Self::full_row(validator, blocks_per_epoch);
                matrix.push(row);
                proof {
                    owners = owners.push(validator);
                    assert(owners =~= before + seqs::repeat((j + 1) as nat, validator));
                }
                j += 1;
            }
            total_rows = total_rows + share_count as usize;
            k += 1;
        }
        proof {
            assert(bgs_shares@.subrange(0, k as int) =~= bgs_shares@);
            lemma_expanded_rows_len(bgs_shares@);
        }
        Self { matrix, rows: total_rows, cols: blocks_per_epoch, owners: Ghost(owners) }
    }

    /// A row holding `validator` in each of `cols` columns.
    fn full_row(validator: AuthorityId, cols: usize) -> (r: Vec<AuthorityId>)
        ensures
            r@ == seqs::repeat(cols as nat, validator),
    {
        let mut row: Vec<AuthorityId> = Vec::new();
        let mut c: usize = 0;
        while c < cols
            invariant
                c <= cols,
                row@ == seqs::repeat(c as nat, validator),
            decreases cols - c,
        {
            row.push(validator);
            c += 1;
            assert(row@ =~= seqs::repeat(c as nat, validator));
        }
        row
    }

    /// Draws the schedule: for each column the generator (seeded by the first eight bytes
    /// of the seed) steps and the row `state mod rows` gives the column's validator; a
    /// matrix without rows gives no schedule.
    pub fn generate_schedule(&self, random_seed: [u8; 32]) -> (r: Vec<AuthorityId>)
        requires
            self.wf(),
        ensures
            r@ == (if self.rows() == 0 {
                Seq::empty()
            } else {
                schedule_from_seed(random_seed@, self.owners(), self.cols())
            }),
    {
        let mut schedule: Vec<AuthorityId> = Vec::new();
        let mut rng_state = read_le_u64(&random_seed, 0);
        let mut col: usize = 0;
        while col < self.cols
            invariant
                self.wf(),
                col <= self.cols,
                self.rows > 0 ==> rng_state == crate::byzantine_sim::rng_after(
                    crate::byzantine_sim::seeds_start(random_seed@),
                    col as nat,
                ),
                schedule@ == (if self.rows == 0 {
                    Seq::empty()
                } else {
                    schedule_from_seed(random_seed@, self.owners@, col as nat)
                }),
            decreases self.cols - col,
        {
            if self.rows == 0 {
                col += 1;
                continue;
            }
            rng_state = rng_state.wrapping_mul(6364136223846793005).wrapping_add(1442695040888963407);
            let selected_row = (#[verifier::truncate] (rng_state as usize)) % self.rows;
            if selected_row < self.matrix.len() && col < self.matrix[selected_row].len() {
                schedule.push(self.matrix[selected_row][col]);
            }
            col += 1;
        }
        schedule
    }
}

/// The sum of the stakes.
pub open spec fn stake_total(stakes: Seq<u128>) -> int
    decreases stakes.len(),
{
    if stakes.len() == 0 {
        0
    } else {
        stake_total(stakes.drop_last()) + stakes.last()
    }
}

/// Sums of prefixes grow by the next stake and stay below the whole sum.
pub proof fn lemma_stake_total_prefix(stakes: Seq<u128>, i: int)
    requires
        0 <= i < stakes.len(),
    ensures
        stake_total(stakes.subrange(0, i + 1)) == stake_total(stakes.subrange(0, i)) + stakes[i],
        stake_total(stakes.subrange(0, i + 1)) <= stake_total(stakes),
    decreases stakes.len(),
{
    assert(stakes.subrange(0, i + 1).drop_last() =~= stakes.subrange(0, i));
    if i + 1 == stakes.len() {
        assert(stakes.subrange(0, i + 1) =~= stakes);
    } else {
        lemma_stake_total_prefix(stakes.drop_last(), i);
        assert(stakes.drop_last().subrange(0, i + 1) =~= stakes.subrange(0, i + 1));
        assert(stakes.drop_last().subrange(0, i) =~= stakes.subrange(0, i));
    }
}

/// The sum of the stakes.
fn sum_stakes(stakes: &[u128]) -> (r: u128)
    requires
        stake_total(stakes@) <= u128::MAX,
    ensures
        r == stake_total(stakes@),
{
    let mut total: u128 = 0;
    let mut i: usize = 0;
    while i < stakes.len()
        invariant
            i <= stakes@.len(),
            stake_total(stakes@) <= u128::MAX,
            total == stake_total(stakes@.subrange(0, i as int)),
        decreases stakes@.len() - i,
    {
        proof {
            lemma_stake_total_prefix(stakes@, i as int);
        }
        total = total + stakes[i];
        i += 1;
    }
    proof {
        assert(stakes@.subrange(0, i as int) =~= stakes@);
    }
    total
}

/// The blocks left once each of `n` validators has its minimum (none if the minimum
/// takes them all).
pub open spec fn remaining_blocks(n: nat, blocks: u32, min: u32) -> int {
    if n * min < blocks {
        blocks - n * min
    } else {
        0
    }
}

/// Whether the stakes are split: there are blocks left and the stakes sum to more than
/// zero.
pub open spec fn stakes_split(n: nat, stakes: Seq<u128>, blocks: u32, min: u32) -> bool {
    remaining_blocks(n, blocks, min) > 0 && stake_total(stakes) > 0
}

/// Whether `share` returns at most the blocks it is given to split.
pub open spec fn stake_share_bounded<F: Fn(u32, u128, u128) -> u32>(share: F) -> bool {
    forall|r: u32, s: u128, t: u128, o: u32| #[trigger] share.ensures((r, s, t), o) ==> o <= r
}

/// Whether `adds` holds, for each validator, what `share` may return for the blocks
/// left, its stake and the total stake where the stakes are split, and nothing
/// elsewhere.
pub open spec fn stake_shares_from<F: Fn(u32, u128, u128) -> u32>(
    share: F,
    validators: Seq<AuthorityId>,
    stakes: Seq<u128>,
    blocks: u32,
    min: u32,
    adds: Seq<u32>,
) -> bool {
    &&& adds.len() == validators.len()
    &&& stakes_split(validators.len(), stakes, blocks, min) ==> forall|i: int|
        0 <= i < validators.len() ==> share.ensures(
            (remaining_blocks(validators.len(), blocks, min) as u32, stakes[i], stake_total(stakes) as u128),
            #[trigger] adds[i],
        )
    &&& !stakes_split(validators.len(), stakes, blocks, min) ==> forall|i: int| 0 <= i < validators.len() ==> #[trigger] adds[i] == 0
}

/// The shares: validator `i` gets the minimum plus `adds[i]`.
pub open spec fn stake_shares(validators: Seq<AuthorityId>, min: u32, adds: Seq<u32>) -> Seq<(AuthorityId, u32)> {
    Seq::new(validators.len(), |i: int| (validators[i], (min + adds[i]) as u32))
}

/// Computes the shares of the validators: each gets `min_blocks`, and where the stakes
/// are split, `share(remaining, stake, total stake)` more.
pub fn calculate_bgs_shares<F: Fn(u32, u128, u128) -> u32>(
    validators: &[AuthorityId],
    stakes: &[u128],
    blocks_per_epoch: u32,
    min_blocks: u32,
    share: F,
) -> (r: Vec<(AuthorityId, u32)>)
    requires
        validators@.len() <= u32::MAX,
        validators@.len() * min_blocks <= u32::MAX,
        stake_total(stakes@) <= u128::MAX,
        stakes_split(validators@.len(), stakes@, blocks_per_epoch, min_blocks) ==> stakes@.len() >= validators@.len(),
        forall|a: u32, b: u128, c: u128| share.requires((a, b, c)),
        stake_share_bounded(share),
    ensures
        exists|adds: Seq<u32>|
            stake_shares_from(share, validators@, stakes@, blocks_per_epoch, min_blocks, adds)
                && r@ == #[trigger] stake_shares(validators@, min_blocks, adds),
{
    let num_validators = validators.len() as u32;
    let guaranteed = num_validators * min_blocks;
    let remaining = blocks_per_epoch.saturating_sub(guaranteed);
    let total_stake = sum_stakes(stakes);
    let ghost n = validators@.len();
    let ghost mut adds: Seq<u32> = Seq::empty();
    let mut shares: Vec<(AuthorityId, u32)> = Vec::new();
    let mut i: usize = 0;
    while i < validators.len()
        invariant
            i <= validators@.len(),
            n == validators@.len(),
            num_validators == n,
            remaining == remaining_blocks(n, blocks_per_epoch, min_blocks),
            total_stake == stake_total(stakes@),
            stakes_split(n, stakes@, blocks_per_epoch, min_blocks) ==> stakes@.len() >= n,
            forall|a: u32, b: u128, c: u128| share.requires((a, b, c)),
            stake_share_bounded(share),
            n * min_blocks <= u32::MAX,
            adds.len() == i,
            shares@ == stake_shares(validators@.subrange(0, i as int), min_blocks, adds),
            stakes_split(n, stakes@, blocks_per_epoch, min_blocks) ==> forall|k: int|
                0 <= k < i ==> share.ensures((remaining, stakes@[k], total_stake), #[trigger] adds[k]),
            !stakes_split(n, stakes@, blocks_per_epoch, min_blocks) ==> forall|k: int| 0 <= k < i ==> #[trigger] adds[k] == 0,
        decreases validators@.len() - i,
    {
        let mut validator_shares = min_blocks;
        let ghost mut add: u32 = 0;
        if total_stake > 0 && remaining > 0 {
            let extra = share(remaining, stakes[i], total_stake);
            assert(min_blocks + remaining <= blocks_per_epoch) by (nonlinear_arith)
                requires
                    n >= 1,
                    n * min_blocks < blocks_per_epoch,
                    remaining == blocks_per_epoch - n * min_blocks,
            ;
            validator_shares = validator_shares + extra;
            proof {
                add = extra;
            }
        }
        shares.push((validators[i], validator_shares));
        proof {
            adds = adds.push(add);
            assert(shares@ =~= stake_shares(validators@.subrange(0, i + 1), min_blocks, adds));
        }
        i += 1;
    }
    proof {
        assert(validators@.subrange(0, i as int) =~= validators@);
        assert(stake_shares_from(share, validators@, stakes@, blocks_per_epoch, min_blocks, adds));
    }
    shares
}

/// A share list whose counts are at most `b` counts at most `len * b`.
pub proof fn lemma_sum_shares_bounded(shares: Seq<(AuthorityId, u32)>, b: int)
    requires
        b >= 0,
        forall|i: int| 0 <= i < shares.len() ==> (#[trigger] shares[i]).1 <= b,
    ensures
        sum_shares(shares) <= shares.len() * b,
    decreases shares.len(),
{
    if shares.len() > 0 {
        lemma_sum_shares_bounded(shares.drop_last(), b);
        assert(sum_shares(shares) <= shares.len() * b) by (nonlinear_arith)
            requires
                sum_shares(shares) == sum_shares(shares.drop_last()) + shares.last().1,
                sum_shares(shares.drop_last()) <= (shares.len() - 1) * b,
                shares.last().1 <= b,
        ;
    }
}

/// The schedule every node draws from the shares and the seed: 30 blocks, one row per
/// share (none if there are no shares).
pub open spec fn agreed_schedule(shares: Seq<(AuthorityId, u32)>, seed: Seq<u8>) -> Seq<AuthorityId> {
    if sum_shares(shares) == 0 {
        Seq::empty()
    } else {
        schedule_from_seed(seed, expanded_rows(shares), 30)
    }
}

/// The message of a node that refused a proposal.
pub open spec fn verification_failed_message(id: Seq<char>) -> Seq<char> {
    "Node "@ + id + ": eIP verification failed"@
}

/// `format!` of the refusal message: `Display` writes a `String` as it is.
#[verifier::external_body]
fn format_verification_failed(id: &String) -> (r: String)
    ensures
        r@ == verification_failed_message(id@),
{
    format!("Node {}: eIP verification failed", id)
}

/// A node of the model, with its view of the validators and their stakes.
pub struct Node {
    /// The node's name.
    pub id: String,
    /// The validators, in order.
    pub validators: Vec<AuthorityId>,
    /// The stake of each validator.
    pub stakes: Vec<u128>,
}

impl Node {
    /// Processes a proposal: a proposal that is not consistent is refused; otherwise the
    /// node computes the shares of its validators for 30 blocks with one block each at
    /// least, and draws the schedule from the matrix of those shares.
    pub fn process_eip<F: Fn(u32, u128, u128) -> u32>(&self, eip: &ElasticInitiationProposal, share: F) -> (r: Result<Vec<AuthorityId>, String>)
        requires
            self.validators@.len() <= u32::MAX,
            self.validators@.len() * 30 <= usize::MAX,
            stake_total(self.stakes@) <= u128::MAX,
            stakes_split(self.validators@.len(), self.stakes@, 30, 1) ==> self.stakes@.len() >= self.validators@.len(),
            forall|a: u32, b: u128, c: u128| share.requires((a, b, c)),
            stake_share_bounded(share),
        ensures
            match r {
                Ok(s) => eip.is_consistent() && exists|adds: Seq<u32>|
                    stake_shares_from(share, self.validators@, self.stakes@, 30, 1, adds)
                        && s@ == #[trigger] agreed_schedule(stake_shares(self.validators@, 1, adds), eip.random_seed@),
                Err(m) => !eip.is_consistent() && m@ == verification_failed_message(self.id@),
            },
    {
        if !eip.verify() {
            return Err(format_verification_failed(&self.id));
        }
        let bgs_shares = calculate_bgs_shares(self.validators.as_slice(), self.stakes.as_slice(), 30, 1, share);
        let ghost adds = choose|adds: Seq<u32>|
            stake_shares_from(share, self.validators@, self.stakes@, 30, 1, adds)
                && bgs_shares@ == #[trigger] stake_shares(self.validators@, 1, adds);
        proof {
            let n = self.validators@.len();
            assert forall|i: int| 0 <= i < bgs_shares@.len() implies (#[trigger] bgs_shares@[i]).1 <= 30 by {
                if stakes_split(n, self.stakes@, 30, 1) {
                    assert(adds[i] <= remaining_blocks(n, 30, 1));
                } else {
                    assert(adds[i] == 0);
                }
            }
            lemma_sum_shares_bounded(bgs_shares@, 30);
        }
        let matrix = ScheduleMatrix::new(bgs_shares.as_slice(), 30);
        let schedule = matrix.generate_schedule(eip.random_seed);
        proof {
            assert(schedule@ == agreed_schedule(stake_shares(self.validators@, 1, adds), eip.random_seed@));
        }
        Ok(schedule)
    }
}

/// Nodes agree: where the share rule gives one result for each input, two nodes with the
/// same validators and stakes draw the same schedule from the same proposal.
pub proof fn law_nodes_agree<F: Fn(u32, u128, u128) -> u32>(
    share: F,
    validators: Seq<AuthorityId>,
    stakes: Seq<u128>,
    seed: Seq<u8>,
    adds1: Seq<u32>,
    adds2: Seq<u32>,
)
    requires
        forall|r: u32, s: u128, t: u128, o1: u32, o2: u32|
            #[trigger] share.ensures((r, s, t), o1) && #[trigger] share.ensures((r, s, t), o2) ==> o1 == o2,
        stake_shares_from(share, validators, stakes, 30, 1, adds1),
        stake_shares_from(share, validators, stakes, 30, 1, adds2),
    ensures
        agreed_schedule(stake_shares(validators, 1, adds1), seed) == agreed_schedule(stake_shares(validators, 1, adds2), seed),
{
    assert(adds1 =~= adds2);
}

/// The schedule a node draws has 30 blocks, each for one of its validators, once the
/// shares give the matrix any rows.
pub proof fn law_agreed_schedule_shape(validators: Seq<AuthorityId>, adds: Seq<u32>, seed: Seq<u8>)
    requires
        sum_shares(stake_shares(validators, 1, adds)) > 0,
    ensures
        agreed_schedule(stake_shares(validators, 1, adds), seed).len() == 30,
        forall|k: int|
            0 <= k < 30 ==> validators.contains(#[trigger] agreed_schedule(stake_shares(validators, 1, adds), seed)[k]),
{
    let shares = stake_shares(validators, 1, adds);
    let owners = expanded_rows(shares);
    lemma_expanded_rows_len(shares);
    crate::eabs::lemma_expanded_rows_members(shares);
    crate::byzantine_sim::lemma_schedule_from_seed_shape(seed, owners, 30);
    let s = agreed_schedule(shares, seed);
    assert forall|k: int| 0 <= k < 30 implies validators.contains(#[trigger] s[k]) by {
        assert(owners.contains(s[k]));
        let r = choose|r: int| 0 <= r < owners.len() && owners[r] == s[k];
        let i = choose|i: int| 0 <= i < shares.len() && (#[trigger] owners[r]) == shares[i].0;
        assert(validators[i] == s[k]);
    }
}

} // verus!
