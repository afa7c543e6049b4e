//! The on-chain state machine of PoSc: epoch transitions, schedule generation and
//! storage, and authority management. The runtime hands it the block number, the
//! timestamp and the origin of calls; it keeps the storage items and the events it
//! deposits.

use vstd::prelude::*;
use crate::primitives::{self, AuthorityIndex, BlockGenerationScore, EpochSchedule, ScheduleConfig, ScheduledBlock};
use crate::schedule::{self, ScheduleGenerator};
use crate::eip::le_bytes;
use crate::types::AuthorityId;

verus! {

/// The constants a runtime configures the pallet with.
#[derive(Clone, Copy, Debug)]
pub struct Config {
    /// Number of slots per epoch.
    pub epoch_duration: u64,
    /// Expected average block time.
    pub expected_block_time: u64,
    /// Minimum stake required to be a validator.
    pub minimum_stake: u128,
    /// Default security score for validators.
    pub default_security_score: u64,
    /// Minimum security score to participate.
    pub minimum_security_score: u64,
    /// Maximum authorities that can be registered.
    pub max_authorities: u32,
}

impl Config {
    /// The stake every authority is credited with: ten times the minimum stake.
    pub open spec fn credited_stake(self) -> int {
        self.minimum_stake * 10
    }

    /// The block generation score every authority gets.
    pub open spec fn authority_score(self) -> u64 {
        primitives::bgs_value(self.default_security_score, self.credited_stake() as u128)
    }

    /// The configuration keeps the pallet's arithmetic in range: the credited stake fits
    /// in 128 bits and an epoch's schedule fits in memory.
    pub open spec fn wf(self) -> bool {
        &&& self.credited_stake() <= u128::MAX
        &&& self.epoch_duration <= usize::MAX
    }

    /// The scores of `n` authorities sum within 64 bits.
    pub open spec fn fits(self, n: nat) -> bool {
        n * self.authority_score() <= u64::MAX
    }
}

/// The BGS record the pallet computes for an authority.
pub open spec fn bgs_of(config: Config, authority: AuthorityId) -> BlockGenerationScore {
    BlockGenerationScore {
        authority,
        security_score: config.default_security_score,
        stake: config.credited_stake() as u128,
        score: config.authority_score(),
    }
}

/// The BGS records of a list of authorities.
pub open spec fn scores_for(config: Config, authorities: Seq<AuthorityId>) -> Seq<BlockGenerationScore> {
    Seq::new(authorities.len(), |i: int| bgs_of(config, authorities[i]))
}

/// The seed taken from the bytes a randomness source returned: those bytes when there
/// are exactly 32 of them, 32 zero bytes otherwise.
pub open spec fn seed_from_output(out: Seq<u8>) -> Seq<u8> {
    if out.len() == 32 { out } else { Seq::new(32, |_i: int| 0u8) }
}

/// The scheduled blocks made from schedule indices: the `k`-th index, when it names an
/// authority, gives the block of slot `start_slot + k`.
pub open spec fn blocks_from_indices(authorities: Seq<AuthorityId>, start_slot: u64, indices: Seq<u32>) -> Seq<ScheduledBlock>
    decreases indices.len(),
{
    if indices.len() == 0 {
        Seq::empty()
    } else {
        let prev = blocks_from_indices(authorities, start_slot, indices.drop_last());
        let k = indices.len() - 1;
        let idx = indices.last();
        if (idx as int) < authorities.len() {
            prev.push(ScheduledBlock { slot: (start_slot + k) as u64, authority: authorities[idx as int], authority_index: idx })
        } else {
            prev
        }
    }
}

/// Events deposited by the pallet.
#[derive(Clone, Copy, Debug, PartialEq, Eq)]
pub enum Event {
    /// New epoch has started.
    EpochChanged { epoch_index: u64, start_slot: u64, authorities: u32 },
    /// Schedule generated for next epoch.
    ScheduleGenerated { epoch_index: u64, schedule_length: u32 },
    /// Authority BGS calculated.
    AuthorityScoreCalculated { authority: AuthorityId, score: u64, stake: u128 },
    /// Invalid schedule detected.
    InvalidSchedule { slot: u64, expected: Option<AuthorityId>, actual: AuthorityId },
}

/// Errors of the pallet.
#[derive(Clone, Copy, Debug, PartialEq, Eq, Structural)]
pub enum Error {
    /// No authorities available.
    NoAuthorities,
    /// Schedule not found for current epoch.
    ScheduleNotFound,
    /// Authority not scheduled for this slot.
    NotScheduled,
    /// Invalid slot number.
    InvalidSlot,
    /// Too many authorities.
    TooManyAuthorities,
}

/// Why a dispatched call failed.
#[derive(Clone, Copy, Debug, PartialEq, Eq, Structural)]
pub enum DispatchError {
    /// The call's origin is not allowed to make it.
    BadOrigin,
    /// An error of this pallet.
    Module(Error),
}

/// The origin of a dispatched call.
#[derive(Clone, Copy, Debug, PartialEq, Eq, Structural)]
pub enum Origin {
    /// The root origin (sudo).
    Root,
    /// A signed origin: the account that signed the call.
    Signed(u64),
    /// No origin (an unsigned call).
    Unsigned,
}

/// The database accesses a hook reports, which the runtime weighs.
#[derive(Clone, Copy, Debug, PartialEq, Eq, Structural)]
pub struct DbAccesses {
    /// Storage reads.
    pub reads: u64,
    /// Storage writes.
    pub writes: u64,
}


} // verus!

verus! {

/// The schedule configuration the pallet generates with.
pub open spec fn pallet_schedule_config() -> ScheduleConfig {
    ScheduleConfig { min_blocks_per_validator: 1, max_consecutive_blocks: 3, shuffle_schedule: true }
}

/// The stored BGS record of `authority`, if any.
pub open spec fn score_entry(scores: Seq<BlockGenerationScore>, authority: AuthorityId) -> Option<BlockGenerationScore> {
    if exists|i: int| 0 <= i < scores.len() && #[trigger] scores[i].authority == authority {
        Some(scores[choose|i: int| 0 <= i < scores.len() && #[trigger] scores[i].authority == authority])
    } else {
        None
    }
}

/// No two stored BGS records belong to the same authority.
pub open spec fn unique_scores(scores: Seq<BlockGenerationScore>) -> bool {
    forall|i: int, j: int| 0 <= i < scores.len() && 0 <= j < scores.len() && #[trigger] scores[i].authority == #[trigger] scores[j].authority ==> i == j
}

/// The events of a score calculation for each authority, in order.
pub open spec fn score_events(config: Config, authorities: Seq<AuthorityId>) -> Seq<Event> {
    Seq::new(
        authorities.len(),
        |i: int|
            Event::AuthorityScoreCalculated {
                authority: authorities[i],
                score: config.authority_score(),
                stake: config.credited_stake() as u128,
            },
    )
}

/// Whether `s` is the schedule of epoch `epoch_index` that starts at `start_slot`, with
/// the seed `seed` and the blocks `blocks`.
pub open spec fn schedule_is(
    s: EpochSchedule,
    epoch_index: u64,
    start_slot: u64,
    duration: u64,
    seed: Seq<u8>,
    blocks: Seq<ScheduledBlock>,
) -> bool {
    &&& s.epoch == epoch_index
    &&& s.start_slot == start_slot
    &&& s.duration == duration
    &&& s.randomness@ == seed
    &&& s.schedule@ == blocks
}

/// The scores of `n` authorities sum to `n` times the score of one.
pub proof fn lemma_sum_scores_for(config: Config, authorities: Seq<AuthorityId>)
    ensures
        schedule::sum_scores(scores_for(config, authorities)) == authorities.len() * config.authority_score(),
    decreases authorities.len(),
{
    let n = authorities.len();
    let s = config.authority_score() as int;
    if n > 0 {
        let m = authorities.drop_last().len();
        assert(scores_for(config, authorities).drop_last() =~= scores_for(config, authorities.drop_last()));
        lemma_sum_scores_for(config, authorities.drop_last());
        assert(m * s + s == n * s) by (nonlinear_arith)
            requires
                m + 1 == n,
        ;
    } else {
        assert(n * s == 0) by (nonlinear_arith)
            requires
                n == 0,
        ;
    }
}

/// When the configuration fits the authorities, their scores sum within 64 bits.
pub proof fn lemma_scores_for_fit(config: Config, authorities: Seq<AuthorityId>)
    requires
        config.fits(authorities.len()),
    ensures
        schedule::sum_scores(scores_for(config, authorities)) <= u64::MAX,
{
    lemma_sum_scores_for(config, authorities);
}

/// The PoSc pallet: its configuration, the randomness source and the proportional-share
/// rule the runtime supplies, its storage items, and the events it deposited.
pub struct Pallet<R: Fn([u8; 8]) -> Vec<u8>, S: Fn(u64, u64, u64) -> u64 + Copy> {
    /// The runtime's constants.
    pub config: Config,
    /// The source of randomness for schedule generation.
    pub randomness: R,
    /// The rule giving a validator's proportional share of the slots beyond the minimum.
    pub share: S,
    /// Current epoch index.
    pub epoch_index: u64,
    /// Current slot number.
    pub current_slot: u64,
    /// The current epoch schedule.
    pub current_schedule: Option<EpochSchedule>,
    /// The next epoch schedule.
    pub next_schedule: Option<EpochSchedule>,
    /// Current authorities.
    pub authorities: Vec<AuthorityId>,
    /// Next authorities (for the next epoch).
    pub next_authorities: Vec<AuthorityId>,
    /// BGS scores of the authorities, one record per authority.
    pub authority_scores: Vec<BlockGenerationScore>,
    /// Randomness for the current epoch.
    pub epoch_randomness: [u8; 32],
    /// Genesis slot.
    pub genesis_slot: u64,
    /// The block number of the last epoch change.
    pub last_epoch_change: u64,
    /// The events deposited so far.
    pub events: Vec<Event>,
}

impl<R: Fn([u8; 8]) -> Vec<u8>, S: Fn(u64, u64, u64) -> u64 + Copy> Pallet<R, S> {
    /// The pallet's state is consistent: the configuration is in range, the share rule
    /// accepts every input, the authority sets respect the maximum, and each authority
    /// has at most one BGS record.
    pub open spec fn wf(&self) -> bool {
        &&& self.config.wf()
        &&& forall|a: u64, b: u64, c: u64| self.share.requires((a, b, c))
        &&& forall|subject: [u8; 8]| self.randomness.requires((subject,))
        &&& self.authorities@.len() <= self.config.max_authorities
        &&& self.next_authorities@.len() <= self.config.max_authorities
        &&& unique_scores(self.authority_scores@)
    }

    /// Calculates the BGS record of an authority: the default security score and ten
    /// times the minimum stake.
    pub fn calculate_bgs(&self, authority: &AuthorityId) -> (r: BlockGenerationScore)
        requires
            self.config.wf(),
        ensures
            r == bgs_of(self.config, *authority),
    {
        let security_score = self.config.default_security_score;
        let stake = self.config.minimum_stake * 10;
        let score = BlockGenerationScore::calculate(security_score, stake);
        BlockGenerationScore { authority: *authority, security_score, stake, score }
    }

    /// Stores `bgs` as the record of its authority, replacing an earlier record.
    fn insert_score(scores: &mut Vec<BlockGenerationScore>, bgs: BlockGenerationScore)
        requires
            unique_scores(old(scores)@),
        ensures
            unique_scores(final(scores)@),
            forall|a: AuthorityId|
                #[trigger] score_entry(final(scores)@, a) == if a == bgs.authority {
                    Some(bgs)
                } else {
                    score_entry(old(scores)@, a)
                },
    {
        let ghost old_scores = scores@;
        let mut i: usize = 0;
        while i < scores.len()
            invariant
                scores@ == old_scores,
                old(scores)@ == old_scores,
                unique_scores(old_scores),
                i <= scores@.len(),
                forall|k: int| 0 <= k < i ==> scores@[k].authority != bgs.authority,
            decreases scores@.len() - i,
        {
            if scores[i].authority == bgs.authority {
                scores.set(i, bgs);
                proof {
                    assert forall|a: AuthorityId| #[trigger] score_entry(scores@, a) == if a == bgs.authority {
                        Some(bgs)
                    } else {
                        score_entry(old_scores, a)
                    } by {
                        if a == bgs.authority {
                            assert(scores@[i as int].authority == a);
                        } else {
                            if exists|k: int| 0 <= k < scores@.len() && #[trigger] scores@[k].authority == a {
                                let k = choose|k: int| 0 <= k < scores@.len() && #[trigger] scores@[k].authority == a;
                                assert(old_scores[k].authority == a);
                            }
                            if exists|k: int| 0 <= k < old_scores.len() && #[trigger] old_scores[k].authority == a {
                                let k = choose|k: int| 0 <= k < old_scores.len() && #[trigger] old_scores[k].authority == a;
                                assert(scores@[k].authority == a);
                            }
                        }
                    }
                }
                return;
            }
            i += 1;
        }
        scores.push(bgs);
        proof {
            assert forall|a: AuthorityId| #[trigger] score_entry(scores@, a) == if a == bgs.authority {
                Some(bgs)
            } else {
                score_entry(old_scores, a)
            } by {
                if a == bgs.authority {
                    assert(scores@[old_scores.len() as int].authority == a);
                } else {
                    if exists|k: int| 0 <= k < scores@.len() && #[trigger] scores@[k].authority == a {
                        let k = choose|k: int| 0 <= k < scores@.len() && #[trigger] scores@[k].authority == a;
                        assert(old_scores[k].authority == a);
                    }
                    if exists|k: int| 0 <= k < old_scores.len() && #[trigger] old_scores[k].authority == a {
                        let k = choose|k: int| 0 <= k < old_scores.len() && #[trigger] old_scores[k].authority == a;
                        assert(scores@[k].authority == a);
                    }
                }
            }
        }
    }

    /// The seed taken from a random output.
    fn seed_from(out: &[u8]) -> (r: [u8; 32])
        ensures
            r@ == seed_from_output(out@),
    {
        let mut seed: [u8; 32] = [0u8; 32];
        if out.len() == 32 {
            let mut i: usize = 0;
            while i < 32
                invariant
                    out@.len() == 32,
                    i <= 32,
                    forall|k: int| 0 <= k < i ==> seed@[k] == out@[k],
                decreases 32 - i,
            {
                seed[i] = out[i];
                i += 1;
            }
            assert(seed@ =~= out@);
        } else {
            assert(seed@ =~= Seq::new(32, |_i: int| 0u8));
        }
        seed
    }

    /// Computes, stores and announces the BGS record of every authority.
    fn record_scores(
        config: &Config,
        authorities: &Vec<AuthorityId>,
        stored: &mut Vec<BlockGenerationScore>,
        events: &mut Vec<Event>,
    ) -> (r: Vec<BlockGenerationScore>)
        requires
            config.wf(),
            unique_scores(old(stored)@),
        ensures
            r@ == scores_for(*config, authorities@),
            unique_scores(final(stored)@),
            forall|a: AuthorityId|
                #[trigger] score_entry(final(stored)@, a) == if authorities@.contains(a) {
                    Some(bgs_of(*config, a))
                } else {
                    score_entry(old(stored)@, a)
                },
            final(events)@ == old(events)@ + score_events(*config, authorities@),
    {
        let ghost stored0 = stored@;
        let ghost events0 = events@;
        let mut scores: Vec<BlockGenerationScore> = Vec::new();
        let mut i: usize = 0;
        while i < authorities.len()
            invariant
                config.wf(),
                i <= authorities@.len(),
                stored0 == old(stored)@,
                events0 == old(events)@,
                scores@ == scores_for(*config, authorities@.subrange(0, i as int)),
                unique_scores(stored@),
                forall|a: AuthorityId|
                    #[trigger] score_entry(stored@, a) == if authorities@.subrange(0, i as int).contains(a) {
                        Some(bgs_of(*config, a))
                    } else {
                        score_entry(stored0, a)
                    },
                events@ == events0 + score_events(*config, authorities@.subrange(0, i as int)),
            decreases authorities@.len() - i,
        {
            let authority = authorities[i];
            let security_score = config.default_security_score;
            let stake = config.minimum_stake * 10;
            let score = BlockGenerationScore::calculate(security_score, stake);
            let bgs = BlockGenerationScore { authority, security_score, stake, score };
            let ghost before = stored@;
            Self::insert_score(stored, bgs);
            scores.push(bgs);
            events.push(Event::AuthorityScoreCalculated { authority, score: bgs.score, stake: bgs.stake });
            proof {
                let prev = authorities@.subrange(0, i as int);
                let next = authorities@.subrange(0, i as int + 1);
                assert(next =~= prev.push(authority));
                assert forall|a: AuthorityId| #[trigger] next.contains(a) == (prev.contains(a) || a == authority) by {
                    if next.contains(a) {
                        let k = choose|k: int| 0 <= k < next.len() && next[k] == a;
                        if k < prev.len() {
                            assert(prev[k] == a);
                        }
                    }
                    if prev.contains(a) {
                        let k = choose|k: int| 0 <= k < prev.len() && prev[k] == a;
                        assert(next[k] == a);
                    }
                    if a == authority {
                        assert(next[i as int] == a);
                    }
                }
                assert(scores@ =~= scores_for(*config, next));
                assert(events@ =~= events0 + score_events(*config, next));
            }
            i += 1;
        }
        proof {
            assert(authorities@.subrange(0, i as int) =~= authorities@);
        }
        scores
    }

    /// The scheduled blocks made from schedule indices.
    fn blocks_from(authorities: &Vec<AuthorityId>, start_slot: u64, indices: &Vec<AuthorityIndex>) -> (r: Vec<ScheduledBlock>)
        requires
            start_slot + indices@.len() <= u64::MAX + 1,
        ensures
            r@ == blocks_from_indices(authorities@, start_slot, indices@),
    {
        let mut blocks: Vec<ScheduledBlock> = Vec::new();
        let mut k: usize = 0;
        while k < indices.len()
            invariant
                k <= indices@.len(),
                start_slot + indices@.len() <= u64::MAX + 1,
                blocks@ == blocks_from_indices(authorities@, start_slot, indices@.subrange(0, k as int)),
            decreases indices@.len() - k,
        {
            let authority_index = indices[k];
            proof {
                assert(indices@.subrange(0, k as int + 1).drop_last() =~= indices@.subrange(0, k as int));
            }
            if (authority_index as usize) < authorities.len() {
                blocks.push(ScheduledBlock {
                    slot: start_slot + k as u64,
                    authority: authorities[authority_index as usize],
                    authority_index,
                });
            }
            k += 1;
        }
        proof {
            assert(indices@.subrange(0, k as int) =~= indices@);
        }
        blocks
    }

    /// Generates the schedule of epoch `epoch_index`, starting at `start_slot`, from the
    /// random output `random_output`: every authority's BGS record is computed, stored and
    /// announced, the schedule indices are generated from the records with the seed taken
    /// from the output, and the schedule becomes the next schedule. Without authorities
    /// nothing changes.
    pub fn generate_next_schedule_from(&mut self, epoch_index: u64, start_slot: u64, random_output: &[u8])
        requires
            old(self).wf(),
            old(self).config.fits(old(self).authorities@.len()),
            old(self).authorities@.len() > 0 ==> start_slot + old(self).config.epoch_duration <= u64::MAX,
        ensures
            final(self).wf(),
            final(self).events@.len() >= old(self).events@.len(),
            final(self).events@.subrange(0, old(self).events@.len() as int) == old(self).events@,
            Self::next_generated(
                *old(self),
                *final(self),
                epoch_index,
                start_slot,
                random_output@,
                final(self).events@.subrange(old(self).events@.len() as int, final(self).events@.len() as int),
            ),
    {
        let ghost old_events = self.events@;
        if self.authorities.len() == 0 {
            proof {
                assert(self.events@.subrange(0, old_events.len() as int) =~= old_events);
                assert(self.events@.subrange(old_events.len() as int, self.events@.len() as int) =~= Seq::<Event>::empty());
            }
            return;
        }
        let scores = Self::record_scores(&self.config, &self.authorities, &mut self.authority_scores, &mut self.events);
        let seed_bytes = Self::seed_from(random_output);
        let config = ScheduleConfig::default();
        let epoch_duration = self.config.epoch_duration;
        proof {
            lemma_scores_for_fit(self.config, self.authorities@);
        }
        let indices = ScheduleGenerator::generate_schedule(scores.as_slice(), epoch_duration, seed_bytes, &config, self.share);
        proof {
            let adds = choose|adds: Seq<u64>|
                schedule::shares_from(self.share, scores@, epoch_duration as nat, 1, adds)
                    && indices@ == #[trigger] schedule::schedule_from_shares(scores@, epoch_duration, seed_bytes@, config, adds);
            schedule::law_schedule_length(scores@, epoch_duration, seed_bytes@, config, adds);
        }
        let blocks = Self::blocks_from(&self.authorities, start_slot, &indices);
        let schedule_length = indices.len() as u32;
        self.next_schedule = Some(EpochSchedule {
            epoch: epoch_index,
            start_slot,
            duration: epoch_duration,
            schedule: blocks,
            randomness: seed_bytes,
        });
        self.events.push(Event::ScheduleGenerated { epoch_index, schedule_length });
        proof {
            let new_events = self.events@.subrange(old_events.len() as int, self.events@.len() as int);
            assert(self.events@.subrange(0, old_events.len() as int) =~= old_events);
            assert(new_events =~= score_events(self.config, self.authorities@).push(
                Event::ScheduleGenerated { epoch_index, schedule_length: indices@.len() as u32 },
            ));
            assert(pallet_schedule_config() == config);
        }
    }

    /// Creates the pallet at genesis: every storage item holds its default (zero, empty,
    /// or no schedule) and no event has been deposited.
    pub fn new(config: Config, randomness: R, share: S) -> (r: Self)
        requires
            config.wf(),
            forall|a: u64, b: u64, c: u64| share.requires((a, b, c)),
            forall|subject: [u8; 8]| randomness.requires((subject,)),
        ensures
            r.wf(),
            r.config == config,
            r.randomness == randomness,
            r.share == share,
            r.epoch_index == 0,
            r.current_slot == 0,
            r.current_schedule is None,
            r.next_schedule is None,
            r.authorities@.len() == 0,
            r.next_authorities@.len() == 0,
            r.authority_scores@.len() == 0,
            r.epoch_randomness@ == Seq::new(32, |_i: int| 0u8),
            r.genesis_slot == 0,
            r.last_epoch_change == 0,
            r.events@.len() == 0,
    {
        let epoch_randomness: [u8; 32] = [0u8; 32];
        assert(epoch_randomness@ =~= Seq::new(32, |_i: int| 0u8));
        Pallet {
            config,
            randomness,
            share,
            epoch_index: 0,
            current_slot: 0,
            current_schedule: None,
            next_schedule: None,
            authorities: Vec::new(),
            next_authorities: Vec::new(),
            authority_scores: Vec::new(),
            epoch_randomness,
            genesis_slot: 0,
            last_epoch_change: 0,
            events: Vec::new(),
        }
    }

    /// The block-initialization hook: with a non-zero block time, the current slot
    /// becomes `timestamp / expected_block_time`, and the epoch changes when an epoch
    /// starts at that slot. Reports the storage accesses to weigh.
    pub fn on_initialize(&mut self, now: u64, timestamp: u64) -> (r: DbAccesses)
        requires
            old(self).wf(),
            old(self).config.expected_block_time != 0 && old(self).epoch_starts_at(
                timestamp / old(self).config.expected_block_time,
            ) ==> old(self).change_fits(timestamp / old(self).config.expected_block_time),
        ensures
            final(self).wf(),
            r == (DbAccesses { reads: 3, writes: 2 }),
            old(self).config.expected_block_time == 0 ==> *final(self) == *old(self),
            old(self).config.expected_block_time != 0 ==> {
                let slot = timestamp / old(self).config.expected_block_time;
                let updated = Pallet { current_slot: slot, ..*old(self) };
                if old(self).epoch_starts_at(slot) {
                    &&& final(self).epoch_index == old(self).epoch_index + 1
                    &&& Self::events_extend(updated, *final(self))
                    &&& exists|out: Seq<u8>|
                        #[trigger] Self::epoch_changed(updated, *final(self), now, slot, out, Self::events_since(updated, *final(self)))
                } else {
                    *final(self) == updated
                }
            },
    {
        let slot_duration = self.config.expected_block_time;
        if slot_duration != 0 {
            let current_slot = timestamp / slot_duration;
            self.current_slot = current_slot;
            if self.should_epoch_change(current_slot) {
                self.change_epoch(now, current_slot);
            }
        }
        DbAccesses { reads: 3, writes: 2 }
    }

    /// The block-finalization hook: nothing to do.
    pub fn on_finalize(&mut self, now: u64)
        ensures
            *final(self) == *old(self),
    {
    }

    /// Forces an epoch change at block `block_number` (root only): a root call changes
    /// the epoch at the current slot; any other origin fails with `BadOrigin` and changes
    /// nothing.
    pub fn force_new_epoch(&mut self, origin: Origin, block_number: u64) -> (r: Result<(), DispatchError>)
        requires
            old(self).wf(),
            origin == Origin::Root ==> old(self).change_fits(old(self).current_slot),
        ensures
            final(self).wf(),
            origin != Origin::Root ==> r == Err::<(), DispatchError>(DispatchError::BadOrigin) && *final(self) == *old(self),
            origin == Origin::Root ==> {
                &&& r is Ok
                &&& final(self).epoch_index == old(self).epoch_index + 1
                &&& Self::events_extend(*old(self), *final(self))
                &&& exists|out: Seq<u8>|
                    #[trigger] Self::epoch_changed(*old(self), *final(self), block_number, old(self).current_slot, out, Self::events_since(*old(self), *final(self)))
            },
    {
        match origin {
            Origin::Root => {},
            _ => {
                return Err(DispatchError::BadOrigin);
            },
        }
        let current_slot = self.current_slot;
        self.change_epoch(block_number, current_slot);
        Ok(())
    }

    /// Reports an equivocation (a signed call): a signed origin succeeds and nothing
    /// changes; any other origin fails with `BadOrigin`.
    pub fn report_equivocation(&self, origin: Origin, equivocation_proof: Vec<u8>) -> (r: Result<(), DispatchError>)
        ensures
            r == if origin is Signed { Ok::<(), DispatchError>(()) } else { Err(DispatchError::BadOrigin) },
    {
        match origin {
            Origin::Signed(_) => Ok(()),
            _ => Err(DispatchError::BadOrigin),
        }
    }

    /// The authority the current schedule assigns to `slot`, if any.
    pub open spec fn scheduled_at(&self, slot: u64) -> Option<AuthorityId> {
        match self.current_schedule {
            Some(s) => s.authority_at(slot),
            None => None,
        }
    }

    /// Whether `authority` is scheduled for `slot` in the current schedule.
    pub fn is_scheduled(&self, slot: u64, authority: &AuthorityId) -> (r: bool)
        ensures
            r == (self.scheduled_at(slot) == Some(*authority)),
    {
        match &self.current_schedule {
            Some(schedule) => schedule.is_scheduled(slot, authority),
            None => false,
        }
    }

    /// The authority the current schedule assigns to `slot`.
    pub fn scheduled_authority(&self, slot: u64) -> (r: Option<AuthorityId>)
        ensures
            r == self.scheduled_at(slot),
    {
        match &self.current_schedule {
            Some(schedule) => match schedule.get_authority_for_slot(slot) {
                Some(a) => Some(*a),
                None => None,
            },
            None => None,
        }
    }

    /// Whether `out` is an output the randomness source may give when it is asked for the
    /// little-endian bytes of `subject`.
    pub open spec fn random_gives(&self, subject: u64, out: Seq<u8>) -> bool {
        exists|bytes: [u8; 8], v: Vec<u8>|
            bytes@ == le_bytes(subject) && v@ == out && #[trigger] self.randomness.ensures((bytes,), v)
    }

    /// The state after a schedule generated as next is promoted to current.
    pub open spec fn promoted(mid: Self) -> Self {
        Pallet {
            current_schedule: if mid.next_schedule is Some { mid.next_schedule } else { mid.current_schedule },
            next_schedule: None,
            ..mid
        }
    }

    /// `after` is `before` with the genesis authorities `authorities` installed: the
    /// authorities are set, the schedule of epoch 0 (from slot 0) is generated, and it
    /// becomes the current schedule.
    pub open spec fn authorities_initialized(before: Self, after: Self, authorities: Vec<AuthorityId>) -> bool {
        exists|mid: Self, out: Seq<u8>| {
            &&& before.random_gives(0, out)
            &&& #[trigger] Self::next_generated(
                Pallet { authorities, ..before },
                mid,
                0,
                0,
                out,
                Self::events_since(before, after),
            )
            &&& mid.events == after.events
            &&& after == Self::promoted(mid)
        }
    }

    /// Initializes the genesis authorities: more than `max_authorities` fail with
    /// `TooManyAuthorities` and change nothing; otherwise they become the authorities and
    /// the schedule of epoch 0 is generated and made current.
    pub fn initialize_authorities(&mut self, authorities: Vec<AuthorityId>) -> (r: Result<(), DispatchError>)
        requires
            old(self).wf(),
            authorities@.len() <= old(self).config.max_authorities ==> old(self).config.fits(authorities@.len()),
        ensures
            final(self).wf(),
            authorities@.len() > old(self).config.max_authorities ==> r == Err::<(), DispatchError>(
                DispatchError::Module(Error::TooManyAuthorities),
            ) && *final(self) == *old(self),
            authorities@.len() <= old(self).config.max_authorities ==> {
                &&& r is Ok
                &&& final(self).authorities@ == authorities@
                &&& Self::events_extend(*old(self), *final(self))
                &&& Self::authorities_initialized(*old(self), *final(self), authorities)
            },
    {
        if authorities.len() > self.config.max_authorities as usize {
            return Err(DispatchError::Module(Error::TooManyAuthorities));
        }
        let ghost before = *self;
        self.authorities = authorities;
        let ghost installed = *self;
        self.generate_next_schedule(0, 0);
        let ghost mid = *self;
        if let Some(schedule) = self.next_schedule.take() {
            self.current_schedule = Some(schedule);
        }
        proof {
            let out = choose|out: Seq<u8>|
                installed.random_gives(0, out) && #[trigger] Self::next_generated(installed, mid, 0, 0, out, Self::events_since(installed, mid));
            assert(before.random_gives(0, out));
            assert(*self == Self::promoted(mid));
            assert(Self::events_since(installed, mid) == Self::events_since(before, *self));
            assert(Self::next_generated(Pallet { authorities, ..before }, mid, 0, 0, out, Self::events_since(before, *self)));
        }
        Ok(())
    }

    /// The genesis session hook: installs the genesis authorities, ignoring a failure.
    pub fn on_genesis_session(&mut self, validators: Vec<AuthorityId>)
        requires
            old(self).wf(),
            validators@.len() <= old(self).config.max_authorities ==> old(self).config.fits(validators@.len()),
        ensures
            final(self).wf(),
            validators@.len() > old(self).config.max_authorities ==> *final(self) == *old(self),
            validators@.len() <= old(self).config.max_authorities ==> {
                &&& final(self).authorities@ == validators@
                &&& Self::events_extend(*old(self), *final(self))
                &&& Self::authorities_initialized(*old(self), *final(self), validators)
            },
    {
        let _ = self.initialize_authorities(validators);
    }

    /// The new-session hook: when the validator set changed, it becomes the next
    /// authorities.
    pub fn on_new_session(&mut self, changed: bool, validators: Vec<AuthorityId>)
        requires
            old(self).wf(),
            changed ==> validators@.len() <= old(self).config.max_authorities,
        ensures
            final(self).wf(),
            *final(self) == if changed { Pallet { next_authorities: validators, ..*old(self) } } else { *old(self) },
    {
        if changed {
            self.next_authorities = validators;
        }
    }

    /// The hook for a disabled validator: nothing to do.
    pub fn on_disabled(&mut self, i: u32)
        ensures
            *final(self) == *old(self),
    {
    }

    /// The state after the rotation that starts an epoch change: the epoch index is one
    /// higher, the block number is recorded, the next authorities (when there are any)
    /// become the authorities, and a stored next schedule becomes the current one.
    pub open spec fn rotated(old: Self, now: u64, next_authorities_copy: Vec<AuthorityId>) -> Self {
        Pallet {
            epoch_index: (old.epoch_index + 1) as u64,
            last_epoch_change: now,
            authorities: if old.next_authorities@.len() > 0 { next_authorities_copy } else { old.authorities },
            current_schedule: if old.next_schedule is Some { old.next_schedule } else { old.current_schedule },
            next_schedule: None,
            ..old
        }
    }

    /// `after` differs from `before` only in what an epoch change does; `out` is the random
    /// output the next schedule was generated from and `new_events` the events deposited.
    pub open spec fn epoch_changed(before: Self, after: Self, now: u64, start_slot: u64, out: Seq<u8>, new_events: Seq<Event>) -> bool {
        exists|copy: Vec<AuthorityId>| {
            &&& #[trigger] copy@ == before.next_authorities@
            &&& before.random_gives((before.epoch_index + 2) as u64, out)
            &&& Self::next_generated(
                Self::rotated(before, now, copy),
                after,
                (before.epoch_index + 2) as u64,
                (start_slot + before.config.epoch_duration) as u64,
                out,
                new_events.drop_last(),
            )
            &&& new_events.len() > 0
            &&& new_events.last() == Event::EpochChanged {
                epoch_index: (before.epoch_index + 1) as u64,
                start_slot,
                authorities: after.authorities@.len() as u32,
            }
        }
    }

    /// Whether an epoch starts at `slot`: the epoch duration is not zero and divides the
    /// slot number.
    pub open spec fn epoch_starts_at(&self, slot: u64) -> bool {
        self.config.epoch_duration != 0 && slot % self.config.epoch_duration == 0
    }

    /// The events deposited since `before`.
    pub open spec fn events_since(before: Self, after: Self) -> Seq<Event> {
        after.events@.subrange(before.events@.len() as int, after.events@.len() as int)
    }

    /// `after`'s event log is `before`'s followed by more events.
    pub open spec fn events_extend(before: Self, after: Self) -> bool {
        &&& after.events@.len() >= before.events@.len()
        &&& after.events@.subrange(0, before.events@.len() as int) == before.events@
    }

    /// A copy of a list of authorities.
    fn copy_authorities(v: &Vec<AuthorityId>) -> (r: Vec<AuthorityId>)
        ensures
            r@ == v@,
    {
        let mut r: Vec<AuthorityId> = Vec::new();
        let mut i: usize = 0;
        while i < v.len()
            invariant
                i <= v@.len(),
                r@ == v@.subrange(0, i as int),
            decreases v@.len() - i,
        {
            r.push(v[i]);
            i += 1;
            assert(r@ =~= v@.subrange(0, i as int));
        }
        assert(r@ =~= v@);
        r
    }

    /// Generates the schedule of epoch `epoch_index` starting at `start_slot`, with the
    /// randomness the source gives for the little-endian bytes of `epoch_index`.
    pub fn generate_next_schedule(&mut self, epoch_index: u64, start_slot: u64)
        requires
            old(self).wf(),
            old(self).config.fits(old(self).authorities@.len()),
            old(self).authorities@.len() > 0 ==> start_slot + old(self).config.epoch_duration <= u64::MAX,
        ensures
            final(self).wf(),
            Self::events_extend(*old(self), *final(self)),
            exists|out: Seq<u8>|
                old(self).random_gives(epoch_index, out)
                    && #[trigger] Self::next_generated(*old(self), *final(self), epoch_index, start_slot, out, Self::events_since(*old(self), *final(self))),
    {
        let v = vstd::bytes::u64_to_le_bytes(epoch_index);
        let subject: [u8; 8] = [v[0], v[1], v[2], v[3], v[4], v[5], v[6], v[7]];
        assert(subject@ =~= le_bytes(epoch_index));
        let random_output = (self.randomness)(subject);
        assert(old(self).random_gives(epoch_index, random_output@));
        self.generate_next_schedule_from(epoch_index, start_slot, random_output.as_slice());
        assert(Self::next_generated(*old(self), *self, epoch_index, start_slot, random_output@, Self::events_since(*old(self), *self)));
    }

    /// The number of authorities after the next rotation: the next authorities when there
    /// are any, the current ones otherwise.
    pub open spec fn next_set_len(&self) -> nat {
        if self.next_authorities@.len() > 0 {
            self.next_authorities@.len()
        } else {
            self.authorities@.len()
        }
    }

    /// What an epoch change at `start_slot` needs to stay in range: the next two epoch
    /// indices and the start of the epoch after next fit in 64 bits; when there are
    /// authorities after the rotation, so do the slots of that epoch and their scores.
    pub open spec fn change_fits(&self, start_slot: u64) -> bool {
        &&& self.epoch_index + 2 <= u64::MAX
        &&& start_slot + self.config.epoch_duration <= u64::MAX
        &&& self.next_set_len() > 0 ==> start_slot + 2 * self.config.epoch_duration <= u64::MAX
        &&& self.config.fits(self.next_set_len())
    }

    /// Whether the epoch should change at `slot`.
    pub fn should_epoch_change(&self, slot: u64) -> (r: bool)
        ensures
            r == self.epoch_starts_at(slot),
    {
        let epoch_duration = self.config.epoch_duration;
        if epoch_duration == 0 {
            return false;
        }
        slot % epoch_duration == 0
    }

    /// Performs an epoch change at block `now` for the epoch starting at `start_slot`: the
    /// epoch index advances by one, the authorities and the schedules rotate, the schedule
    /// of the epoch after next is generated, and the change is announced.
    pub fn change_epoch(&mut self, now: u64, start_slot: u64)
        requires
            old(self).wf(),
            old(self).change_fits(start_slot),
        ensures
            final(self).wf(),
            final(self).epoch_index == old(self).epoch_index + 1,
            final(self).last_epoch_change == now,
            Self::events_extend(*old(self), *final(self)),
            exists|out: Seq<u8>|
                #[trigger] Self::epoch_changed(*old(self), *final(self), now, start_slot, out, Self::events_since(*old(self), *final(self))),
    {
        let ghost before = *self;
        let new_epoch = self.epoch_index + 1;
        self.epoch_index = new_epoch;
        self.last_epoch_change = now;
        // Rotate authorities.
        let next_authorities = Self::copy_authorities(&self.next_authorities);
        let ghost copy = next_authorities;
        if self.next_authorities.len() > 0 {
            self.authorities = next_authorities;
        }
        // Rotate schedules.
        if let Some(next_schedule) = self.next_schedule.take() {
            self.current_schedule = Some(next_schedule);
        }
        let ghost mid = *self;
        assert(mid == Self::rotated(before, now, copy));
        // Generate the schedule of the epoch after.
        self.generate_next_schedule(new_epoch + 1, start_slot + self.config.epoch_duration);
        let ghost generated = *self;
        let authorities = self.authorities.len() as u32;
        self.events.push(Event::EpochChanged { epoch_index: new_epoch, start_slot, authorities });
        proof {
            let out = choose|out: Seq<u8>|
                mid.random_gives((new_epoch + 1) as u64, out)
                    && #[trigger] Self::next_generated(mid, generated, (new_epoch + 1) as u64, (start_slot + before.config.epoch_duration) as u64, out, Self::events_since(mid, generated));
            assert(before.random_gives((before.epoch_index + 2) as u64, out));
            let evs = Self::events_since(before, *self);
            assert(self.events@.subrange(0, before.events@.len() as int) =~= before.events@);
            assert(evs.drop_last() =~= Self::events_since(mid, generated));
            assert(Self::next_generated(Self::rotated(before, now, copy), *self, (before.epoch_index + 2) as u64, (start_slot + before.config.epoch_duration) as u64, out, evs.drop_last()));
            assert(Self::epoch_changed(before, *self, now, start_slot, out, evs));
        }
    }

    /// `after` is `before` with the next schedule generated for epoch `epoch_index`
    /// starting at `start_slot` from the random output `out`, `new_events` being the events
    /// this deposits; the events themselves are not compared.
    pub open spec fn next_generated(before: Self, after: Self, epoch_index: u64, start_slot: u64, out: Seq<u8>, new_events: Seq<Event>) -> bool {
        &&& after.config == before.config
        &&& after.randomness == before.randomness
        &&& after.share == before.share
        &&& after.epoch_index == before.epoch_index
        &&& after.current_slot == before.current_slot
        &&& after.current_schedule == before.current_schedule
        &&& after.authorities@ == before.authorities@
        &&& after.next_authorities@ == before.next_authorities@
        &&& after.epoch_randomness == before.epoch_randomness
        &&& after.genesis_slot == before.genesis_slot
        &&& after.last_epoch_change == before.last_epoch_change
        &&& if before.authorities@.len() == 0 {
            &&& after.authority_scores@ == before.authority_scores@
            &&& after.next_schedule == before.next_schedule
            &&& new_events == Seq::<Event>::empty()
        } else {
            let auths = before.authorities@;
            let seed = seed_from_output(out);
            &&& forall|a: AuthorityId|
                #[trigger] score_entry(after.authority_scores@, a) == if auths.contains(a) {
                    Some(bgs_of(before.config, a))
                } else {
                    score_entry(before.authority_scores@, a)
                }
            &&& exists|idx: Seq<u32>| {
                &&& #[trigger] schedule::generated_by(
                    scores_for(before.config, auths),
                    before.config.epoch_duration,
                    seed,
                    pallet_schedule_config(),
                    before.share,
                    idx,
                )
                &&& after.next_schedule is Some
                &&& schedule_is(
                    after.next_schedule->0,
                    epoch_index,
                    start_slot,
                    before.config.epoch_duration,
                    seed,
                    blocks_from_indices(auths, start_slot, idx),
                )
                &&& new_events == score_events(before.config, auths).push(
                    Event::ScheduleGenerated { epoch_index, schedule_length: idx.len() as u32 },
                )
            }
        }
    }
}

} // verus!

verus! {

/// Blocks made from valid indices: one per index, the `k`-th for slot `start_slot + k`
/// and for the authority the `k`-th index names.
pub proof fn lemma_blocks_from_valid_indices(authorities: Seq<AuthorityId>, start_slot: u64, indices: Seq<u32>)
    requires
        forall|k: int| 0 <= k < indices.len() ==> (#[trigger] indices[k] as int) < authorities.len(),
        start_slot + indices.len() <= u64::MAX + 1,
    ensures
        blocks_from_indices(authorities, start_slot, indices).len() == indices.len(),
        forall|k: int| 0 <= k < indices.len() ==> {
            &&& (#[trigger] blocks_from_indices(authorities, start_slot, indices)[k]).slot == start_slot + k
            &&& blocks_from_indices(authorities, start_slot, indices)[k].authority == authorities[indices[k] as int]
            &&& blocks_from_indices(authorities, start_slot, indices)[k].authority_index == indices[k]
        },
    decreases indices.len(),
{
    if indices.len() > 0 {
        let prev = indices.drop_last();
        assert forall|k: int| 0 <= k < prev.len() implies (#[trigger] prev[k] as int) < authorities.len() by {
            assert(prev[k] == indices[k]);
        }
        lemma_blocks_from_valid_indices(authorities, start_slot, prev);
        assert(indices[indices.len() - 1] == indices.last());
    }
}

/// A schedule the pallet generates for a non-empty authority set has one block per slot
/// of the epoch: `epoch_duration` blocks, the `k`-th for slot `start_slot + k` and for one
/// of the authorities; so every slot of the epoch has its authority.
pub proof fn law_generated_schedule_complete<R: Fn([u8; 8]) -> Vec<u8>, S: Fn(u64, u64, u64) -> u64 + Copy>(
    before: Pallet<R, S>,
    after: Pallet<R, S>,
    epoch_index: u64,
    start_slot: u64,
    out: Seq<u8>,
    new_events: Seq<Event>,
)
    requires
        Pallet::next_generated(before, after, epoch_index, start_slot, out, new_events),
        0 < before.authorities@.len() <= 0x1_0000_0000,
        start_slot + before.config.epoch_duration <= u64::MAX,
    ensures
        after.next_schedule is Some,
        after.next_schedule->0.schedule@.len() == before.config.epoch_duration,
        forall|k: int| 0 <= k < before.config.epoch_duration ==> {
            &&& (#[trigger] after.next_schedule->0.schedule@[k]).slot == start_slot + k
            &&& before.authorities@.contains(after.next_schedule->0.schedule@[k].authority)
        },
        forall|k: int|
            0 <= k < before.config.epoch_duration ==> after.next_schedule->0.authority_at((start_slot + k) as u64)
                == Some(#[trigger] after.next_schedule->0.schedule@[k].authority),
{
    let auths = before.authorities@;
    let scores = scores_for(before.config, auths);
    let seed = seed_from_output(out);
    let dur = before.config.epoch_duration;
    let idx = choose|idx: Seq<u32>| {
        &&& #[trigger] schedule::generated_by(scores, dur, seed, pallet_schedule_config(), before.share, idx)
        &&& after.next_schedule is Some
        &&& schedule_is(after.next_schedule->0, epoch_index, start_slot, dur, seed, blocks_from_indices(auths, start_slot, idx))
        &&& new_events == score_events(before.config, auths).push(
            Event::ScheduleGenerated { epoch_index, schedule_length: idx.len() as u32 },
        )
    };
    let adds = choose|adds: Seq<u64>|
        schedule::shares_from(before.share, scores, dur as nat, 1, adds)
            && idx == #[trigger] schedule::schedule_from_shares(scores, dur, seed, pallet_schedule_config(), adds);
    schedule::law_schedule_length(scores, dur, seed, pallet_schedule_config(), adds);
    schedule::law_schedule_indices_valid(scores, dur, seed, pallet_schedule_config(), adds);
    lemma_blocks_from_valid_indices(auths, start_slot, idx);
    let s = after.next_schedule->0;
    assert forall|k: int| 0 <= k < dur implies {
        &&& (#[trigger] s.schedule@[k]).slot == start_slot + k
        &&& auths.contains(s.schedule@[k].authority)
    } by {
        assert(auths[idx[k] as int] == s.schedule@[k].authority);
    }
    assert forall|k: int| 0 <= k < dur implies s.authority_at((start_slot + k) as u64) == Some(#[trigger] s.schedule@[k].authority) by {
        primitives::law_consecutive_schedule_lookup(s, k);
    }
}

} // verus!
