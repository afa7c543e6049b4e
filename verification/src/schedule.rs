//! The score-proportional schedule generator: a minimum number of blocks per validator,
//! the rest shared in proportion to block generation scores, a limit on consecutive
//! blocks, and a deterministic shuffle driven by the epoch seed.

use vstd::prelude::*;
use crate::primitives::{AuthorityIndex, BlockGenerationScore, ScheduleConfig};
use crate::runs;
use crate::seqs::{self, push_copies_in_vec, read_le_u64, swap_in_vec};

verus! {

// ---------------------------------------------------------------------------------------
// Consecutive-block limit
// ---------------------------------------------------------------------------------------

/// The length of the run of equal elements of `s` that starts at position `i`.
pub open spec fn run_len(s: Seq<u32>, i: int) -> nat
    decreases s.len() - i,
{
    if 0 <= i && i + 1 < s.len() && s[i + 1] == s[i] {
        1 + run_len(s, i + 1)
    } else {
        1
    }
}

/// The first position at or after `start` whose element differs from `v`.
pub open spec fn first_different(s: Seq<u32>, start: int, v: u32) -> Option<int>
    decreases s.len() - start,
{
    if start < 0 || start >= s.len() {
        None
    } else if s[start] != v {
        Some(start)
    } else {
        first_different(s, start + 1, v)
    }
}

/// A run starting at `i` stays inside the sequence.
pub proof fn lemma_run_len_bounds(s: Seq<u32>, i: int)
    requires
        0 <= i < s.len(),
    ensures
        1 <= run_len(s, i) <= s.len() - i,
    decreases s.len() - i,
{
    if i + 1 < s.len() && s[i + 1] == s[i] {
        lemma_run_len_bounds(s, i + 1);
    }
}

/// A run of `c` equal elements that is not followed by another equal element has
/// length `c`.
pub proof fn lemma_run_len_is(s: Seq<u32>, i: int, c: int)
    requires
        0 <= i,
        1 <= c,
        i + c <= s.len(),
        forall|k: int| i <= k < i + c ==> s[k] == s[i],
        i + c == s.len() || s[i + c] != s[i],
    ensures
        run_len(s, i) == c,
    decreases c,
{
    if c > 1 {
        lemma_run_len_is(s, i + 1, c - 1);
    }
}

/// The position `first_different` finds lies in the sequence and holds a different
/// element.
pub proof fn lemma_first_different_range(s: Seq<u32>, start: int, v: u32)
    ensures
        first_different(s, start, v) matches Some(j) ==> start <= j < s.len() && s[j] != v,
    decreases s.len() - start,
{
    if 0 <= start < s.len() && s[start] == v {
        lemma_first_different_range(s, start + 1, v);
    }
}

/// The consecutive-block limit applied from position `i` on: at each run longer than
/// `max`, the element just past the first `max` of the run is exchanged with the first
/// later element that differs from the run, and the scan moves on by the shorter of the
/// run and `max`.
pub open spec fn enforce_from(s: Seq<u32>, i: int, max: nat) -> Seq<u32>
    decreases s.len() - i,
{
    if i < 0 || i >= s.len() || max == 0 {
        s
    } else {
        let c = run_len(s, i);
        let s2 = if c > max {
            match first_different(s, i + max, s[i]) {
                Some(j) => seqs::swap_spec(s, i + max, j),
                None => s,
            }
        } else {
            s
        };
        proof {
            lemma_run_len_bounds(s, i);
            lemma_first_different_range(s, i + max, s[i]);
        }
        enforce_from(s2, i + if c < max { c } else { max }, max)
    }
}

/// The schedule after the consecutive-block limit `max` is applied.
pub open spec fn enforce_limits(s: Seq<u32>, max: nat) -> Seq<u32> {
    enforce_from(s, 0, max)
}

/// The consecutive-block limit only exchanges elements: it keeps the length and the
/// multiset of the schedule.
pub proof fn lemma_enforce_from_permutes(s: Seq<u32>, i: int, max: nat)
    ensures
        enforce_from(s, i, max).len() == s.len(),
        enforce_from(s, i, max).to_multiset() == s.to_multiset(),
    decreases s.len() - i,
{
    if !(i < 0 || i >= s.len() || max == 0) {
        let c = run_len(s, i);
        lemma_run_len_bounds(s, i);
        lemma_first_different_range(s, i + max, s[i]);
        let s2 = if c > max {
            match first_different(s, i + max, s[i]) {
                Some(j) => seqs::swap_spec(s, i + max, j),
                None => s,
            }
        } else {
            s
        };
        if c > max {
            if let Some(j) = first_different(s, i + max, s[i]) {
                seqs::lemma_swap_multiset(s, i + max, j);
            }
        }
        lemma_enforce_from_permutes(s2, i + if c < max { c } else { max }, max);
    }
}

// ---------------------------------------------------------------------------------------
// Deterministic shuffle
// ---------------------------------------------------------------------------------------

/// One step of the linear congruential generator that drives the shuffle.
pub open spec fn lcg_step(x: u64) -> u64 {
    x.wrapping_mul(1664525).wrapping_add(1013904223)
}

/// The Fisher-Yates pass from position `i` down to 1: each step advances the
/// generator and exchanges position `i` with position `rng % (i + 1)`.
pub open spec fn shuffle_down(s: Seq<u32>, i: int, rng: u64) -> Seq<u32>
    decreases i,
{
    if i < 1 || i >= s.len() {
        s
    } else {
        let r = lcg_step(rng);
        let j = (r as usize) as int % (i + 1);
        shuffle_down(seqs::swap_spec(s, i, j), i - 1, r)
    }
}

/// The schedule shuffled with the generator seeded by the first eight bytes of `seed`
/// (little-endian).
pub open spec fn deterministic_shuffle_spec(s: Seq<u32>, seed: Seq<u8>) -> Seq<u32> {
    shuffle_down(s, s.len() - 1, seqs::le_u64_at(seed, 0))
}

/// The shuffle only exchanges elements: it keeps the length and the multiset.
pub proof fn lemma_shuffle_down_permutes(s: Seq<u32>, i: int, rng: u64)
    ensures
        shuffle_down(s, i, rng).len() == s.len(),
        shuffle_down(s, i, rng).to_multiset() == s.to_multiset(),
    decreases i,
{
    if !(i < 1 || i >= s.len()) {
        let r = lcg_step(rng);
        let j = (r as usize) as int % (i + 1);
        seqs::lemma_swap_multiset(s, i, j);
        lemma_shuffle_down_permutes(seqs::swap_spec(s, i, j), i - 1, r);
    }
}

// ---------------------------------------------------------------------------------------
// Allocation of blocks to validators
// ---------------------------------------------------------------------------------------

/// The sum of the scores of a list of block generation scores.
pub open spec fn sum_scores(scores: Seq<BlockGenerationScore>) -> int
    decreases scores.len(),
{
    if scores.len() == 0 {
        0
    } else {
        sum_scores(scores.drop_last()) + scores.last().score
    }
}

/// A prefix of the scores sums to at most the sum of all of them.
pub proof fn lemma_sum_scores_prefix(scores: Seq<BlockGenerationScore>, i: int)
    requires
        0 <= i <= scores.len(),
    ensures
        0 <= sum_scores(scores.subrange(0, i)) <= sum_scores(scores),
        i < scores.len() ==> sum_scores(scores.subrange(0, i + 1)) == sum_scores(scores.subrange(0, i)) + scores[i].score,
    decreases scores.len(),
{
    if i < scores.len() {
        assert(scores.subrange(0, i + 1).drop_last() =~= scores.subrange(0, i));
    }
    if scores.len() > 0 {
        if i == scores.len() {
            assert(scores.subrange(0, i) =~= scores);
            lemma_sum_scores_prefix(scores.drop_last(), 0);
        } else {
            assert(scores.drop_last().subrange(0, i) =~= scores.subrange(0, i));
            lemma_sum_scores_prefix(scores.drop_last(), i);
        }
    }
}

/// The minimum guarantee: `min` copies of each index `0..n` in order, cut at `e`.
pub open spec fn minimum_phase(n: nat, min: nat, e: nat) -> Seq<u32>
    decreases n,
{
    if n == 0 {
        Seq::empty()
    } else {
        seqs::push_copies(minimum_phase((n - 1) as nat, min, e), (n - 1) as u32, min, e)
    }
}

/// The proportional part: after `s`, index `i` gets `adds[i]` more copies, in index
/// order, cut at `e`.
pub open spec fn proportional_phase(s: Seq<u32>, adds: Seq<u64>, e: nat) -> Seq<u32>
    decreases adds.len(),
{
    if adds.len() == 0 {
        s
    } else {
        seqs::push_copies(proportional_phase(s, adds.drop_last(), e), (adds.len() - 1) as u32, adds.last() as nat, e)
    }
}

/// The round-robin fill: the slots left up to `e` get the indices `0, 1, .., n - 1, 0, ..`.
pub open spec fn round_robin_fill(s: Seq<u32>, n: nat, e: nat) -> Seq<u32> {
    if s.len() < e {
        s + Seq::new((e - s.len()) as nat, |k: int| (k % (n as int)) as u32)
    } else {
        s
    }
}

/// The number of slots left after the minimum guarantee.
pub open spec fn remaining_after_minimum(n: nat, min: nat, e: nat) -> nat {
    (e - minimum_phase(n, min, e).len()) as nat
}

/// Whether the proportional part is computed: slots remain after the minimum guarantee
/// and the scores sum to more than zero.
pub open spec fn proportional_applies(scores: Seq<BlockGenerationScore>, e: nat, min: nat) -> bool {
    &&& minimum_phase(scores.len(), min, e).len() < e
    &&& sum_scores(scores) > 0
}

/// The blocks allocated to each index before any reordering.
pub open spec fn allocation(scores: Seq<BlockGenerationScore>, e: nat, min: nat, adds: Seq<u64>) -> Seq<u32> {
    let n = scores.len();
    let p1 = minimum_phase(n, min, e);
    if p1.len() < e {
        let p2 = if sum_scores(scores) > 0 { proportional_phase(p1, adds, e) } else { p1 };
        round_robin_fill(p2, n, e)
    } else {
        p1
    }
}

/// The schedule generated from the scores, with `adds[i]` the proportional share of the
/// remaining slots that index `i` received: the allocation, the consecutive-block pass,
/// the seeded shuffle when configured, and finally the runs limited to
/// `max_consecutive_blocks` where a longer one is left.
pub open spec fn schedule_from_shares(
    scores: Seq<BlockGenerationScore>,
    e: u64,
    seed: Seq<u8>,
    config: ScheduleConfig,
    adds: Seq<u64>,
) -> Seq<u32> {
    if scores.len() == 0 || e == 0 {
        Seq::empty()
    } else {
        let a = allocation(scores, e as nat, config.min_blocks_per_validator as nat, adds);
        let b = if config.max_consecutive_blocks > 0 {
            enforce_limits(a, config.max_consecutive_blocks as nat)
        } else {
            a
        };
        let c = if config.shuffle_schedule {
            deterministic_shuffle_spec(b, seed)
        } else {
            b
        };
        runs::limit_runs(c, config.max_consecutive_blocks as nat)
    }
}

/// Whether `adds` holds, for each index, a share that `share` may return for the
/// remaining slots, that index's score and the total score (required only where the
/// proportional part is computed).
pub open spec fn shares_from<F: Fn(u64, u64, u64) -> u64>(
    share: F,
    scores: Seq<BlockGenerationScore>,
    e: nat,
    min: nat,
    adds: Seq<u64>,
) -> bool {
    &&& adds.len() == scores.len()
    &&& proportional_applies(scores, e, min) ==> forall|i: int|
        0 <= i < scores.len() ==> share.ensures(
            (remaining_after_minimum(scores.len(), min, e) as u64, scores[i].score, sum_scores(scores) as u64),
            #[trigger] adds[i],
        )
}

/// Whether `r` is the schedule generated from the scores, the epoch length, the seed and
/// the configuration, with the proportional shares given by `share`.
pub open spec fn generated_by<F: Fn(u64, u64, u64) -> u64>(
    scores: Seq<BlockGenerationScore>,
    e: u64,
    seed: Seq<u8>,
    config: ScheduleConfig,
    share: F,
    r: Seq<u32>,
) -> bool {
    exists|adds: Seq<u64>|
        shares_from(share, scores, e as nat, config.min_blocks_per_validator as nat, adds)
            && r == #[trigger] schedule_from_shares(scores, e, seed, config, adds)
}

/// The schedule generator of the PoSc primitives.
pub struct ScheduleGenerator;

impl ScheduleGenerator {
    /// The first position at or after `start` whose element differs from `v`.
    fn find_different(schedule: &Vec<AuthorityIndex>, start: usize, v: u32) -> (r: Option<usize>)
        ensures
            match r {
                Some(j) => first_different(schedule@, start as int, v) == Some(j as int),
                None => first_different(schedule@, start as int, v) is None,
            },
    {
        let mut j = start;
        while j < schedule.len()
            invariant
                start <= j,
                first_different(schedule@, start as int, v) == first_different(schedule@, j as int, v),
            decreases schedule@.len() - j,
        {
            if schedule[j] != v {
                return Some(j);
            }
            j += 1;
        }
        None
    }


    /// Sums the scores.
    pub fn total_score(scores: &[BlockGenerationScore]) -> (r: u64)
        requires
            sum_scores(scores@) <= u64::MAX,
        ensures
            r == sum_scores(scores@),
    {
        let mut total: u64 = 0;
        let mut i: usize = 0;
        while i < scores.len()
            invariant
                i <= scores@.len(),
                sum_scores(scores@) <= u64::MAX,
                total == sum_scores(scores@.subrange(0, i as int)),
            decreases scores@.len() - i,
        {
            proof {
                lemma_sum_scores_prefix(scores@, i as int);
                lemma_sum_scores_prefix(scores@, i as int + 1);
            }
            total = total + scores[i].score;
            i += 1;
        }
        proof {
            assert(scores@.subrange(0, i as int) =~= scores@);
        }
        total
    }

    /// Generates a deterministic schedule from block generation scores: `r[k]` is the
    /// index of the validator that produces slot `k` of the epoch. `share(remaining,
    /// score, total)` gives the proportional share of the slots left after the minimum
    /// guarantee for a validator with `score` out of `total`. Whenever the allocated slots
    /// can be arranged so, no validator holds more than `max_consecutive_blocks` slots in
    /// a row (see `law_consecutive_limit`).
    pub fn generate_schedule<F: Fn(u64, u64, u64) -> u64>(
        scores: &[BlockGenerationScore],
        epoch_length: u64,
        seed: [u8; 32],
        config: &ScheduleConfig,
        share: F,
    ) -> (r: Vec<AuthorityIndex>)
        requires
            epoch_length <= usize::MAX,
            minimum_phase(scores@.len(), config.min_blocks_per_validator as nat, epoch_length as nat).len()
                < epoch_length ==> sum_scores(scores@) <= u64::MAX,
            forall|a: u64, b: u64, c: u64| share.requires((a, b, c)),
        ensures
            generated_by(scores@, epoch_length, seed@, *config, share, r@),
    {
        let ghost no_adds = Seq::new(scores@.len(), |i: int| 0u64);
        if scores.len() == 0 || epoch_length == 0 {
            let empty: Vec<AuthorityIndex> = Vec::new();
            proof {
                assert(shares_from(share, scores@, epoch_length as nat, config.min_blocks_per_validator as nat, no_adds));
                assert(empty@ =~= schedule_from_shares(scores@, epoch_length, seed@, *config, no_adds));
            }
            return empty;
        }
        let e = epoch_length as usize;
        let n = scores.len();
        let min = config.min_blocks_per_validator;
        let mut schedule: Vec<AuthorityIndex> = Vec::new();

        // Step 1: guarantee the minimum number of blocks to each validator.
        let mut index: usize = 0;
        while index < n
            invariant
                n == scores@.len(),
                index <= n,
                e == epoch_length,
                schedule@ == minimum_phase(index as nat, min as nat, e as nat),
                schedule@.len() <= e,
            decreases n - index,
        {
            push_copies_in_vec(&mut schedule, #[verifier::truncate] (index as AuthorityIndex), min as u64, e);
            index += 1;
        }
        let ghost p1 = schedule@;
        assert(schedule@.len() <= e);

        // Step 2: distribute the remaining blocks by score, then fill round-robin.
        let ghost mut adds: Seq<u64> = no_adds;
        if schedule.len() < e {
            let remaining = e - schedule.len();
            let total = Self::total_score(scores);
            if total > 0 {
                let ghost mut taken: Seq<u64> = Seq::empty();
                let mut index: usize = 0;
                while index < n
                    invariant
                        n == scores@.len(),
                        index <= n,
                        e == epoch_length,
                        remaining == e - p1.len(),
                        total == sum_scores(scores@),
                        forall|a: u64, b: u64, c: u64| share.requires((a, b, c)),
                        taken.len() == index,
                        schedule@ == proportional_phase(p1, taken, e as nat),
                        schedule@.len() <= e,
                        forall|k: int| 0 <= k < index ==> share.ensures(
                            (remaining as u64, scores@[k].score, total),
                            #[trigger] taken[k],
                        ),
                    decreases n - index,
                {
                    let additional_blocks = share(remaining as u64, scores[index].score, total);
                    proof {
                        assert(taken.push(additional_blocks).drop_last() =~= taken);
                    }
                    push_copies_in_vec(&mut schedule, #[verifier::truncate] (index as AuthorityIndex), additional_blocks, e);
                    proof {
                        taken = taken.push(additional_blocks);
                    }
                    index += 1;
                }
                proof {
                    adds = taken;
                }
            }
            let ghost p2 = schedule@;
            let mut next: usize = 0;
            proof {
                vstd::arithmetic::div_mod::lemma_small_mod(0, n as nat);
                assert(schedule@ =~= p2 + Seq::new(0, |k: int| (k % (n as int)) as u32));
            }
            while schedule.len() < e
                invariant
                    0 < n,
                    p2.len() <= schedule@.len() <= e,
                    schedule@ == p2 + Seq::new((schedule@.len() - p2.len()) as nat, |k: int| (k % (n as int)) as u32),
                    next as int == (schedule@.len() - p2.len()) % (n as int),
                decreases e - schedule@.len(),
            {
                let ghost k = schedule@.len() - p2.len();
                schedule.push(#[verifier::truncate] (next as AuthorityIndex));
                proof {
                    vstd::arithmetic::div_mod::lemma_add_mod_noop_right(1, k, n as int);
                    vstd::arithmetic::div_mod::lemma_mod_bound(k + 1, n as int);
                }
                next = (next + 1) % n;
                proof {
                    assert(schedule@ =~= p2 + Seq::new((schedule@.len() - p2.len()) as nat, |k: int| (k % (n as int)) as u32));
                }
            }
            proof {
                assert(schedule@ =~= round_robin_fill(p2, n as nat, e as nat));
            }
        }
        let ghost a = schedule@;
        assert(a == allocation(scores@, epoch_length as nat, min as nat, adds));

        // Step 3: apply the consecutive block limit.
        if config.max_consecutive_blocks > 0 {
            Self::enforce_consecutive_limits(&mut schedule, config.max_consecutive_blocks);
        }
        // Step 4: shuffle with the seed, if configured.
        if config.shuffle_schedule {
            Self::deterministic_shuffle(&mut schedule, seed);
        }
        // Step 5: keep the consecutive block limit through the shuffle.
        let same = |a: u32, b: u32| -> (r: bool)
            ensures
                r == (a == b),
            { a == b };
        let schedule = runs::limit_runs_vec(schedule, config.max_consecutive_blocks as usize, &same);
        proof {
            assert(shares_from(share, scores@, epoch_length as nat, min as nat, adds));
            assert(schedule@ == schedule_from_shares(scores@, epoch_length, seed@, *config, adds));
        }
        schedule
    }

    /// Enforces the maximum consecutive blocks constraint.
    fn enforce_consecutive_limits(schedule: &mut Vec<AuthorityIndex>, max_consecutive: u32)
        requires
            max_consecutive > 0,
        ensures
            final(schedule)@ == enforce_limits(old(schedule)@, max_consecutive as nat),
    {
        let ghost s0 = schedule@;
        let max = max_consecutive as usize;
        let mut i: usize = 0;
        while i < schedule.len()
            invariant
                max == max_consecutive,
                max > 0,
                enforce_from(schedule@, i as int, max as nat) == enforce_limits(s0, max as nat),
            decreases schedule@.len() - i,
        {
            let ghost s = schedule@;
            let mut consecutive_count: usize = 1;
            let current_validator = schedule[i];
            while i + consecutive_count < schedule.len() && schedule[i + consecutive_count] == current_validator
                invariant
                    schedule@ == s,
                    i < s.len(),
                    current_validator == s[i as int],
                    1 <= consecutive_count,
                    i + consecutive_count <= schedule.len(),
                    forall|k: int| i <= k < i + consecutive_count ==> s[k] == s[i as int],
                decreases s.len() - i - consecutive_count,
            {
                consecutive_count += 1;
            }
            proof {
                lemma_run_len_is(s, i as int, consecutive_count as int);
                lemma_run_len_bounds(s, i as int);
            }
            if consecutive_count > max {
                match Self::find_different(schedule, i + max, current_validator) {
                    Some(j) => {
                        proof {
                            lemma_first_different_range(s, i + max, current_validator);
                        }
                        swap_in_vec(schedule, i + max, j);
                    },
                    None => {},
                }
            }
            i += if consecutive_count < max { consecutive_count } else { max };
        }
    }

    /// Shuffles the schedule deterministically, with the generator seeded by `seed`.
    fn deterministic_shuffle(schedule: &mut Vec<AuthorityIndex>, seed: [u8; 32])
        ensures
            final(schedule)@ == deterministic_shuffle_spec(old(schedule)@, seed@),
    {
        let mut rng_state = read_le_u64(&seed, 0);
        if schedule.len() < 2 {
            return;
        }
        let mut i: usize = schedule.len() - 1;
        let ghost target = deterministic_shuffle_spec(schedule@, seed@);
        while i >= 1
            invariant
                i < schedule.len(),
                shuffle_down(schedule@, i as int, rng_state) == target,
            decreases i,
        {
            rng_state = rng_state.wrapping_mul(1664525).wrapping_add(1013904223);
            let j = (#[verifier::truncate] (rng_state as usize)) % (i + 1);
            swap_in_vec(schedule, i, j);
            i -= 1;
        }
    }
}

} // verus!

verus! {

// ---------------------------------------------------------------------------------------
// Properties of generated schedules
// ---------------------------------------------------------------------------------------

/// `v` repeated `k` times holds `k` copies of `v` and nothing else.
pub proof fn lemma_repeat_counts<A>(k: nat, v: A)
    ensures
        forall|w: A| #[trigger] seqs::repeat(k, v).to_multiset().count(w) == if w == v { k } else { 0 },
    decreases k,
{
    broadcast use vstd::seq_lib::group_to_multiset_ensures;
    broadcast use vstd::multiset::group_multiset_axioms;

    if k == 0 {
        assert(seqs::repeat(k, v) =~= Seq::<A>::empty());
    } else {
        lemma_repeat_counts((k - 1) as nat, v);
        assert(seqs::repeat(k, v) =~= seqs::repeat((k - 1) as nat, v).push(v));
    }
}

/// A sequence extended at its end holds at least as many copies of each element.
pub proof fn lemma_extension_counts<A>(s: Seq<A>, t: Seq<A>)
    ensures
        forall|w: A| #[trigger] (s + t).to_multiset().count(w) == s.to_multiset().count(w) + t.to_multiset().count(w),
{
    broadcast use vstd::multiset::group_multiset_axioms;

    vstd::seq_lib::lemma_multiset_commutative(s, t);
}

/// The minimum phase is the first part of the allocation.
pub proof fn lemma_allocation_extends_minimum(scores: Seq<BlockGenerationScore>, e: nat, min: nat, adds: Seq<u64>)
    ensures
        exists|t: Seq<u32>| allocation(scores, e, min, adds) == minimum_phase(scores.len(), min, e) + t,
{
    let p1 = minimum_phase(scores.len(), min, e);
    let a = allocation(scores, e, min, adds);
    lemma_proportional_phase_extends(p1, adds, e);
    if p1.len() < e {
        let p2 = if sum_scores(scores) > 0 { proportional_phase(p1, adds, e) } else { p1 };
        let t2 = choose|t: Seq<u32>| proportional_phase(p1, adds, e) == p1 + t;
        let u = if sum_scores(scores) > 0 { t2 } else { Seq::<u32>::empty() };
        assert(p2 =~= p1 + u);
        if p2.len() < e {
            let r = Seq::new((e - p2.len()) as nat, |k: int| (k % (scores.len() as int)) as u32);
            assert(a =~= p1 + (u + r));
        } else {
            assert(a =~= p1 + u);
        }
    } else {
        assert(a =~= p1 + Seq::<u32>::empty());
    }
}

/// The proportional phase only appends.
pub proof fn lemma_proportional_phase_extends(s: Seq<u32>, adds: Seq<u64>, e: nat)
    ensures
        exists|t: Seq<u32>| proportional_phase(s, adds, e) == s + t,
    decreases adds.len(),
{
    if adds.len() == 0 {
        assert(s =~= s + Seq::<u32>::empty());
    } else {
        lemma_proportional_phase_extends(s, adds.drop_last(), e);
        let prev = proportional_phase(s, adds.drop_last(), e);
        let t = choose|t: Seq<u32>| prev == s + t;
        let room: nat = if prev.len() < e { (e - prev.len()) as nat } else { 0 };
        let c = adds.last() as nat;
        let k: nat = if c < room { c } else { room };
        let extra = seqs::repeat(k, (adds.len() - 1) as u32);
        assert(proportional_phase(s, adds, e) =~= s + (t + extra));
    }
}

/// With `n * min <= e`, the minimum phase holds exactly `min` copies of each index below
/// `n`.
pub proof fn lemma_minimum_phase_counts(n: nat, min: nat, e: nat)
    requires
        n * min <= e,
        n <= 0x1_0000_0000,
    ensures
        minimum_phase(n, min, e).len() == n * min,
        forall|v: u32| #[trigger] minimum_phase(n, min, e).to_multiset().count(v) == if (v as int) < n { min } else { 0 },
    decreases n,
{
    broadcast use vstd::multiset::group_multiset_axioms;
    broadcast use vstd::multiset::group_multiset_properties;
    broadcast use vstd::seq_lib::group_to_multiset_ensures;

    if n == 0 {
        assert(minimum_phase(n, min, e) =~= Seq::<u32>::empty());
        assert(minimum_phase(n, min, e).to_multiset().len() == 0);
        assert(n * min == 0) by (nonlinear_arith)
            requires
                n == 0,
        ;
    } else {
        let m = (n - 1) as nat;
        assert(m * min + min == n * min) by (nonlinear_arith)
            requires
                m + 1 == n,
        ;
        lemma_minimum_phase_counts(m, min, e);
        let prev = minimum_phase(m, min, e);
        let extra = seqs::repeat(min, m as u32);
        assert(prev.len() == m * min);
        assert(minimum_phase(n, min, e) =~= prev + extra);
        assert(extra.len() == min);
        assert(minimum_phase(n, min, e).len() == n * min);
        lemma_extension_counts(prev, extra);
        lemma_repeat_counts(min, m as u32);
        assert forall|v: u32| #[trigger] minimum_phase(n, min, e).to_multiset().count(v) == if (v as int) < n { min } else { 0 } by {
            assert((prev + extra).to_multiset().count(v) == prev.to_multiset().count(v) + extra.to_multiset().count(v));
            assert(prev.to_multiset().count(v) == if (v as int) < m { min } else { 0 });
            assert(extra.to_multiset().count(v) == if v == m as u32 { min } else { 0 });
        }
    }
}

/// The elements of the minimum phase are indices below `n`.
pub proof fn lemma_minimum_phase_elems(n: nat, min: nat, e: nat)
    requires
        n <= 0x1_0000_0000,
    ensures
        forall|k: int| 0 <= k < minimum_phase(n, min, e).len() ==> (#[trigger] minimum_phase(n, min, e)[k] as int) < n,
    decreases n,
{
    if n > 0 {
        let m = (n - 1) as nat;
        lemma_minimum_phase_elems(m, min, e);
        let prev = minimum_phase(m, min, e);
        let cur = minimum_phase(n, min, e);
        assert forall|k: int| 0 <= k < cur.len() implies (#[trigger] cur[k] as int) < n by {
            if k < prev.len() {
                assert(cur[k] == prev[k]);
            } else {
                assert(cur[k] == m as u32);
            }
        }
    }
}

/// The proportional phase appends only indices below `adds.len()`.
pub proof fn lemma_proportional_phase_elems(s: Seq<u32>, adds: Seq<u64>, e: nat, n: nat)
    requires
        adds.len() <= n <= 0x1_0000_0000,
        forall|k: int| 0 <= k < s.len() ==> (#[trigger] s[k] as int) < n,
    ensures
        forall|k: int| 0 <= k < proportional_phase(s, adds, e).len() ==> (#[trigger] proportional_phase(s, adds, e)[k] as int) < n,
    decreases adds.len(),
{
    if adds.len() > 0 {
        lemma_proportional_phase_elems(s, adds.drop_last(), e, n);
        let prev = proportional_phase(s, adds.drop_last(), e);
        let cur = proportional_phase(s, adds, e);
        assert forall|k: int| 0 <= k < cur.len() implies (#[trigger] cur[k] as int) < n by {
            if k < prev.len() {
                assert(cur[k] == prev[k]);
            } else {
                assert(cur[k] == (adds.len() - 1) as u32);
            }
        }
    }
}

/// The allocation holds only indices below the number of validators.
pub proof fn lemma_allocation_elems(scores: Seq<BlockGenerationScore>, e: nat, min: nat, adds: Seq<u64>)
    requires
        0 < scores.len() <= 0x1_0000_0000,
        adds.len() == scores.len(),
    ensures
        forall|k: int| 0 <= k < allocation(scores, e, min, adds).len() ==> (#[trigger] allocation(scores, e, min, adds)[k] as int) < scores.len(),
{
    let n = scores.len();
    let p1 = minimum_phase(n, min, e);
    lemma_minimum_phase_elems(n, min, e);
    lemma_proportional_phase_elems(p1, adds, e, n);
    if p1.len() < e {
        let p2 = if sum_scores(scores) > 0 { proportional_phase(p1, adds, e) } else { p1 };
        assert forall|k: int| 0 <= k < round_robin_fill(p2, n, e).len() implies (#[trigger] round_robin_fill(p2, n, e)[k] as int) < n by {
            if k >= p2.len() {
                vstd::arithmetic::div_mod::lemma_mod_bound(k - p2.len(), n as int);
            }
        }
    }
}

/// The allocation fills the whole epoch.
pub proof fn lemma_allocation_len(scores: Seq<BlockGenerationScore>, e: nat, min: nat, adds: Seq<u64>)
    requires
        scores.len() > 0,
    ensures
        allocation(scores, e, min, adds).len() == e,
{
    let n = scores.len();
    lemma_minimum_phase_len(n, min, e);
    let p1 = minimum_phase(n, min, e);
    lemma_proportional_phase_len(p1, adds, e);
}

/// The minimum phase never exceeds the epoch length.
pub proof fn lemma_minimum_phase_len(n: nat, min: nat, e: nat)
    ensures
        minimum_phase(n, min, e).len() <= e,
    decreases n,
{
    if n > 0 {
        lemma_minimum_phase_len((n - 1) as nat, min, e);
    }
}

/// The proportional phase never takes a sequence past the epoch length.
pub proof fn lemma_proportional_phase_len(s: Seq<u32>, adds: Seq<u64>, e: nat)
    requires
        s.len() <= e,
    ensures
        proportional_phase(s, adds, e).len() <= e,
    decreases adds.len(),
{
    if adds.len() > 0 {
        lemma_proportional_phase_len(s, adds.drop_last(), e);
    }
}

/// The generated schedule is a reordering of the allocation.
pub proof fn lemma_schedule_permutes_allocation(
    scores: Seq<BlockGenerationScore>,
    e: u64,
    seed: Seq<u8>,
    config: ScheduleConfig,
    adds: Seq<u64>,
)
    requires
        scores.len() > 0,
        e > 0,
    ensures
        schedule_from_shares(scores, e, seed, config, adds).to_multiset()
            == allocation(scores, e as nat, config.min_blocks_per_validator as nat, adds).to_multiset(),
        schedule_from_shares(scores, e, seed, config, adds).len()
            == allocation(scores, e as nat, config.min_blocks_per_validator as nat, adds).len(),
{
    let a = allocation(scores, e as nat, config.min_blocks_per_validator as nat, adds);
    lemma_enforce_from_permutes(a, 0, config.max_consecutive_blocks as nat);
    let b = if config.max_consecutive_blocks > 0 { enforce_limits(a, config.max_consecutive_blocks as nat) } else { a };
    lemma_shuffle_down_permutes(b, b.len() - 1, seqs::le_u64_at(seed, 0));
    let c = if config.shuffle_schedule { deterministic_shuffle_spec(b, seed) } else { b };
    runs::lemma_limit_runs_permutes(c, config.max_consecutive_blocks as nat);
}

/// The consecutive block limit holds: when the limit is not zero and the blocks the
/// validators are allocated can be arranged with no validator holding more than
/// `max_consecutive_blocks` slots in a row, the generated schedule has no such run,
/// with or without the shuffle.
pub proof fn law_consecutive_limit(
    scores: Seq<BlockGenerationScore>,
    e: u64,
    seed: Seq<u8>,
    config: ScheduleConfig,
    adds: Seq<u64>,
)
    requires
        config.max_consecutive_blocks > 0,
        runs::arrangeable(
            allocation(scores, e as nat, config.min_blocks_per_validator as nat, adds),
            config.max_consecutive_blocks as nat,
        ),
    ensures
        runs::runs_within(schedule_from_shares(scores, e, seed, config, adds), config.max_consecutive_blocks as nat),
{
    if scores.len() > 0 && e > 0 {
        let k = config.max_consecutive_blocks as nat;
        let a = allocation(scores, e as nat, config.min_blocks_per_validator as nat, adds);
        lemma_enforce_from_permutes(a, 0, k);
        let b = enforce_limits(a, k);
        lemma_shuffle_down_permutes(b, b.len() - 1, seqs::le_u64_at(seed, 0));
        let c = if config.shuffle_schedule { deterministic_shuffle_spec(b, seed) } else { b };
        runs::lemma_arrangeable_permutation(a, c, k);
        runs::law_limit_runs(c, k);
    }
}

/// A generated schedule has one entry per slot of the epoch: exactly `epoch_length`
/// entries when there is at least one score, none otherwise.
pub proof fn law_schedule_length(
    scores: Seq<BlockGenerationScore>,
    e: u64,
    seed: Seq<u8>,
    config: ScheduleConfig,
    adds: Seq<u64>,
)
    ensures
        schedule_from_shares(scores, e, seed, config, adds).len() == if scores.len() == 0 { 0 } else { e as int },
{
    if scores.len() > 0 && e > 0 {
        lemma_schedule_permutes_allocation(scores, e, seed, config, adds);
        lemma_allocation_len(scores, e as nat, config.min_blocks_per_validator as nat, adds);
    }
}

/// Every entry of a generated schedule is the index of one of the scored validators.
pub proof fn law_schedule_indices_valid(
    scores: Seq<BlockGenerationScore>,
    e: u64,
    seed: Seq<u8>,
    config: ScheduleConfig,
    adds: Seq<u64>,
)
    requires
        scores.len() <= 0x1_0000_0000,
        adds.len() == scores.len(),
    ensures
        forall|k: int|
            0 <= k < schedule_from_shares(scores, e, seed, config, adds).len()
                ==> (#[trigger] schedule_from_shares(scores, e, seed, config, adds)[k] as int) < scores.len(),
{
    broadcast use vstd::seq_lib::group_to_multiset_ensures;

    if scores.len() > 0 && e > 0 {
        let r = schedule_from_shares(scores, e, seed, config, adds);
        let a = allocation(scores, e as nat, config.min_blocks_per_validator as nat, adds);
        lemma_schedule_permutes_allocation(scores, e, seed, config, adds);
        lemma_allocation_elems(scores, e as nat, config.min_blocks_per_validator as nat, adds);
        assert forall|k: int| 0 <= k < r.len() implies (#[trigger] r[k] as int) < scores.len() by {
            assert(r.to_multiset().count(r[k]) > 0);
            assert(a.contains(r[k]));
        }
    }
}

/// When the minimum guarantee fits in the epoch (`n * min <= epoch_length`), every
/// validator gets at least `min_blocks_per_validator` slots.
pub proof fn law_minimum_blocks_guaranteed(
    scores: Seq<BlockGenerationScore>,
    e: u64,
    seed: Seq<u8>,
    config: ScheduleConfig,
    adds: Seq<u64>,
)
    requires
        scores.len() <= 0x1_0000_0000,
        scores.len() * config.min_blocks_per_validator <= e,
        e > 0,
    ensures
        forall|v: u32|
            (v as int) < scores.len() ==> #[trigger] schedule_from_shares(scores, e, seed, config, adds).to_multiset().count(v)
                >= config.min_blocks_per_validator,
{
    if scores.len() > 0 {
        let min = config.min_blocks_per_validator as nat;
        let p1 = minimum_phase(scores.len(), min, e as nat);
        lemma_schedule_permutes_allocation(scores, e, seed, config, adds);
        lemma_minimum_phase_counts(scores.len(), min, e as nat);
        lemma_allocation_extends_minimum(scores, e as nat, min, adds);
        let t = choose|t: Seq<u32>| allocation(scores, e as nat, min, adds) == p1 + t;
        lemma_extension_counts(p1, t);
    }
}

/// Schedule generation is deterministic: with a share rule that gives one answer per
/// input, the same scores, epoch length, seed and configuration give the same schedule.
pub proof fn law_schedule_deterministic<F: Fn(u64, u64, u64) -> u64>(
    scores: Seq<BlockGenerationScore>,
    e: u64,
    seed: Seq<u8>,
    config: ScheduleConfig,
    share: F,
    r1: Seq<u32>,
    r2: Seq<u32>,
)
    requires
        forall|args: (u64, u64, u64), o1: u64, o2: u64| share.ensures(args, o1) && share.ensures(args, o2) ==> o1 == o2,
        generated_by(scores, e, seed, config, share, r1),
        generated_by(scores, e, seed, config, share, r2),
    ensures
        r1 == r2,
{
    let min = config.min_blocks_per_validator as nat;
    let a1 = choose|adds: Seq<u64>| shares_from(share, scores, e as nat, min, adds) && r1 == #[trigger] schedule_from_shares(scores, e, seed, config, adds);
    let a2 = choose|adds: Seq<u64>| shares_from(share, scores, e as nat, min, adds) && r2 == #[trigger] schedule_from_shares(scores, e, seed, config, adds);
    if proportional_applies(scores, e as nat, min) {
        assert forall|i: int| 0 <= i < a1.len() implies a1[i] == a2[i] by {
            let args = (remaining_after_minimum(scores.len(), min, e as nat) as u64, scores[i].score, sum_scores(scores) as u64);
            assert(share.ensures(args, a1[i]));
            assert(share.ensures(args, a2[i]));
        }
        assert(a1 =~= a2);
    } else {
        assert(allocation(scores, e as nat, min, a1) == allocation(scores, e as nat, min, a2));
    }
}

/// Where the allocated slots cannot be arranged within the consecutive block limit at
/// all, the schedule keeps the order the consecutive-block pass and the shuffle gave.
pub proof fn law_consecutive_limit_unreachable(
    scores: Seq<BlockGenerationScore>,
    e: u64,
    seed: Seq<u8>,
    config: ScheduleConfig,
    adds: Seq<u64>,
)
    requires
        scores.len() > 0,
        e > 0,
        !runs::arrangeable(
            allocation(scores, e as nat, config.min_blocks_per_validator as nat, adds),
            config.max_consecutive_blocks as nat,
        ),
    ensures
        schedule_from_shares(scores, e, seed, config, adds) == ({
            let a = allocation(scores, e as nat, config.min_blocks_per_validator as nat, adds);
            let b = if config.max_consecutive_blocks > 0 { enforce_limits(a, config.max_consecutive_blocks as nat) } else { a };
            if config.shuffle_schedule { deterministic_shuffle_spec(b, seed) } else { b }
        }),
{
    let k = config.max_consecutive_blocks as nat;
    let a = allocation(scores, e as nat, config.min_blocks_per_validator as nat, adds);
    lemma_enforce_from_permutes(a, 0, k);
    let b = if config.max_consecutive_blocks > 0 { enforce_limits(a, k) } else { a };
    lemma_shuffle_down_permutes(b, b.len() - 1, seqs::le_u64_at(seed, 0));
    let c = if config.shuffle_schedule { deterministic_shuffle_spec(b, seed) } else { b };
    if runs::arrangeable(c, k) {
        runs::lemma_arrangeable_permutation(c, a, k);
    }
    runs::law_limit_runs_keeps_unarrangeable(c, k);
}

/// The shuffle only rearranges: with the same shares, the schedule with the shuffle on
/// holds the same slots per validator as the one with it off, and the shuffle reads only
/// the first eight bytes of the seed.
pub proof fn law_shuffle_rearranges(
    scores: Seq<BlockGenerationScore>,
    e: u64,
    s1: Seq<u8>,
    s2: Seq<u8>,
    c1: ScheduleConfig,
    c2: ScheduleConfig,
    adds: Seq<u64>,
)
    requires
        c1.min_blocks_per_validator == c2.min_blocks_per_validator,
        c1.max_consecutive_blocks == c2.max_consecutive_blocks,
        !c1.shuffle_schedule,
        c2.shuffle_schedule,
        s1.len() >= 8,
        s2.len() >= 8,
        s1.subrange(0, 8) == s2.subrange(0, 8),
    ensures
        schedule_from_shares(scores, e, s2, c2, adds).to_multiset() == schedule_from_shares(scores, e, s1, c1, adds).to_multiset(),
        schedule_from_shares(scores, e, s2, c2, adds).len() == schedule_from_shares(scores, e, s1, c1, adds).len(),
        schedule_from_shares(scores, e, s1, c2, adds) == schedule_from_shares(scores, e, s2, c2, adds),
{
    assert(seqs::le_u64_at(s1, 0) == seqs::le_u64_at(s2, 0));
    if scores.len() > 0 && e > 0 {
        lemma_schedule_permutes_allocation(scores, e, s1, c1, adds);
        lemma_schedule_permutes_allocation(scores, e, s2, c2, adds);
    }
}

/// For the Fisher-Yates pass from position `i` down to 1 with generator state `x`: the
/// position of the input whose entry ends at position `k`. Each step advances the
/// state to `x * 1664525 + 1013904223 (mod 2^64)`, draws `j = state mod (i + 1)` and
/// exchanges positions `i` and `j`.
pub open spec fn fisher_yates_origin(i: int, x: u64, k: int) -> int
    decreases i,
{
    if i < 1 {
        k
    } else {
        let y = x.wrapping_mul(1664525).wrapping_add(1013904223);
        let j = (y as usize) as int % (i + 1);
        let k2 = fisher_yates_origin(i - 1, y, k);
        if k2 == i {
            j
        } else if k2 == j {
            i
        } else {
            k2
        }
    }
}

/// Positions above `i` are not touched by the pass, and every origin is a position at
/// most `max(i, k)`.
pub proof fn lemma_fisher_yates_origin_range(i: int, x: u64, k: int)
    requires
        0 <= k,
    ensures
        k > i ==> fisher_yates_origin(i, x, k) == k,
        0 <= fisher_yates_origin(i, x, k) <= if k > i { k } else { if i > 0 { i } else { k } },
    decreases i,
{
    if i >= 1 {
        let y = x.wrapping_mul(1664525).wrapping_add(1013904223);
        lemma_fisher_yates_origin_range(i - 1, y, k);
    }
}

/// The pass puts at position `k` the entry of the input at `fisher_yates_origin(i, x, k)`.
pub proof fn lemma_shuffle_down_origin(s: Seq<u32>, i: int, x: u64, k: int)
    requires
        0 <= k < s.len(),
        i < s.len(),
    ensures
        shuffle_down(s, i, x).len() == s.len(),
        shuffle_down(s, i, x)[k] == s[fisher_yates_origin(i, x, k)],
    decreases i,
{
    if i >= 1 {
        let y = lcg_step(x);
        let j = (y as usize) as int % (i + 1);
        let t = seqs::swap_spec(s, i, j);
        lemma_shuffle_down_origin(t, i - 1, y, k);
        lemma_fisher_yates_origin_range(i - 1, y, k);
        lemma_shuffle_down_permutes(t, i - 1, y);
    }
}

/// The shuffle is the seeded Fisher-Yates permutation: position `k` of the shuffled
/// schedule holds the entry at `fisher_yates_origin(len - 1, seed word, k)`, the seed
/// word being the little-endian first eight bytes of the seed.
pub proof fn law_shuffle_is_fisher_yates(s: Seq<u32>, seed: Seq<u8>)
    ensures
        deterministic_shuffle_spec(s, seed).len() == s.len(),
        forall|k: int|
            0 <= k < s.len() ==> #[trigger] deterministic_shuffle_spec(s, seed)[k] == s[fisher_yates_origin(
                s.len() - 1,
                seqs::le_u64_at(seed, 0),
                k,
            )],
{
    lemma_shuffle_down_permutes(s, s.len() - 1, seqs::le_u64_at(seed, 0));
    assert forall|k: int| 0 <= k < s.len() implies #[trigger] deterministic_shuffle_spec(s, seed)[k] == s[fisher_yates_origin(
        s.len() - 1,
        seqs::le_u64_at(seed, 0),
        k,
    )] by {
        lemma_shuffle_down_origin(s, s.len() - 1, seqs::le_u64_at(seed, 0), k);
    }
}

/// The last slot of a shuffled schedule of at least two slots takes the entry at
/// position `y mod len`, with `y = w * 1664525 + 1013904223 (mod 2^64)` for the seed
/// word `w`.
pub proof fn law_shuffle_last_slot(s: Seq<u32>, seed: Seq<u8>)
    requires
        s.len() >= 2,
    ensures
        deterministic_shuffle_spec(s, seed)[s.len() - 1] == s[(seqs::le_u64_at(seed, 0).wrapping_mul(1664525).wrapping_add(
            1013904223,
        ) as usize) as int % (s.len() as int)],
{
    let x = seqs::le_u64_at(seed, 0);
    let n = s.len() as int;
    law_shuffle_is_fisher_yates(s, seed);
    let y = x.wrapping_mul(1664525).wrapping_add(1013904223);
    lemma_fisher_yates_origin_range(n - 2, y, n - 1);
    assert(deterministic_shuffle_spec(s, seed)[n - 1] == s[fisher_yates_origin(n - 1, x, n - 1)]);
}

/// The shuffle depends on the seed: for a schedule of at least two slots with two
/// different entries, two seeds give two different shuffles.
pub proof fn law_shuffle_depends_on_seed(s: Seq<u32>, a: int, b: int)
    requires
        2 <= s.len() <= usize::MAX,
        0 <= a < s.len(),
        0 <= b < s.len(),
        s[a] != s[b],
    ensures
        exists|s1: Seq<u8>, s2: Seq<u8>|
            s1.len() == 32 && s2.len() == 32 && #[trigger] deterministic_shuffle_spec(s, s1) != #[trigger] deterministic_shuffle_spec(s, s2),
{
    let xa = (a as u64).wrapping_sub(1013904223).wrapping_mul(17196263117099653317);
    let xb = (b as u64).wrapping_sub(1013904223).wrapping_mul(17196263117099653317);
    let ta = a as u64;
    let tb = b as u64;
    assert(ta.wrapping_sub(1013904223).wrapping_mul(17196263117099653317).wrapping_mul(1664525).wrapping_add(1013904223) == ta) by (bit_vector);
    assert(tb.wrapping_sub(1013904223).wrapping_mul(17196263117099653317).wrapping_mul(1664525).wrapping_add(1013904223) == tb) by (bit_vector);
    seqs::lemma_seed_with(xa);
    seqs::lemma_seed_with(xb);
    let s1 = seqs::seed_with(xa);
    let s2 = seqs::seed_with(xb);
    law_shuffle_last_slot(s, s1);
    law_shuffle_last_slot(s, s2);
    assert(ta == a && (ta as usize) == a);
    assert(tb == b && (tb as usize) == b);
    vstd::arithmetic::div_mod::lemma_small_mod(a as nat, s.len());
    vstd::arithmetic::div_mod::lemma_small_mod(b as nat, s.len());
    assert((ta as usize) as int % (s.len() as int) == a);
    assert((tb as usize) as int % (s.len() as int) == b);
    assert(deterministic_shuffle_spec(s, s1)[s.len() - 1] != deterministic_shuffle_spec(s, s2)[s.len() - 1]);
}

/// The allocation after the consecutive-block pass, permuted by the seeded Fisher-Yates
/// shuffle.
pub open spec fn fisher_yates_of_limited(
    scores: Seq<BlockGenerationScore>,
    e: u64,
    seed: Seq<u8>,
    config: ScheduleConfig,
    adds: Seq<u64>,
) -> Seq<u32> {
    let a = allocation(scores, e as nat, config.min_blocks_per_validator as nat, adds);
    let b = if config.max_consecutive_blocks > 0 { enforce_limits(a, config.max_consecutive_blocks as nat) } else { a };
    Seq::new(b.len(), |k: int| b[fisher_yates_origin(b.len() - 1, seqs::le_u64_at(seed, 0), k)])
}

/// With the shuffle on, the generated schedule is the allocation after the
/// consecutive-block pass permuted by the seeded Fisher-Yates shuffle, wherever that
/// permutation already meets the consecutive-block limit (as it always does with no
/// limit).
pub proof fn law_generated_schedule_is_shuffled(
    scores: Seq<BlockGenerationScore>,
    e: u64,
    seed: Seq<u8>,
    config: ScheduleConfig,
    adds: Seq<u64>,
)
    requires
        scores.len() > 0,
        e > 0,
        config.shuffle_schedule,
        config.max_consecutive_blocks == 0 || runs::runs_within(
            fisher_yates_of_limited(scores, e, seed, config, adds),
            config.max_consecutive_blocks as nat,
        ),
    ensures
        schedule_from_shares(scores, e, seed, config, adds) == fisher_yates_of_limited(scores, e, seed, config, adds),
{
    let a = allocation(scores, e as nat, config.min_blocks_per_validator as nat, adds);
    let b = if config.max_consecutive_blocks > 0 { enforce_limits(a, config.max_consecutive_blocks as nat) } else { a };
    law_shuffle_is_fisher_yates(b, seed);
    assert(deterministic_shuffle_spec(b, seed) =~= fisher_yates_of_limited(scores, e, seed, config, adds));
}

} // verus!
