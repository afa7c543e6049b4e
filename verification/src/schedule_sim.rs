//! A compact model of PoSc schedule generation over validator identifiers: one slot per
//! validator, the rest shared by block generation score, a round-robin fill, and a
//! seeded forward shuffle.

use vstd::prelude::*;
use crate::seqs::{self, push_copies_in_vec, swap_in_vec};
use crate::schedule;

verus! {

broadcast use vstd::seq_lib::group_to_multiset_ensures;

/// A validator: its identifier, stake and security score.
#[derive(Clone, Copy, Debug)]
pub struct Validator {
    /// The validator's identifier.
    pub id: u32,
    /// The validator's stake.
    pub stake: u64,
    /// The validator's security score.
    pub security_score: u64,
}

impl Validator {
    /// The block generation score: the security score times the stake in whole millions.
    pub open spec fn bgs(&self) -> int {
        self.security_score * (self.stake / 1_000_000)
    }

    /// Calculates the block generation score: `security_score * (stake / 1_000_000)`.
    pub fn calculate_bgs(&self) -> (r: u64)
        requires
            self.bgs() <= u64::MAX,
        ensures
            r == self.bgs(),
    {
        let normalized_stake = self.stake / 1_000_000;
        self.security_score * normalized_stake
    }
}

/// The sum of the block generation scores of the validators.
pub open spec fn sum_bgs(vs: Seq<Validator>) -> int
    decreases vs.len(),
{
    if vs.len() == 0 {
        0
    } else {
        sum_bgs(vs.drop_last()) + vs.last().bgs()
    }
}

/// The identifiers of the validators, in order.
pub open spec fn ids(vs: Seq<Validator>) -> Seq<u32> {
    Seq::new(vs.len(), |i: int| vs[i].id)
}

/// After `s`, validator `i` gets `adds[i]` more slots, in order, cut at `e`.
pub open spec fn proportional_ids(s: Seq<u32>, vs: Seq<Validator>, adds: Seq<u64>, e: nat) -> Seq<u32>
    decreases adds.len(),
{
    if adds.len() == 0 {
        s
    } else {
        seqs::push_copies(proportional_ids(s, vs, adds.drop_last(), e), vs[adds.len() - 1].id, adds.last() as nat, e)
    }
}

/// The slots left up to `e` get the identifiers of validators `0, 1, .., n - 1, 0, ..`.
pub open spec fn fill_ids(s: Seq<u32>, vs: Seq<Validator>, e: nat) -> Seq<u32> {
    if s.len() < e {
        s + Seq::new((e - s.len()) as nat, |k: int| vs[k % vs.len() as int].id)
    } else {
        s
    }
}

/// The forward shuffle from position `i`: each step advances the generator and exchanges
/// position `i` with position `state % len`.
pub open spec fn forward_shuffle(s: Seq<u32>, i: int, rng: u64) -> Seq<u32>
    decreases s.len() - i,
{
    if i < 0 || i >= s.len() {
        s
    } else {
        let r = schedule::lcg_step(rng);
        let j = (r as usize) as int % (s.len() as int);
        forward_shuffle(seqs::swap_spec(s, i, j), i + 1, r)
    }
}

/// The slots before the shuffle.
pub open spec fn allocated_ids(vs: Seq<Validator>, e: nat, adds: Seq<u64>) -> Seq<u32> {
    let p1 = ids(vs);
    let remaining = e - p1.len();
    let p2 = if sum_bgs(vs) > 0 && remaining > 0 { proportional_ids(p1, vs, adds, e) } else { p1 };
    fill_ids(p2, vs, e)
}

/// The schedule of the validators with `adds[i]` the proportional share validator `i`
/// received.
pub open spec fn id_schedule(vs: Seq<Validator>, e: nat, seed: u32, adds: Seq<u64>) -> Seq<u32> {
    if vs.len() == 0 || e == 0 {
        Seq::empty()
    } else {
        forward_shuffle(allocated_ids(vs, e, adds), 0, seed as u64)
    }
}

/// Whether `r` is the schedule of the validators for `e` slots and `seed`, with
/// proportional shares given by `share`.
pub open spec fn id_schedule_by<F: Fn(u64, u64, u64) -> u64>(vs: Seq<Validator>, e: nat, seed: u32, share: F, r: Seq<u32>) -> bool {
    exists|adds: Seq<u64>| {
        &&& adds.len() == vs.len()
        &&& (sum_bgs(vs) > 0 && e > vs.len()) ==> forall|i: int|
            0 <= i < vs.len() ==> share.ensures(((e - vs.len()) as u64, vs[i].bgs() as u64, sum_bgs(vs) as u64), #[trigger] adds[i])
        &&& r == #[trigger] id_schedule(vs, e, seed, adds)
    }
}

/// A prefix of the validators scores at most as much as all of them.
pub proof fn lemma_sum_bgs_prefix(vs: Seq<Validator>, i: int)
    requires
        0 <= i <= vs.len(),
        forall|k: int| 0 <= k < vs.len() ==> (#[trigger] vs[k]).bgs() >= 0,
    ensures
        0 <= sum_bgs(vs.subrange(0, i)) <= sum_bgs(vs),
        i < vs.len() ==> sum_bgs(vs.subrange(0, i + 1)) == sum_bgs(vs.subrange(0, i)) + vs[i].bgs(),
    decreases vs.len(),
{
    if i < vs.len() {
        assert(vs.subrange(0, i + 1).drop_last() =~= vs.subrange(0, i));
    }
    if vs.len() > 0 {
        if i == vs.len() {
            assert(vs.subrange(0, i) =~= vs);
            lemma_sum_bgs_prefix(vs.drop_last(), 0);
        } else {
            assert(vs.drop_last().subrange(0, i) =~= vs.subrange(0, i));
            lemma_sum_bgs_prefix(vs.drop_last(), i);
        }
    }
}

/// The shuffle only exchanges elements.
pub proof fn lemma_forward_shuffle_permutes(s: Seq<u32>, i: int, rng: u64)
    ensures
        forward_shuffle(s, i, rng).len() == s.len(),
        forward_shuffle(s, i, rng).to_multiset() == s.to_multiset(),
    decreases s.len() - i,
{
    if !(i < 0 || i >= s.len()) {
        let r = schedule::lcg_step(rng);
        let j = (r as usize) as int % (s.len() as int);
        seqs::lemma_swap_multiset(s, i, j);
        lemma_forward_shuffle_permutes(seqs::swap_spec(s, i, j), i + 1, r);
    }
}

/// Generates the schedule: one slot per validator, then the remaining slots shared by
/// block generation score (`share(remaining, bgs, total)` is a validator's share), then a
/// round-robin fill, then a forward shuffle seeded with `seed`.
pub fn generate_schedule<F: Fn(u64, u64, u64) -> u64>(
    validators: &[Validator],
    epoch_length: usize,
    seed: u32,
    share: F,
) -> (r: Vec<u32>)
    requires
        forall|k: int| 0 <= k < validators@.len() ==> (#[trigger] validators@[k]).bgs() <= u64::MAX,
        validators@.len() > 0 && epoch_length > 0 ==> validators@.len() <= epoch_length,
        validators@.len() > 0 && epoch_length > 0 ==> sum_bgs(validators@) <= u64::MAX,
        forall|a: u64, b: u64, c: u64| share.requires((a, b, c)),
    ensures
        id_schedule_by(validators@, epoch_length as nat, seed, share, r@),
{
    let ghost vs = validators@;
    let ghost no_adds = Seq::new(vs.len(), |i: int| 0u64);
    if validators.len() == 0 || epoch_length == 0 {
        let empty: Vec<u32> = Vec::new();
        proof {
            assert(empty@ =~= id_schedule(vs, epoch_length as nat, seed, no_adds));
        }
        return empty;
    }
    let n = validators.len();
    // Each validator gets at least one slot.
    let mut schedule: Vec<u32> = Vec::new();
    let mut i: usize = 0;
    while i < n
        invariant
            n == vs.len(),
            vs == validators@,
            i <= n,
            schedule@ == ids(vs.subrange(0, i as int)),
        decreases n - i,
    {
        schedule.push(validators[i].id);
        i += 1;
        proof {
            assert(schedule@ =~= ids(vs.subrange(0, i as int)));
        }
    }
    proof {
        assert(vs.subrange(0, n as int) =~= vs);
    }
    let ghost p1 = schedule@;
    // The total block generation score.
    let mut total_bgs: u64 = 0;
    let mut i: usize = 0;
    while i < n
        invariant
            n == vs.len(),
            vs == validators@,
            i <= n,
            forall|k: int| 0 <= k < vs.len() ==> (#[trigger] vs[k]).bgs() <= u64::MAX,
            sum_bgs(vs) <= u64::MAX,
            total_bgs == sum_bgs(vs.subrange(0, i as int)),
        decreases n - i,
    {
        proof {
            lemma_sum_bgs_prefix(vs, i as int);
            lemma_sum_bgs_prefix(vs, i as int + 1);
        }
        total_bgs = total_bgs + validators[i].calculate_bgs();
        i += 1;
    }
    proof {
        assert(vs.subrange(0, n as int) =~= vs);
    }
    let remaining_slots = epoch_length - schedule.len();
    let ghost mut adds: Seq<u64> = no_adds;
    if total_bgs > 0 && remaining_slots > 0 {
        let ghost mut taken: Seq<u64> = Seq::empty();
        let mut i: usize = 0;
        while i < n
            invariant
                n == vs.len(),
                vs == validators@,
                i <= n,
                forall|k: int| 0 <= k < vs.len() ==> (#[trigger] vs[k]).bgs() <= u64::MAX,
                total_bgs == sum_bgs(vs),
                remaining_slots == epoch_length - n,
                forall|a: u64, b: u64, c: u64| share.requires((a, b, c)),
                taken.len() == i,
                schedule@ == proportional_ids(p1, vs, taken, epoch_length as nat),
                schedule@.len() <= epoch_length,
                forall|k: int| 0 <= k < i ==> share.ensures(
                    (remaining_slots as u64, vs[k].bgs() as u64, total_bgs),
                    #[trigger] taken[k],
                ),
            decreases n - i,
        {
            let bgs = validators[i].calculate_bgs();
            let additional_slots = share(remaining_slots as u64, bgs, total_bgs);
            proof {
                assert(taken.push(additional_slots).drop_last() =~= taken);
            }
            push_copies_in_vec(&mut schedule, validators[i].id, additional_slots, epoch_length);
            proof {
                taken = taken.push(additional_slots);
            }
            i += 1;
        }
        proof {
            adds = taken;
        }
    }
    // Fill any remaining slots round-robin.
    let ghost p2 = schedule@;
    let mut idx: usize = 0;
    while schedule.len() < epoch_length
        invariant
            n == vs.len(),
            vs == validators@,
            0 < n,
            p2.len() <= schedule@.len() <= epoch_length,
            idx == schedule@.len() - p2.len(),
            schedule@ == p2 + Seq::new(idx as nat, |k: int| vs[k % n as int].id),
        decreases epoch_length - schedule@.len(),
    {
        schedule.push(validators[idx % n].id);
        idx += 1;
        proof {
            assert(schedule@ =~= p2 + Seq::new(idx as nat, |k: int| vs[k % n as int].id));
        }
    }
    proof {
        assert(schedule@ =~= allocated_ids(vs, epoch_length as nat, adds));
    }
    // Deterministic forward shuffle.
    let len = schedule.len();
    let mut rng_state: u64 = seed as u64;
    let mut i: usize = 0;
    let ghost target = forward_shuffle(schedule@, 0, seed as u64);
    while i < len
        invariant
            len == schedule@.len(),
            len > 0,
            i <= len,
            forward_shuffle(schedule@, i as int, rng_state) == target,
        decreases len - i,
    {
        rng_state = rng_state.wrapping_mul(1664525).wrapping_add(1013904223);
        let j = (#[verifier::truncate] (rng_state as usize)) % len;
        swap_in_vec(&mut schedule, i, j);
        i += 1;
    }
    proof {
        assert(schedule@ == id_schedule(vs, epoch_length as nat, seed, adds));
    }
    schedule
}

/// The slots of each validator: `r[i]` is the number of slots of `schedule` that
/// validator `i` holds.
pub fn slot_counts(schedule: &[u32], validators: &[Validator]) -> (r: Vec<usize>)
    ensures
        r@.len() == validators@.len(),
        forall|i: int| 0 <= i < r@.len() ==> r@[i] == schedule@.to_multiset().count(#[trigger] validators@[i].id),
{
    let mut counts: Vec<usize> = Vec::new();
    let mut v: usize = 0;
    while v < validators.len()
        invariant
            v <= validators@.len(),
            counts@.len() == v,
            forall|i: int| 0 <= i < v ==> counts@[i] == schedule@.to_multiset().count(#[trigger] validators@[i].id),
        decreases validators@.len() - v,
    {
        let id = validators[v].id;
        let mut c: usize = 0;
        let mut k: usize = 0;
        while k < schedule.len()
            invariant
                k <= schedule@.len(),
                c == schedule@.subrange(0, k as int).to_multiset().count(id),
                c <= k,
            decreases schedule@.len() - k,
        {
            assert(schedule@.subrange(0, k as int).push(schedule@[k as int]) =~= schedule@.subrange(0, k + 1));
            if schedule[k] == id {
                c = c + 1;
            }
            k += 1;
        }
        assert(schedule@.subrange(0, k as int) =~= schedule@);
        counts.push(c);
        v += 1;
    }
    counts
}

/// For the forward shuffle of a sequence of length `n` from position `i` with generator
/// state `x`: the position of the input whose entry ends at position `k`. Each step
/// advances the state to `x * 1664525 + 1013904223 (mod 2^64)`, draws
/// `j = state mod n` and exchanges positions `i` and `j`, for `i` from the start to `n - 1`.
pub open spec fn forward_origin(n: nat, i: int, x: u64, k: int) -> int
    decreases n - i,
{
    if i < 0 || i >= n {
        k
    } else {
        let y = x.wrapping_mul(1664525).wrapping_add(1013904223);
        let j = (y as usize) as int % (n as int);
        let k2 = forward_origin(n, i + 1, y, k);
        if k2 == i {
            j
        } else if k2 == j {
            i
        } else {
            k2
        }
    }
}

/// The forward shuffle puts at position `k` the entry at `forward_origin(len, i, x, k)`,
/// a position of the sequence.
pub proof fn lemma_forward_shuffle_origin(s: Seq<u32>, i: int, x: u64, k: int)
    requires
        0 <= k < s.len(),
    ensures
        0 <= forward_origin(s.len(), i, x, k) < s.len(),
        forward_shuffle(s, i, x)[k] == s[forward_origin(s.len(), i, x, k)],
    decreases s.len() - i,
{
    if 0 <= i < s.len() {
        let y = schedule::lcg_step(x);
        let j = (y as usize) as int % (s.len() as int);
        let t = seqs::swap_spec(s, i, j);
        lemma_forward_shuffle_origin(t, i + 1, y, k);
    }
}

/// The schedule is the allocation forward-shuffled from the seed: position `k` holds the
/// allocated slot at `forward_origin(len, 0, seed, k)`.
pub proof fn law_schedule_is_forward_shuffled(vs: Seq<Validator>, e: nat, seed: u32, adds: Seq<u64>)
    requires
        vs.len() > 0,
        e > 0,
    ensures
        id_schedule(vs, e, seed, adds).len() == allocated_ids(vs, e, adds).len(),
        forall|k: int|
            0 <= k < allocated_ids(vs, e, adds).len() ==> #[trigger] id_schedule(vs, e, seed, adds)[k]
                == allocated_ids(vs, e, adds)[forward_origin(allocated_ids(vs, e, adds).len(), 0, seed as u64, k)],
{
    let a = allocated_ids(vs, e, adds);
    lemma_forward_shuffle_permutes(a, 0, seed as u64);
    assert forall|k: int| 0 <= k < a.len() implies #[trigger] id_schedule(vs, e, seed, adds)[k] == a[forward_origin(
        a.len(),
        0,
        seed as u64,
        k,
    )] by {
        lemma_forward_shuffle_origin(a, 0, seed as u64, k);
    }
}

} // verus!
