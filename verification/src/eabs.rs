//! The elastic Advanced Block Schedule (eABS): validators receive rows of a matrix in
//! proportion to their block generation scores, and each slot of the epoch takes the
//! validator of a row drawn with the epoch seed.

use vstd::prelude::*;
use crate::primitives::BlockGenerationScore;
use crate::schedule::{self, ScheduleGenerator};
use crate::runs;
use crate::seqs::{self, read_le_u64, swap_in_vec};
use crate::types::AuthorityId;

verus! {

broadcast use vstd::std_specs::vec::group_vec_axioms;

/// One step of the generator that draws matrix rows and drives the eABS shuffle.
pub open spec fn pcg_step(x: u64) -> u64 {
    x.wrapping_mul(6364136223846793005).wrapping_add(1442695040888963407)
}

/// The rows that a share list assigns, in order: validator `v` with `c` shares owns the
/// next `c` rows.
pub open spec fn expanded_rows(shares: Seq<(AuthorityId, u32)>) -> Seq<AuthorityId>
    decreases shares.len(),
{
    if shares.len() == 0 {
        Seq::empty()
    } else {
        expanded_rows(shares.drop_last()) + seqs::repeat(shares.last().1 as nat, shares.last().0)
    }
}

/// The sum of the share counts of a share list.
pub open spec fn sum_shares(shares: Seq<(AuthorityId, u32)>) -> int
    decreases shares.len(),
{
    if shares.len() == 0 {
        0
    } else {
        sum_shares(shares.drop_last()) + shares.last().1
    }
}

/// The share list assigns exactly as many rows as its counts add up to.
pub proof fn lemma_expanded_rows_len(shares: Seq<(AuthorityId, u32)>)
    ensures
        expanded_rows(shares).len() == sum_shares(shares),
    decreases shares.len(),
{
    if shares.len() > 0 {
        lemma_expanded_rows_len(shares.drop_last());
    }
}

/// The cells after the rows are filled from a share list: row `r` below the number of
/// assigned rows holds its owner in every column; the other rows are unchanged.
pub open spec fn filled_cells(
    cells: Seq<Seq<Option<AuthorityId>>>,
    shares: Seq<(AuthorityId, u32)>,
    cols: nat,
) -> Seq<Seq<Option<AuthorityId>>> {
    Seq::new(
        cells.len(),
        |r: int|
            if r < expanded_rows(shares).len() {
                seqs::repeat(cols, Some(expanded_rows(shares)[r]))
            } else {
                cells[r]
            },
    )
}

/// All the row positions of a matrix with `rows` rows, in order.
pub open spec fn all_rows(rows: nat) -> Seq<usize> {
    Seq::new(rows, |i: int| i as usize)
}

/// The schedule drawn from the first `c` columns, the generator state after them, and the
/// rows not yet drawn. Rows are drawn without replacement: for each column the generator
/// steps and the row at position `state % (rows left)` of the rows left is drawn and
/// taken out (all rows come back once every row has been drawn); the validator in the
/// drawn row's cell of that column (if any) takes the slot.
pub open spec fn select_prefix(cells: Seq<Seq<Option<AuthorityId>>>, rows: nat, c: nat, rng: u64) -> (Seq<AuthorityId>, u64, Seq<usize>)
    decreases c,
{
    if c == 0 || rows == 0 {
        (Seq::empty(), rng, all_rows(rows))
    } else {
        let (prefix, r, pool) = select_prefix(cells, rows, (c - 1) as nat, rng);
        let pool1 = if pool.len() == 0 { all_rows(rows) } else { pool };
        let r2 = pcg_step(r);
        let p = (r2 as usize) as int % (pool1.len() as int);
        let row = pool1[p] as int;
        let pool2 = pool1.remove(p);
        match cells[row][c - 1] {
            Some(v) => (prefix.push(v), r2, pool2),
            None => (prefix, r2, pool2),
        }
    }
}

/// The rows left to draw are rows of the matrix.
pub proof fn lemma_select_prefix_pool(cells: Seq<Seq<Option<AuthorityId>>>, rows: nat, c: nat, rng: u64)
    ensures
        forall|k: int| 0 <= k < select_prefix(cells, rows, c, rng).2.len() ==> (#[trigger] select_prefix(cells, rows, c, rng).2[k] as int) < rows,
        select_prefix(cells, rows, c, rng).2.len() <= rows,
    decreases c,
{
    if c > 0 && rows > 0 {
        lemma_select_prefix_pool(cells, rows, (c - 1) as nat, rng);
    }
}

/// The 2D matrix of schedule generation: rows are BGS shares, columns are the slots of
/// the epoch.
pub struct ScheduleMatrix {
    matrix: Vec<Vec<Option<AuthorityId>>>,
    total_rows: usize,
    total_cols: usize,
}

impl ScheduleMatrix {
    /// The matrix holds `rows` rows of `cols` cells each.
    pub closed spec fn wf(self) -> bool {
        &&& self.matrix@.len() == self.total_rows
        &&& forall|r: int| 0 <= r < self.total_rows ==> (#[trigger] self.matrix@[r])@.len() == self.total_cols
    }

    /// The number of rows.
    pub closed spec fn rows(self) -> nat {
        self.total_rows as nat
    }

    /// The number of columns.
    pub closed spec fn cols(self) -> nat {
        self.total_cols as nat
    }

    /// The cells, row by row.
    pub closed spec fn cells(self) -> Seq<Seq<Option<AuthorityId>>> {
        Seq::new(self.matrix@.len(), |r: int| self.matrix@[r]@)
    }

    /// Creates an empty matrix with `total_bgs_shares` rows and `blocks_per_epoch`
    /// columns.
    pub fn new(total_bgs_shares: usize, blocks_per_epoch: usize) -> (r: Self)
        ensures
            r.wf(),
            r.rows() == total_bgs_shares,
            r.cols() == blocks_per_epoch,
            r.cells() == Seq::new(total_bgs_shares as nat, |_r: int| seqs::repeat(blocks_per_epoch as nat, None::<AuthorityId>)),
    {
        let mut matrix: Vec<Vec<Option<AuthorityId>>> = Vec::new();
        let mut i: usize = 0;
        while i < total_bgs_shares
            invariant
                i <= total_bgs_shares,
                matrix@.len() == i,
                forall|r: int| 0 <= r < i ==> (#[trigger] matrix@[r])@ == seqs::repeat(blocks_per_epoch as nat, None::<AuthorityId>),
            decreases total_bgs_shares - i,
        {
            let row = Self::uniform_row(blocks_per_epoch, None);
            matrix.push(row);
            i += 1;
        }
        let r = Self { matrix, total_rows: total_bgs_shares, total_cols: blocks_per_epoch };
        assert(r.cells() =~= Seq::new(total_bgs_shares as nat, |_r: int| seqs::repeat(blocks_per_epoch as nat, None::<AuthorityId>)));
        r
    }

    /// A row of `cols` cells, each holding `cell`.
    fn uniform_row(cols: usize, cell: Option<AuthorityId>) -> (r: Vec<Option<AuthorityId>>)
        ensures
            r@ == seqs::repeat(cols as nat, cell),
    {
        let mut row: Vec<Option<AuthorityId>> = Vec::new();
        let mut j: usize = 0;
        while j < cols
            invariant
                j <= cols,
                row@ == seqs::repeat(j as nat, cell),
            decreases cols - j,
        {
            row.push(cell);
            j += 1;
            assert(row@ =~= seqs::repeat(j as nat, cell));
        }
        row
    }

    /// The number of rows.
    pub fn total_rows(&self) -> (r: usize)
        ensures
            r == self.rows(),
    {
        self.total_rows
    }

    /// The number of columns.
    pub fn total_cols(&self) -> (r: usize)
        ensures
            r == self.cols(),
    {
        self.total_cols
    }

    /// The cell at `row`, `col`.
    pub fn cell(&self, row: usize, col: usize) -> (r: Option<AuthorityId>)
        requires
            self.wf(),
            row < self.rows(),
            col < self.cols(),
        ensures
            r == self.cells()[row as int][col as int],
    {
        self.matrix[row][col]
    }

    /// Draws the schedule from the matrix: for each column the generator (seeded by the
    /// first eight bytes of `random_seed`) steps, a row not yet drawn is chosen from its
    /// state, and the validator in that cell takes the slot. Once every row has been drawn,
    /// all rows may be drawn again.
    pub fn generate_schedule(&self, random_seed: [u8; 32]) -> (r: Vec<AuthorityId>)
        requires
            self.wf(),
        ensures
            r@ == select_prefix(self.cells(), self.rows(), self.cols(), seqs::le_u64_at(random_seed@, 0)).0,
    {
        let mut schedule: Vec<AuthorityId> = Vec::new();
        let mut rng_state = read_le_u64(&random_seed, 0);
        let ghost rng0 = rng_state;
        let mut pool = Self::all_row_positions(self.total_rows);
        let mut col: usize = 0;
        while col < self.total_cols
            invariant
                self.wf(),
                col <= self.total_cols,
                (schedule@, rng_state, pool@) == select_prefix(self.cells(), self.rows(), col as nat, rng0),
            decreases self.total_cols - col,
        {
            proof {
                lemma_select_prefix_pool(self.cells(), self.rows(), col as nat, rng0);
            }
            if self.total_rows > 0 {
                if pool.len() == 0 {
                    pool = Self::all_row_positions(self.total_rows);
                }
                rng_state = rng_state.wrapping_mul(6364136223846793005).wrapping_add(1442695040888963407);
                let pick = (#[verifier::truncate] (rng_state as usize)) % pool.len();
                let selected_row = pool.remove(pick);
                match self.matrix[selected_row][col] {
                    Some(validator) => {
                        schedule.push(validator);
                    },
                    None => {},
                }
            }
            col += 1;
        }
        schedule
    }

    /// The positions `0..rows`, in order.
    fn all_row_positions(rows: usize) -> (r: Vec<usize>)
        ensures
            r@ == all_rows(rows as nat),
    {
        let mut pool: Vec<usize> = Vec::new();
        let mut i: usize = 0;
        while i < rows
            invariant
                i <= rows,
                pool@ == all_rows(i as nat),
            decreases rows - i,
        {
            pool.push(i);
            i += 1;
            assert(pool@ =~= all_rows(i as nat));
        }
        pool
    }

    /// Fills the matrix elastically: validator `v` with `c` shares owns the next `c`
    /// rows, whose cells all hold `v`; rows past the matrix are dropped.
    pub fn fill_elastic(&mut self, bgs_shares: &[(AuthorityId, u32)])
        requires
            old(self).wf(),
        ensures
            final(self).wf(),
            final(self).rows() == old(self).rows(),
            final(self).cols() == old(self).cols(),
            final(self).cells() == filled_cells(old(self).cells(), bgs_shares@, old(self).cols()),
    {
        let ghost old_cells = self.cells();
        let mut row_idx: usize = 0;
        let mut k: usize = 0;
        while k < bgs_shares.len()
            invariant
                k <= bgs_shares@.len(),
                self.total_rows == old(self).rows(),
                self.total_cols == old(self).cols(),
                self.matrix@.len() == self.total_rows,
                forall|r: int| 0 <= r < self.total_rows ==> (#[trigger] self.matrix@[r])@.len() == self.total_cols,
                old_cells.len() == self.total_rows,
                row_idx as int == if expanded_rows(bgs_shares@.subrange(0, k as int)).len() < self.total_rows {
                    expanded_rows(bgs_shares@.subrange(0, k as int)).len() as int
                } else {
                    self.total_rows as int
                },
                self.cells() == filled_cells(old_cells, bgs_shares@.subrange(0, k as int), self.total_cols as nat),
            decreases bgs_shares@.len() - k,
        {
            let (validator_id, share_count) = bgs_shares[k];
            let ghost before = bgs_shares@.subrange(0, k as int);
            let ghost after = bgs_shares@.subrange(0, k as int + 1);
            proof {
                assert(after.drop_last() =~= before);
                assert(expanded_rows(after) == expanded_rows(before) + seqs::repeat(share_count as nat, validator_id));
            }
            let mut c: u32 = 0;
            while c < share_count && row_idx < self.total_rows
                invariant
                    c <= share_count,
                    self.total_rows == old(self).rows(),
                    self.total_cols == old(self).cols(),
                    self.matrix@.len() == self.total_rows,
                    forall|r: int| 0 <= r < self.total_rows ==> (#[trigger] self.matrix@[r])@.len() == self.total_cols,
                    old_cells.len() == self.total_rows,
                    expanded_rows(after) == expanded_rows(before) + seqs::repeat(share_count as nat, validator_id),
                    row_idx as int == if expanded_rows(before).len() + c < self.total_rows {
                        expanded_rows(before).len() + c
                    } else {
                        self.total_rows as int
                    },
                    c > 0 ==> expanded_rows(before).len() + c <= self.total_rows,
                    self.cells() == Seq::new(
                        old_cells.len(),
                        |r: int|
                            if r < expanded_rows(before).len() + c {
                                seqs::repeat(self.total_cols as nat, Some(expanded_rows(after)[r]))
                            } else {
                                old_cells[r]
                            },
                    ),
                decreases share_count - c,
            {
                let row = Self::uniform_row(self.total_cols, Some(validator_id));
                proof {
                    assert(row_idx as int == expanded_rows(before).len() + c);
                    assert(expanded_rows(after)[row_idx as int] == validator_id);
                }
                let ghost prev_cells = self.cells();
                self.matrix.set(row_idx, row);
                proof {
                    assert forall|r: int| 0 <= r < self.matrix@.len() implies #[trigger] self.cells()[r] == (if r == row_idx {
                        seqs::repeat(self.total_cols as nat, Some(validator_id))
                    } else {
                        prev_cells[r]
                    }) by {}
                }
                row_idx += 1;
                c += 1;
                proof {
                    assert(self.cells() =~= Seq::new(
                        old_cells.len(),
                        |r: int|
                            if r < expanded_rows(before).len() + c {
                                seqs::repeat(self.total_cols as nat, Some(expanded_rows(after)[r]))
                            } else {
                                old_cells[r]
                            },
                    ));
                }
            }
            proof {
                assert(self.cells() =~= filled_cells(old_cells, after, self.total_cols as nat));
            }
            k += 1;
        }
        proof {
            assert(bgs_shares@.subrange(0, k as int) =~= bgs_shares@);
        }
    }
}

} // verus!

verus! {

// ---------------------------------------------------------------------------------------
// BGS shares
// ---------------------------------------------------------------------------------------

/// The position of the highest score; among equal highest scores, the last one.
pub open spec fn last_max_index(scores: Seq<BlockGenerationScore>) -> int
    decreases scores.len(),
{
    if scores.len() <= 1 {
        0
    } else {
        let p = last_max_index(scores.drop_last());
        if scores.last().score >= scores[p].score {
            scores.len() - 1
        } else {
            p
        }
    }
}

/// The last maximum lies in the sequence.
pub proof fn lemma_last_max_index_range(scores: Seq<BlockGenerationScore>)
    requires
        scores.len() > 0,
    ensures
        0 <= last_max_index(scores) < scores.len(),
    decreases scores.len(),
{
    if scores.len() > 1 {
        lemma_last_max_index_range(scores.drop_last());
    }
}

/// The shares before the rounding adjustment: each validator's minimum plus the
/// proportional share `adds[i]`.
pub open spec fn base_shares(scores: Seq<BlockGenerationScore>, min: u32, adds: Seq<u64>) -> Seq<(AuthorityId, u32)> {
    Seq::new(scores.len(), |i: int| (scores[i].authority, (min + adds[i]) as u32))
}

/// The BGS shares of the validators, with `adds[i]` the proportional share of the
/// blocks beyond the minimum guarantee that validator `i` received:
/// - when the minimum guarantee takes every block, each validator gets the minimum;
/// - when all scores are zero, each gets an equal part of the blocks;
/// - otherwise each gets the minimum plus its proportional share, and the blocks that
///   rounding left over go to the validator with the highest score (the last of equals).
pub open spec fn bgs_shares_spec(
    scores: Seq<BlockGenerationScore>,
    blocks: u32,
    min: u32,
    adds: Seq<u64>,
) -> Seq<(AuthorityId, u32)> {
    let n = scores.len();
    if n * min >= blocks {
        Seq::new(n, |i: int| (scores[i].authority, min))
    } else if schedule::sum_scores(scores) == 0 {
        Seq::new(n, |i: int| (scores[i].authority, (blocks as int / (n as int)) as u32))
    } else {
        let base = base_shares(scores, min, adds);
        let assigned = sum_shares(base);
        if assigned < blocks {
            let m = last_max_index(scores);
            base.update(m, (base[m].0, (base[m].1 + (blocks - assigned)) as u32))
        } else {
            base
        }
    }
}

/// Whether the proportional shares are computed: the minimum guarantee leaves blocks
/// over and the scores sum to more than zero.
pub open spec fn eabs_proportional_applies(scores: Seq<BlockGenerationScore>, blocks: u32, min: u32) -> bool {
    &&& scores.len() * min < blocks
    &&& schedule::sum_scores(scores) > 0
}

/// Whether `share` is a rounding of a proportional share: for `remaining` blocks and a
/// score `s` out of `t`, it returns at most `remaining`, and less than one block above
/// the exact share `remaining * s / t`.
pub open spec fn share_rule_bounded<F: Fn(u64, u64, u64) -> u64>(share: F) -> bool {
    forall|r: u64, s: u64, t: u64, o: u64|
        #[trigger] share.ensures((r, s, t), o) ==> o <= r && o * t <= r * s + t
}

/// Whether `adds` holds, for each validator, a share that `share` may return for the
/// blocks beyond the minimum guarantee, its score and the total score (required only
/// where the proportional shares are computed).
pub open spec fn eabs_shares_from<F: Fn(u64, u64, u64) -> u64>(
    share: F,
    scores: Seq<BlockGenerationScore>,
    blocks: u32,
    min: u32,
    adds: Seq<u64>,
) -> bool {
    &&& adds.len() == scores.len()
    &&& eabs_proportional_applies(scores, blocks, min) ==> forall|i: int|
        0 <= i < scores.len() ==> share.ensures(
            ((blocks - scores.len() * min) as u64, scores[i].score, schedule::sum_scores(scores) as u64),
            #[trigger] adds[i],
        )
}

/// The counts of a share list in which every validator has `c` shares add up to `n * c`.
pub proof fn lemma_sum_uniform_shares(shares: Seq<(AuthorityId, u32)>, c: u32)
    requires
        forall|i: int| 0 <= i < shares.len() ==> (#[trigger] shares[i]).1 == c,
    ensures
        sum_shares(shares) == shares.len() * c,
    decreases shares.len(),
{
    if shares.len() > 0 {
        lemma_sum_uniform_shares(shares.drop_last(), c);
        assert((shares.len() - 1) * c + c == shares.len() * c) by (nonlinear_arith);
    }
}

/// Replacing one count changes the sum by the difference.
pub proof fn lemma_sum_shares_update(shares: Seq<(AuthorityId, u32)>, m: int, x: (AuthorityId, u32))
    requires
        0 <= m < shares.len(),
    ensures
        sum_shares(shares.update(m, x)) == sum_shares(shares) - shares[m].1 + x.1,
    decreases shares.len(),
{
    if m < shares.len() - 1 {
        assert(shares.update(m, x).drop_last() =~= shares.drop_last().update(m, x));
        lemma_sum_shares_update(shares.drop_last(), m, x);
    } else {
        assert(shares.update(m, x).drop_last() =~= shares.drop_last());
    }
}

/// Each count is at most the sum of the counts.
pub proof fn lemma_share_le_sum(shares: Seq<(AuthorityId, u32)>, m: int)
    requires
        0 <= m < shares.len(),
    ensures
        shares[m].1 <= sum_shares(shares),
    decreases shares.len(),
{
    lemma_sum_shares_nonneg(shares.drop_last());
    if m < shares.len() - 1 {
        lemma_share_le_sum(shares.drop_last(), m);
    }
}

/// The sum of counts is not negative.
pub proof fn lemma_sum_shares_nonneg(shares: Seq<(AuthorityId, u32)>)
    ensures
        sum_shares(shares) >= 0,
    decreases shares.len(),
{
    if shares.len() > 0 {
        lemma_sum_shares_nonneg(shares.drop_last());
    }
}

/// A prefix of a share list counts at most as much as the whole list.
pub proof fn lemma_sum_shares_prefix(shares: Seq<(AuthorityId, u32)>, i: int)
    requires
        0 <= i <= shares.len(),
    ensures
        0 <= sum_shares(shares.subrange(0, i)) <= sum_shares(shares),
        i < shares.len() ==> sum_shares(shares.subrange(0, i + 1)) == sum_shares(shares.subrange(0, i)) + shares[i].1,
    decreases shares.len(),
{
    lemma_sum_shares_nonneg(shares.subrange(0, i));
    if i < shares.len() {
        assert(shares.subrange(0, i + 1).drop_last() =~= shares.subrange(0, i));
    }
    if shares.len() > 0 {
        if i == shares.len() {
            assert(shares.subrange(0, i) =~= shares);
        } else {
            assert(shares.drop_last().subrange(0, i) =~= shares.subrange(0, i));
            lemma_sum_shares_prefix(shares.drop_last(), i);
        }
    }
}

/// With shares that round a proportional split, the proportional parts of the first `k`
/// validators add up to at most `remaining * (their scores) / total + k`.
pub proof fn lemma_rounded_shares_sum(
    scores: Seq<BlockGenerationScore>,
    min: u32,
    adds: Seq<u64>,
    remaining: int,
    total: int,
    k: int,
)
    requires
        0 <= k <= scores.len(),
        adds.len() == scores.len(),
        total > 0,
        remaining >= 0,
        forall|i: int| 0 <= i < scores.len() ==> (#[trigger] adds[i]) * total <= remaining * scores[i].score + total,
        forall|i: int| 0 <= i < scores.len() ==> min + #[trigger] adds[i] <= u32::MAX,
    ensures
        (sum_shares(base_shares(scores, min, adds).subrange(0, k)) - k * min) * total
            <= remaining * schedule::sum_scores(scores.subrange(0, k)) + k * total,
    decreases k,
{
    let base = base_shares(scores, min, adds);
    if k == 0 {
        assert(base.subrange(0, 0) =~= Seq::<(AuthorityId, u32)>::empty());
        assert(scores.subrange(0, 0) =~= Seq::<BlockGenerationScore>::empty());
    } else {
        lemma_rounded_shares_sum(scores, min, adds, remaining, total, k - 1);
        assert(base.subrange(0, k).drop_last() =~= base.subrange(0, k - 1));
        assert(scores.subrange(0, k).drop_last() =~= scores.subrange(0, k - 1));
        let sa = sum_shares(base.subrange(0, k - 1)) - (k - 1) * min;
        let ss = schedule::sum_scores(scores.subrange(0, k - 1));
        let a = adds[k - 1] as int;
        let sc = scores[k - 1].score as int;
        assert(base[k - 1].1 == min + a);
        assert(sum_shares(base.subrange(0, k)) - k * min == sa + a) by (nonlinear_arith)
            requires
                sum_shares(base.subrange(0, k)) == sum_shares(base.subrange(0, k - 1)) + min + a,
                sa == sum_shares(base.subrange(0, k - 1)) - (k - 1) * min,
        ;
        assert((sa + a) * total <= remaining * (ss + sc) + k * total) by (nonlinear_arith)
            requires
                sa * total <= remaining * ss + (k - 1) * total,
                a * total <= remaining * sc + total,
        ;
    }
}

} // verus!

verus! {

// ---------------------------------------------------------------------------------------
// Shuffle under the consecutive-block constraint
// ---------------------------------------------------------------------------------------

/// How many elements equal to `v` stand immediately before position `pos`.
pub open spec fn run_before(s: Seq<AuthorityId>, pos: int, v: AuthorityId) -> nat
    decreases pos,
{
    if 0 < pos <= s.len() && s[pos - 1] == v {
        1 + run_before(s, pos - 1, v)
    } else {
        0
    }
}

/// How many elements equal to `v` stand immediately after position `pos`.
pub open spec fn run_after(s: Seq<AuthorityId>, pos: int, v: AuthorityId) -> nat
    decreases s.len() - pos,
{
    if 0 <= pos && pos + 1 < s.len() && s[pos + 1] == v {
        1 + run_after(s, pos + 1, v)
    } else {
        0
    }
}

/// Whether `v` placed at `pos` would sit in a run of at most `max` equal elements,
/// counting the neighbours of `pos` as they are.
pub open spec fn fits_at(s: Seq<AuthorityId>, pos: int, v: AuthorityId, max: nat) -> bool {
    1 + run_before(s, pos, v) + run_after(s, pos, v) <= max
}

/// Whether exchanging positions `p1` and `p2` is allowed: the positions are equal, or
/// each element fits at the other's position.
pub open spec fn valid_swap(s: Seq<AuthorityId>, p1: int, p2: int, max: nat) -> bool {
    p1 == p2 || (fits_at(s, p1, s[p2], max) && fits_at(s, p2, s[p1], max))
}

/// The constrained Fisher-Yates pass from position `i` down to 1: each step advances the
/// generator, draws `j = state % (i + 1)`, and exchanges positions `i` and `j` when the
/// exchange is allowed for runs of at most 3.
pub open spec fn constrained_down(s: Seq<AuthorityId>, i: int, rng: u64) -> Seq<AuthorityId>
    decreases i,
{
    if i < 1 || i >= s.len() {
        s
    } else {
        let r = pcg_step(rng);
        let j = (r as usize) as int % (i + 1);
        let s2 = if valid_swap(s, i, j, 3) { seqs::swap_spec(s, i, j) } else { s };
        constrained_down(s2, i - 1, r)
    }
}

/// The constrained shuffle, with the generator seeded by bytes 8..16 of `seed`, followed
/// by limiting the runs to 3 where the pass left a longer one.
pub open spec fn constrained_shuffle_spec(s: Seq<AuthorityId>, seed: Seq<u8>) -> Seq<AuthorityId> {
    runs::limit_runs(constrained_down(s, s.len() - 1, seqs::le_u64_at(seed, 8)), 3)
}

/// The constrained shuffle only exchanges elements: it keeps the length and the
/// multiset.
pub proof fn lemma_constrained_down_permutes(s: Seq<AuthorityId>, i: int, rng: u64)
    ensures
        constrained_down(s, i, rng).len() == s.len(),
        constrained_down(s, i, rng).to_multiset() == s.to_multiset(),
    decreases i,
{
    if !(i < 1 || i >= s.len()) {
        let r = pcg_step(rng);
        let j = (r as usize) as int % (i + 1);
        seqs::lemma_swap_multiset(s, i, j);
        let s2 = if valid_swap(s, i, j, 3) { seqs::swap_spec(s, i, j) } else { s };
        lemma_constrained_down_permutes(s2, i - 1, r);
    }
}

/// The constrained shuffle rearranges the schedule; whenever its blocks can be arranged
/// with no validator holding more than 3 in a row, it gives such an arrangement, and
/// otherwise it keeps the order of the constrained pass.
pub proof fn law_constrained_shuffle(s: Seq<AuthorityId>, seed: Seq<u8>)
    ensures
        constrained_shuffle_spec(s, seed).to_multiset() == s.to_multiset(),
        constrained_shuffle_spec(s, seed).len() == s.len(),
        runs::arrangeable(s, 3) ==> runs::runs_within(constrained_shuffle_spec(s, seed), 3),
        !runs::arrangeable(s, 3) ==> constrained_shuffle_spec(s, seed) == constrained_down(
            s,
            s.len() - 1,
            seqs::le_u64_at(seed, 8),
        ),
{
    let d = constrained_down(s, s.len() - 1, seqs::le_u64_at(seed, 8));
    lemma_constrained_down_permutes(s, s.len() - 1, seqs::le_u64_at(seed, 8));
    runs::lemma_limit_runs_permutes(d, 3);
    if runs::arrangeable(s, 3) {
        runs::lemma_arrangeable_permutation(s, d, 3);
        runs::law_limit_runs(d, 3);
    } else {
        if runs::arrangeable(d, 3) {
            runs::lemma_arrangeable_permutation(d, s, 3);
        }
        runs::law_limit_runs_keeps_unarrangeable(d, 3);
    }
}

/// The eABS schedule with `adds[i]` the proportional share validator `i` received: the
/// matrix has one row per BGS share and one column per block, its rows are filled from
/// the shares, a row is drawn for each column, and the drawn schedule is shuffled under
/// the consecutive-block constraint.
pub open spec fn eabs_schedule_spec(
    scores: Seq<BlockGenerationScore>,
    blocks: u32,
    seed: Seq<u8>,
    min: u32,
    adds: Seq<u64>,
) -> Seq<AuthorityId> {
    if scores.len() == 0 || blocks == 0 {
        Seq::empty()
    } else {
        let shares = bgs_shares_spec(scores, blocks, min, adds);
        let rows = sum_shares(shares) as nat;
        let cells = filled_cells(Seq::new(rows, |_r: int| seqs::repeat(blocks as nat, None::<AuthorityId>)), shares, blocks as nat);
        constrained_shuffle_spec(select_prefix(cells, rows, blocks as nat, seqs::le_u64_at(seed, 0)).0, seed)
    }
}

/// Whether `r` is the eABS schedule of the scores, blocks per epoch, seed and minimum,
/// with the proportional shares given by `share`.
pub open spec fn eabs_generated_by<F: Fn(u64, u64, u64) -> u64>(
    scores: Seq<BlockGenerationScore>,
    blocks: u32,
    seed: Seq<u8>,
    min: u32,
    share: F,
    r: Seq<AuthorityId>,
) -> bool {
    exists|adds: Seq<u64>|
        eabs_shares_from(share, scores, blocks, min, adds) && r == #[trigger] eabs_schedule_spec(scores, blocks, seed, min, adds)
}

/// The true elastic Advanced Block Schedule (eABS) generator.
pub struct ElasticScheduleGenerator;

impl ElasticScheduleGenerator {
    /// Generates the epoch schedule with the 2D matrix: `r[k]` is the validator that
    /// produces block `k`. `share(remaining, score, total)` gives a validator's
    /// proportional share of the blocks beyond the minimum guarantee.
    pub fn generate_schedule<F: Fn(u64, u64, u64) -> u64>(
        bgs_scores: &[BlockGenerationScore],
        blocks_per_epoch: u32,
        random_seed: [u8; 32],
        min_blocks_per_validator: u32,
        share: F,
    ) -> (r: Vec<AuthorityId>)
        requires
            bgs_scores@.len() <= u32::MAX,
            bgs_scores@.len() * min_blocks_per_validator <= u32::MAX,
            bgs_scores@.len() * min_blocks_per_validator < blocks_per_epoch ==> schedule::sum_scores(bgs_scores@) <= u64::MAX,
            eabs_proportional_applies(bgs_scores@, blocks_per_epoch, min_blocks_per_validator) ==> bgs_scores@.len() + blocks_per_epoch <= u32::MAX,
            forall|a: u64, b: u64, c: u64| share.requires((a, b, c)),
            share_rule_bounded(share),
        ensures
            eabs_generated_by(bgs_scores@, blocks_per_epoch, random_seed@, min_blocks_per_validator, share, r@),
    {
        let ghost no_adds = Seq::new(bgs_scores@.len(), |i: int| 0u64);
        if bgs_scores.len() == 0 || blocks_per_epoch == 0 {
            let empty: Vec<AuthorityId> = Vec::new();
            proof {
                assert(eabs_shares_from(share, bgs_scores@, blocks_per_epoch, min_blocks_per_validator, no_adds));
                assert(empty@ =~= eabs_schedule_spec(bgs_scores@, blocks_per_epoch, random_seed@, min_blocks_per_validator, no_adds));
            }
            return empty;
        }
        // Step 1: the BGS shares of the validators.
        let bgs_shares = Self::calculate_bgs_shares(bgs_scores, blocks_per_epoch, min_blocks_per_validator, share);
        let ghost adds = choose|adds: Seq<u64>|
            eabs_shares_from(share, bgs_scores@, blocks_per_epoch, min_blocks_per_validator, adds)
                && bgs_shares@ == #[trigger] bgs_shares_spec(bgs_scores@, blocks_per_epoch, min_blocks_per_validator, adds);
        // Step 2: the total number of shares gives the rows of the matrix.
        let total_shares = Self::total_shares(&bgs_shares);
        // Step 3: create the matrix and fill it.
        let mut matrix = ScheduleMatrix::new(total_shares as usize, blocks_per_epoch as usize);
        matrix.fill_elastic(bgs_shares.as_slice());
        // Step 4: draw the schedule from the matrix.
        let mut schedule = matrix.generate_schedule(random_seed);
        // Step 5: shuffle under the consecutive-block constraint.
        Self::shuffle_with_constraints(&mut schedule, random_seed);
        proof {
            assert(schedule@ == eabs_schedule_spec(bgs_scores@, blocks_per_epoch, random_seed@, min_blocks_per_validator, adds));
        }
        schedule
    }

    /// The number of elements equal to `v` immediately before `pos`.
    fn count_before(schedule: &Vec<AuthorityId>, pos: usize, v: &AuthorityId) -> (r: usize)
        requires
            pos < schedule@.len(),
        ensures
            r == run_before(schedule@, pos as int, *v),
    {
        let mut consecutive: usize = 0;
        let mut idx = pos;
        while idx > 0 && schedule[idx - 1] == *v
            invariant
                idx <= pos < schedule@.len(),
                consecutive == pos - idx,
                run_before(schedule@, pos as int, *v) == consecutive + run_before(schedule@, idx as int, *v),
            decreases idx,
        {
            consecutive += 1;
            idx -= 1;
        }
        consecutive
    }

    /// The number of elements equal to `v` immediately after `pos`.
    fn count_after(schedule: &Vec<AuthorityId>, pos: usize, v: &AuthorityId) -> (r: usize)
        requires
            pos < schedule@.len(),
        ensures
            r == run_after(schedule@, pos as int, *v),
    {
        let mut consecutive: usize = 0;
        let mut idx = pos;
        while idx < schedule.len() - 1 && schedule[idx + 1] == *v
            invariant
                pos <= idx < schedule@.len(),
                consecutive == idx - pos,
                run_after(schedule@, pos as int, *v) == consecutive + run_after(schedule@, idx as int, *v),
            decreases schedule@.len() - idx,
        {
            consecutive += 1;
            idx += 1;
        }
        consecutive
    }

    /// Checks whether a swap would violate the consecutive blocks constraint.
    fn is_valid_swap(schedule: &Vec<AuthorityId>, pos1: usize, pos2: usize, max_consecutive: usize) -> (r: bool)
        requires
            pos1 < schedule@.len(),
            pos2 < schedule@.len(),
        ensures
            r == valid_swap(schedule@, pos1 as int, pos2 as int, max_consecutive as nat),
    {
        if pos1 == pos2 {
            return true;
        }
        let v2 = schedule[pos2];
        let v1 = schedule[pos1];
        let b1 = Self::count_before(schedule, pos1, &v2);
        let a1 = Self::count_after(schedule, pos1, &v2);
        let b2 = Self::count_before(schedule, pos2, &v1);
        let a2 = Self::count_after(schedule, pos2, &v1);
        let fits1 = b1 < max_consecutive && a1 < max_consecutive - b1;
        let fits2 = b2 < max_consecutive && a2 < max_consecutive - b2;
        fits1 && fits2
    }

    /// Shuffles the schedule with the generator seeded by bytes 8..16 of `seed`, skipping
    /// exchanges that would create a run of more than 3 blocks; where a longer run is
    /// left, the runs are then limited to 3.
    fn shuffle_with_constraints(schedule: &mut Vec<AuthorityId>, seed: [u8; 32])
        ensures
            final(schedule)@ == constrained_shuffle_spec(old(schedule)@, seed@),
    {
        let mut rng_state = read_le_u64(&seed, 8);
        let max_consecutive: usize = 3;
        let ghost target = constrained_down(schedule@, schedule@.len() - 1, seqs::le_u64_at(seed@, 8));
        if schedule.len() >= 2 {
            let mut i: usize = schedule.len() - 1;
            while i >= 1
                invariant
                    i < schedule.len(),
                    max_consecutive == 3,
                    constrained_down(schedule@, i as int, rng_state) == target,
                decreases i,
            {
                rng_state = rng_state.wrapping_mul(6364136223846793005).wrapping_add(1442695040888963407);
                let j = (#[verifier::truncate] (rng_state as usize)) % (i + 1);
                if Self::is_valid_swap(schedule, i, j, max_consecutive) {
                    swap_in_vec(schedule, i, j);
                }
                i -= 1;
            }
        }
        assert(schedule@ == target);
        let mut shuffled: Vec<AuthorityId> = Vec::new();
        std::mem::swap(schedule, &mut shuffled);
        let same = |a: AuthorityId, b: AuthorityId| -> (r: bool)
            ensures
                r == (a == b),
            { a == b };
        *schedule = runs::limit_runs_vec(shuffled, max_consecutive, &same);
    }

    /// Sums the share counts.
    fn total_shares(shares: &Vec<(AuthorityId, u32)>) -> (r: u32)
        requires
            sum_shares(shares@) <= u32::MAX,
        ensures
            r == sum_shares(shares@),
    {
        let mut total: u32 = 0;
        let mut i: usize = 0;
        while i < shares.len()
            invariant
                i <= shares@.len(),
                sum_shares(shares@) <= u32::MAX,
                total == sum_shares(shares@.subrange(0, i as int)),
            decreases shares@.len() - i,
        {
            proof {
                lemma_sum_shares_prefix(shares@, i as int);
                lemma_sum_shares_prefix(shares@, i as int + 1);
            }
            total = total + shares[i].1;
            i += 1;
        }
        proof {
            assert(shares@.subrange(0, i as int) =~= shares@);
        }
        total
    }

    /// The position of the highest score, the last one among equals.
    fn max_score_index(bgs_scores: &[BlockGenerationScore]) -> (r: usize)
        requires
            bgs_scores@.len() > 0,
        ensures
            r == last_max_index(bgs_scores@),
    {
        let mut best: usize = 0;
        let mut i: usize = 1;
        while i < bgs_scores.len()
            invariant
                1 <= i <= bgs_scores@.len(),
                best as int == last_max_index(bgs_scores@.subrange(0, i as int)),
                0 <= best < i,
            decreases bgs_scores@.len() - i,
        {
            proof {
                assert(bgs_scores@.subrange(0, i as int + 1).drop_last() =~= bgs_scores@.subrange(0, i as int));
            }
            if bgs_scores[i].score >= bgs_scores[best].score {
                best = i;
            }
            i += 1;
        }
        proof {
            assert(bgs_scores@.subrange(0, i as int) =~= bgs_scores@);
        }
        best
    }

    /// A share list giving every validator `count` shares.
    fn uniform_shares(bgs_scores: &[BlockGenerationScore], count: u32) -> (r: Vec<(AuthorityId, u32)>)
        ensures
            r@ == Seq::new(bgs_scores@.len(), |i: int| (bgs_scores@[i].authority, count)),
    {
        let mut shares: Vec<(AuthorityId, u32)> = Vec::new();
        let mut i: usize = 0;
        while i < bgs_scores.len()
            invariant
                i <= bgs_scores@.len(),
                shares@ == Seq::new(i as nat, |k: int| (bgs_scores@[k].authority, count)),
            decreases bgs_scores@.len() - i,
        {
            shares.push((bgs_scores[i].authority, count));
            i += 1;
            proof {
                assert(shares@ =~= Seq::new(i as nat, |k: int| (bgs_scores@[k].authority, count)));
            }
        }
        shares
    }

    /// Calculates the BGS shares of the validators; `share(remaining, score, total)` gives
    /// a validator's proportional share of the blocks beyond the minimum guarantee.
    fn calculate_bgs_shares<F: Fn(u64, u64, u64) -> u64>(
        bgs_scores: &[BlockGenerationScore],
        blocks_per_epoch: u32,
        min_blocks_per_validator: u32,
        share: F,
    ) -> (r: Vec<(AuthorityId, u32)>)
        requires
            0 < bgs_scores@.len() <= u32::MAX,
            bgs_scores@.len() * min_blocks_per_validator <= u32::MAX,
            bgs_scores@.len() * min_blocks_per_validator < blocks_per_epoch ==> schedule::sum_scores(bgs_scores@) <= u64::MAX,
            eabs_proportional_applies(bgs_scores@, blocks_per_epoch, min_blocks_per_validator) ==> bgs_scores@.len() + blocks_per_epoch <= u32::MAX,
            forall|a: u64, b: u64, c: u64| share.requires((a, b, c)),
            share_rule_bounded(share),
        ensures
            exists|adds: Seq<u64>|
                eabs_shares_from(share, bgs_scores@, blocks_per_epoch, min_blocks_per_validator, adds)
                    && r@ == #[trigger] bgs_shares_spec(bgs_scores@, blocks_per_epoch, min_blocks_per_validator, adds),
            sum_shares(r@) <= u32::MAX,
    {
        let ghost scores = bgs_scores@;
        let ghost n = scores.len();
        let ghost no_adds = Seq::new(n, |i: int| 0u64);
        let num_validators = bgs_scores.len() as u32;
        let min = min_blocks_per_validator;
        let guaranteed_blocks = num_validators * min;

        if guaranteed_blocks >= blocks_per_epoch {
            // The minimum guarantee uses all blocks: everyone gets the minimum.
            let shares = Self::uniform_shares(bgs_scores, min);
            proof {
                lemma_sum_uniform_shares(shares@, min);
                assert(shares@ == bgs_shares_spec(scores, blocks_per_epoch, min, no_adds));
                assert(eabs_shares_from(share, scores, blocks_per_epoch, min, no_adds));
            }
            return shares;
        }

        let total_bgs = ScheduleGenerator::total_score(bgs_scores);
        if total_bgs == 0 {
            // All scores are zero: equal distribution.
            let blocks_each = blocks_per_epoch / num_validators;
            let shares = Self::uniform_shares(bgs_scores, blocks_each);
            proof {
                lemma_sum_uniform_shares(shares@, blocks_each);
                assert(n * blocks_each <= blocks_per_epoch) by (nonlinear_arith)
                    requires
                        blocks_each == blocks_per_epoch as int / (n as int),
                        n > 0,
                ;
                assert(shares@ == bgs_shares_spec(scores, blocks_per_epoch, min, no_adds));
                assert(eabs_shares_from(share, scores, blocks_per_epoch, min, no_adds));
            }
            return shares;
        }

        // The blocks beyond the minimum guarantee, shared in proportion to the scores.
        let remaining_blocks = blocks_per_epoch - guaranteed_blocks;
        let mut shares: Vec<(AuthorityId, u32)> = Vec::new();
        let ghost mut adds: Seq<u64> = Seq::empty();
        let mut i: usize = 0;
        while i < bgs_scores.len()
            invariant
                scores == bgs_scores@,
                n == scores.len(),
                i <= n,
                remaining_blocks == blocks_per_epoch - n * min,
                total_bgs == schedule::sum_scores(scores),
                total_bgs > 0,
                n * min < blocks_per_epoch,
                forall|a: u64, b: u64, c: u64| share.requires((a, b, c)),
                share_rule_bounded(share),
                adds.len() == i,
                forall|k: int| 0 <= k < i ==> share.ensures(
                    (remaining_blocks as u64, scores[k].score, total_bgs),
                    #[trigger] adds[k],
                ),
                forall|k: int| 0 <= k < i ==> #[trigger] adds[k] <= remaining_blocks,
                shares@ == Seq::new(i as nat, |k: int| (scores[k].authority, (min + adds[k]) as u32)),
            decreases n - i,
        {
            let additional = share(remaining_blocks as u64, bgs_scores[i].score, total_bgs);
            proof {
                assert(share.ensures((remaining_blocks as u64, scores[i as int].score, total_bgs), additional));
                assert(additional <= remaining_blocks);
                assert(min + remaining_blocks <= blocks_per_epoch) by (nonlinear_arith)
                    requires
                        remaining_blocks == blocks_per_epoch - n * min,
                        n >= 1,
                ;
            }
            let validator_shares = min + additional as u32;
            shares.push((bgs_scores[i].authority, validator_shares));
            proof {
                adds = adds.push(additional);
            }
            i += 1;
            proof {
                assert(shares@ =~= Seq::new(i as nat, |k: int| (scores[k].authority, (min + adds[k]) as u32)));
            }
        }
        proof {
            assert(shares@ =~= base_shares(scores, min, adds));
            assert forall|k: int| 0 <= k < n implies (#[trigger] adds[k]) * total_bgs <= remaining_blocks * scores[k].score + total_bgs by {
                assert(share.ensures((remaining_blocks as u64, scores[k].score, total_bgs), adds[k]));
            }
            assert forall|k: int| 0 <= k < n implies min + #[trigger] adds[k] <= u32::MAX by {
                assert(min + remaining_blocks <= blocks_per_epoch) by (nonlinear_arith)
                    requires
                        remaining_blocks == blocks_per_epoch - n * min,
                        n >= 1,
                ;
            }
            lemma_rounded_shares_sum(scores, min, adds, remaining_blocks as int, total_bgs as int, n as int);
            assert(base_shares(scores, min, adds).subrange(0, n as int) =~= base_shares(scores, min, adds));
            assert(scores.subrange(0, n as int) =~= scores);
            let x = sum_shares(base_shares(scores, min, adds)) - n * min;
            assert(x <= remaining_blocks + n) by (nonlinear_arith)
                requires
                    x * total_bgs <= remaining_blocks * total_bgs + n * total_bgs,
                    total_bgs > 0,
            ;
            assert(sum_shares(shares@) <= u32::MAX);
        }

        // Adjust for rounding: the blocks left over go to the highest score.
        let total_assigned = Self::total_shares(&shares);
        if total_assigned < blocks_per_epoch {
            let difference = blocks_per_epoch - total_assigned;
            let max_idx = Self::max_score_index(bgs_scores);
            proof {
                lemma_last_max_index_range(scores);
                lemma_share_le_sum(shares@, max_idx as int);
            }
            let (validator, count) = shares[max_idx];
            let ghost before = shares@;
            shares.set(max_idx, (validator, count + difference));
            proof {
                lemma_sum_shares_update(before, max_idx as int, (validator, (count + difference) as u32));
            }
        }
        proof {
            assert(shares@ == bgs_shares_spec(scores, blocks_per_epoch, min, adds));
            assert(eabs_shares_from(share, scores, blocks_per_epoch, min, adds));
        }
        shares
    }
}

} // verus!

verus! {

// ---------------------------------------------------------------------------------------
// Properties of eABS schedules
// ---------------------------------------------------------------------------------------

/// Whether `v` is the authority of one of the scores.
pub open spec fn is_scored(scores: Seq<BlockGenerationScore>, v: AuthorityId) -> bool {
    exists|i: int| 0 <= i < scores.len() && #[trigger] scores[i].authority == v
}

/// The share list names the validators of the scores, in order.
pub proof fn lemma_shares_name_validators(scores: Seq<BlockGenerationScore>, blocks: u32, min: u32, adds: Seq<u64>)
    requires
        scores.len() > 0,
    ensures
        bgs_shares_spec(scores, blocks, min, adds).len() == scores.len(),
        forall|i: int| 0 <= i < scores.len() ==> (#[trigger] bgs_shares_spec(scores, blocks, min, adds)[i]).0 == scores[i].authority,
{
    lemma_last_max_index_range(scores);
}

/// Every row of the expansion belongs to a validator of the share list.
pub proof fn lemma_expanded_rows_members(shares: Seq<(AuthorityId, u32)>)
    ensures
        forall|k: int| 0 <= k < expanded_rows(shares).len() ==> exists|i: int| 0 <= i < shares.len() && (#[trigger] expanded_rows(shares)[k]) == shares[i].0,
    decreases shares.len(),
{
    if shares.len() > 0 {
        let prev = shares.drop_last();
        lemma_expanded_rows_members(prev);
        assert forall|k: int| 0 <= k < expanded_rows(shares).len() implies exists|i: int| 0 <= i < shares.len() && (#[trigger] expanded_rows(shares)[k]) == shares[i].0 by {
            if k < expanded_rows(prev).len() {
                let i = choose|i: int| 0 <= i < prev.len() && expanded_rows(prev)[k] == prev[i].0;
                assert(expanded_rows(shares)[k] == shares[i].0);
            } else {
                assert(expanded_rows(shares)[k] == shares[shares.len() - 1].0);
            }
        }
    }
}

/// Drawing from cells that are all filled yields one validator per column, each taken
/// from a row of the matrix.
pub proof fn lemma_select_prefix_full(cells: Seq<Seq<Option<AuthorityId>>>, rows: nat, c: nat, rng: u64, owners: Seq<AuthorityId>)
    requires
        rows > 0,
        cells.len() == rows,
        owners.len() == rows,
        forall|r: int, col: int| 0 <= r < rows && 0 <= col < c ==> #[trigger] cells[r][col] == Some(owners[r]),
    ensures
        select_prefix(cells, rows, c, rng).0.len() == c,
        forall|k: int| 0 <= k < c ==> exists|r: int| 0 <= r < rows && #[trigger] select_prefix(cells, rows, c, rng).0[k] == owners[r],
    decreases c,
{
    if c > 0 {
        lemma_select_prefix_full(cells, rows, (c - 1) as nat, rng, owners);
        lemma_select_prefix_pool(cells, rows, (c - 1) as nat, rng);
        let (prefix, r, pool) = select_prefix(cells, rows, (c - 1) as nat, rng);
        let pool1 = if pool.len() == 0 { all_rows(rows) } else { pool };
        let r2 = pcg_step(r);
        let p = (r2 as usize) as int % (pool1.len() as int);
        let row = pool1[p] as int;
        assert(0 <= row < rows);
        assert(cells[row][c - 1] == Some(owners[row]));
        let res = select_prefix(cells, rows, c, rng).0;
        assert(res == prefix.push(owners[row]));
        assert forall|k: int| 0 <= k < c implies exists|rr: int| 0 <= rr < rows && #[trigger] res[k] == owners[rr] by {
            if k < c - 1 {
                let rr = choose|rr: int| 0 <= rr < rows && #[trigger] prefix[k] == owners[rr];
                assert(res[k] == prefix[k]);
            } else {
                assert(res[k] == owners[row]);
            }
        }
    }
}

/// The validators owning the given rows.
pub open spec fn owners_of(pool: Seq<usize>, owners: Seq<AuthorityId>) -> Seq<AuthorityId> {
    Seq::new(pool.len(), |k: int| owners[pool[k] as int])
}

/// Moving one element from a sequence onto the end of another keeps the sum of their
/// multisets.
pub proof fn lemma_move_to_multiset(prefix: Seq<AuthorityId>, m: Seq<AuthorityId>, p: int)
    requires
        0 <= p < m.len(),
    ensures
        prefix.push(m[p]).to_multiset().add(m.remove(p).to_multiset()) == prefix.to_multiset().add(m.to_multiset()),
{
    vstd::seq_lib::to_multiset_build(prefix, m[p]);
    vstd::seq_lib::to_multiset_remove(m, p);
    vstd::seq_lib::to_multiset_contains(m, m[p]);
    assert(m.contains(m[p]));
    assert(prefix.push(m[p]).to_multiset().add(m.remove(p).to_multiset()) =~= prefix.to_multiset().add(m.to_multiset()));
}

/// Drawing without replacement from cells that are all filled: while no more columns
/// than rows have been drawn, the validators drawn and the owners of the rows left to
/// draw are together the owners of all the rows.
pub proof fn lemma_select_prefix_draws_each_row(
    cells: Seq<Seq<Option<AuthorityId>>>,
    rows: nat,
    c: nat,
    rng: u64,
    owners: Seq<AuthorityId>,
)
    requires
        0 < rows <= usize::MAX,
        c <= rows,
        cells.len() == rows,
        owners.len() == rows,
        forall|r: int, col: int| 0 <= r < rows && 0 <= col < c ==> #[trigger] cells[r][col] == Some(owners[r]),
    ensures
        select_prefix(cells, rows, c, rng).2.len() == rows - c,
        select_prefix(cells, rows, c, rng).0.to_multiset().add(
            owners_of(select_prefix(cells, rows, c, rng).2, owners).to_multiset(),
        ) == owners.to_multiset(),
    decreases c,
{
    if c == 0 {
        assert(owners_of(all_rows(rows), owners) =~= owners);
        let e = Seq::<AuthorityId>::empty().to_multiset();
        vstd::seq_lib::to_multiset_len(Seq::<AuthorityId>::empty());
        vstd::multiset::lemma_multiset_empty_len(e);
        assert(e.add(owners.to_multiset()) =~= owners.to_multiset());
    } else {
        lemma_select_prefix_draws_each_row(cells, rows, (c - 1) as nat, rng, owners);
        lemma_select_prefix_pool(cells, rows, (c - 1) as nat, rng);
        let prev = select_prefix(cells, rows, (c - 1) as nat, rng);
        let prefix = prev.0;
        let pool = prev.2;
        let r2 = pcg_step(prev.1);
        let p = (r2 as usize) as int % (pool.len() as int);
        assert(0 <= p < pool.len());
        let row = pool[p] as int;
        let m = owners_of(pool, owners);
        assert(cells[row][c - 1] == Some(owners[row]));
        assert(select_prefix(cells, rows, c, rng) == (prefix.push(m[p]), r2, pool.remove(p)));
        assert(owners_of(pool.remove(p), owners) =~= m.remove(p));
        lemma_move_to_multiset(prefix, m, p);
    }
}

/// When the shares add up to exactly the blocks of the epoch, each validator produces
/// exactly as many blocks as it holds shares: the eABS schedule holds the owners of the
/// matrix rows, each row once.
pub proof fn law_eabs_proportional(
    scores: Seq<BlockGenerationScore>,
    blocks: u32,
    seed: Seq<u8>,
    min: u32,
    adds: Seq<u64>,
)
    requires
        scores.len() > 0,
        blocks > 0,
        sum_shares(bgs_shares_spec(scores, blocks, min, adds)) == blocks,
    ensures
        eabs_schedule_spec(scores, blocks, seed, min, adds).to_multiset() == expanded_rows(
            bgs_shares_spec(scores, blocks, min, adds),
        ).to_multiset(),
{
    broadcast use vstd::seq_lib::group_to_multiset_ensures;

    let shares = bgs_shares_spec(scores, blocks, min, adds);
    let rows = sum_shares(shares) as nat;
    let empty = Seq::new(rows, |_r: int| seqs::repeat(blocks as nat, None::<AuthorityId>));
    let cells = filled_cells(empty, shares, blocks as nat);
    let owners = expanded_rows(shares);
    lemma_expanded_rows_len(shares);
    lemma_select_prefix_draws_each_row(cells, rows, blocks as nat, seqs::le_u64_at(seed, 0), owners);
    let sp = select_prefix(cells, rows, blocks as nat, seqs::le_u64_at(seed, 0));
    assert(owners_of(sp.2, owners) =~= Seq::<AuthorityId>::empty());
    assert(sp.0.to_multiset() =~= owners.to_multiset());
    law_constrained_shuffle(sp.0, seed);
}

/// An eABS schedule has no validator holding more than 3 blocks in a row whenever its
/// blocks can be arranged that way.
pub proof fn law_eabs_runs(scores: Seq<BlockGenerationScore>, blocks: u32, seed: Seq<u8>, min: u32, adds: Seq<u64>)
    requires
        runs::arrangeable(eabs_schedule_spec(scores, blocks, seed, min, adds), 3),
    ensures
        runs::runs_within(eabs_schedule_spec(scores, blocks, seed, min, adds), 3),
{
    if scores.len() > 0 && blocks > 0 {
        let shares = bgs_shares_spec(scores, blocks, min, adds);
        let rows = sum_shares(shares) as nat;
        let cells = filled_cells(Seq::new(rows, |_r: int| seqs::repeat(blocks as nat, None::<AuthorityId>)), shares, blocks as nat);
        let drawn = select_prefix(cells, rows, blocks as nat, seqs::le_u64_at(seed, 0)).0;
        law_constrained_shuffle(drawn, seed);
        runs::lemma_arrangeable_permutation(eabs_schedule_spec(scores, blocks, seed, min, adds), drawn, 3);
    }
}

/// Once the matrix has rows (the shares add up to more than zero), an eABS schedule has
/// exactly one validator per block, and each of them is one of the scored validators.
pub proof fn law_eabs_schedule_complete(
    scores: Seq<BlockGenerationScore>,
    blocks: u32,
    seed: Seq<u8>,
    min: u32,
    adds: Seq<u64>,
)
    requires
        scores.len() > 0,
        blocks > 0,
        sum_shares(bgs_shares_spec(scores, blocks, min, adds)) > 0,
    ensures
        eabs_schedule_spec(scores, blocks, seed, min, adds).len() == blocks,
        forall|k: int| 0 <= k < blocks ==> is_scored(scores, #[trigger] eabs_schedule_spec(scores, blocks, seed, min, adds)[k]),
{
    broadcast use vstd::seq_lib::group_to_multiset_ensures;

    let shares = bgs_shares_spec(scores, blocks, min, adds);
    let rows = sum_shares(shares) as nat;
    let empty = Seq::new(rows, |_r: int| seqs::repeat(blocks as nat, None::<AuthorityId>));
    let cells = filled_cells(empty, shares, blocks as nat);
    let owners = expanded_rows(shares);
    lemma_expanded_rows_len(shares);
    lemma_select_prefix_full(cells, rows, blocks as nat, seqs::le_u64_at(seed, 0), owners);
    let drawn = select_prefix(cells, rows, blocks as nat, seqs::le_u64_at(seed, 0)).0;
    law_constrained_shuffle(drawn, seed);
    lemma_expanded_rows_members(shares);
    lemma_shares_name_validators(scores, blocks, min, adds);
    let res = eabs_schedule_spec(scores, blocks, seed, min, adds);
    assert forall|k: int| 0 <= k < blocks implies is_scored(scores, #[trigger] res[k]) by {
        assert(res.to_multiset().count(res[k]) > 0);
        assert(drawn.contains(res[k]));
        let p = choose|p: int| 0 <= p < drawn.len() && drawn[p] == res[k];
        let r = choose|r: int| 0 <= r < rows && #[trigger] drawn[p] == owners[r];
        let i = choose|i: int| 0 <= i < shares.len() && (#[trigger] owners[r]) == shares[i].0;
        assert(scores[i].authority == res[k]);
    }
}

/// Every validator receives at least the minimum number of shares, provided each
/// proportional share is at most the blocks beyond the minimum guarantee.
pub proof fn law_eabs_minimum_shares(scores: Seq<BlockGenerationScore>, blocks: u32, min: u32, adds: Seq<u64>)
    requires
        scores.len() > 0,
        adds.len() == scores.len(),
        scores.len() * min < blocks ==> forall|i: int| 0 <= i < scores.len() ==> #[trigger] adds[i] <= blocks - scores.len() * min,
    ensures
        forall|i: int| 0 <= i < scores.len() ==> (#[trigger] bgs_shares_spec(scores, blocks, min, adds)[i]).1 >= min,
{
    let n = scores.len();
    lemma_last_max_index_range(scores);
    if n * min < blocks {
        assert forall|i: int| 0 <= i < n implies min + #[trigger] adds[i] <= blocks by {
            assert(min + (blocks - n * min) <= blocks) by (nonlinear_arith)
                requires
                    n >= 1,
                    n * min < blocks,
            ;
        }
        if schedule::sum_scores(scores) == 0 {
            assert(blocks as int / (n as int) >= min) by (nonlinear_arith)
                requires
                    n >= 1,
                    n * min < blocks,
            ;
        } else {
            let base = base_shares(scores, min, adds);
            let m = last_max_index(scores);
            lemma_share_le_sum(base, m);
            assert forall|i: int| 0 <= i < n implies (#[trigger] bgs_shares_spec(scores, blocks, min, adds)[i]).1 >= min by {
                assert(base[i].1 == min + adds[i]);
            }
        }
    }
}

/// When the scores are proportional and rounding left blocks over, the shares add up to
/// exactly the blocks of the epoch.
pub proof fn law_eabs_shares_fill_epoch(scores: Seq<BlockGenerationScore>, blocks: u32, min: u32, adds: Seq<u64>)
    requires
        scores.len() > 0,
        adds.len() == scores.len(),
        eabs_proportional_applies(scores, blocks, min),
        sum_shares(base_shares(scores, min, adds)) <= blocks,
    ensures
        sum_shares(bgs_shares_spec(scores, blocks, min, adds)) == blocks,
{
    let base = base_shares(scores, min, adds);
    let m = last_max_index(scores);
    lemma_last_max_index_range(scores);
    if sum_shares(base) < blocks {
        lemma_share_le_sum(base, m);
        lemma_sum_shares_update(base, m, (base[m].0, (base[m].1 + (blocks - sum_shares(base))) as u32));
    }
}

/// The last position of the highest score holds a score at least every score and above
/// every later one.
pub proof fn lemma_last_max_index_is_last_max(scores: Seq<BlockGenerationScore>)
    requires
        scores.len() > 0,
    ensures
        0 <= last_max_index(scores) < scores.len(),
        forall|i: int| 0 <= i < scores.len() ==> (#[trigger] scores[i]).score <= scores[last_max_index(scores)].score,
        forall|i: int| last_max_index(scores) < i < scores.len() ==> (#[trigger] scores[i]).score < scores[last_max_index(scores)].score,
    decreases scores.len(),
{
    lemma_last_max_index_range(scores);
    if scores.len() > 1 {
        let prev = scores.drop_last();
        lemma_last_max_index_is_last_max(prev);
        lemma_last_max_index_range(prev);
        let p = last_max_index(prev);
        assert forall|i: int| 0 <= i < scores.len() - 1 implies scores[i].score <= prev[p].score by {
            assert(scores[i] == prev[i]);
        }
        assert forall|i: int| p < i < scores.len() - 1 implies scores[i].score < prev[p].score by {
            assert(scores[i] == prev[i]);
        }
        assert(scores[p] == prev[p]);
    }
}

/// The blocks rounding leaves over go to the validator with the highest score, the last
/// of equal highest ones: when the minimum leaves blocks over, the scores are not all
/// zero and the minimum plus proportional shares (each within 32 bits) leave `left > 0`
/// blocks, some validator `m` has a score at least every score and above every later
/// one, its share is its minimum plus its proportional share plus `left`, and every
/// other validator's share is its minimum plus its proportional share.
pub proof fn law_leftover_to_top_scorer(scores: Seq<BlockGenerationScore>, blocks: u32, min: u32, adds: Seq<u64>)
    requires
        scores.len() > 0,
        adds.len() == scores.len(),
        scores.len() * min < blocks,
        schedule::sum_scores(scores) > 0,
        forall|i: int| 0 <= i < scores.len() ==> min + #[trigger] adds[i] <= u32::MAX,
        sum_shares(Seq::new(scores.len(), |i: int| (scores[i].authority, (min + adds[i]) as u32))) < blocks,
    ensures
        bgs_shares_spec(scores, blocks, min, adds).len() == scores.len(),
        forall|i: int| 0 <= i < scores.len() ==> (#[trigger] bgs_shares_spec(scores, blocks, min, adds)[i]).0 == scores[i].authority,
        exists|m: int| {
            &&& 0 <= m < scores.len()
            &&& forall|i: int| 0 <= i < scores.len() ==> (#[trigger] scores[i]).score <= scores[m].score
            &&& forall|i: int| m < i < scores.len() ==> (#[trigger] scores[i]).score < scores[m].score
            &&& bgs_shares_spec(scores, blocks, min, adds)[m].1 == min + adds[m] + (blocks - sum_shares(
                Seq::new(scores.len(), |i: int| (scores[i].authority, (min + adds[i]) as u32)),
            ))
            &&& forall|i: int|
                0 <= i < scores.len() && i != m ==> (#[trigger] bgs_shares_spec(scores, blocks, min, adds)[i]).1 == min + adds[i]
        },
{
    let base = base_shares(scores, min, adds);
    assert(base =~= Seq::new(scores.len(), |i: int| (scores[i].authority, (min + adds[i]) as u32)));
    let m = last_max_index(scores);
    lemma_last_max_index_is_last_max(scores);
    lemma_share_le_sum(base, m);
    let r = bgs_shares_spec(scores, blocks, min, adds);
    assert forall|i: int| 0 <= i < scores.len() && i != m implies (#[trigger] r[i]).1 == min + adds[i] by {
        assert(base[i].1 == min + adds[i]);
    }
    assert(r[m].1 == min + adds[m] + (blocks - sum_shares(base)));
}

/// Drawing more columns only extends the schedule drawn so far.
pub proof fn lemma_select_prefix_extends(cells: Seq<Seq<Option<AuthorityId>>>, rows: nat, c1: nat, c: nat, x: u64)
    requires
        c1 <= c,
    ensures
        select_prefix(cells, rows, c1, x).0.len() <= select_prefix(cells, rows, c, x).0.len(),
        forall|k: int|
            0 <= k < select_prefix(cells, rows, c1, x).0.len() ==> #[trigger] select_prefix(cells, rows, c, x).0[k]
                == select_prefix(cells, rows, c1, x).0[k],
    decreases c - c1,
{
    if c1 < c {
        lemma_select_prefix_extends(cells, rows, c1, (c - 1) as nat, x);
    }
}

/// The first slot of the draw: the generator state `y = w * 6364136223846793005 +
/// 1442695040888963407 (mod 2^64)` after one step from the seed word `w` picks row
/// `y mod rows`, and when that row's first cell holds a validator, the schedule drawn from
/// any number of columns starts with it.
pub proof fn law_matrix_first_draw(cells: Seq<Seq<Option<AuthorityId>>>, rows: nat, c: nat, w: u64, v: AuthorityId)
    requires
        0 < rows <= usize::MAX,
        c >= 1,
        cells[((w.wrapping_mul(6364136223846793005).wrapping_add(1442695040888963407) as usize) as int % (rows as int))][0]
            == Some(v),
    ensures
        select_prefix(cells, rows, c, w).0.len() >= 1,
        select_prefix(cells, rows, c, w).0[0] == v,
{
    assert(all_rows(rows)[(pcg_step(w) as usize) as int % (rows as int)] as int == (pcg_step(w) as usize) as int % (rows as int));
    assert(select_prefix(cells, rows, 0, w).0.len() == 0);
    assert(select_prefix(cells, rows, 1, w).0 =~= seq![v]);
    lemma_select_prefix_extends(cells, rows, 1, c, w);
}

/// The draw depends on the seed: when two rows of the matrix start with different
/// validators, two seeds draw two different schedules.
pub proof fn law_matrix_draw_depends_on_seed(
    cells: Seq<Seq<Option<AuthorityId>>>,
    rows: nat,
    c: nat,
    r1: int,
    r2: int,
    a: AuthorityId,
    b: AuthorityId,
)
    requires
        0 < rows <= usize::MAX,
        c >= 1,
        0 <= r1 < rows,
        0 <= r2 < rows,
        cells[r1][0] == Some(a),
        cells[r2][0] == Some(b),
        a != b,
    ensures
        exists|s1: Seq<u8>, s2: Seq<u8>|
            s1.len() == 32 && s2.len() == 32 && #[trigger] select_prefix(cells, rows, c, seqs::le_u64_at(s1, 0)).0
                != #[trigger] select_prefix(cells, rows, c, seqs::le_u64_at(s2, 0)).0,
{
    let t1 = r1 as u64;
    let t2 = r2 as u64;
    assert(t1.wrapping_sub(1442695040888963407).wrapping_mul(13877824140714322085).wrapping_mul(6364136223846793005).wrapping_add(
        1442695040888963407,
    ) == t1) by (bit_vector);
    assert(t2.wrapping_sub(1442695040888963407).wrapping_mul(13877824140714322085).wrapping_mul(6364136223846793005).wrapping_add(
        1442695040888963407,
    ) == t2) by (bit_vector);
    let x1 = t1.wrapping_sub(1442695040888963407).wrapping_mul(13877824140714322085);
    let x2 = t2.wrapping_sub(1442695040888963407).wrapping_mul(13877824140714322085);
    seqs::lemma_seed_with(x1);
    seqs::lemma_seed_with(x2);
    assert(t1 == r1 && (t1 as usize) == r1);
    assert(t2 == r2 && (t2 as usize) == r2);
    vstd::arithmetic::div_mod::lemma_small_mod(r1 as nat, rows);
    vstd::arithmetic::div_mod::lemma_small_mod(r2 as nat, rows);
    law_matrix_first_draw(cells, rows, c, x1, a);
    law_matrix_first_draw(cells, rows, c, x2, b);
    let s1 = seqs::seed_with(x1);
    let s2 = seqs::seed_with(x2);
    assert(select_prefix(cells, rows, c, seqs::le_u64_at(s1, 0)).0[0] != select_prefix(cells, rows, c, seqs::le_u64_at(s2, 0)).0[0]);
}

/// The second slot of the draw comes from a row other than the first one: with
/// `y1`, `y2` the generator states after one and two steps from the seed word `w`
/// (`y -> y * 6364136223846793005 + 1442695040888963407 mod 2^64`), the first row drawn is
/// `r0 = y1 mod rows` and the second is the row at position `p = y2 mod (rows - 1)` of the
/// other rows in order: `p` below `r0`, `p + 1` from `r0` on.
pub proof fn law_matrix_second_draw(
    cells: Seq<Seq<Option<AuthorityId>>>,
    rows: nat,
    c: nat,
    w: u64,
    u: AuthorityId,
    v: AuthorityId,
)
    requires
        2 <= rows <= usize::MAX,
        c >= 2,
        cells[((w.wrapping_mul(6364136223846793005).wrapping_add(1442695040888963407) as usize) as int % (rows as int))][0]
            == Some(u),
        ({
            let y1 = w.wrapping_mul(6364136223846793005).wrapping_add(1442695040888963407);
            let y2 = y1.wrapping_mul(6364136223846793005).wrapping_add(1442695040888963407);
            let r0 = (y1 as usize) as int % (rows as int);
            let p = (y2 as usize) as int % (rows - 1);
            cells[if p < r0 { p } else { p + 1 }][1] == Some(v)
        }),
    ensures
        select_prefix(cells, rows, c, w).0.len() >= 2,
        select_prefix(cells, rows, c, w).0[1] == v,
{
    let y1 = pcg_step(w);
    let r0 = (y1 as usize) as int % (rows as int);
    let y2 = pcg_step(y1);
    let p = (y2 as usize) as int % (rows - 1);
    let pool = all_rows(rows).remove(r0);
    assert(select_prefix(cells, rows, 1, w) == (seq![u], y1, pool)) by {
        assert(select_prefix(cells, rows, 0, w) == (Seq::<AuthorityId>::empty(), w, all_rows(rows)));
        assert(all_rows(rows)[r0] as int == r0);
        assert(Seq::<AuthorityId>::empty().push(u) =~= seq![u]);
    }
    let q = if p < r0 { p } else { p + 1 };
    assert(pool[p] as int == q) by {
        assert(pool.len() == rows - 1);
        assert(0 <= p < rows - 1);
        assert(pool[p] == all_rows(rows)[q]);
    }
    assert(select_prefix(cells, rows, 2, w).0 =~= seq![u, v]) by {
        assert(pool.len() > 0);
        assert(seq![u].push(v) =~= seq![u, v]);
    }
    lemma_select_prefix_extends(cells, rows, 2, c, w);
}

} // verus!
