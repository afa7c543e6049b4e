//! Runs of equal consecutive entries in a schedule: how long they are, when a schedule
//! can be rearranged so that none is longer than a limit, and a rearrangement that
//! achieves it whenever that is possible.

use vstd::prelude::*;

verus! {

broadcast use vstd::seq_lib::group_to_multiset_ensures;

/// The length of the run of equal entries that ends `s`.
pub open spec fn trail<T>(s: Seq<T>) -> nat
    decreases s.len(),
{
    if s.len() <= 1 {
        s.len()
    } else if s.last() == s[s.len() - 2] {
        trail(s.drop_last()) + 1
    } else {
        1
    }
}

/// No run of equal consecutive entries of `s` is longer than `k`.
pub open spec fn runs_within<T>(s: Seq<T>, k: nat) -> bool
    decreases s.len(),
{
    s.len() == 0 || (runs_within(s.drop_last(), k) && trail(s) <= k)
}

/// Some arrangement of the entries of `s` has no run longer than `k`.
pub open spec fn arrangeable<T>(s: Seq<T>, k: nat) -> bool {
    exists|p: Seq<T>| p.to_multiset() == s.to_multiset() && runs_within(p, k)
}

/// The run of `w` that ends `out` (none when `out` does not end with `w`).
pub open spec fn tail_of<T>(out: Seq<T>, w: T) -> nat {
    if out.len() > 0 && out.last() == w {
        trail(out)
    } else {
        0
    }
}

/// `x` may follow `out` without making a run longer than `k`.
pub open spec fn allowed<T>(out: Seq<T>, x: T, k: nat) -> bool {
    !(out.len() > 0 && out.last() == x && trail(out) >= k)
}

/// Among `rem[0..j]`, the first position of an entry that may follow `out` and has the
/// most copies in `rem`; -1 when no entry there may follow `out`.
pub open spec fn pick<T>(out: Seq<T>, rem: Seq<T>, k: nat, j: nat) -> int
    decreases j,
{
    if j == 0 {
        -1
    } else {
        let b = pick(out, rem, k, (j - 1) as nat);
        let x = rem[j - 1];
        if allowed(out, x, k) && (b < 0 || rem.to_multiset().count(x) > rem.to_multiset().count(rem[b])) {
            j - 1
        } else {
            b
        }
    }
}

/// The greedy arrangement of `rem` after `out`: each step appends the entry that may
/// follow with the most copies left (the first such), or the first entry left when none
/// may follow.
pub open spec fn greedy<T>(out: Seq<T>, rem: Seq<T>, k: nat) -> Seq<T>
    decreases rem.len(),
{
    if rem.len() == 0 {
        out
    } else {
        let b = pick(out, rem, k, rem.len());
        let i = if 0 <= b < rem.len() { b } else { 0 };
        greedy(out.push(rem[i]), rem.remove(i), k)
    }
}

/// `s` with its runs limited to `k`: `s` itself when the limit is zero, already met, or
/// cannot be met (some value has more than `k * (len - count + 1)` copies), the greedy
/// arrangement of `s` otherwise.
pub open spec fn limit_runs<T>(s: Seq<T>, k: nat) -> Seq<T> {
    if k == 0 || runs_within(s, k) || !greedy_inv(Seq::<T>::empty(), s, k) {
        s
    } else {
        greedy(Seq::empty(), s, k)
    }
}

/// The counts that a greedy step keeps: every value `w` has at most
/// `k * (|rem| - count(w)) + k - tail_of(out, w)` copies left.
pub open spec fn greedy_inv<T>(out: Seq<T>, rem: Seq<T>, k: nat) -> bool {
    forall|w: T|
        #[trigger] rem.to_multiset().count(w) <= k * (rem.len() - rem.to_multiset().count(w)) + k - tail_of(out, w)
}

/// Appending an entry: the run at the end grows by one when it repeats the last entry,
/// and starts afresh otherwise.
pub proof fn lemma_trail_push<T>(out: Seq<T>, x: T)
    ensures
        out.push(x).drop_last() == out,
        trail(out.push(x)) == if out.len() > 0 && out.last() == x { trail(out) + 1 } else { 1 },
        tail_of(out.push(x), x) == tail_of(out, x) + 1,
{
    assert(out.push(x).drop_last() =~= out);
    if out.len() > 0 {
        assert(out.push(x)[out.len() - 1] == out.last());
    }
}

/// In a sequence with no run longer than `k`, a value with `c` copies has at most
/// `k * (len - c) + tail` of them, `tail` being its run at the end.
pub proof fn lemma_count_bound<T>(p: Seq<T>, k: nat, v: T)
    requires
        runs_within(p, k),
    ensures
        p.to_multiset().count(v) <= k * (p.len() - p.to_multiset().count(v)) + tail_of(p, v),
        tail_of(p, v) <= k,
    decreases p.len(),
{
    if p.len() > 0 {
        let q = p.drop_last();
        let x = p.last();
        assert(q.push(x) =~= p);
        lemma_count_bound(q, k, v);
        lemma_trail_push(q, x);
        let cq = q.to_multiset().count(v);
        let lq = q.len() as int;
        if x == v {
            assert(p.to_multiset().count(v) == cq + 1);
        } else {
            assert(p.to_multiset().count(v) == cq);
            assert(cq <= k * (lq + 1 - cq)) by (nonlinear_arith)
                requires
                    cq <= k * (lq - cq) + tail_of(q, v),
                    tail_of(q, v) <= k,
            ;
        }
    }
}

/// A sequence that can be arranged with runs of at most `k` has, for every value, at most
/// `k * (len - count + 1)` copies of it.
pub proof fn lemma_arrangeable_counts<T>(s: Seq<T>, k: nat)
    requires
        arrangeable(s, k),
    ensures
        greedy_inv(Seq::<T>::empty(), s, k),
{
    let p = choose|p: Seq<T>| p.to_multiset() == s.to_multiset() && runs_within(p, k);
    assert forall|w: T| #[trigger] s.to_multiset().count(w) <= k * (s.len() - s.to_multiset().count(w)) + k - tail_of(
        Seq::<T>::empty(),
        w,
    ) by {
        lemma_count_bound(p, k, w);
        assert(p.len() == s.len()) by {
            assert(p.to_multiset().len() == s.to_multiset().len());
        }
    }
}

/// Two different values have no more copies together than the sequence has entries.
pub proof fn lemma_two_counts<T>(s: Seq<T>, a: T, b: T)
    requires
        a != b,
    ensures
        s.to_multiset().count(a) + s.to_multiset().count(b) <= s.len(),
    decreases s.len(),
{
    if s.len() > 0 {
        let q = s.drop_last();
        assert(q.push(s.last()) =~= s);
        lemma_two_counts(q, a, b);
    }
}

/// A sequence whose entries all equal `v` holds nothing but copies of `v`.
pub proof fn lemma_all_equal_count<T>(s: Seq<T>, v: T)
    requires
        forall|i: int| 0 <= i < s.len() ==> s[i] == v,
    ensures
        s.to_multiset().count(v) == s.len(),
    decreases s.len(),
{
    if s.len() > 0 {
        let q = s.drop_last();
        assert(q.push(s.last()) =~= s);
        lemma_all_equal_count(q, v);
    }
}

/// What `pick` finds among the first `j` entries: a position below `j` of an entry that
/// may follow, with no entry there that may follow having more copies; -1 only when no
/// entry there may follow.
pub proof fn lemma_pick<T>(out: Seq<T>, rem: Seq<T>, k: nat, j: nat)
    requires
        j <= rem.len(),
    ensures
        -1 <= pick(out, rem, k, j) < j,
        pick(out, rem, k, j) >= 0 ==> allowed(out, rem[pick(out, rem, k, j)], k),
        pick(out, rem, k, j) >= 0 ==> forall|i: int|
            0 <= i < j && allowed(out, rem[i], k) ==> rem.to_multiset().count(#[trigger] rem[i])
                <= rem.to_multiset().count(rem[pick(out, rem, k, j)]),
        pick(out, rem, k, j) < 0 ==> forall|i: int| 0 <= i < j ==> !allowed(out, #[trigger] rem[i], k),
    decreases j,
{
    if j > 0 {
        lemma_pick(out, rem, k, (j - 1) as nat);
    }
}

/// The greedy arrangement holds the entries of `out` and `rem`.
pub proof fn lemma_greedy_permutes<T>(out: Seq<T>, rem: Seq<T>, k: nat)
    ensures
        greedy(out, rem, k).to_multiset() == out.to_multiset().add(rem.to_multiset()),
        greedy(out, rem, k).len() == out.len() + rem.len(),
    decreases rem.len(),
{
    if rem.len() == 0 {
        assert(out.to_multiset().add(rem.to_multiset()) =~= out.to_multiset());
    } else {
        let b = pick(out, rem, k, rem.len());
        let i = if 0 <= b < rem.len() { b } else { 0 };
        lemma_greedy_permutes(out.push(rem[i]), rem.remove(i), k);
        assert(out.push(rem[i]).to_multiset().add(rem.remove(i).to_multiset()) =~= out.to_multiset().add(
            rem.to_multiset(),
        )) by {
            assert(rem.to_multiset().count(rem[i]) > 0) by {
                assert(rem.contains(rem[i]));
            }
        }
    }
}

/// One greedy step keeps the counts it needs and the runs within `k`.
pub proof fn lemma_greedy_step<T>(out: Seq<T>, rem: Seq<T>, k: nat)
    requires
        k >= 1,
        rem.len() > 0,
        runs_within(out, k),
        greedy_inv(out, rem, k),
    ensures
        0 <= pick(out, rem, k, rem.len()) < rem.len(),
        runs_within(out.push(rem[pick(out, rem, k, rem.len())]), k),
        greedy_inv(
            out.push(rem[pick(out, rem, k, rem.len())]),
            rem.remove(pick(out, rem, k, rem.len())),
            k,
        ),
{
    let n = rem.len() as int;
    lemma_pick(out, rem, k, rem.len());
    let b = pick(out, rem, k, rem.len());
    if out.len() > 0 {
        lemma_count_bound(out, k, out.last());
    }
    if b < 0 {
        assert(!allowed(out, rem[0], k));
        assert(out.len() > 0);
        let l = out.last();
        assert(tail_of(out, l) == trail(out));
        assert(trail(out) == k);
        assert forall|i: int| 0 <= i < rem.len() implies rem[i] == l by {
            assert(!allowed(out, rem[i], k));
        }
        lemma_all_equal_count(rem, l);
        assert(rem.to_multiset().count(l) <= k * (n - rem.to_multiset().count(l)) + k - tail_of(out, l));
        assert(rem.to_multiset().count(l) == n);
        assert(k * (n - rem.to_multiset().count(l)) == 0) by (nonlinear_arith)
            requires
                rem.to_multiset().count(l) == n,
        ;
        assert(false);
    }
    let x = rem[b];
    let out2 = out.push(x);
    let rem2 = rem.remove(b);
    lemma_trail_push(out, x);
    assert(runs_within(out2, k));
    let cx = rem.to_multiset().count(x);
    assert(cx > 0) by {
        assert(rem.contains(x));
    }
    assert forall|w: T| #[trigger] rem2.to_multiset().count(w) <= k * (rem2.len() - rem2.to_multiset().count(w)) + k - tail_of(
        out2,
        w,
    ) by {
        let c = rem.to_multiset().count(w);
        assert(rem.to_multiset().count(w) <= k * (n - c) + k - tail_of(out, w));
        if w == x {
            assert(rem2.to_multiset().count(w) == c - 1);
            assert(tail_of(out2, w) == tail_of(out, w) + 1);
        } else {
            assert(rem2.to_multiset().count(w) == c);
            assert(tail_of(out2, w) == 0);
            if c > 0 {
                if allowed(out, w, k) {
                    assert(rem.contains(w));
                    let j = choose|j: int| 0 <= j < rem.len() && rem[j] == w;
                    assert(rem.to_multiset().count(rem[j]) <= cx);
                    lemma_two_counts(rem, w, x);
                    assert(c <= k * (n - 1 - c) + k) by (nonlinear_arith)
                        requires
                            k >= 1,
                            c <= cx,
                            c + cx <= n,
                    ;
                } else {
                    assert(tail_of(out, w) == k);
                    assert(c <= k * (n - 1 - c) + k) by (nonlinear_arith)
                        requires
                            c <= k * (n - c) + k - k,
                    ;
                }
            } else {
                assert(0 <= k * (n - 1 - c) + k) by (nonlinear_arith)
                    requires
                        k >= 1,
                        c == 0,
                        n >= 1,
                ;
            }
        }
    }
}

/// Starting from an arrangement within `k` and counts the greedy step keeps, the greedy
/// arrangement has no run longer than `k`.
pub proof fn lemma_greedy_runs<T>(out: Seq<T>, rem: Seq<T>, k: nat)
    requires
        k >= 1,
        runs_within(out, k),
        greedy_inv(out, rem, k),
    ensures
        runs_within(greedy(out, rem, k), k),
    decreases rem.len(),
{
    if rem.len() > 0 {
        lemma_greedy_step(out, rem, k);
        let b = pick(out, rem, k, rem.len());
        lemma_greedy_runs(out.push(rem[b]), rem.remove(b), k);
    }
}

/// Limiting the runs rearranges the entries: same length, same multiset.
pub proof fn lemma_limit_runs_permutes<T>(s: Seq<T>, k: nat)
    ensures
        limit_runs(s, k).to_multiset() == s.to_multiset(),
        limit_runs(s, k).len() == s.len(),
{
    lemma_greedy_permutes(Seq::<T>::empty(), s, k);
    assert(Seq::<T>::empty().to_multiset().add(s.to_multiset()) =~= s.to_multiset());
}

/// Whenever the entries can be arranged with no run longer than `k > 0`, limiting the
/// runs gives such an arrangement.
pub proof fn law_limit_runs<T>(s: Seq<T>, k: nat)
    requires
        k >= 1,
        arrangeable(s, k),
    ensures
        runs_within(limit_runs(s, k), k),
        limit_runs(s, k).to_multiset() == s.to_multiset(),
{
    lemma_limit_runs_permutes(s, k);
    if !runs_within(s, k) {
        lemma_arrangeable_counts(s, k);
        lemma_greedy_runs(Seq::<T>::empty(), s, k);
    }
}

/// Where the runs cannot be limited to `k` by any arrangement, the schedule is left as it
/// is.
pub proof fn law_limit_runs_keeps_unarrangeable<T>(s: Seq<T>, k: nat)
    requires
        !arrangeable(s, k),
    ensures
        limit_runs(s, k) == s,
{
    if !(k == 0 || runs_within(s, k) || !greedy_inv(Seq::<T>::empty(), s, k)) {
        let g = greedy(Seq::<T>::empty(), s, k);
        lemma_greedy_runs(Seq::<T>::empty(), s, k);
        lemma_greedy_permutes(Seq::<T>::empty(), s, k);
        assert(Seq::<T>::empty().to_multiset().add(s.to_multiset()) =~= s.to_multiset());
        assert(g.to_multiset() == s.to_multiset() && runs_within(g, k));
        assert(arrangeable(s, k));
    }
}

/// Rearranging keeps what can be arranged.
pub proof fn lemma_arrangeable_permutation<T>(s: Seq<T>, t: Seq<T>, k: nat)
    requires
        s.to_multiset() == t.to_multiset(),
        arrangeable(s, k),
    ensures
        arrangeable(t, k),
{
    let p = choose|p: Seq<T>| p.to_multiset() == s.to_multiset() && runs_within(p, k);
    assert(p.to_multiset() == t.to_multiset() && runs_within(p, k));
}

/// Whether `same` decides equality of its two arguments.
pub open spec fn decides_eq<T, F: Fn(T, T) -> bool>(same: F) -> bool {
    &&& forall|a: T, b: T| #[trigger] same.requires((a, b))
    &&& forall|a: T, b: T, o: bool| #[trigger] same.ensures((a, b), o) ==> o == (a == b)
}

/// Whether no run of `s` is longer than `k`.
fn has_runs_within<T: Copy, F: Fn(T, T) -> bool>(s: &Vec<T>, k: usize, same: &F) -> (r: bool)
    requires
        decides_eq(*same),
    ensures
        r == runs_within(s@, k as nat),
{
    let mut ok = true;
    let mut t: usize = 0;
    let mut i: usize = 0;
    while i < s.len()
        invariant
            decides_eq(*same),
            i <= s@.len(),
            t == trail(s@.subrange(0, i as int)),
            t <= i,
            ok == runs_within(s@.subrange(0, i as int), k as nat),
        decreases s@.len() - i,
    {
        proof {
            lemma_trail_push(s@.subrange(0, i as int), s@[i as int]);
            assert(s@.subrange(0, i as int).push(s@[i as int]) =~= s@.subrange(0, i + 1));
        }
        if i > 0 && same(s[i - 1], s[i]) {
            t = t + 1;
        } else {
            t = 1;
        }
        ok = ok && t <= k;
        i += 1;
    }
    proof {
        assert(s@.subrange(0, i as int) =~= s@);
    }
    ok
}

/// The copies of `x` in `v`.
fn count_of<T: Copy, F: Fn(T, T) -> bool>(v: &Vec<T>, x: T, same: &F) -> (r: usize)
    requires
        decides_eq(*same),
    ensures
        r == v@.to_multiset().count(x),
{
    let mut c: usize = 0;
    let mut i: usize = 0;
    while i < v.len()
        invariant
            decides_eq(*same),
            i <= v@.len(),
            c == v@.subrange(0, i as int).to_multiset().count(x),
            c <= i,
        decreases v@.len() - i,
    {
        assert(v@.subrange(0, i as int).push(v@[i as int]) =~= v@.subrange(0, i + 1));
        if same(v[i], x) {
            c = c + 1;
        }
        i += 1;
    }
    assert(v@.subrange(0, i as int) =~= v@);
    c
}

/// Whether no value of `s` has more copies than an arrangement with runs of at most `k`
/// can hold: `count <= k * (len - count + 1)` for each.
fn counts_allow<T: Copy, F: Fn(T, T) -> bool>(s: &Vec<T>, k: usize, same: &F) -> (r: bool)
    requires
        decides_eq(*same),
    ensures
        r == greedy_inv(Seq::<T>::empty(), s@, k as nat),
{
    let n = s.len();
    let mut i: usize = 0;
    while i < n
        invariant
            decides_eq(*same),
            n == s@.len(),
            i <= n,
            forall|j: int|
                0 <= j < i ==> #[trigger] s@.to_multiset().count(s@[j]) <= k * (n - s@.to_multiset().count(s@[j])) + k,
        decreases n - i,
    {
        let c = count_of(s, s[i], same);
        assert(c <= n) by {
            vstd::seq_lib::to_multiset_len(s@);
            assert(s@.to_multiset().count(s@[i as int]) <= s@.to_multiset().len());
        }
        let room: u128 = (n - c) as u128 + 1;
        assert((k as u128) * room <= u128::MAX) by (nonlinear_arith)
            requires
                k <= u64::MAX,
                room <= u64::MAX + 1,
        ;
        if (c as u128) > (k as u128) * room {
            proof {
                assert(k * (n - c) + k == k * room) by (nonlinear_arith)
                    requires
                        room == n - c + 1,
                ;
                assert(tail_of(Seq::<T>::empty(), s@[i as int]) == 0);
                assert(!greedy_inv(Seq::<T>::empty(), s@, k as nat));
            }
            return false;
        }
        proof {
            assert(k * (n - c) + k == k * room) by (nonlinear_arith)
                requires
                    room == n - c + 1,
            ;
        }
        i += 1;
    }
    proof {
        assert forall|w: T| #[trigger] s@.to_multiset().count(w) <= k * (s@.len() - s@.to_multiset().count(w)) + k - tail_of(
            Seq::<T>::empty(),
            w,
        ) by {
            let c = s@.to_multiset().count(w);
            if c > 0 {
                assert(s@.contains(w));
                let j = choose|j: int| 0 <= j < s@.len() && s@[j] == w;
                assert(s@.to_multiset().count(s@[j]) <= k * (n - s@.to_multiset().count(s@[j])) + k);
            } else {
                assert(0 <= k * (n - c) + k) by (nonlinear_arith)
                    requires
                        c == 0,
                ;
            }
        }
    }
    true
}

/// The position `pick` gives among all entries of `rem`, or `None` when it gives -1.
fn pick_position<T: Copy, F: Fn(T, T) -> bool>(out: &Vec<T>, t: usize, rem: &Vec<T>, k: usize, same: &F) -> (r: Option<usize>)
    requires
        decides_eq(*same),
        t == trail(out@),
    ensures
        match r {
            Some(b) => b as int == pick(out@, rem@, k as nat, rem@.len()),
            None => pick(out@, rem@, k as nat, rem@.len()) == -1,
        },
{
    let mut best: Option<usize> = None;
    let mut best_count: usize = 0;
    let mut j: usize = 0;
    while j < rem.len()
        invariant
            decides_eq(*same),
            t == trail(out@),
            j <= rem@.len(),
            match best {
                Some(b) => b as int == pick(out@, rem@, k as nat, j as nat) && b < rem@.len()
                    && best_count == rem@.to_multiset().count(rem@[b as int]),
                None => pick(out@, rem@, k as nat, j as nat) == -1,
            },
        decreases rem@.len() - j,
    {
        proof {
            lemma_pick(out@, rem@, k as nat, j as nat);
        }
        let x = rem[j];
        let blocked = out.len() > 0 && same(out[out.len() - 1], x) && t >= k;
        if !blocked {
            let c = count_of(rem, x, same);
            match best {
                Some(_) => {
                    if c > best_count {
                        best = Some(j);
                        best_count = c;
                    }
                },
                None => {
                    best = Some(j);
                    best_count = c;
                },
            }
        }
        j += 1;
    }
    best
}

/// Limits the runs of `s` to `k`: returns `s` when the limit is zero or already met, and
/// the greedy arrangement of its entries otherwise.
pub fn limit_runs_vec<T: Copy, F: Fn(T, T) -> bool>(s: Vec<T>, k: usize, same: &F) -> (r: Vec<T>)
    requires
        decides_eq(*same),
    ensures
        r@ == limit_runs(s@, k as nat),
{
    if k == 0 || has_runs_within(&s, k, same) || !counts_allow(&s, k, same) {
        return s;
    }
    let ghost s0 = s@;
    assert(s0.len() == s.len());
    let mut out: Vec<T> = Vec::new();
    let mut rem = s;
    let mut t: usize = 0;
    while rem.len() > 0
        invariant
            decides_eq(*same),
            t == trail(out@),
            t <= out@.len(),
            out@.len() + rem@.len() == s0.len(),
            s0.len() <= usize::MAX,
            greedy(out@, rem@, k as nat) == greedy(Seq::<T>::empty(), s0, k as nat),
        decreases rem@.len(),
    {
        let chosen = pick_position(&out, t, &rem, k, same);
        proof {
            lemma_pick(out@, rem@, k as nat, rem@.len());
        }
        let i = match chosen {
            Some(b) => b,
            None => 0,
        };
        let x = rem.remove(i);
        proof {
            lemma_trail_push(out@, x);
        }
        if out.len() > 0 && same(out[out.len() - 1], x) {
            t = t + 1;
        } else {
            t = 1;
        }
        out.push(x);
    }
    proof {
        assert(greedy(out@, rem@, k as nat) == out@);
    }
    out
}

} // verus!
