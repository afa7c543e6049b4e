//! Sequence helpers shared by the schedule algorithms: swapping two positions, appending
//! capped runs of copies, and reading little-endian words out of a seed.

use vstd::prelude::*;

verus! {

broadcast use vstd::array::group_array_axioms;

/// `s` with the elements at positions `i` and `j` exchanged.
pub open spec fn swap_spec<A>(s: Seq<A>, i: int, j: int) -> Seq<A> {
    s.update(i, s[j]).update(j, s[i])
}

/// Exchanging two positions keeps the length and the multiset of elements.
pub proof fn lemma_swap_multiset<A>(s: Seq<A>, i: int, j: int)
    requires
        0 <= i < s.len(),
        0 <= j < s.len(),
    ensures
        swap_spec(s, i, j).len() == s.len(),
        swap_spec(s, i, j).to_multiset() == s.to_multiset(),
{
    broadcast use vstd::seq_lib::to_multiset_update;
    broadcast use vstd::multiset::group_multiset_axioms;

    let m = s.to_multiset();
    let s1 = s.update(i, s[j]);
    assert(s1.to_multiset() == m.insert(s[j]).remove(s[i]));
    assert(s1[j] == (if i == j { s[j] } else { s[j] }));
    assert(swap_spec(s, i, j).to_multiset() == s1.to_multiset().insert(s[i]).remove(s1[j]));
    assert(m.insert(s[j]).remove(s[i]).insert(s[i]).remove(s[j]) =~= m) by {
        assert(m.count(s[i]) > 0) by {
            broadcast use vstd::seq_lib::group_to_multiset_ensures;
            assert(s.contains(s[i]));
        }
    }
}

/// Exchanges the elements at positions `i` and `j` of `v`.
pub fn swap_in_vec<A: Copy>(v: &mut Vec<A>, i: usize, j: usize)
    requires
        i < old(v).len(),
        j < old(v).len(),
    ensures
        final(v)@ == swap_spec(old(v)@, i as int, j as int),
{
    let a = v[i];
    let b = v[j];
    v.set(i, b);
    v.set(j, a);
}

/// `k` copies of `v`.
pub open spec fn repeat<A>(k: nat, v: A) -> Seq<A> {
    Seq::new(k, |_i: int| v)
}

/// `s` followed by `c` copies of `v`, cut so that the result is no longer than `cap`
/// (a sequence already at least `cap` long is left as it is).
pub open spec fn push_copies<A>(s: Seq<A>, v: A, c: nat, cap: nat) -> Seq<A> {
    let room: nat = if s.len() < cap { (cap - s.len()) as nat } else { 0 };
    let k: nat = if c < room { c } else { room };
    s + repeat(k, v)
}

/// Appends `c` copies of `x` to `v`, stopping when `v` holds `cap` elements.
pub fn push_copies_in_vec<A: Copy>(v: &mut Vec<A>, x: A, c: u64, cap: usize)
    ensures
        final(v)@ == push_copies(old(v)@, x, c as nat, cap as nat),
{
    let ghost start = v@;
    let mut pushed: u64 = 0;
    while pushed < c && v.len() < cap
        invariant
            pushed <= c,
            v@ == push_copies(start, x, pushed as nat, cap as nat),
        decreases c - pushed,
    {
        v.push(x);
        pushed = pushed + 1;
        assert(v@ =~= push_copies(start, x, pushed as nat, cap as nat));
    }
    assert(v@ =~= push_copies(start, x, c as nat, cap as nat));
}

/// The little-endian `u64` read from the eight bytes of `seed` that start at `off`.
pub open spec fn le_u64_at(seed: Seq<u8>, off: int) -> u64 {
    vstd::bytes::spec_u64_from_le_bytes(seed.subrange(off, off + 8))
}

/// A 32-byte seed whose first eight bytes hold `x` (little-endian), the rest zero.
pub open spec fn seed_with(x: u64) -> Seq<u8> {
    vstd::bytes::spec_u64_to_le_bytes(x) + Seq::new(24, |_i: int| 0u8)
}

/// The seed built from `x` is 32 bytes long and its first word reads back `x`.
pub proof fn lemma_seed_with(x: u64)
    ensures
        seed_with(x).len() == 32,
        le_u64_at(seed_with(x), 0) == x,
{
    vstd::bytes::lemma_auto_spec_u64_to_from_le_bytes();
    assert(seed_with(x).subrange(0, 8) =~= vstd::bytes::spec_u64_to_le_bytes(x));
}

/// Reads the little-endian `u64` stored in `seed[off..off + 8]`.
pub fn read_le_u64(seed: &[u8; 32], off: usize) -> (r: u64)
    requires
        off + 8 <= 32,
    ensures
        r == le_u64_at(seed@, off as int),
{
    let b: [u8; 8] = [
        seed[off],
        seed[off + 1],
        seed[off + 2],
        seed[off + 3],
        seed[off + 4],
        seed[off + 5],
        seed[off + 6],
        seed[off + 7],
    ];
    assert(b@ =~= seed@.subrange(off as int, off + 8));
    vstd::bytes::u64_from_le_bytes(b.as_slice())
}

} // verus!

verus! {

/// Appends the bytes of `bytes` to `v`.
pub fn append_bytes(v: &mut Vec<u8>, bytes: &[u8])
    ensures
        final(v)@ == old(v)@ + bytes@,
{
    let ghost start = v@;
    let mut i: usize = 0;
    while i < bytes.len()
        invariant
            i <= bytes@.len(),
            v@ == start + bytes@.subrange(0, i as int),
        decreases bytes@.len() - i,
    {
        v.push(bytes[i]);
        i += 1;
        assert(v@ =~= start + bytes@.subrange(0, i as int));
    }
    assert(bytes@.subrange(0, i as int) =~= bytes@);
}

} // verus!
