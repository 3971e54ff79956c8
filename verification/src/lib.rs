pub mod prefix_scans;
pub mod segmented_scan;
pub mod split_vector;
pub mod util;

use vstd::prelude::*;

verus! {

/// The value `(a + b) mod 2^64`: all combining in this crate uses wrapping
/// addition, so every contract is stated over this operator.
pub open spec fn wadd(a: u64, b: u64) -> u64 {
    if a + b > u64::MAX {
        (a + b - 0x1_0000_0000_0000_0000) as u64
    } else {
        (a + b) as u64
    }
}

/// The value `(a - b) mod 2^64`: the inverse of `wadd`, used to strip a
/// prefix sum back off a running total.
pub open spec fn wsub(a: u64, b: u64) -> u64 {
    if a - b < 0 {
        (a - b + 0x1_0000_0000_0000_0000) as u64
    } else {
        (a - b) as u64
    }
}

/// Subtracting a prefix from the combined total leaves the suffix.
pub proof fn lemma_wsub_cancels(b: u64, y: u64)
    ensures
        wsub(wadd(b, y), b) == y,
{
}

/// Wrapping sum of a whole sequence, folded from the left.
pub open spec fn wsum(s: Seq<u64>) -> u64
    decreases s.len(),
{
    if s.len() == 0 {
        0u64
    } else {
        wadd(wsum(s.drop_last()), s.last())
    }
}

/// The inclusive running sum: element `i` is the sum of elements `0..=i`.
pub open spec fn inclusive_scan(s: Seq<u64>) -> Seq<u64> {
    Seq::new(s.len(), |i: int| wsum(s.take(i + 1)))
}

/// The exclusive running sum: element `i` is the sum of elements `0..i`, so
/// element 0 is the identity.
pub open spec fn exclusive_scan(s: Seq<u64>) -> Seq<u64> {
    Seq::new(s.len(), |i: int| wsum(s.take(i)))
}

pub proof fn lemma_wadd_comm(a: u64, b: u64)
    ensures
        wadd(a, b) == wadd(b, a),
{
}

pub proof fn lemma_wadd_assoc(a: u64, b: u64, c: u64)
    ensures
        wadd(wadd(a, b), c) == wadd(a, wadd(b, c)),
{
}

pub proof fn lemma_wadd_zero(a: u64)
    ensures
        wadd(0, a) == a,
        wadd(a, 0) == a,
{
}

/// Appending one element adds it to the sum.
pub proof fn lemma_wsum_snoc(s: Seq<u64>, x: u64)
    ensures
        wsum(s.push(x)) == wadd(wsum(s), x),
{
    assert(s.push(x).drop_last() =~= s);
}

/// The sum of a concatenation is the sum of the two parts' sums.
pub proof fn lemma_wsum_concat(a: Seq<u64>, b: Seq<u64>)
    ensures
        wsum(a + b) == wadd(wsum(a), wsum(b)),
    decreases b.len(),
{
    if b.len() == 0 {
        assert(a + b =~= a);
    } else {
        lemma_wsum_concat(a, b.drop_last());
        assert((a + b).drop_last() =~= a + b.drop_last());
        lemma_wadd_assoc(wsum(a), wsum(b.drop_last()), b.last());
    }
}

/// Splitting a sub-sum at an interior point.
pub proof fn lemma_wsum_split(s: Seq<u64>, a: int, m: int, b: int)
    requires
        0 <= a <= m <= b <= s.len(),
    ensures
        wsum(s.subrange(a, b)) == wadd(wsum(s.subrange(a, m)), wsum(s.subrange(m, b))),
{
    assert(s.subrange(a, b) =~= s.subrange(a, m) + s.subrange(m, b));
    lemma_wsum_concat(s.subrange(a, m), s.subrange(m, b));
}

pub proof fn lemma_wsum_singleton(s: Seq<u64>, i: int)
    requires
        0 <= i < s.len(),
    ensures
        wsum(s.subrange(i, i + 1)) == s[i],
{
    let single = s.subrange(i, i + 1);
    assert(single.drop_last() =~= Seq::<u64>::empty());
    assert(single.last() == s[i]);
    assert(wsum(single) == wadd(wsum(Seq::<u64>::empty()), s[i]));
}

/// Folding a seed into the first element seeds the whole running sum.
pub proof fn lemma_wsum_seeded(s: Seq<u64>, seed: u64, j: int)
    requires
        1 <= j <= s.len(),
    ensures
        wsum(s.update(0, wadd(seed, s[0])).take(j)) == wadd(seed, wsum(s.take(j))),
    decreases j,
{
    let seeded = s.update(0, wadd(seed, s[0]));
    if j == 1 {
        assert(seeded.take(1).drop_last() =~= Seq::<u64>::empty());
        assert(s.take(1).drop_last() =~= Seq::<u64>::empty());
        assert(wsum(Seq::<u64>::empty()) == 0);
        assert(seeded.take(1).last() == wadd(seed, s[0]));
        assert(s.take(1).last() == s[0]);
        assert(wsum(seeded.take(1)) == wadd(0, wadd(seed, s[0])));
        assert(wsum(s.take(1)) == wadd(0, s[0]));
    } else {
        lemma_wsum_seeded(s, seed, j - 1);
        assert(seeded.take(j).drop_last() =~= seeded.take(j - 1));
        assert(s.take(j).drop_last() =~= s.take(j - 1));
        assert(seeded.take(j).last() == s[j - 1]);
        assert(s.take(j).last() == s[j - 1]);
        lemma_wadd_assoc(seed, wsum(s.take(j - 1)), s[j - 1]);
    }
}

/// The exclusive running sum is the inclusive one shifted right by one
/// position, with the identity in front: for every input, dropping the first
/// element of the exclusive form yields the inclusive form with its last
/// element dropped.
pub proof fn lemma_exclusive_is_shifted_inclusive(s: Seq<u64>)
    ensures
        exclusive_scan(s).len() == s.len(),
        inclusive_scan(s).len() == s.len(),
        s.len() > 0 ==> exclusive_scan(s)[0] == 0,
        forall|i: int| 1 <= i < s.len() ==> exclusive_scan(s)[i] == inclusive_scan(s)[i - 1],
{
    assert(s.len() > 0 ==> s.take(0) =~= Seq::<u64>::empty());
}

} // verus!
