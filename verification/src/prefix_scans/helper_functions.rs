use vstd::prelude::*;

use crate::{inclusive_scan, wadd, wsum};

verus! {

/// The start of chunk `i` when `len` elements are divided into `k` chunks:
/// the first `len % k` chunks are one element larger than the rest.
pub open spec fn chunk_offset(len: int, k: int, i: int) -> int
    decreases i,
{
    if i <= 0 {
        0
    } else {
        chunk_offset(len, k, i - 1) + len / k + if i - 1 < len % k {
            1int
        } else {
            0int
        }
    }
}

/// The closed form of `chunk_offset`.
pub proof fn lemma_chunk_offset_closed(len: int, k: int, i: int)
    requires
        k >= 1,
        len >= 0,
        0 <= i,
    ensures
        chunk_offset(len, k, i) == i * (len / k) + if i <= len % k {
            i
        } else {
            len % k
        },
    decreases i,
{
    vstd::arithmetic::div_mod::lemma_mod_bound(len, k);
    if i == 0 {
        assert(0 * (len / k) == 0) by (nonlinear_arith);
    } else {
        lemma_chunk_offset_closed(len, k, i - 1);
        assert(i * (len / k) == (i - 1) * (len / k) + len / k) by (nonlinear_arith);
    }
}

/// Every chunk start lies within `[0, len]`, and the last one is `len`.
pub proof fn lemma_chunk_offset_bounds(len: int, k: int, i: int)
    requires
        k >= 1,
        len >= 0,
        0 <= i <= k,
    ensures
        0 <= chunk_offset(len, k, i) <= len,
        i == k ==> chunk_offset(len, k, i) == len,
{
    lemma_chunk_offset_closed(len, k, i);
    vstd::arithmetic::div_mod::lemma_fundamental_div_mod(len, k);
    vstd::arithmetic::div_mod::lemma_mod_bound(len, k);
    vstd::arithmetic::div_mod::lemma_div_pos_is_pos(len, k);
    assert(i * (len / k) <= k * (len / k)) by (nonlinear_arith)
        requires
            0 <= i <= k,
            len / k >= 0,
    ;
    assert(i * (len / k) >= 0) by (nonlinear_arith)
        requires
            i >= 0,
            len / k >= 0,
    ;
}

/// Splits `[0, len)` into `num_chunks` pieces: the result holds the
/// `num_chunks + 1` boundaries, starting at 0 and ending at `len`.  The
/// first `len % num_chunks` pieces get one element more than the others, so
/// the pieces cover everything with no gap and differ in size by at most
/// one.  The boundaries are strictly increasing whenever `len` is at least
/// `num_chunks`.
pub fn chunk_ranges(len: usize, num_chunks: usize) -> (r: Vec<usize>)
    requires
        num_chunks >= 1,
    ensures
        r@.len() == num_chunks + 1,
        forall|i: int|
            0 <= i <= num_chunks ==> #[trigger] r@[i] == chunk_offset(
                len as int,
                num_chunks as int,
                i,
            ),
        r@[0] == 0,
        r@[num_chunks as int] == len,
        forall|i: int| 0 <= i < num_chunks ==> #[trigger] r@[i] <= r@[i + 1],
        len >= num_chunks ==> forall|i: int| 0 <= i < num_chunks ==> #[trigger] r@[i] < r@[i + 1],
    decreases len,
{
    let chunk_size = len / num_chunks;
    let stragglers = len % num_chunks;
    let mut r: Vec<usize> = Vec::new();
    r.push(0);
    let mut i: usize = 0;
    while i < num_chunks
        invariant
            num_chunks >= 1,
            chunk_size == len as int / num_chunks as int,
            stragglers == len as int % num_chunks as int,
            i <= num_chunks,
            r@.len() == i + 1,
            forall|j: int|
                0 <= j <= i ==> #[trigger] r@[j] == chunk_offset(len as int, num_chunks as int, j),
        decreases num_chunks - i,
    {
        proof {
            lemma_chunk_offset_bounds(len as int, num_chunks as int, i as int);
            lemma_chunk_offset_bounds(len as int, num_chunks as int, i + 1);
        }
        let base = r[i] + chunk_size;
        let next = if i < stragglers {
            base + 1
        } else {
            base
        };
        r.push(next);
        i += 1;
    }
    proof {
        assert forall|j: int| 0 <= j < num_chunks implies #[trigger] r@[j] <= r@[j + 1] by {
            vstd::arithmetic::div_mod::lemma_div_pos_is_pos(len as int, num_chunks as int);
        }
        lemma_chunk_offset_bounds(len as int, num_chunks as int, num_chunks as int);
        if len >= num_chunks {
            assert forall|j: int| 0 <= j < num_chunks implies #[trigger] r@[j] < r@[j + 1] by {
                vstd::arithmetic::div_mod::lemma_div_non_zero(len as int, num_chunks as int);
            }
        }
    }
    r
}

/// In-place inclusive running sum by a plain scalar loop.
pub fn prefix_scan_no_simd(data: &mut Vec<u64>)
    ensures
        final(data)@ == inclusive_scan(old(data)@),
{
    let ghost orig = data@;
    proof {
        if orig.len() > 0 {
            assert(orig.take(1).drop_last() =~= Seq::<u64>::empty());
            assert(orig.take(1).last() == orig[0]);
            assert(wsum(Seq::<u64>::empty()) == 0);
            assert(wsum(orig.take(1)) == orig[0]);
        }
    }
    let mut i: usize = 1;
    while i < data.len()
        invariant
            1 <= i,
            orig.len() > 0 ==> data@[0] == wsum(orig.take(1)),
            data@.len() == orig.len(),
            forall|j: int| 0 <= j < i && j < orig.len() ==> data@[j] == wsum(orig.take(j + 1)),
            forall|j: int| i <= j < orig.len() ==> data@[j] == orig[j],
        decreases data@.len() - i,
    {
        proof {
            assert(orig.take(i as int).push(orig[i as int]) =~= orig.take(i + 1));
            crate::lemma_wsum_snoc(orig.take(i as int), orig[i as int]);
        }
        let v = data[i - 1].wrapping_add(data[i]);
        data[i] = v;
        i += 1;
    }
    proof {
        if orig.len() > 0 {
            assert(orig.take(1).drop_last() =~= Seq::<u64>::empty());
        }
        assert(data@ =~= inclusive_scan(orig));
    }
}

/// The local-scan kernel: an in-place inclusive running sum over one
/// contiguous span.  This is the replaceable single-core collaborator of the
/// scan engine; this build keeps a carry in a scalar accumulator the way a
/// vectorized kernel keeps it in a register, and the contract is all the
/// engine relies on.
pub fn prefix_scan_simd(data: &mut Vec<u64>)
    ensures
        final(data)@ == inclusive_scan(old(data)@),
{
    let ghost orig = data@;
    let mut acc: u64 = 0;
    let mut i: usize = 0;
    while i < data.len()
        invariant
            data@.len() == orig.len(),
            i <= orig.len(),
            acc == wsum(orig.take(i as int)),
            forall|j: int| 0 <= j < i ==> data@[j] == wsum(orig.take(j + 1)),
            forall|j: int| i <= j < orig.len() ==> data@[j] == orig[j],
        decreases data@.len() - i,
    {
        proof {
            assert(orig.take(i as int).push(orig[i as int]) =~= orig.take(i + 1));
            crate::lemma_wsum_snoc(orig.take(i as int), orig[i as int]);
        }
        acc = acc.wrapping_add(data[i]);
        data[i] = acc;
        i += 1;
    }
    proof {
        assert(data@ =~= inclusive_scan(orig));
    }
}

/// The wrapping sum of `data[from..to]`.
pub fn quicksum_range(data: &Vec<u64>, from: usize, to: usize) -> (r: u64)
    requires
        from <= to <= data@.len(),
    ensures
        r == wsum(data@.subrange(from as int, to as int)),
{
    let mut acc: u64 = 0;
    let mut i: usize = from;
    while i < to
        invariant
            from <= i <= to <= data@.len(),
            acc == wsum(data@.subrange(from as int, i as int)),
        decreases to - i,
    {
        proof {
            assert(data@.subrange(from as int, i as int).push(data@[i as int]) =~= data@.subrange(
                from as int,
                i + 1,
            ));
            crate::lemma_wsum_snoc(data@.subrange(from as int, i as int), data@[i as int]);
        }
        acc = acc.wrapping_add(data[i]);
        i += 1;
    }
    acc
}

/// The reduction kernel: the wrapping sum of the whole span, the other
/// replaceable single-core collaborator.
pub fn quicksum_simd(data: &Vec<u64>) -> (r: u64)
    ensures
        r == wsum(data@),
{
    let r = quicksum_range(data, 0, data.len());
    proof {
        assert(data@.subrange(0, data@.len() as int) =~= data@);
    }
    r
}

/// Adds `value` to every element of the span in place.
pub fn add_to_all_simd(value: u64, data: &mut Vec<u64>)
    ensures
        final(data)@.len() == old(data)@.len(),
        forall|j: int| 0 <= j < old(data)@.len() ==> final(data)@[j] == wadd(value, old(data)@[j]),
{
    let mut i: usize = 0;
    while i < data.len()
        invariant
            data@.len() == old(data)@.len(),
            i <= data@.len(),
            forall|j: int| 0 <= j < i ==> data@[j] == wadd(value, old(data)@[j]),
            forall|j: int| i <= j < data@.len() ==> data@[j] == old(data)@[j],
        decreases data@.len() - i,
    {
        let v = value.wrapping_add(data[i]);
        data[i] = v;
        i += 1;
    }
}

} // verus!
