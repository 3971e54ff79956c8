use vstd::prelude::*;

use crate::prefix_scans::helper_functions;
use crate::prefix_scans::{ScanError, Scanner};
use crate::split_vector::{
    concat_chunks, lemma_concat_chunks_tiled, SplitVector, SplitVectorChunk,
};
use crate::util::ranged_vector::{Range, RangedVector};
use crate::util::thread_pool::ThreadId;
use crate::{inclusive_scan, wadd, wsum};

verus! {

/// The value of the first range whose end lies beyond `g`: over contiguous
/// ascending ranges, the carry that applies at position `g`.
pub open spec fn carry_value_at(rs: Seq<Range<u64>>, g: int) -> u64
    decreases rs.len(),
{
    if rs.len() == 0 {
        0u64
    } else if g < rs[0].spec_end() {
        rs[0].spec_value()
    } else {
        carry_value_at(rs.skip(1), g)
    }
}

/// Within one range of a list with ascending ends, the carry at a bracketed
/// position is that range's value.
pub proof fn lemma_carry_value_at_index(rs: Seq<Range<u64>>, i: int, g: int)
    requires
        0 <= i < rs.len(),
        forall|j: int|
            0 <= j < rs.len() - 1 ==> (#[trigger] rs[j]).spec_end() <= rs[j + 1].spec_end(),
        g < rs[i].spec_end(),
        forall|j: int| 0 <= j < i ==> g >= (#[trigger] rs[j]).spec_end(),
    ensures
        carry_value_at(rs, g) == rs[i].spec_value(),
    decreases rs.len(),
{
    if i == 0 {
    } else {
        let rest = rs.skip(1);
        assert(g >= rs[0].spec_end());
        assert forall|j: int| 0 <= j < rest.len() - 1 implies (#[trigger] rest[j]).spec_end()
            <= rest[j + 1].spec_end() by {
            assert(rest[j] == rs[j + 1]);
            assert(rest[j + 1] == rs[j + 2]);
        }
        assert forall|j: int| 0 <= j < i - 1 implies g >= (#[trigger] rest[j]).spec_end() by {
            assert(rest[j] == rs[j + 1]);
        }
        assert(rest[i - 1] == rs[i]);
        lemma_carry_value_at_index(rest, i - 1, g);
    }
}

/// One worker's local phase: seeds the chunk's first element with its carry,
/// then runs the local-scan kernel over the chunk, returning the scanned
/// chunk and its running total.
fn dnc_local_scan_worker(id: ThreadId, msg: (SplitVectorChunk<u64>, bool, u64)) -> (r: (
    SplitVectorChunk<u64>,
    u64,
))
    requires
        msg.0@.len() >= 1,
    ensures
        r.0.spec_start() == msg.0.spec_start(),
        r.0@.len() == msg.0@.len(),
        forall|j: int|
            0 <= j < msg.0@.len() ==> #[trigger] r.0@[j] == wadd(msg.2, wsum(msg.0@.take(j + 1))),
        r.1 == wadd(msg.2, wsum(msg.0@)),
{
    let (chunk, simd, seed) = msg;
    let ghost before = chunk@;
    let start = chunk.start();
    let mut v = chunk.into_vec();
    let seeded_first = seed.wrapping_add(v[0]);
    v[0] = seeded_first;
    proof {
        assert(v@ =~= before.update(0, wadd(seed, before[0])));
    }
    if simd {
        helper_functions::prefix_scan_simd(&mut v);
    } else {
        helper_functions::prefix_scan_no_simd(&mut v);
    }
    proof {
        assert forall|j: int| 0 <= j < before.len() implies #[trigger] v@[j] == wadd(
            seed,
            wsum(before.take(j + 1)),
        ) by {
            crate::lemma_wsum_seeded(before, seed, j + 1);
        }
        assert(before.take(before.len() as int) =~= before);
    }
    let total = v[v.len() - 1];
    let r = SplitVectorChunk::from_vec(v, start);
    (r, total)
}

/// One worker's distribution phase: adds to every element of its span the
/// carry of the first-phase sub-range that the element falls in, looked up
/// through the range index.
#[verifier::rlimit(100)]
fn dnc_distribute_worker(id: ThreadId, msg: (SplitVectorChunk<u64>, usize, &RangedVector<u64>)) -> (r:
    SplitVectorChunk<u64>)
    requires
        msg.2@.len() >= 1,
        forall|j: int|
            0 <= j < msg.2@.len() - 1 ==> (#[trigger] msg.2@[j]).spec_end() == msg.2@[
                j + 1
            ].spec_start(),
        forall|j: int|
            0 <= j < msg.2@.len() ==> (#[trigger] msg.2@[j]).spec_start() < msg.2@[j].spec_end(),
        forall|j: int|
            0 <= j < msg.2@.len() ==> (#[trigger] msg.2@[j]).spec_index_of() == j,
        msg.2@[0].spec_start() <= msg.1,
        msg.1 + msg.0@.len() <= msg.2@.last().spec_end(),
    ensures
        r.spec_start() == msg.0.spec_start(),
        r@.len() == msg.0@.len(),
        forall|j: int|
            0 <= j < msg.0@.len() ==> #[trigger] r@[j] == wadd(
                carry_value_at(msg.2@, msg.1 + j),
                msg.0@[j],
            ),
{
    let (chunk, chunk_start, carries) = msg;
    let mut chunk = chunk;
    let ghost rs = carries@;
    let ghost before = chunk@;
    if chunk.len() == 0 {
        return chunk;
    }
    let found = carries.get(chunk_start);
    let mut cur: &Range<u64> = match found {
        Some(rg) => rg,
        None => {
            proof {
                assert(chunk_start < rs.last().spec_end());
                assert(false);
            }
            return chunk;
        },
    };
    let ghost mut cur_i: int = choose|i: int|
        0 <= i < rs.len() && *cur == rs[i] && chunk_start < (#[trigger] rs[i]).spec_end() && (
        forall|j: int| 0 <= j < i ==> chunk_start >= (#[trigger] rs[j]).spec_end());
    let mut j: usize = 0;
    let ghost clen = chunk@.len();
    while j < chunk.len()
        invariant
            clen == chunk@.len(),
            before.len() == clen,
            j <= clen,
            chunk.spec_start() == msg.0.spec_start(),
            rs == carries@,
            rs.len() >= 1,
            chunk_start == msg.1,
            forall|x: int|
                0 <= x < rs.len() - 1 ==> (#[trigger] rs[x]).spec_end() == rs[x + 1].spec_start(),
            forall|x: int|
                0 <= x < rs.len() ==> (#[trigger] rs[x]).spec_start() < rs[x].spec_end(),
            forall|x: int| 0 <= x < rs.len() ==> (#[trigger] rs[x]).spec_index_of() == x,
            chunk_start + clen <= rs.last().spec_end(),
            0 <= cur_i < rs.len(),
            *cur == rs[cur_i],
            j < clen ==> chunk_start + j < rs[cur_i].spec_end(),
            forall|x: int| 0 <= x < cur_i ==> chunk_start + j >= (#[trigger] rs[x]).spec_end(),
            forall|x: int| j <= x < clen ==> #[trigger] chunk@[x] == before[x],
            forall|x: int|
                0 <= x < j ==> #[trigger] chunk@[x] == wadd(
                    carry_value_at(rs, chunk_start + x),
                    before[x],
                ),
        decreases clen - j,
    {
        proof {
            lemma_carry_value_at_index(rs, cur_i, chunk_start + j);
        }
        let v = cur.value().wrapping_add(*chunk.get(j));
        chunk.set(j, v);
        j += 1;
        if j < chunk.len() && chunk_start + j >= cur.end() {
            let next = match carries.next_range(cur) {
                Some(rg) => rg,
                None => {
                    proof {
                        assert(cur_i == rs.len() - 1 ==> chunk_start + j < rs[cur_i].spec_end());
                        assert(false);
                    }
                    return chunk;
                },
            };
            cur = next;
            proof {
                cur_i = cur_i + 1;
            }
        }
    }
    chunk
}

/// Folds a list of per-range totals into per-range carries: carry `i` is the
/// seed combined with the totals of all earlier ranges.
fn accumulate_carries(totals: &Vec<u64>, k: usize, seed: u64) -> (r: Vec<u64>)
    requires
        1 <= k <= totals@.len(),
    ensures
        r@.len() == k,
        forall|i: int| 0 <= i < k ==> #[trigger] r@[i] == wadd(seed, wsum(totals@.take(i))),
{
    let mut r: Vec<u64> = Vec::new();
    r.push(seed);
    proof {
        assert(totals@.take(0) =~= Seq::<u64>::empty());
        assert(wsum(Seq::<u64>::empty()) == 0);
        crate::lemma_wadd_zero(seed);
    }
    let mut i: usize = 1;
    while i < k
        invariant
            1 <= i <= k,
            k <= totals@.len(),
            r@.len() == i,
            forall|j: int| 0 <= j < i ==> #[trigger] r@[j] == wadd(seed, wsum(totals@.take(j))),
        decreases k - i,
    {
        proof {
            assert(totals@.take(i as int).drop_last() =~= totals@.take(i - 1));
            crate::lemma_wsum_snoc(totals@.take(i - 1), totals@[i - 1]);
            assert(totals@.take(i - 1).push(totals@[i - 1]) =~= totals@.take(i as int));
            crate::lemma_wadd_assoc(seed, wsum(totals@.take(i - 1)), totals@[i - 1]);
        }
        let v = r[i - 1].wrapping_add(totals[i - 1]);
        r.push(v);
        i += 1;
    }
    r
}


/// One worker's share of the parallel reduction: the wrapping sum of its
/// assigned sub-range, or the identity for a worker with no range.
pub(crate) fn dnc_total_worker(id: ThreadId, msg: &(&Vec<u64>, &Vec<usize>)) -> (r: u64)
    requires
        msg.1@.len() >= 1,
        forall|j: int| 0 <= j < msg.1@.len() - 1 ==> #[trigger] msg.1@[j] <= msg.1@[j + 1],
        forall|j: int| 0 <= j < msg.1@.len() ==> #[trigger] msg.1@[j] <= msg.0@.len(),
    ensures
        r == if id.0 + 1 < msg.1@.len() {
            wsum(msg.0@.subrange(msg.1@[id.0 as int] as int, msg.1@[id.0 as int + 1] as int))
        } else {
            0u64
        },
{
    let (data, ranges) = msg;
    if id.0 < ranges.len() - 1 {
        helper_functions::quicksum_range(data, ranges[id.0], ranges[id.0 + 1])
    } else {
        0
    }
}

/// Folding per-range totals from the left gives the running sum up to each
/// range boundary, with the first total carrying the seed.
proof fn lemma_seeded_totals_fold(
    totals: Seq<u64>,
    block: Seq<u64>,
    points: Seq<usize>,
    carry_in: u64,
    i: int,
)
    requires
        1 <= i <= totals.len(),
        totals.len() < points.len(),
        forall|x: int| 0 <= x < points.len() ==> 0 <= #[trigger] points[x] <= block.len(),
        totals[0] == wadd(carry_in, wsum(block.subrange(points[0] as int, points[1] as int))),
        forall|x: int|
            1 <= x < totals.len() ==> #[trigger] totals[x] == wsum(
                block.subrange(points[x] as int, points[x + 1] as int),
            ),
        forall|x: int| 0 <= x < points.len() - 1 ==> #[trigger] points[x] <= points[x + 1],
    ensures
        wsum(totals.take(i)) == wadd(
            carry_in,
            wsum(block.subrange(points[0] as int, points[i] as int)),
        ),
    decreases i,
{
    if i == 1 {
        assert(totals.take(1).drop_last() =~= Seq::<u64>::empty());
        assert(wsum(Seq::<u64>::empty()) == 0);
        assert(totals.take(1).last() == totals[0]);
        assert(wsum(totals.take(1)) == wadd(0, totals[0]));
        crate::lemma_wadd_zero(totals[0]);
    } else {
        lemma_seeded_totals_fold(totals, block, points, carry_in, i - 1);
        assert(totals.take(i).drop_last() =~= totals.take(i - 1));
        assert(totals.take(i).last() == totals[i - 1]);
        lemma_points_ascend(points, 0, i - 1);
        crate::lemma_wsum_split(
            block,
            points[0] as int,
            points[i - 1] as int,
            points[i] as int,
        );
        crate::lemma_wadd_assoc(
            carry_in,
            wsum(block.subrange(points[0] as int, points[i - 1] as int)),
            wsum(block.subrange(points[i - 1] as int, points[i] as int)),
        );
    }
}

/// Monotonicity across a span of boundaries.
proof fn lemma_points_ascend(points: Seq<usize>, a: int, b: int)
    requires
        forall|j: int| 0 <= j < points.len() - 1 ==> #[trigger] points[j] <= points[j + 1],
        0 <= a <= b < points.len(),
    ensures
        points[a] <= points[b],
    decreases b - a,
{
    if a < b {
        lemma_points_ascend(points, a, b - 1);
    }
}

/// A range's carry combined with its local running sum gives the seeded
/// running sum of the whole block prefix.
proof fn lemma_carry_plus_local(block: Seq<u64>, carry_in: u64, s: int, a: int, g: int)
    requires
        0 <= s <= a <= g < block.len(),
    ensures
        wadd(wadd(carry_in, wsum(block.subrange(s, a))), wsum(block.subrange(a, g + 1))) == wadd(
            carry_in,
            wsum(block.subrange(s, g + 1)),
        ),
{
    crate::lemma_wsum_split(block, s, a, g + 1);
    crate::lemma_wadd_assoc(carry_in, wsum(block.subrange(s, a)), wsum(block.subrange(a, g + 1)));
}

/// The second boundary of a partition.
fn points_second(abs: &Vec<usize>) -> (r: usize)
    requires
        abs@.len() >= 2,
    ensures
        r == abs@[1],
{
    abs[1]
}

/// The boundaries shifted by a block's start offset.
fn offset_points(points: &Vec<usize>, base: usize, bound: usize) -> (r: Vec<usize>)
    requires
        forall|j: int| 0 <= j < points@.len() ==> #[trigger] points@[j] <= bound,
        base + bound <= usize::MAX,
    ensures
        r@.len() == points@.len(),
        forall|j: int| 0 <= j < points@.len() ==> #[trigger] r@[j] == points@[j] + base,
{
    let mut r: Vec<usize> = Vec::new();
    let mut t: usize = 0;
    while t < points.len()
        invariant
            t <= points@.len(),
            r@.len() == t,
            forall|j: int| 0 <= j < t ==> #[trigger] r@[j] == points@[j] + base,
            forall|j: int| 0 <= j < points@.len() ==> #[trigger] points@[j] <= bound,
            base + bound <= usize::MAX,
        decreases points@.len() - t,
    {
        r.push(points[t] + base);
        t += 1;
    }
    r
}

/// Separates gathered (chunk, total) results into the chunks and the totals.
fn unzip_results(results: Vec<(SplitVectorChunk<u64>, u64)>) -> (r: (
    Vec<SplitVectorChunk<u64>>,
    Vec<u64>,
))
    ensures
        r.0@.len() == results@.len(),
        r.1@.len() == results@.len(),
        forall|j: int| 0 <= j < results@.len() ==> #[trigger] r.0@[j] == results@[j].0,
        forall|j: int| 0 <= j < results@.len() ==> #[trigger] r.1@[j] == results@[j].1,
{
    let ghost res0 = results@;
    let mut results = results;
    let mut chunks: Vec<SplitVectorChunk<u64>> = Vec::new();
    let mut totals: Vec<u64> = Vec::new();
    let count = results.len();
    let mut c: usize = 0;
    while c < count
        invariant
            count == res0.len(),
            c + results@.len() == count,
            results@ == res0.subrange(c as int, count as int),
            chunks@.len() == c,
            totals@.len() == c,
            forall|j: int| 0 <= j < c ==> #[trigger] chunks@[j] == res0[j].0,
            forall|j: int| 0 <= j < c ==> #[trigger] totals@[j] == res0[j].1,
        decreases count - c,
    {
        let pair = results.remove(0);
        chunks.push(pair.0);
        totals.push(pair.1);
        c += 1;
    }
    (chunks, totals)
}

impl Scanner {
    /// The reduction pass of the pre-scatter ordering: computes every
    /// sub-range's total in parallel and folds them into per-sub-range
    /// carries, each the seed combined with everything before that
    /// sub-range.  Never fails.
    fn dnc_pre_carries(&self, vec: &Vec<u64>, abs: &Vec<usize>, k: usize, carry_in: u64) -> (r:
        Result<Vec<u64>, ScanError>)
        requires
            1 <= k,
            k <= self.spec_threads(),
            abs@.len() == k + 1,
            forall|j: int| 0 <= j < abs@.len() - 1 ==> #[trigger] abs@[j] <= abs@[j + 1],
            forall|j: int| 0 <= j < abs@.len() ==> #[trigger] abs@[j] <= vec@.len(),
        ensures
            r matches Ok(carries) && carries@.len() == k && (forall|i: int|
                0 <= i < k ==> #[trigger] carries@[i] == wadd(
                    carry_in,
                    wsum(vec@.subrange(abs@[0] as int, abs@[i] as int)),
                )),
    {
        let payload = (vec, abs);
        let recv = self.thread_pool.broadcast(&payload, dnc_total_worker);
        let totals = match recv.gather() {
            Ok(ts) => ts,
            Err(_) => {
                return Err(ScanError::FailedThreadInGather);
            },
        };
        let ghost n = self.spec_threads();
        proof {
            assert forall|i: int| 0 <= i < k implies #[trigger] totals@[i] == wsum(
                vec@.subrange(abs@[i] as int, abs@[i + 1] as int),
            ) by {
                assert(call_ensures(dnc_total_worker, ((i as usize, n), &(vec, abs)), totals@[i]));
            }
        }
        let carries = accumulate_carries(&totals, k, carry_in);
        proof {
            let t2 = totals@.take(k as int);
            assert forall|i: int| 0 <= i < k implies #[trigger] carries@[i] == wadd(
                carry_in,
                wsum(vec@.subrange(abs@[0] as int, abs@[i] as int)),
            ) by {
                if i == 0 {
                    assert(totals@.take(0) =~= Seq::<u64>::empty());
                    assert(vec@.subrange(abs@[0] as int, abs@[0] as int) =~= Seq::<u64>::empty());
                    assert(wsum(Seq::<u64>::empty()) == 0);
                } else {
                    crate::lemma_wadd_zero(totals@[0]);
                    crate::lemma_wadd_zero(wsum(vec@.subrange(abs@[0] as int, abs@[i] as int)));
                    lemma_seeded_totals_fold(t2, vec@, abs@, 0, i);
                    assert(t2.take(i) =~= totals@.take(i));
                }
            }
        }
        Ok(carries)
    }

    /// Dispatches the seeded local scans: splits the region spanned by
    /// `abs` out of the buffer, hands worker `i` its chunk with carry
    /// `carries[i]`, and gathers the scanned chunks and their totals.
    /// Never fails.
    #[verifier::rlimit(100)]
    fn dnc_run_local(
        &self,
        data: &mut SplitVector<u64>,
        abs: &Vec<usize>,
        carries: &Vec<u64>,
        simd: bool,
    ) -> (r: Result<(Vec<SplitVectorChunk<u64>>, Vec<u64>), ScanError>)
        requires
            old(data).outstanding() == 0,
            abs@.len() >= 2,
            abs@.len() - 1 <= self.spec_threads(),
            carries@.len() == abs@.len() - 1,
            forall|j: int| 0 <= j < abs@.len() - 1 ==> #[trigger] abs@[j] < abs@[j + 1],
            abs@.last() <= old(data)@.len(),
        ensures
            r matches Ok(out) && {
                &&& out.0@.len() == abs@.len() - 1
                &&& out.1@.len() == abs@.len() - 1
                &&& final(data).outstanding() == abs@.len() - 1
                &&& final(data).spec_len() == old(data).spec_len()
                &&& final(data)@ == old(data)@.subrange(0, abs@[0] as int)
                &&& final(data).spec_suffix() == old(data)@.subrange(
                    abs@.last() as int,
                    old(data)@.len() as int,
                )
                &&& forall|j: int|
                    0 <= j < out.0@.len() ==> (#[trigger] out.0@[j]).spec_start() == abs@[j]
                        && out.0@[j]@.len() == abs@[j + 1] - abs@[j]
                &&& forall|j: int, x: int|
                    0 <= j < out.0@.len() && 0 <= x < out.0@[j]@.len()
                        ==> #[trigger] out.0@[j]@[x] == wadd(
                        carries@[j],
                        wsum(old(data)@.subrange(abs@[j] as int, abs@[j] + x + 1)),
                    )
                &&& forall|i: int|
                    0 <= i < out.1@.len() ==> #[trigger] out.1@[i] == wadd(
                        carries@[i],
                        wsum(old(data)@.subrange(abs@[i] as int, abs@[i + 1] as int)),
                    )
            },
    {
        let ghost orig = data@;
        let chunks = match data.chunk(abs) {
            Some(c) => c,
            None => {
                return Err(ScanError::InvalidChunking);
            },
        };
        let ghost pre = chunks@;
        let mut chunks = chunks;
        let mut msgs: Vec<(SplitVectorChunk<u64>, bool, u64)> = Vec::new();
        let count = chunks.len();
        let mut c: usize = 0;
        while c < count
            invariant
                count == pre.len(),
                c + chunks@.len() == count,
                chunks@ == pre.subrange(c as int, count as int),
                msgs@.len() == c,
                count == carries@.len(),
                forall|j: int| 0 <= j < c ==> #[trigger] msgs@[j] == (pre[j], simd, carries@[j]),
            decreases count - c,
        {
            let ch = chunks.remove(0);
            let seed = carries[c];
            msgs.push((ch, simd, seed));
            c += 1;
        }
        let ghost n = self.spec_threads();
        proof {
            assert forall|i: int| 0 <= i < msgs@.len() implies call_requires(
                dnc_local_scan_worker,
                ((i as usize, n), msgs@[i]),
            ) by {
                assert(msgs@[i] == (pre[i], simd, carries@[i]));
                assert(pre[i].spec_start() == abs@[i]);
                lemma_points_ascend(abs@, i + 1, abs@.len() - 1);
                assert(pre[i]@ == orig.subrange(abs@[i] as int, abs@[i + 1] as int));
                assert(pre[i]@.len() == abs@[i + 1] - abs@[i]);
            }
        }
        let recv = self.thread_pool.sendall(msgs, dnc_local_scan_worker);
        let results = match recv.gather() {
            Ok(rs) => rs,
            Err(_) => {
                return Err(ScanError::FailedThreadInGather);
            },
        };
        let ghost res0 = results@;
        proof {
            assert forall|j: int| 0 <= j < count implies {
                &&& (#[trigger] res0[j]).0.spec_start() == abs@[j]
                &&& res0[j].0@.len() == abs@[j + 1] - abs@[j]
                &&& res0[j].1 == wadd(
                    carries@[j],
                    wsum(orig.subrange(abs@[j] as int, abs@[j + 1] as int)),
                )
                &&& forall|x: int|
                    0 <= x < res0[j].0@.len() ==> #[trigger] res0[j].0@[x] == wadd(
                        carries@[j],
                        wsum(orig.subrange(abs@[j] as int, abs@[j] + x + 1)),
                    )
            } by {
                assert(call_ensures(
                    dnc_local_scan_worker,
                    ((j as usize, n), (pre[j], simd, carries@[j])),
                    res0[j],
                ));
                let cd = orig.subrange(abs@[j] as int, abs@[j + 1] as int);
                assert(cd =~= pre[j]@);
                lemma_points_ascend(abs@, j + 1, abs@.len() - 1);
                assert forall|x: int| 0 <= x < res0[j].0@.len() implies #[trigger] res0[j].0@[x]
                    == wadd(carries@[j], wsum(orig.subrange(abs@[j] as int, abs@[j] + x + 1))) by {
                    assert(cd.take(x + 1) =~= orig.subrange(abs@[j] as int, abs@[j] + x + 1));
                }
            }
        }
        Ok(unzip_results(results))
    }

    /// The local phase shared by the blocked orderings: splits the region
    /// spanned by `abs` into one chunk per adjacent pair, seeds each chunk
    /// with its carry, and runs the local-scan kernel over every chunk in
    /// parallel.  Returns the buffer, in which each chunk now holds its
    /// seeded running sum, together with every chunk's total.  Never fails.
    #[verifier::rlimit(100)]
    fn dnc_seeded_scan_phase(
        &self,
        vec: Vec<u64>,
        abs: &Vec<usize>,
        carries: &Vec<u64>,
        simd: bool,
    ) -> (r: Result<(Vec<u64>, Vec<u64>), ScanError>)
        requires
            abs@.len() >= 2,
            abs@.len() - 1 <= self.spec_threads(),
            carries@.len() == abs@.len() - 1,
            forall|j: int| 0 <= j < abs@.len() - 1 ==> #[trigger] abs@[j] < abs@[j + 1],
            abs@.last() <= vec@.len(),
        ensures
            r matches Ok(out) && {
                &&& out.0@.len() == vec@.len()
                &&& out.1@.len() == carries@.len()
                &&& forall|g: int| 0 <= g < abs@[0] ==> #[trigger] out.0@[g] == vec@[g]
                &&& forall|g: int|
                    abs@.last() <= g < vec@.len() ==> #[trigger] out.0@[g] == vec@[g]
                &&& forall|g: int|
                    abs@[0] <= g < abs@.last() ==> #[trigger] out.0@[g] == wadd(
                        carries@[crate::util::ranged_vector::range_index_of(abs@, g)],
                        wsum(
                            vec@.subrange(
                                abs@[crate::util::ranged_vector::range_index_of(abs@, g)] as int,
                                g + 1,
                            ),
                        ),
                    )
                &&& forall|i: int|
                    0 <= i < carries@.len() ==> #[trigger] out.1@[i] == wadd(
                        carries@[i],
                        wsum(vec@.subrange(abs@[i] as int, abs@[i + 1] as int)),
                    )
            },
    {
        let ghost orig = vec@;
        let mut data = SplitVector::with_vec(vec);
        let phase = match self.dnc_run_local(&mut data, abs, carries, simd) {
            Ok(p) => p,
            Err(e) => {
                return Err(e);
            },
        };
        let scanned = phase.0;
        let totals = phase.1;
        let ghost sc = scanned@;
        let ghost f = |g: int|
            {
                let ri = crate::util::ranged_vector::range_index_of(abs@, g);
                wadd(carries@[ri], wsum(orig.subrange(abs@[ri] as int, g + 1)))
            };
        proof {
            assert forall|j: int, x: int|
                0 <= j < sc.len() && 0 <= x < sc[j]@.len() implies #[trigger] sc[j]@[x] == f(
                    sc[j].spec_start() + x,
                ) by {
                crate::util::ranged_vector::lemma_range_index_of_unique(abs@, j, abs@[j] + x);
            }
            lemma_points_ascend(abs@, 0, abs@.len() - 1);
        }
        data.absorb(scanned);
        proof {
            lemma_concat_chunks_tiled(sc, f);
        }
        let out = match data.extract() {
            Some(v) => v,
            None => {
                return Err(ScanError::BrokenThreadLocking);
            },
        };
        Ok((out, totals))
    }
}

/// A marker that keeps the kernel choice visible

impl Scanner {
    /// Divides a block `[bs, bs + blen)` over the pool: picks the effective
    /// worker count (never more workers than elements) and returns it with
    /// the absolute sub-range boundaries.
    fn block_partition(&self, bs: usize, blen: usize) -> (r: (usize, Vec<usize>))
        requires
            1 <= blen,
            bs + blen <= usize::MAX,
        ensures
            1 <= r.0 <= self.spec_threads(),
            r.1@.len() == r.0 + 1,
            r.1@[0] == bs,
            r.1@.last() == bs + blen,
            forall|j: int| 0 <= j < r.1@.len() - 1 ==> #[trigger] r.1@[j] < r.1@[j + 1],
            forall|j: int| 0 <= j < r.1@.len() ==> #[trigger] r.1@[j] <= bs + blen,
    {
        let nthreads = self.num_threads();
        let k = if nthreads < blen {
            nthreads
        } else {
            blen
        };
        let points = helper_functions::chunk_ranges(blen, k);
        proof {
            assert forall|t: int| 0 <= t < points@.len() implies #[trigger] points@[t] <= blen by {
                helper_functions::lemma_chunk_offset_bounds(blen as int, k as int, t);
            }
        }
        let abs = offset_points(&points, bs, blen);
        (k, abs)
    }

    /// One carry per sub-range: the block's incoming carry for the first,
    /// the identity for the rest.
    fn seed_vector(carry_in: u64, k: usize) -> (r: Vec<u64>)
        requires
            k >= 1,
        ensures
            r@.len() == k,
            r@[0] == carry_in,
            forall|i: int| 1 <= i < k ==> #[trigger] r@[i] == 0u64,
    {
        let mut seeds: Vec<u64> = Vec::new();
        seeds.push(carry_in);
        while seeds.len() < k
            invariant
                1 <= seeds@.len() <= k,
                seeds@[0] == carry_in,
                forall|i: int| 1 <= i < seeds@.len() ==> #[trigger] seeds@[i] == 0u64,
            decreases k - seeds@.len(),
        {
            seeds.push(0);
        }
        seeds
    }

    /// One cache block of the pre-scatter ordering: a parallel reduction
    /// derives every sub-range's carry up front, then one seeded local scan
    /// per sub-range finishes the block.  The block ends up holding its
    /// running sum seeded with `carry_in`.  Never fails.
    #[verifier::rlimit(60)]
    fn dnc_block_pre(&self, vec: Vec<u64>, bs: usize, blen: usize, carry_in: u64) -> (r: Result<
        Vec<u64>,
        ScanError,
    >)
        requires
            1 <= blen,
            bs + blen <= vec@.len(),
        ensures
            r matches Ok(out) && {
                &&& out@.len() == vec@.len()
                &&& forall|g: int| 0 <= g < bs ==> #[trigger] out@[g] == vec@[g]
                &&& forall|g: int| bs + blen <= g < vec@.len() ==> #[trigger] out@[g] == vec@[g]
                &&& forall|g: int|
                    bs <= g < bs + blen ==> #[trigger] out@[g] == wadd(
                        carry_in,
                        wsum(vec@.subrange(bs as int, g + 1)),
                    )
            },
    {
        let ghost orig = vec@;
        let vlen = vec.len();
        let partition = self.block_partition(bs, blen);
        let k = partition.0;
        let abs = partition.1;
        proof {
            assert forall|j: int| 0 <= j < abs@.len() implies #[trigger] abs@[j] <= vec@.len() by {
                lemma_points_ascend(abs@, j, abs@.len() - 1);
            }
        }
        let carries = match self.dnc_pre_carries(&vec, &abs, k, carry_in) {
            Ok(cs) => cs,
            Err(e) => {
                return Err(e);
            },
        };
        let phase = match self.dnc_seeded_scan_phase(vec, &abs, &carries, true) {
            Ok(p) => p,
            Err(e) => {
                return Err(e);
            },
        };
        let out = phase.0;
        proof {
            assert forall|g: int| bs <= g < bs + blen implies #[trigger] out@[g] == wadd(
                carry_in,
                wsum(orig.subrange(bs as int, g + 1)),
            ) by {
                crate::util::ranged_vector::lemma_range_index_of_brackets(abs@, g);
                let ri = crate::util::ranged_vector::range_index_of(abs@, g);
                lemma_points_ascend(abs@, 0, ri);
                lemma_carry_plus_local(orig, carry_in, bs as int, abs@[ri] as int, g);
            }
        }
        Ok(out)
    }

    /// One cache block of the post-scatter ordering: every sub-range is
    /// locally scanned first (the first seeded with `carry_in`), the
    /// gathered totals are folded into carries, and a second dispatch over a
    /// fresh partition of everything after the first sub-range adds each
    /// element's carry, looked up through the range index.  The block ends
    /// up holding its running sum seeded with `carry_in`.  Never fails.
    #[verifier::rlimit(100)]
    fn dnc_block_post(&self, vec: Vec<u64>, bs: usize, blen: usize, carry_in: u64) -> (r: Result<
        Vec<u64>,
        ScanError,
    >)
        requires
            1 <= blen,
            bs + blen <= vec@.len(),
        ensures
            r matches Ok(out) && {
                &&& out@.len() == vec@.len()
                &&& forall|g: int| 0 <= g < bs ==> #[trigger] out@[g] == vec@[g]
                &&& forall|g: int| bs + blen <= g < vec@.len() ==> #[trigger] out@[g] == vec@[g]
                &&& forall|g: int|
                    bs <= g < bs + blen ==> #[trigger] out@[g] == wadd(
                        carry_in,
                        wsum(vec@.subrange(bs as int, g + 1)),
                    )
            },
    {
        let ghost orig = vec@;
        let vlen = vec.len();
        let partition = self.block_partition(bs, blen);
        let k = partition.0;
        let abs = partition.1;
        let seeds = Scanner::seed_vector(carry_in, k);
        let phase = match self.dnc_seeded_scan_phase(vec, &abs, &seeds, self.simd_on) {
            Ok(p) => p,
            Err(e) => {
                return Err(e);
            },
        };
        let mid = phase.0;
        let totals = phase.1;
        let carries = accumulate_carries(&totals, k, 0);
        proof {
            let t2 = totals@.take(k as int);
            assert forall|i: int| 1 <= i < k implies #[trigger] carries@[i] == wadd(
                carry_in,
                wsum(orig.subrange(bs as int, abs@[i] as int)),
            ) by {
                crate::lemma_wadd_zero(wsum(totals@.take(i)));
                assert forall|x: int| 1 <= x < t2.len() implies #[trigger] t2[x] == wsum(
                    orig.subrange(abs@[x] as int, abs@[x + 1] as int),
                ) by {
                    crate::lemma_wadd_zero(
                        wsum(orig.subrange(abs@[x] as int, abs@[x + 1] as int)),
                    );
                }
                lemma_seeded_totals_fold(t2, orig, abs@, carry_in, i);
                assert(t2.take(i) =~= totals@.take(i));
            }
        }
        let first_end = points_second(&abs);
        if bs + blen == first_end {
            proof {
                assert forall|g: int| bs <= g < bs + blen implies #[trigger] mid@[g] == wadd(
                    carry_in,
                    wsum(orig.subrange(bs as int, g + 1)),
                ) by {
                    crate::util::ranged_vector::lemma_range_index_of_unique(abs@, 0, g);
                }
            }
            return Ok(mid);
        }
        let rest = bs + blen - first_end;
        let partition2 = self.block_partition(first_end, rest);
        let abs2 = partition2.1;
        let rv = RangedVector::new(abs, carries);
        let ghost mid0 = mid@;
        let out = match self.dnc_distribute_phase(mid, &abs2, &rv) {
            Ok(v) => v,
            Err(e) => {
                return Err(e);
            },
        };
        proof {
            assert forall|g: int| bs <= g < bs + blen implies #[trigger] out@[g] == wadd(
                carry_in,
                wsum(orig.subrange(bs as int, g + 1)),
            ) by {
                if g < first_end {
                    assert(out@[g] == mid0[g]);
                    crate::util::ranged_vector::lemma_range_index_of_unique(abs@, 0, g);
                } else {
                    assert(out@[g] == wadd(carry_value_at(rv@, g), mid0[g]));
                    crate::util::ranged_vector::lemma_range_index_of_brackets(abs@, g);
                    let ri = crate::util::ranged_vector::range_index_of(abs@, g);
                    assert forall|x: int| 0 <= x < ri implies g >= (
                    #[trigger] rv@[x]).spec_end() by {
                        lemma_points_ascend(abs@, x + 1, ri);
                    }
                    lemma_carry_value_at_index(rv@, ri, g);
                    assert(ri >= 1) by {
                        if ri == 0 {
                            assert(g < abs@[1]);
                        }
                    }
                    assert(mid0[g] == wadd(
                        0u64,
                        wsum(orig.subrange(abs@[ri] as int, g + 1)),
                    )) by {
                        crate::util::ranged_vector::lemma_range_index_of_unique(abs@, ri, g);
                    }
                    crate::lemma_wadd_zero(wsum(orig.subrange(abs@[ri] as int, g + 1)));
                    lemma_points_ascend(abs@, 0, ri);
                    lemma_carry_plus_local(orig, carry_in, bs as int, abs@[ri] as int, g);
                }
            }
        }
        Ok(out)
    }

    /// Dispatches the distribution phase: splits the region spanned by
    /// `abs2` into one chunk per adjacent pair and has each worker add to
    /// every element the carry of the range it falls in, looked up through
    /// the range index.  Never fails.
    #[verifier::rlimit(100)]
    fn dnc_distribute_phase(
        &self,
        mid: Vec<u64>,
        abs2: &Vec<usize>,
        rv: &RangedVector<u64>,
    ) -> (r: Result<Vec<u64>, ScanError>)
        requires
            abs2@.len() >= 2,
            abs2@.len() - 1 <= self.spec_threads(),
            forall|j: int| 0 <= j < abs2@.len() - 1 ==> #[trigger] abs2@[j] < abs2@[j + 1],
            abs2@.last() <= mid@.len(),
            rv@.len() >= 1,
            forall|j: int|
                0 <= j < rv@.len() - 1 ==> (#[trigger] rv@[j]).spec_end() == rv@[
                    j + 1
                ].spec_start(),
            forall|j: int|
                0 <= j < rv@.len() ==> (#[trigger] rv@[j]).spec_start() < rv@[j].spec_end(),
            forall|j: int| 0 <= j < rv@.len() ==> (#[trigger] rv@[j]).spec_index_of() == j,
            rv@[0].spec_start() <= abs2@[0],
            abs2@.last() <= rv@.last().spec_end(),
        ensures
            r matches Ok(out) && {
                &&& out@.len() == mid@.len()
                &&& forall|g: int| 0 <= g < abs2@[0] ==> #[trigger] out@[g] == mid@[g]
                &&& forall|g: int|
                    abs2@.last() <= g < mid@.len() ==> #[trigger] out@[g] == mid@[g]
                &&& forall|g: int|
                    abs2@[0] <= g < abs2@.last() ==> #[trigger] out@[g] == wadd(
                        carry_value_at(rv@, g),
                        mid@[g],
                    )
            },
    {
        let ghost mid0 = mid@;
        let mut data = SplitVector::with_vec(mid);
        let chunks = match data.chunk(abs2) {
            Some(c) => c,
            None => {
                return Err(ScanError::InvalidChunking);
            },
        };
        let ghost pre2 = chunks@;
        let mut chunks = chunks;
        let mut msgs: Vec<(SplitVectorChunk<u64>, usize, &RangedVector<u64>)> = Vec::new();
        let count = chunks.len();
        let mut c: usize = 0;
        while c < count
            invariant
                count == pre2.len(),
                c + chunks@.len() == count,
                chunks@ == pre2.subrange(c as int, count as int),
                msgs@.len() == c,
                count + 1 == abs2@.len(),
                forall|j: int| 0 <= j < c ==> #[trigger] msgs@[j] == (pre2[j], abs2@[j], rv),
            decreases count - c,
        {
            let ch = chunks.remove(0);
            let cs = abs2[c];
            msgs.push((ch, cs, rv));
            c += 1;
        }
        let ghost n = self.spec_threads();
        proof {
            assert forall|i: int| 0 <= i < msgs@.len() implies call_requires(
                dnc_distribute_worker,
                ((i as usize, n), msgs@[i]),
            ) by {
                assert(msgs@[i] == (pre2[i], abs2@[i], rv));
                assert(pre2[i].spec_start() == abs2@[i]);
                lemma_points_ascend(abs2@, i + 1, abs2@.len() - 1);
                lemma_points_ascend(abs2@, 0, i);
                assert(pre2[i]@ == mid0.subrange(abs2@[i] as int, abs2@[i + 1] as int));
            }
        }
        let recv = self.thread_pool.sendall(msgs, dnc_distribute_worker);
        let results = match recv.gather() {
            Ok(rs) => rs,
            Err(_) => {
                return Err(ScanError::FailedThreadInGather);
            },
        };
        let ghost res0 = results@;
        let ghost f = |g: int| wadd(carry_value_at(rv@, g), mid0[g]);
        proof {
            assert forall|j: int| 0 <= j < count implies {
                &&& (#[trigger] res0[j]).spec_start() == abs2@[j]
                &&& res0[j]@.len() == abs2@[j + 1] - abs2@[j]
                &&& forall|x: int|
                    0 <= x < res0[j]@.len() ==> #[trigger] res0[j]@[x] == f(abs2@[j] + x)
            } by {
                assert(call_ensures(
                    dnc_distribute_worker,
                    ((j as usize, n), (pre2[j], abs2@[j], rv)),
                    res0[j],
                ));
                lemma_points_ascend(abs2@, j + 1, abs2@.len() - 1);
                assert(pre2[j]@ == mid0.subrange(abs2@[j] as int, abs2@[j + 1] as int));
            }
        }
        proof {
            lemma_points_ascend(abs2@, 0, abs2@.len() - 1);
            assert(data@.len() == abs2@[0]);
            assert(res0[0].spec_start() == abs2@[0]);
            assert(res0[res0.len() - 1].spec_start() == abs2@[res0.len() - 1]);
            assert(res0[res0.len() - 1]@.len() == abs2@[res0.len() as int] - abs2@[res0.len()
                - 1]);
            assert forall|j: int| 0 <= j < res0.len() - 1 implies (#[trigger] res0[j]).spec_start()
                + res0[j]@.len() == res0[j + 1].spec_start() by {
                assert(res0[j].spec_start() == abs2@[j]);
                assert(res0[j + 1].spec_start() == abs2@[j + 1]);
            }
        }
        data.absorb(results);
        proof {
            lemma_concat_chunks_tiled(res0, f);
        }
        match data.extract() {
            Some(v) => Ok(v),
            None => Err(ScanError::BrokenThreadLocking),
        }
    }
}

impl Scanner {
    /// The cache-blocked divide-and-conquer scan in the post-scatter
    /// ordering: the buffer is processed in blocks of the configured cache
    /// length; within each block every sub-range is locally scanned and the
    /// carries are then scattered in a second dispatch, and each block's
    /// closing total seeds the next.  Computes the inclusive running sum of
    /// the whole input; never fails.
    pub fn divide_and_conquer_scan(&mut self, vec: Vec<u64>) -> (r: Result<Vec<u64>, ScanError>)
        requires
            old(self).spec_cache_chunk_length() >= 1,
        ensures
            r matches Ok(out) && out@ == inclusive_scan(vec@),
    {
        let ghost orig = vec@;
        let mut vec = vec;
        let mut block_start: usize = 0;
        while block_start < vec.len()
            invariant
                vec@.len() == orig.len(),
                block_start <= orig.len(),
                self == old(self),
                self.spec_cache_chunk_length() >= 1,
                forall|g: int| 0 <= g < block_start ==> #[trigger] vec@[g] == wsum(orig.take(g + 1)),
                forall|g: int| block_start <= g < orig.len() ==> #[trigger] vec@[g] == orig[g],
            decreases orig.len() - block_start,
        {
            let remaining = vec.len() - block_start;
            let cache = self.cache_chunk_length;
            let current_length = if cache < remaining {
                cache
            } else {
                remaining
            };
            let carry_in = if block_start == 0 {
                0
            } else {
                vec[block_start - 1]
            };
            proof {
                if block_start == 0 {
                    assert(orig.take(0) =~= Seq::<u64>::empty());
                    assert(wsum(Seq::<u64>::empty()) == 0);
                }
            }
            let ghost pre = vec@;
            vec = match self.dnc_block_post(vec, block_start, current_length, carry_in) {
                Ok(v) => v,
                Err(e) => {
                    return Err(e);
                },
            };
            proof {
                lemma_block_advances(orig, pre, vec@, block_start as int, current_length as int);
            }
            block_start += current_length;
        }
        proof {
            assert forall|g: int| 0 <= g < orig.len() implies vec@[g] == inclusive_scan(orig)[g]
                by {}
            assert(vec@ =~= inclusive_scan(orig));
        }
        Ok(vec)
    }

    /// The cache-blocked divide-and-conquer scan in the pre-scatter
    /// ordering: per block, a parallel reduction derives every sub-range's
    /// carry first, the carries are seeded into the sub-ranges, and one
    /// kernel pass per sub-range finishes the block; each block's closing
    /// total seeds the next.  Computes the inclusive running sum of the
    /// whole input; never fails.
    pub fn divide_and_conquer_scan_2(&mut self, vec: Vec<u64>) -> (r: Result<Vec<u64>, ScanError>)
        requires
            old(self).spec_cache_chunk_length() >= 1,
        ensures
            r matches Ok(out) && out@ == inclusive_scan(vec@),
    {
        let ghost orig = vec@;
        let mut vec = vec;
        let mut block_start: usize = 0;
        while block_start < vec.len()
            invariant
                vec@.len() == orig.len(),
                block_start <= orig.len(),
                self == old(self),
                self.spec_cache_chunk_length() >= 1,
                forall|g: int| 0 <= g < block_start ==> #[trigger] vec@[g] == wsum(orig.take(g + 1)),
                forall|g: int| block_start <= g < orig.len() ==> #[trigger] vec@[g] == orig[g],
            decreases orig.len() - block_start,
        {
            let remaining = vec.len() - block_start;
            let cache = self.cache_chunk_length;
            let current_length = if cache < remaining {
                cache
            } else {
                remaining
            };
            let carry_in = if block_start == 0 {
                0
            } else {
                vec[block_start - 1]
            };
            proof {
                if block_start == 0 {
                    assert(orig.take(0) =~= Seq::<u64>::empty());
                    assert(wsum(Seq::<u64>::empty()) == 0);
                }
            }
            let ghost pre = vec@;
            vec = match self.dnc_block_pre(vec, block_start, current_length, carry_in) {
                Ok(v) => v,
                Err(e) => {
                    return Err(e);
                },
            };
            proof {
                lemma_block_advances(orig, pre, vec@, block_start as int, current_length as int);
            }
            block_start += current_length;
        }
        proof {
            assert forall|g: int| 0 <= g < orig.len() implies vec@[g] == inclusive_scan(orig)[g]
                by {}
            assert(vec@ =~= inclusive_scan(orig));
        }
        Ok(vec)
    }
}

/// The two sweep orderings are behaviorally equivalent: both blocked scans'
/// contracts pin their output to the inclusive running sum of the input, so
/// on identical input and configuration they produce identical output.
pub proof fn lemma_blocked_orderings_agree(input: Seq<u64>, post: Seq<u64>, pre: Seq<u64>)
    requires
        post == inclusive_scan(input),
        pre == inclusive_scan(input),
    ensures
        post == pre,
{
}

/// Processing one more block with the previous running total as its seed
/// extends the finished running-sum prefix by that block.
proof fn lemma_block_advances(orig: Seq<u64>, pre: Seq<u64>, post: Seq<u64>, bs: int, blen: int)
    requires
        pre.len() == orig.len(),
        post.len() == orig.len(),
        1 <= blen,
        0 <= bs,
        bs + blen <= orig.len(),
        forall|g: int| 0 <= g < bs ==> #[trigger] pre[g] == wsum(orig.take(g + 1)),
        forall|g: int| bs <= g < orig.len() ==> #[trigger] pre[g] == orig[g],
        forall|g: int| 0 <= g < bs ==> #[trigger] post[g] == pre[g],
        forall|g: int| bs + blen <= g < orig.len() ==> #[trigger] post[g] == pre[g],
        forall|g: int|
            bs <= g < bs + blen ==> #[trigger] post[g] == wadd(
                (if bs == 0 {
                    0u64
                } else {
                    pre[bs - 1]
                }),
                wsum(pre.subrange(bs, g + 1)),
            ),
    ensures
        forall|g: int| 0 <= g < bs + blen ==> #[trigger] post[g] == wsum(orig.take(g + 1)),
        forall|g: int| bs + blen <= g < orig.len() ==> #[trigger] post[g] == orig[g],
{
    assert(wsum(Seq::<u64>::empty()) == 0);
    assert forall|g: int| bs <= g < bs + blen implies #[trigger] post[g] == wsum(
        orig.take(g + 1),
    ) by {
        assert(pre.subrange(bs, g + 1) =~= orig.subrange(bs, g + 1));
        assert(orig.take(bs) =~= orig.subrange(0, bs));
        assert(orig.take(g + 1) =~= orig.subrange(0, g + 1));
        if bs == 0 {
            assert(orig.subrange(0, g + 1) =~= pre.subrange(bs, g + 1));
            crate::lemma_wadd_zero(wsum(orig.subrange(0, g + 1)));
        } else {
            assert(pre[bs - 1] == wsum(orig.take(bs)));
            crate::lemma_wsum_split(orig, 0, bs, g + 1);
        }
    }
}

} // verus!
