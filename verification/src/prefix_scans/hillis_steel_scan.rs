use vstd::prelude::*;

use crate::prefix_scans::helper_functions;
use crate::prefix_scans::{ScanError, Scanner};
use crate::split_vector::{
    concat_chunks, lemma_concat_chunks_tiled, SplitVector, SplitVectorChunk,
};
use crate::util::thread_pool::ThreadId;
use crate::{inclusive_scan, wadd, wsum};

verus! {

/// The state of the step-doubling scan after all steps below `step` have
/// run: position `g` holds the sum of the up-to-`step` input elements that
/// end at `g`.
pub open spec fn partial_sums(orig: Seq<u64>, step: int) -> Seq<u64> {
    Seq::new(
        orig.len(),
        |g: int|
            wsum(
                orig.subrange(
                    if g + 1 - step >= 0 {
                        g + 1 - step
                    } else {
                        0
                    },
                    g + 1,
                ),
            ),
    )
}

/// One worker's share of a doubling step: every position `g` of the chunk's
/// region of the workspace is set to the combination of the previous state's
/// values at `g - step` and `g`.
fn hillis_step_worker(id: ThreadId, msg: (&Vec<u64>, SplitVectorChunk<u64>, &Vec<usize>, usize)) -> (r:
    SplitVectorChunk<u64>)
    requires
        id.0 + 1 < msg.2@.len(),
        msg.1.spec_start() == msg.2@[id.0 as int] + msg.3,
        msg.1@.len() == msg.2@[id.0 as int + 1] - msg.2@[id.0 as int],
        msg.2@[id.0 as int] <= msg.2@[id.0 as int + 1],
        msg.2@[id.0 as int + 1] + msg.3 <= msg.0@.len(),
    ensures
        r.spec_start() == msg.1.spec_start(),
        r@.len() == msg.1@.len(),
        forall|j: int|
            0 <= j < r@.len() ==> #[trigger] r@[j] == wadd(
                msg.0@[msg.1.spec_start() - msg.3 + j],
                msg.0@[msg.1.spec_start() + j],
            ),
{
    let (data, chunk, ranges, step) = msg;
    let mut chunk = chunk;
    let ghost clen = chunk@.len();
    let dlen = data.len();
    let start = ranges[id.0];
    let mut i: usize = 0;
    while i < chunk.len()
        invariant
            chunk@.len() == clen,
            chunk.spec_start() == msg.1.spec_start(),
            i <= clen,
            start == msg.2@[id.0 as int],
            msg.1.spec_start() == start + msg.3,
            clen == msg.2@[id.0 as int + 1] - msg.2@[id.0 as int],
            msg.2@[id.0 as int] <= msg.2@[id.0 as int + 1],
            msg.2@[id.0 as int + 1] + msg.3 <= data@.len(),
            dlen == data@.len(),
            data == msg.0,
            step == msg.3,
            forall|j: int|
                0 <= j < i ==> #[trigger] chunk@[j] == wadd(
                    data@[start + j],
                    data@[start + msg.3 + j],
                ),
        decreases clen - i,
    {
        let v = data[start + i].wrapping_add(data[start + i + step]);
        chunk.set(i, v);
        i += 1;
    }
    chunk
}

impl Scanner {
    /// One full pass of the step-doubling scan: fills the workspace so that
    /// every position `g >= step` holds `data[g - step] + data[g]` and every
    /// position below `step` holds `data[g]` unchanged, then returns the
    /// filled buffer together with the old one for reuse as the next
    /// workspace.  Never fails.
    #[verifier::rlimit(100)]
    fn hillis_step(&self, data: Vec<u64>, workspace: SplitVector<u64>, step: usize) -> (r: Result<
        (Vec<u64>, SplitVector<u64>),
        ScanError,
    >)
        requires
            1 <= step < data@.len(),
            workspace.outstanding() == 0,
            workspace@.len() == data@.len(),
            workspace.spec_len() == data@.len(),
        ensures
            r matches Ok(out) && {
                &&& out.0@.len() == data@.len()
                &&& forall|g: int|
                    0 <= g < data@.len() ==> #[trigger] out.0@[g] == if g < step {
                        data@[g]
                    } else {
                        wadd(data@[g - step], data@[g])
                    }
                &&& out.1.outstanding() == 0
                &&& out.1@.len() == data@.len()
                &&& out.1.spec_len() == data@.len()
            },
    {
        let mut workspace = workspace;
        let op_count = data.len() - step;
        let nthreads = self.num_threads();
        let k = if nthreads < op_count {
            nthreads
        } else {
            op_count
        };
        let ranges = helper_functions::chunk_ranges(op_count, k);
        proof {
            assert forall|j: int| 0 <= j < ranges@.len() implies #[trigger] ranges@[j]
                <= op_count by {
                helper_functions::lemma_chunk_offset_bounds(op_count as int, k as int, j);
            }
        }
        let mut split_ranges: Vec<usize> = Vec::new();
        let mut t: usize = 0;
        while t < ranges.len()
            invariant
                t <= ranges@.len(),
                split_ranges@.len() == t,
                forall|j: int| 0 <= j < t ==> #[trigger] split_ranges@[j] == ranges@[j] + step,
                forall|j: int| 0 <= j < ranges@.len() ==> #[trigger] ranges@[j] <= op_count,
                op_count + step == data@.len(),
                op_count + step <= usize::MAX,
            decreases ranges@.len() - t,
        {
            split_ranges.push(ranges[t] + step);
            t += 1;
        }
        let chunks = match workspace.chunk(&split_ranges) {
            Some(c) => c,
            None => {
                return Err(ScanError::InvalidChunking);
            },
        };
        let ghost pre_chunks = chunks@;
        let mut chunks = chunks;
        let mut msgs: Vec<(&Vec<u64>, SplitVectorChunk<u64>, &Vec<usize>, usize)> = Vec::new();
        let count = chunks.len();
        let mut c: usize = 0;
        while c < count
            invariant
                count == pre_chunks.len(),
                c + chunks@.len() == count,
                chunks@ == pre_chunks.subrange(c as int, count as int),
                msgs@.len() == c,
                forall|j: int|
                    0 <= j < c ==> #[trigger] msgs@[j] == (&data, pre_chunks[j], &ranges, step),
            decreases count - c,
        {
            let ch = chunks.remove(0);
            msgs.push((&data, ch, &ranges, step));
            c += 1;
        }
        let recv = self.thread_pool.sendall(msgs, hillis_step_worker);
        let results = match recv.gather() {
            Ok(rs) => rs,
            Err(_) => {
                return Err(ScanError::FailedThreadInGather);
            },
        };
        let ghost dold = data@;
        let ghost f = |g: int| wadd(dold[g - step], dold[g]);
        let ghost n = self.spec_threads();
        proof {
            assert forall|j: int| 0 <= j < count implies {
                &&& (#[trigger] results@[j]).spec_start() == pre_chunks[j].spec_start()
                &&& results@[j]@.len() == pre_chunks[j]@.len()
                &&& forall|x: int|
                    0 <= x < results@[j]@.len() ==> #[trigger] results@[j]@[x] == f(
                        results@[j].spec_start() + x,
                    )
            } by {
                assert(call_ensures(
                    hillis_step_worker,
                    ((j as usize, n), msgs@[j]),
                    results@[j],
                ));
            }
        }
        workspace.absorb(results);
        proof {
            lemma_concat_chunks_tiled(results@, f);
        }
        let mut result = match workspace.extract() {
            Some(v) => v,
            None => {
                return Err(ScanError::BrokenThreadLocking);
            },
        };
        let ghost old_result = result@;
        proof {
            assert(result@.len() == dold.len());
            assert forall|g: int| step <= g < dold.len() implies #[trigger] result@[g] == f(g) by {
                assert(result@[g] == concat_chunks(results@)[g - step]);
            }
        }
        let mut i: usize = 0;
        while i < step
            invariant
                step <= result@.len(),
                i <= step,
                data@.len() == result@.len(),
                forall|j: int| 0 <= j < i ==> #[trigger] result@[j] == data@[j],
                forall|j: int| i <= j < result@.len() ==> #[trigger] result@[j] == old_result[j],
            decreases step - i,
        {
            let v = data[i];
            result[i] = v;
            i += 1;
        }
        let next_workspace = SplitVector::with_vec(data);
        Ok((result, next_workspace))
    }

    /// The step-doubling (Hillis-Steele) scan: computes the inclusive
    /// running sum of `vec` by repeatedly combining each position with the
    /// one `step` places below it, doubling `step` each pass, with the
    /// active positions of each pass divided over the worker pool.  Never
    /// fails.
    pub fn hillis_steel_scan(&mut self, vec: Vec<u64>) -> (r: Result<Vec<u64>, ScanError>)
        ensures
            r matches Ok(out) && out@ == inclusive_scan(vec@),
    {
        let ghost orig = vec@;
        let mut data = vec;
        let mut workspace = SplitVector::<u64>::with_size(data.len());
        proof {
            assert forall|g: int| 0 <= g < orig.len() implies partial_sums(orig, 1)[g]
                == orig[g] by {
                crate::lemma_wsum_singleton(orig, g);
            }
            assert(data@ =~= partial_sums(orig, 1));
        }
        let mut step: usize = 1;
        while step < data.len()
            invariant
                data@.len() == orig.len(),
                step >= 1,
                data@ == partial_sums(orig, step as int),
                workspace.outstanding() == 0,
                workspace@.len() == orig.len(),
                workspace.spec_len() == orig.len(),
            decreases (if step < data@.len() {
                data@.len() - step
            } else {
                0int
            }),
        {
            let ghost dold = data@;
            let stepped = match self.hillis_step(data, workspace, step) {
                Ok(pair) => pair,
                Err(e) => {
                    return Err(e);
                },
            };
            data = stepped.0;
            workspace = stepped.1;
            let next: usize = if step <= usize::MAX / 2 {
                step * 2
            } else {
                usize::MAX
            };
            proof {
                assert forall|g: int| 0 <= g < orig.len() implies data@[g] == partial_sums(
                    orig,
                    next as int,
                )[g] by {
                    lemma_doubling_position(orig, step as int, next as int, g, dold, data@[g]);
                }
                assert(data@ =~= partial_sums(orig, next as int));
            }
            step = next;
        }
        proof {
            assert forall|g: int| 0 <= g < orig.len() implies data@[g] == inclusive_scan(orig)[g]
                by {
                assert(orig.subrange(0, g + 1) =~= orig.take(g + 1));
            }
            assert(data@ =~= inclusive_scan(orig));
        }
        Ok(data)
    }
}

/// How one position advances in a doubling step.
proof fn lemma_doubling_position(
    orig: Seq<u64>,
    step: int,
    next: int,
    g: int,
    dold: Seq<u64>,
    value: u64,
)
    requires
        1 <= step < orig.len(),
        next == if step <= usize::MAX as int / 2 {
            2 * step
        } else {
            usize::MAX as int
        },
        orig.len() <= usize::MAX,
        0 <= g < orig.len(),
        dold == partial_sums(orig, step),
        value == if g < step {
            dold[g]
        } else {
            wadd(dold[g - step], dold[g])
        },
    ensures
        value == partial_sums(orig, next)[g],
{
    if g < step {
        assert(dold[g] == wsum(orig.subrange(0, g + 1)));
    } else {
        let lo2 = if g + 1 - 2 * step >= 0 {
            g + 1 - 2 * step
        } else {
            0
        };
        assert(dold[g - step] == wsum(orig.subrange(lo2, g + 1 - step)));
        assert(dold[g] == wsum(orig.subrange(g + 1 - step, g + 1)));
        crate::lemma_wsum_split(orig, lo2, g + 1 - step, g + 1);
        assert(lo2 == if g + 1 - next >= 0 {
            g + 1 - next
        } else {
            0
        });
    }
}

} // verus!
