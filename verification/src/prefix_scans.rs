pub mod baseline;
pub mod blelloch_scan;
pub mod divide_and_conquer_scan;
pub mod helper_functions;
pub mod hillis_steel_scan;

use vstd::prelude::*;

use crate::util::thread_pool;
use crate::wsum;

use crate::prefix_scans::divide_and_conquer_scan::dnc_total_worker;

verus! {

/// How a scan can fail.  Every failure marks a broken internal invariant;
/// the scans below prove that none of them is ever returned.
#[derive(Debug, PartialEq, Eq, Structural)]
pub enum ScanError {
    /// The buffer could not be reclaimed because chunks were outstanding.
    BrokenThreadLocking,
    /// A dispatched task's result was never received, or arrived twice.
    FailedThreadInGather,
    /// Requested offsets were not strictly increasing within the buffer.
    InvalidChunking,
}

/// Holds the scan configuration and the worker pool, and runs the scan
/// algorithms.
pub struct Scanner {
    simd_on: bool,
    sequential_length: usize,
    cache_chunk_length: usize,
    thread_pool: thread_pool::ThreadPool,
}

impl Scanner {
    /// The number of workers in the pool.
    pub closed spec fn spec_threads(&self) -> usize {
        self.thread_pool.threads()
    }

    /// The operation count below which a step is handled by one worker.
    pub closed spec fn spec_sequential_length(&self) -> usize {
        self.sequential_length
    }

    /// The block size for the cache-blocked divide-and-conquer scans.
    pub closed spec fn spec_cache_chunk_length(&self) -> usize {
        self.cache_chunk_length
    }

    /// Whether the vectorized local kernel is preferred over the plain one.
    pub closed spec fn spec_simd_on(&self) -> bool {
        self.simd_on
    }

    pub fn new() -> (s: Scanner)
        ensures
            s.spec_threads() == 1,
            s.spec_sequential_length() == 0,
            s.spec_cache_chunk_length() == 262144,
            s.spec_simd_on(),
    {
        let single_pool = thread_pool::ThreadPool::new(1);
        Scanner {
            simd_on: true,
            sequential_length: 0,
            cache_chunk_length: 262144,
            thread_pool: single_pool,
        }
    }

    pub fn without_simd(self) -> (s: Scanner)
        ensures
            s.spec_threads() == self.spec_threads(),
            s.spec_sequential_length() == self.spec_sequential_length(),
            s.spec_cache_chunk_length() == self.spec_cache_chunk_length(),
            !s.spec_simd_on(),
    {
        let mut s = self;
        s.simd_on = false;
        s
    }

    pub fn with_threads(self, num_threads: usize) -> (s: Scanner)
        requires
            num_threads >= 1,
        ensures
            s.spec_threads() == num_threads,
            s.spec_sequential_length() == self.spec_sequential_length(),
            s.spec_cache_chunk_length() == self.spec_cache_chunk_length(),
            s.spec_simd_on() == self.spec_simd_on(),
    {
        let mut s = self;
        s.thread_pool = thread_pool::ThreadPool::new(num_threads);
        s
    }

    pub fn with_sequential_length(self, sequential_length: usize) -> (s: Scanner)
        ensures
            s.spec_threads() == self.spec_threads(),
            s.spec_sequential_length() == sequential_length,
            s.spec_cache_chunk_length() == self.spec_cache_chunk_length(),
            s.spec_simd_on() == self.spec_simd_on(),
    {
        let mut s = self;
        s.sequential_length = sequential_length;
        s
    }

    pub fn with_cache_chunk_length(self, cache_chunk_length: usize) -> (s: Scanner)
        ensures
            s.spec_threads() == self.spec_threads(),
            s.spec_sequential_length() == self.spec_sequential_length(),
            s.spec_cache_chunk_length() == cache_chunk_length,
            s.spec_simd_on() == self.spec_simd_on(),
    {
        let mut s = self;
        s.cache_chunk_length = cache_chunk_length;
        s
    }

    pub fn num_threads(&self) -> (n: usize)
        ensures
            n == self.spec_threads(),
            n >= 1,
    {
        self.thread_pool.num_threads()
    }

    /// The parallel reduction: every worker sums one share of the buffer
    /// and the partial sums are combined, yielding the wrapping sum of the
    /// whole buffer.
    pub fn parallel_quicksum_simd(&mut self, data: &Vec<u64>) -> (r: u64)
        ensures
            r == wsum(data@),
    {
        let nthreads = self.num_threads();
        let ranges = helper_functions::chunk_ranges(data.len(), nthreads);
        proof {
            assert forall|j: int| 0 <= j < ranges@.len() implies #[trigger] ranges@[j]
                <= data@.len() by {
                helper_functions::lemma_chunk_offset_bounds(
                    data@.len() as int,
                    nthreads as int,
                    j,
                );
            }
        }
        let payload = (data, &ranges);
        let recv = self.thread_pool.broadcast(&payload, dnc_total_worker);
        let totals = match recv.gather() {
            Ok(ts) => ts,
            Err(_) => {
                return 0;
            },
        };
        let ghost n = self.spec_threads();
        proof {
            assert forall|i: int| 0 <= i < nthreads implies #[trigger] totals@[i] == wsum(
                data@.subrange(ranges@[i] as int, ranges@[i + 1] as int),
            ) by {
                assert(call_ensures(dnc_total_worker, ((i as usize, n), &(data, &ranges)), totals@[i]));
            }
        }
        let mut acc: u64 = 0;
        let mut i: usize = 0;
        proof {
            assert(data@.subrange(0, 0) =~= Seq::<u64>::empty());
            assert(wsum(Seq::<u64>::empty()) == 0);
        }
        while i < nthreads
            invariant
                i <= nthreads,
                totals@.len() == nthreads,
                ranges@.len() == nthreads + 1,
                ranges@[0] == 0,
                ranges@[nthreads as int] == data@.len(),
                forall|j: int| 0 <= j < nthreads ==> #[trigger] ranges@[j] <= ranges@[j + 1],
                forall|j: int| 0 <= j < ranges@.len() ==> #[trigger] ranges@[j] <= data@.len(),
                forall|x: int|
                    0 <= x < nthreads ==> #[trigger] totals@[x] == wsum(
                        data@.subrange(ranges@[x] as int, ranges@[x + 1] as int),
                    ),
                acc == wsum(data@.subrange(0, ranges@[i as int] as int)),
            decreases nthreads - i,
        {
            proof {
                crate::lemma_wsum_split(
                    data@,
                    0,
                    ranges@[i as int] as int,
                    ranges@[i as int + 1] as int,
                );
            }
            acc = acc.wrapping_add(totals[i]);
            i += 1;
        }
        proof {
            assert(data@.subrange(0, data@.len() as int) =~= data@);
        }
        acc
    }

    pub fn set_sequential_length(&mut self, sequential_length: usize)
        ensures
            final(self).spec_threads() == old(self).spec_threads(),
            final(self).spec_sequential_length() == sequential_length,
            final(self).spec_cache_chunk_length() == old(self).spec_cache_chunk_length(),
            final(self).spec_simd_on() == old(self).spec_simd_on(),
    {
        self.sequential_length = sequential_length;
    }

    pub fn set_cache_chunk_length(&mut self, cache_chunk_length: usize)
        ensures
            final(self).spec_threads() == old(self).spec_threads(),
            final(self).spec_sequential_length() == old(self).spec_sequential_length(),
            final(self).spec_cache_chunk_length() == cache_chunk_length,
            final(self).spec_simd_on() == old(self).spec_simd_on(),
    {
        self.cache_chunk_length = cache_chunk_length;
    }
}

} // verus!
