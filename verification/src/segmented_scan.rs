pub use crate::prefix_scans::ScanError;

use vstd::prelude::*;

use crate::prefix_scans::helper_functions;
use crate::prefix_scans::Scanner;
use crate::split_vector::{lemma_concat_chunks_tiled, SplitVector, SplitVectorChunk};
use crate::util::thread_pool::{ThreadId, ThreadPool};
use crate::{inclusive_scan, wadd, wsub, wsum};

verus! {

/// The concatenation of a batch of sequences, in order.
pub open spec fn flat_of(vss: Seq<Seq<u64>>) -> Seq<u64>
    decreases vss.len(),
{
    if vss.len() == 0 {
        Seq::empty()
    } else {
        flat_of(vss.drop_last()) + vss.last()
    }
}

/// The is-sequence-start flags of a batch: within each sequence, only the
/// first position is flagged.
pub open spec fn flags_of(vss: Seq<Seq<u64>>) -> Seq<bool>
    decreases vss.len(),
{
    if vss.len() == 0 {
        Seq::empty()
    } else {
        flags_of(vss.drop_last()) + Seq::new(vss.last().len(), |i: int| i == 0)
    }
}

/// Appending one sequence appends its elements and flags.
pub proof fn lemma_flat_snoc(vss: Seq<Seq<u64>>)
    requires
        vss.len() > 0,
    ensures
        flat_of(vss) == flat_of(vss.drop_last()) + vss.last(),
        flags_of(vss) == flags_of(vss.drop_last()) + Seq::new(vss.last().len(), |i: int| i == 0),
{
}

/// The flags and elements of a batch come in equal numbers.
pub proof fn lemma_flat_len(vss: Seq<Seq<u64>>)
    ensures
        flags_of(vss).len() == flat_of(vss).len(),
    decreases vss.len(),
{
    if vss.len() > 0 {
        lemma_flat_len(vss.drop_last());
    }
}

/// A batch of non-empty sequences is determined by its flattened elements
/// and start flags: with the grouping clause of `to_vec` this makes the
/// `from_vec`/`to_vec` round trip exact.
pub proof fn lemma_batch_unique(a: Seq<Seq<u64>>, b: Seq<Seq<u64>>)
    requires
        flat_of(a) == flat_of(b),
        flags_of(a) == flags_of(b),
        forall|k: int| 0 <= k < a.len() ==> (#[trigger] a[k]).len() > 0,
        forall|k: int| 0 <= k < b.len() ==> (#[trigger] b[k]).len() > 0,
    ensures
        a == b,
    decreases a.len() + b.len(),
{
    lemma_flat_len(a);
    lemma_flat_len(b);
    if a.len() == 0 && b.len() == 0 {
        assert(a =~= b);
    } else if a.len() == 0 {
        assert(b.last().len() > 0);
        assert(flags_of(b).len() >= b.last().len());
    } else if b.len() == 0 {
        assert(a.last().len() > 0);
        assert(flags_of(a).len() >= a.last().len());
    } else {
        let flat = flat_of(a);
        let flags = flags_of(a);
        let big_l = flat.len() as int;
        let la = a.last().len() as int;
        let lb = b.last().len() as int;
        lemma_flat_len(a.drop_last());
        lemma_flat_len(b.drop_last());
        assert(flags_of(a.drop_last()).len() == big_l - la);
        assert(flags_of(b.drop_last()).len() == big_l - lb);
        assert(flags[big_l - la]) by {
            assert(flags == flags_of(a.drop_last()) + Seq::new(
                a.last().len(),
                |i: int| i == 0,
            ));
        }
        assert(flags[big_l - lb]) by {
            assert(flags_of(b) == flags_of(b.drop_last()) + Seq::new(
                b.last().len(),
                |i: int| i == 0,
            ));
        }
        assert(la == lb) by {
            if la < lb {
                assert(!flags_of(b)[big_l - la]);
            } else if lb < la {
                assert(!flags_of(a)[big_l - lb]);
            }
        }
        assert(a.last() =~= flat.subrange(big_l - la, big_l));
        assert(b.last() =~= flat_of(b).subrange(big_l - lb, big_l));
        assert(flat_of(a.drop_last()) =~= flat.take(big_l - la));
        assert(flat_of(b.drop_last()) =~= flat_of(b).take(big_l - lb));
        assert(flags_of(a.drop_last()) =~= flags.take(big_l - la));
        assert(flags_of(b.drop_last()) =~= flags_of(b).take(big_l - lb));
        lemma_batch_unique(a.drop_last(), b.drop_last());
        assert(a.len() == b.len());
        assert forall|k: int| 0 <= k < a.len() implies a[k] == b[k] by {
            if k < a.len() - 1 {
                assert(a[k] == a.drop_last()[k]);
                assert(b[k] == b.drop_last()[k]);
            } else {
                assert(a[k] == a.last());
                assert(b[k] == b.last());
            }
        }
        assert(a =~= b);
    }
}

/// The first flagged position at or below `i`, or 0 when none is flagged.
pub open spec fn seg_start(flags: Seq<bool>, i: int) -> int
    decreases (if i >= 0 {
        i
    } else {
        0
    }),
{
    if i <= 0 {
        0
    } else if i < flags.len() && flags[i] {
        i
    } else {
        seg_start(flags, i - 1)
    }
}

/// The segmented running sum over a flat buffer with start flags: each
/// position sums its own segment's prefix, restarting at every flag.
pub open spec fn seg_scan(data: Seq<u64>, flags: Seq<bool>) -> Seq<u64> {
    Seq::new(
        data.len(),
        |i: int|
            wsum(
                data.subrange(
                    if i < flags.len() && flags[i] {
                        i
                    } else {
                        seg_start(flags, i)
                    },
                    i + 1,
                ),
            ),
    )
}

/// A batch of independent sequences, flattened into one buffer plus a
/// per-element is-sequence-start flag, so that many short sequences can be
/// scanned as a single batch.
pub struct HeadFlagVec {
    pub data: Vec<u64>,
    pub head_flags: Vec<bool>,
}

impl HeadFlagVec {
    /// Flattens a batch into one buffer with start flags.
    pub fn from_vec(v: &Vec<Vec<u64>>) -> (r: HeadFlagVec)
        ensures
            r.data@ == flat_of(v.deep_view()),
            r.head_flags@ == flags_of(v.deep_view()),
    {
        let ghost dv = v.deep_view();
        let mut data: Vec<u64> = Vec::new();
        let mut head_flags: Vec<bool> = Vec::new();
        let mut k: usize = 0;
        proof {
            assert(dv.take(0) =~= Seq::<Seq<u64>>::empty());
        }
        while k < v.len()
            invariant
                k <= dv.len(),
                dv == v.deep_view(),
                dv.len() == v@.len(),
                forall|x: int| 0 <= x < dv.len() ==> #[trigger] dv[x] == v@[x]@,
                data@ == flat_of(dv.take(k as int)),
                head_flags@ == flags_of(dv.take(k as int)),
            decreases dv.len() - k,
        {
            let ghost pre_data = data@;
            let ghost pre_flags = head_flags@;
            let sub = &v[k];
            let mut j: usize = 0;
            while j < sub.len()
                invariant
                    j <= sub@.len(),
                    k < dv.len(),
                    dv[k as int] == sub@,
                    data@ == pre_data + sub@.take(j as int),
                    head_flags@ == pre_flags + Seq::new(j as nat, |i: int| i == 0),
                decreases sub@.len() - j,
            {
                data.push(sub[j]);
                head_flags.push(j == 0);
                proof {
                    assert(data@ =~= pre_data + sub@.take(j + 1));
                    assert(head_flags@ =~= pre_flags + Seq::new((j + 1) as nat, |i: int| i == 0));
                }
                j += 1;
            }
            proof {
                assert(dv.take(k as int + 1).drop_last() =~= dv.take(k as int));
                assert(dv.take(k as int + 1).last() == sub@);
                lemma_flat_snoc(dv.take(k as int + 1));
                assert(sub@.take(sub@.len() as int) =~= sub@);
            }
            k += 1;
        }
        proof {
            assert(dv.take(dv.len() as int) =~= dv);
        }
        HeadFlagVec { data, head_flags }
    }

    /// Regroups the flat buffer into a batch, splitting before every flagged
    /// position.  Fails when the buffer is non-empty but does not begin a
    /// sequence.  On success the segments carry exactly the buffer's
    /// contents, every segment is non-empty, and a segment starts precisely
    /// at each flagged position, which pins the grouping.
    pub fn to_vec(&self) -> (r: Option<Vec<Vec<u64>>>)
        requires
            self.head_flags@.len() == self.data@.len(),
        ensures
            (self.head_flags@.len() > 0 && !self.head_flags@[0]) <==> r is None,
            r matches Some(out) ==> {
                &&& flat_of(out.deep_view()) == self.data@
                &&& flags_of(out.deep_view()) == self.head_flags@
                &&& forall|k: int|
                    0 <= k < out.deep_view().len() ==> (#[trigger] out.deep_view()[k]).len() > 0
            },
    {
        if self.head_flags.len() > 0 && self.head_flags[0] != true {
            return None;
        }
        let mut out: Vec<Vec<u64>> = Vec::new();
        let mut cur: Vec<u64> = Vec::new();
        let mut started: bool = false;
        let len = self.data.len();
        let mut p: usize = 0;
        while p < len
            invariant
                p <= len,
                len == self.data@.len(),
                self.head_flags@.len() == len,
                len > 0 ==> self.head_flags@[0],
                p == 0 ==> out@.len() == 0 && cur@.len() == 0 && !started,
                p > 0 ==> started,
                started ==> flat_of(out.deep_view()) + cur@ == self.data@.take(p as int),
                started ==> flags_of(out.deep_view()) + Seq::new(cur@.len(), |i: int| i == 0)
                    == self.head_flags@.take(p as int),
                started ==> cur@.len() > 0,
                forall|k: int|
                    0 <= k < out.deep_view().len() ==> (#[trigger] out.deep_view()[k]).len() > 0,
                !started ==> out@.len() == 0 && cur@.len() == 0,
            decreases len - p,
        {
            let ghost pre_out = out.deep_view();
            let ghost pre_cur = cur@;
            if self.head_flags[p] {
                if started {
                    let finished = cur;
                    cur = Vec::new();
                    out.push(finished);
                    proof {
                        assert(out.deep_view().drop_last() =~= pre_out);
                        assert(out.deep_view().last() == pre_cur);
                        lemma_flat_snoc(out.deep_view());
                        assert(forall|k: int|
                            0 <= k < pre_out.len() ==> #[trigger] out.deep_view()[k]
                                == pre_out[k]);
                        assert(out.deep_view()[out.deep_view().len() - 1] == pre_cur);
                    }
                }
                started = true;
            }
            let x = self.data[p];
            cur.push(x);
            proof {
                assert(flat_of(out.deep_view()) + cur@ =~= self.data@.take(p + 1));
                assert(flags_of(out.deep_view()) + Seq::new(cur@.len(), |i: int| i == 0)
                    =~= self.head_flags@.take(p + 1));
            }
            p += 1;
        }
        if started {
            let ghost pre_out = out.deep_view();
            let ghost pre_cur = cur@;
            out.push(cur);
            proof {
                assert(out.deep_view().drop_last() =~= pre_out);
                assert(out.deep_view().last() == pre_cur);
                lemma_flat_snoc(out.deep_view());
                assert(forall|k: int|
                    0 <= k < pre_out.len() ==> #[trigger] out.deep_view()[k] == pre_out[k]);
                assert(out.deep_view()[out.deep_view().len() - 1] == pre_cur);
                assert(self.data@.take(len as int) =~= self.data@);
                assert(self.head_flags@.take(len as int) =~= self.head_flags@);
                assert(flat_of(out.deep_view()) =~= self.data@);
                assert(flags_of(out.deep_view()) =~= self.head_flags@);
            }
        } else {
            proof {
                assert(len == 0);
                assert(flat_of(out.deep_view()) =~= self.data@);
                assert(flags_of(out.deep_view()) =~= self.head_flags@);
            }
        }
        Some(out)
    }

    pub fn len(&self) -> (n: usize)
        ensures
            n == self.data@.len(),
    {
        self.data.len()
    }

    pub fn get(&self, index: usize) -> (r: (u64, bool))
        requires
            index < self.data@.len(),
            index < self.head_flags@.len(),
        ensures
            r.0 == self.data@[index as int],
            r.1 == self.head_flags@[index as int],
    {
        (self.data[index], self.head_flags[index])
    }
}

/// The starts of `num_chunks` even divisions of `[0, len)`: the helper's
/// boundaries without the final end marker.
pub fn chunk_ranges(len: usize, num_chunks: usize) -> (r: Vec<usize>)
    requires
        num_chunks >= 1,
    ensures
        r@.len() == num_chunks,
        forall|i: int|
            0 <= i < num_chunks ==> #[trigger] r@[i] == helper_functions::chunk_offset(
                len as int,
                num_chunks as int,
                i,
            ),
{
    let mut r = helper_functions::chunk_ranges(len, num_chunks);
    let _popped = r.pop();
    r
}

/// Stripping the pre-segment total from the plain running sum yields the
/// segmented running sum.
proof fn lemma_distribute_is_seg_scan(flat: Seq<u64>, flags: Seq<bool>, g: int)
    requires
        flags.len() == flat.len(),
        0 <= g < flat.len(),
    ensures
        wsub(inclusive_scan(flat)[g], carry_before(inclusive_scan(flat), flags, g)) == seg_scan(
            flat,
            flags,
        )[g],
{
    let incl = inclusive_scan(flat);
    let ss = seg_start(flags, g);
    lemma_seg_start_bounds(flags, g);
    assert(flat.take(ss) =~= flat.subrange(0, ss));
    assert(flat.take(g + 1) =~= flat.subrange(0, g + 1));
    crate::lemma_wsum_split(flat, 0, ss, g + 1);
    if ss == 0 {
        assert(flat.subrange(0, 0) =~= Seq::<u64>::empty());
        assert(wsum(Seq::<u64>::empty()) == 0);
    } else {
        assert(incl[ss - 1] == wsum(flat.take(ss)));
    }
    crate::lemma_wsub_cancels(wsum(flat.subrange(0, ss)), wsum(flat.subrange(ss, g + 1)));
    if g >= 1 && flags[g] {
        assert(seg_start(flags, g) == g);
    }
}

/// The sequential segmented scan: flattens the batch, accumulates a running
/// sum that restarts at every sequence start, and regroups.  Fails exactly
/// when the flattened batch is non-empty but does not begin a sequence.
pub fn sequential_scan(v: &Vec<Vec<u64>>) -> (r: Option<Vec<Vec<u64>>>)
    ensures
        (flags_of(v.deep_view()).len() > 0 && !flags_of(v.deep_view())[0]) <==> r is None,
        r matches Some(out) ==> {
            &&& flat_of(out.deep_view()) == seg_scan(
                flat_of(v.deep_view()),
                flags_of(v.deep_view()),
            )
            &&& flags_of(out.deep_view()) == flags_of(v.deep_view())
            &&& forall|k: int|
                0 <= k < out.deep_view().len() ==> (#[trigger] out.deep_view()[k]).len() > 0
        },
{
    let mut vec = HeadFlagVec::from_vec(v);
    proof {
        lemma_flat_len(v.deep_view());
    }
    let ghost orig = vec.data@;
    let ghost flags = vec.head_flags@;
    let mut scan: u64 = 0;
    let mut i: usize = 0;
    while i < vec.data.len()
        invariant
            i <= orig.len(),
            vec.data@.len() == orig.len(),
            vec.head_flags@ == flags,
            flags.len() == orig.len(),
            forall|j: int| i <= j < orig.len() ==> #[trigger] vec.data@[j] == orig[j],
            forall|j: int| 0 <= j < i ==> #[trigger] vec.data@[j] == seg_scan(orig, flags)[j],
            i > 0 ==> scan == seg_scan(orig, flags)[i - 1],
            i == 0 ==> scan == 0,
        decreases orig.len() - i,
    {
        proof {
            lemma_seg_scan_step(orig, flags, i as int, scan);
        }
        if vec.head_flags[i] {
            scan = 0;
        }
        scan = scan.wrapping_add(vec.data[i]);
        let v2 = scan;
        vec.data[i] = v2;
        i += 1;
    }
    vec.to_vec()
}

/// How the running value advances by one position in the segmented scan.
proof fn lemma_seg_scan_step(orig: Seq<u64>, flags: Seq<bool>, i: int, scan: u64)
    requires
        flags.len() == orig.len(),
        0 <= i < orig.len(),
        i > 0 ==> scan == seg_scan(orig, flags)[i - 1],
        i == 0 ==> scan == 0,
    ensures
        seg_scan(orig, flags)[i] == if flags[i] {
            wadd(0, orig[i])
        } else {
            wadd(scan, orig[i])
        },
{
    if flags[i] {
        crate::lemma_wsum_singleton(orig, i);
        assert(wadd(0, orig[i]) == orig[i]);
    } else if i == 0 {
        crate::lemma_wsum_singleton(orig, 0);
        assert(seg_start(flags, 0) == 0);
        assert(wadd(0, orig[0]) == orig[0]);
    } else {
        let a = seg_start(flags, i - 1);
        assert(seg_start(flags, i) == a);
        assert(0 <= a <= i - 1) by {
            lemma_seg_start_bounds(flags, i - 1);
        }
        assert(orig.subrange(a, i).push(orig[i]) =~= orig.subrange(a, i + 1));
        crate::lemma_wsum_snoc(orig.subrange(a, i), orig[i]);
        let a1 = if i - 1 < flags.len() && flags[i - 1] {
            i - 1
        } else {
            seg_start(flags, i - 1)
        };
        assert(a1 == a) by {
            if i - 1 >= 1 && flags[i - 1] {
                assert(seg_start(flags, i - 1) == i - 1);
            }
        }
    }
}

/// The segment start never lies beyond its position.
proof fn lemma_seg_start_bounds(flags: Seq<bool>, i: int)
    requires
        0 <= i,
    ensures
        0 <= seg_start(flags, i) <= i,
    decreases i,
{
    if i > 0 && !(i < flags.len() && flags[i]) {
        lemma_seg_start_bounds(flags, i - 1);
    }
}

/// The work-efficient tree scan over one flat batch, run on a dedicated
/// pool: yields the exclusive running sum.  Never fails.
pub fn blelloch_scan(num_threads: usize, v: &Vec<u64>) -> (r: Result<Vec<u64>, ScanError>)
    requires
        num_threads >= 1,
    ensures
        r matches Ok(out) && out@ == crate::exclusive_scan(v@),
{
    let mut scanner = Scanner::new().with_threads(num_threads);
    let copy = copy_words(v);
    scanner.blelloch_scan(copy)
}

/// The segmented step-doubling scan: flattens the batch, runs the
/// step-doubling scan over the whole flat buffer on a dedicated pool, and
/// then strips each segment's incoming total in a second parallel
/// dispatch, so the running value restarts at every sequence start.  Fails
/// exactly when the flattened batch is non-empty but does not begin a
/// sequence.
pub fn hillis_steel_scan(num_threads: usize, v: &Vec<Vec<u64>>) -> (r: Option<Vec<Vec<u64>>>)
    requires
        num_threads >= 1,
    ensures
        (flags_of(v.deep_view()).len() > 0 && !flags_of(v.deep_view())[0]) <==> r is None,
        r matches Some(out) ==> {
            &&& flat_of(out.deep_view()) == seg_scan(
                flat_of(v.deep_view()),
                flags_of(v.deep_view()),
            )
            &&& flags_of(out.deep_view()) == flags_of(v.deep_view())
            &&& forall|k: int|
                0 <= k < out.deep_view().len() ==> (#[trigger] out.deep_view()[k]).len() > 0
        },
{
    let mut vec = HeadFlagVec::from_vec(v);
    proof {
        lemma_flat_len(v.deep_view());
    }
    let ghost flat = flat_of(v.deep_view());
    let ghost flags = flags_of(v.deep_view());
    let mut scanner = Scanner::new().with_threads(num_threads);
    let mut tmp: Vec<u64> = Vec::new();
    core::mem::swap(&mut tmp, &mut vec.data);
    let scanned = match scanner.hillis_steel_scan(tmp) {
        Ok(s) => s,
        Err(_) => {
            return None;
        },
    };
    let pool = ThreadPool::new(num_threads);
    let distributed = match seg_distribute(&pool, scanned, &vec.head_flags) {
        Ok(d) => d,
        Err(_) => {
            return None;
        },
    };
    proof {
        assert forall|g: int| 0 <= g < flat.len() implies #[trigger] distributed@[g] == seg_scan(
            flat,
            flags,
        )[g] by {
            lemma_distribute_is_seg_scan(flat, flags, g);
        }
        assert(distributed@ =~= seg_scan(flat, flags));
    }
    vec.data = distributed;
    vec.to_vec()
}

/// The segmented divide-and-conquer scan: flattens the batch, runs the
/// cache-blocked divide-and-conquer scan over the whole flat buffer on a
/// dedicated pool, and then strips each segment's incoming total in a
/// second parallel dispatch, so the carries crossing worker boundaries
/// respect the segment restarts.  Fails exactly when the flattened batch is
/// non-empty but does not begin a sequence.
pub fn divide_and_conquer_scan(num_threads: usize, v: &Vec<Vec<u64>>) -> (r: Option<Vec<Vec<u64>>>)
    requires
        num_threads >= 1,
    ensures
        (flags_of(v.deep_view()).len() > 0 && !flags_of(v.deep_view())[0]) <==> r is None,
        r matches Some(out) ==> {
            &&& flat_of(out.deep_view()) == seg_scan(
                flat_of(v.deep_view()),
                flags_of(v.deep_view()),
            )
            &&& flags_of(out.deep_view()) == flags_of(v.deep_view())
            &&& forall|k: int|
                0 <= k < out.deep_view().len() ==> (#[trigger] out.deep_view()[k]).len() > 0
        },
{
    let mut vec = HeadFlagVec::from_vec(v);
    proof {
        lemma_flat_len(v.deep_view());
    }
    let ghost flat = flat_of(v.deep_view());
    let ghost flags = flags_of(v.deep_view());
    let mut scanner = Scanner::new().with_threads(num_threads);
    let mut tmp: Vec<u64> = Vec::new();
    core::mem::swap(&mut tmp, &mut vec.data);
    let scanned = match scanner.divide_and_conquer_scan(tmp) {
        Ok(s) => s,
        Err(_) => {
            return None;
        },
    };
    let pool = ThreadPool::new(num_threads);
    let distributed = match seg_distribute(&pool, scanned, &vec.head_flags) {
        Ok(d) => d,
        Err(_) => {
            return None;
        },
    };
    proof {
        assert forall|g: int| 0 <= g < flat.len() implies #[trigger] distributed@[g] == seg_scan(
            flat,
            flags,
        )[g] by {
            lemma_distribute_is_seg_scan(flat, flags, g);
        }
        assert(distributed@ =~= seg_scan(flat, flags));
    }
    vec.data = distributed;
    vec.to_vec()
}

/// Copies a buffer of words./// Copies a buffer of words.
fn copy_words(v: &Vec<u64>) -> (r: Vec<u64>)
    ensures
        r@ == v@,
{
    let mut r: Vec<u64> = Vec::new();
    let mut i: usize = 0;
    while i < v.len()
        invariant
            i <= v@.len(),
            r@ == v@.take(i as int),
        decreases v@.len() - i,
    {
        r.push(v[i]);
        proof {
            assert(r@ =~= v@.take(i + 1));
        }
        i += 1;
    }
    proof {
        assert(v@.take(v@.len() as int) =~= v@);
    }
    r
}

/// The running total accumulated before position `g`'s segment: the
/// inclusive value just below the segment start, or the identity for the
/// first segment.
pub open spec fn carry_before(incl: Seq<u64>, flags: Seq<bool>, g: int) -> u64 {
    let ss = seg_start(flags, g);
    if ss == 0 {
        0u64
    } else {
        incl[ss - 1]
    }
}

/// The value a distribution worker subtracts at chunk-relative position
/// `j`: reset to the element just before each flagged position (seeded from
/// outside the chunk for position 0), carried forward otherwise.
pub open spec fn worker_carry(
    flags: Seq<bool>,
    b: int,
    sub_in: u64,
    incl_before: u64,
    c: Seq<u64>,
    j: int,
) -> u64
    decreases (if j >= 0 {
        j
    } else {
        0int
    }),
{
    if 0 <= j && b + j < flags.len() && flags[b + j] {
        if j == 0 {
            incl_before
        } else {
            c[j - 1]
        }
    } else if j <= 0 {
        sub_in
    } else {
        worker_carry(flags, b, sub_in, incl_before, c, j - 1)
    }
}

/// Seeded correctly, the worker's subtrahend at each position is exactly
/// the running total before that position's segment.
proof fn lemma_worker_carry_global(
    incl: Seq<u64>,
    flags: Seq<bool>,
    b: int,
    e: int,
    sub_in: u64,
    incl_before: u64,
    j: int,
)
    requires
        flags.len() == incl.len(),
        0 <= b < e <= incl.len(),
        0 <= j < e - b,
        sub_in == carry_before(incl, flags, b - 1),
        incl_before == if b == 0 {
            0u64
        } else {
            incl[b - 1]
        },
    ensures
        worker_carry(flags, b, sub_in, incl_before, incl.subrange(b, e), j) == carry_before(
            incl,
            flags,
            b + j,
        ),
    decreases j,
{
    let c = incl.subrange(b, e);
    let g = b + j;
    if flags[g] {
        if j == 0 {
            if b == 0 {
                assert(seg_start(flags, 0) == 0);
            } else {
                assert(seg_start(flags, g) == g);
            }
        } else {
            assert(seg_start(flags, g) == g);
            assert(c[j - 1] == incl[g - 1]);
        }
    } else {
        if j == 0 {
            if b == 0 {
                assert(seg_start(flags, 0) == 0);
                assert(seg_start(flags, -1) == 0);
            } else {
                assert(seg_start(flags, g) == seg_start(flags, b - 1));
            }
        } else {
            lemma_worker_carry_global(incl, flags, b, e, sub_in, incl_before, j - 1);
            assert(seg_start(flags, g) == seg_start(flags, g - 1));
        }
    }
}

/// One worker's share of the carry distribution: sweeps its span once,
/// resetting the subtrahend to the previous original element at every
/// flagged position and stripping it from each element, so every segment
/// loses exactly the running total accumulated before it.
fn seg_distribute_worker(
    id: ThreadId,
    msg: (SplitVectorChunk<u64>, usize, u64, u64, &Vec<bool>),
) -> (r: SplitVectorChunk<u64>)
    requires
        msg.1 + msg.0@.len() <= msg.4@.len(),
    ensures
        r.spec_start() == msg.0.spec_start(),
        r@.len() == msg.0@.len(),
        forall|j: int|
            0 <= j < msg.0@.len() ==> #[trigger] r@[j] == wsub(
                msg.0@[j],
                worker_carry(msg.4@, msg.1 as int, msg.2, msg.3, msg.0@, j),
            ),
{
    let (chunk, b, sub_in, incl_before, flags) = msg;
    let mut chunk = chunk;
    let ghost before = chunk@;
    let flen = flags.len();
    let clen = chunk.len();
    let mut carry: u64 = sub_in;
    let mut prev: u64 = incl_before;
    let mut j: usize = 0;
    while j < clen
        invariant
            clen == chunk@.len(),
            before.len() == clen,
            j <= clen,
            chunk.spec_start() == msg.0.spec_start(),
            b + clen <= flags@.len(),
            flen == flags@.len(),
            b == msg.1,
            sub_in == msg.2,
            incl_before == msg.3,
            flags == msg.4,
            prev == if j == 0 {
                incl_before
            } else {
                before[j - 1]
            },
            carry == if j == 0 {
                sub_in
            } else {
                worker_carry(flags@, b as int, sub_in, incl_before, before, j - 1)
            },
            forall|x: int| j <= x < clen ==> #[trigger] chunk@[x] == before[x],
            forall|x: int|
                0 <= x < j ==> #[trigger] chunk@[x] == wsub(
                    before[x],
                    worker_carry(flags@, b as int, sub_in, incl_before, before, x),
                ),
        decreases clen - j,
    {
        let orig_j = *chunk.get(j);
        if flags[b + j] {
            carry = prev;
        }
        proof {
            assert(carry == worker_carry(flags@, b as int, sub_in, incl_before, before, j as int));
        }
        let nv = orig_j.wrapping_sub(carry);
        chunk.set(j, nv);
        prev = orig_j;
        j += 1;
    }
    chunk
}

/// One sweep over the flags computes, for every span, the seed subtrahend
/// (the running total before the segment entering the span) and the
/// inclusive value just below the span.
fn seg_chunk_seeds(incl: &Vec<u64>, flags: &Vec<bool>, points: &Vec<usize>, k: usize) -> (r: Vec<
    (u64, u64),
>)
    requires
        incl@.len() == flags@.len(),
        k >= 1,
        points@.len() == k + 1,
        forall|t: int| 0 <= t < points@.len() ==> #[trigger] points@[t] <= incl@.len(),
        forall|t: int| 0 <= t < points@.len() - 1 ==> #[trigger] points@[t] < points@[t + 1],
        points@[0] == 0,
    ensures
        r@.len() == k,
        forall|i: int|
            0 <= i < k ==> (#[trigger] r@[i]).0 == carry_before(incl@, flags@, points@[i] - 1)
                && r@[i].1 == (if points@[i] == 0 {
                0u64
            } else {
                incl@[points@[i] - 1]
            }),
{
    let len = incl.len();
    let mut subs: Vec<(u64, u64)> = Vec::new();
    let mut cur_ss: usize = 0;
    let mut pos: usize = 0;
    let mut c: usize = 0;
    while c < k
        invariant
            c <= k,
            k >= 1,
            points@.len() == k + 1,
            len == incl@.len(),
            flags@.len() == len,
            forall|t: int| 0 <= t < points@.len() ==> #[trigger] points@[t] <= len,
            forall|t: int| 0 <= t < points@.len() - 1 ==> #[trigger] points@[t] < points@[t + 1],
            points@[0] == 0,
            pos == points@[c as int],
            cur_ss as int == seg_start(flags@, pos - 1),
            cur_ss <= len,
            subs@.len() == c,
            forall|i: int|
                0 <= i < c ==> (#[trigger] subs@[i]).0 == carry_before(
                    incl@,
                    flags@,
                    points@[i] - 1,
                ) && subs@[i].1 == (if points@[i] == 0 {
                    0u64
                } else {
                    incl@[points@[i] - 1]
                }),
        decreases k - c,
    {
        let b = points[c];
        proof {
            if pos > 0 {
                lemma_seg_start_bounds(flags@, pos - 1);
            }
        }
        let sub_in = if cur_ss == 0 {
            0
        } else {
            incl[cur_ss - 1]
        };
        let incl_before = if b == 0 {
            0
        } else {
            incl[b - 1]
        };
        subs.push((sub_in, incl_before));
        let e = points[c + 1];
        while pos < e
            invariant
                pos <= e,
                e <= len,
                len == incl@.len(),
                flags@.len() == len,
                cur_ss as int == seg_start(flags@, pos - 1),
                cur_ss <= len,
            decreases e - pos,
        {
            if flags[pos] {
                cur_ss = pos;
                proof {
                    if pos > 0 {
                        assert(seg_start(flags@, pos as int) == pos);
                    } else {
                        assert(seg_start(flags@, 0) == 0);
                    }
                }
            } else {
                proof {
                    if pos > 0 {
                        assert(seg_start(flags@, pos as int) == seg_start(flags@, pos - 1));
                    } else {
                        assert(seg_start(flags@, 0) == 0);
                    }
                }
            }
            pos += 1;
        }
        c += 1;
    }
    subs
}

/// The carry-distribution pass of the segmented scans: given the plain
/// running sum of the flattened batch, strips from every element the total
/// accumulated before its segment, one worker per span, with the resets at
/// segment heads respected inside each span.  Never fails.
#[verifier::rlimit(100)]
fn seg_distribute(pool: &ThreadPool, incl: Vec<u64>, flags: &Vec<bool>) -> (r: Result<
    Vec<u64>,
    ScanError,
>)
    requires
        incl@.len() == flags@.len(),
    ensures
        r matches Ok(out) && out@.len() == incl@.len() && (forall|g: int|
            0 <= g < incl@.len() ==> #[trigger] out@[g] == wsub(
                incl@[g],
                carry_before(incl@, flags@, g),
            )),
{
    let ghost incl0 = incl@;
    if incl.len() == 0 {
        return Ok(incl);
    }
    let n = pool.num_threads();
    let len = incl.len();
    let k = if n < len {
        n
    } else {
        len
    };
    let points = helper_functions::chunk_ranges(len, k);
    proof {
        assert forall|t: int| 0 <= t < points@.len() implies #[trigger] points@[t] <= len by {
            helper_functions::lemma_chunk_offset_bounds(len as int, k as int, t);
        }
    }
    let subs = seg_chunk_seeds(&incl, flags, &points, k);
    let mut data = SplitVector::with_vec(incl);
    let chunks = match data.chunk(&points) {
        Some(cs) => cs,
        None => {
            return Err(ScanError::InvalidChunking);
        },
    };
    let ghost pre = chunks@;
    let mut chunks = chunks;
    let mut msgs: Vec<(SplitVectorChunk<u64>, usize, u64, u64, &Vec<bool>)> = Vec::new();
    let count = chunks.len();
    let mut t: usize = 0;
    while t < count
        invariant
            count == pre.len(),
            t + chunks@.len() == count,
            chunks@ == pre.subrange(t as int, count as int),
            msgs@.len() == t,
            count == subs@.len(),
            count + 1 == points@.len(),
            forall|i: int|
                0 <= i < t ==> #[trigger] msgs@[i] == (
                    pre[i],
                    points@[i],
                    subs@[i].0,
                    subs@[i].1,
                    flags,
                ),
        decreases count - t,
    {
        let ch = chunks.remove(0);
        let b = points[t];
        let pair = subs[t];
        msgs.push((ch, b, pair.0, pair.1, flags));
        t += 1;
    }
    let ghost nthreads = pool.threads();
    proof {
        assert forall|i: int| 0 <= i < msgs@.len() implies call_requires(
            seg_distribute_worker,
            ((i as usize, nthreads), msgs@[i]),
        ) by {
            assert(msgs@[i] == (pre[i], points@[i], subs@[i].0, subs@[i].1, flags));
            assert(pre[i].spec_start() == points@[i]);
            assert(pre[i]@ == incl0.subrange(points@[i] as int, points@[i + 1] as int));
        }
    }
    let recv = pool.sendall(msgs, seg_distribute_worker);
    let results = match recv.gather() {
        Ok(rs) => rs,
        Err(_) => {
            return Err(ScanError::FailedThreadInGather);
        },
    };
    let ghost res0 = results@;
    let ghost f = |g: int| wsub(incl0[g], carry_before(incl0, flags@, g));
    proof {
        assert forall|i: int| 0 <= i < count implies {
            &&& (#[trigger] res0[i]).spec_start() == points@[i]
            &&& res0[i]@.len() == points@[i + 1] - points@[i]
            &&& forall|x: int|
                0 <= x < res0[i]@.len() ==> #[trigger] res0[i]@[x] == f(points@[i] + x)
        } by {
            assert(call_ensures(
                seg_distribute_worker,
                ((i as usize, nthreads), (pre[i], points@[i], subs@[i].0, subs@[i].1, flags)),
                res0[i],
            ));
            assert(pre[i]@ == incl0.subrange(points@[i] as int, points@[i + 1] as int));
            assert forall|x: int| 0 <= x < res0[i]@.len() implies #[trigger] res0[i]@[x] == f(
                points@[i] + x,
            ) by {
                lemma_worker_carry_global(
                    incl0,
                    flags@,
                    points@[i] as int,
                    points@[i + 1] as int,
                    subs@[i].0,
                    subs@[i].1,
                    x,
                );
            }
        }
    }
    data.absorb(results);
    proof {
        lemma_concat_chunks_tiled(res0, f);
    }
    match data.extract() {
        Some(v) => Ok(v),
        None => Err(ScanError::BrokenThreadLocking),
    }
}

} // verus!
