use vstd::prelude::*;

use crate::prefix_scans::helper_functions;
use crate::prefix_scans::{ScanError, Scanner};
use crate::split_vector::{
    concat_chunks, lemma_concat_chunks_tiled, lemma_concat_chunks_tiled_rel, SplitVector,
    SplitVectorChunk,
};
use crate::util::thread_pool::ThreadId;
use crate::{exclusive_scan, wadd, wsum};

verus! {

/// The start of the rounded-down pair in a chunk of `clen` elements at step
/// `s`: the last pair start whose partner would fall beyond the chunk and
/// which therefore combines with the chunk's final element, or -1 when no
/// such start exists.
pub open spec fn chunk_tail_start(clen: int, s: int) -> int {
    let i0 = ((clen - 1) / (2 * s)) * (2 * s);
    if i0 + s >= clen && i0 < clen - 1 && (clen - 1) % (2 * s) != s {
        i0
    } else {
        -1
    }
}

/// The partner of pair start `j` in a chunk of `clen` elements: `j + s`, the
/// final element for an unpaired tail, or -1 when `j` is the final element
/// itself.
pub open spec fn chunk_pair(clen: int, s: int, j: int) -> int {
    if j + s < clen {
        j + s
    } else if j < clen - 1 {
        clen - 1
    } else {
        -1
    }
}

/// One up-sweep pass over a chunk: each pair's partner receives the
/// combination of the pair, everything else stays.
pub open spec fn up_step_chunk(c: Seq<u64>, s: int) -> Seq<u64> {
    Seq::new(
        c.len(),
        |j: int|
            if j % (2 * s) == s {
                wadd(c[j - s], c[j])
            } else if j == c.len() - 1 && chunk_tail_start(c.len() as int, s) >= 0 {
                wadd(c[chunk_tail_start(c.len() as int, s)], c[j])
            } else {
                c[j]
            },
    )
}

/// One down-sweep pass over a chunk: each pair's partner receives the
/// combination, each pair's start receives the partner's old value,
/// everything else stays.
pub open spec fn down_step_chunk(c: Seq<u64>, s: int) -> Seq<u64> {
    Seq::new(
        c.len(),
        |j: int|
            if j % (2 * s) == s {
                wadd(c[j - s], c[j])
            } else if j == c.len() - 1 && chunk_tail_start(c.len() as int, s) >= 0 {
                wadd(c[chunk_tail_start(c.len() as int, s)], c[j])
            } else if j % (2 * s) == 0 && chunk_pair(c.len() as int, s, j) >= 0 {
                c[chunk_pair(c.len() as int, s, j)]
            } else {
                c[j]
            },
    )
}

/// The worker loop's progress: every pair whose start lies below `hi` has
/// been combined (and on the down sweep swapped); everything else still
/// holds its original value.
pub open spec fn pass_inv(before: Seq<u64>, state: Seq<u64>, s: int, down: bool, hi: int) -> bool {
    forall|j: int|
        0 <= j < before.len() ==> #[trigger] state[j] == (if j % (2 * s) == s && j < hi {
            wadd(before[j - s], before[j])
        } else if j == before.len() - 1 && chunk_tail_start(before.len() as int, s) >= 0
            && chunk_tail_start(before.len() as int, s) < hi {
            wadd(before[chunk_tail_start(before.len() as int, s)], before[j])
        } else if down && j % (2 * s) == 0 && j < hi && chunk_pair(before.len() as int, s, j)
            >= 0 {
            before[chunk_pair(before.len() as int, s, j)]
        } else {
            before[j]
        })
}

/// One worker's share of a sweep: walks its chunk's pair starts, spaced
/// `2 * step` apart, combining each pair (and, on the down sweep, swapping
/// the pair's old partner value into the start).
fn blelloch_pass_worker(id: ThreadId, msg: (usize, SplitVectorChunk<u64>, bool)) -> (r:
    SplitVectorChunk<u64>)
    requires
        msg.0 >= 1,
    ensures
        r.spec_start() == msg.1.spec_start(),
        r@ == if msg.2 {
            down_step_chunk(msg.1@, msg.0 as int)
        } else {
            up_step_chunk(msg.1@, msg.0 as int)
        },
{
    let (step, chunk, down) = msg;
    let mut chunk = chunk;
    let ghost before = chunk@;
    let ghost ts = 2 * (step as int);
    let clen = chunk.len();
    let two_step = if step <= usize::MAX / 2 {
        2 * step
    } else {
        usize::MAX
    };
    let mut i: usize = 0;
    while i < clen
        invariant
            clen == chunk@.len(),
            before.len() == clen,
            step >= 1,
            ts == 2 * (step as int),
            two_step == if step <= usize::MAX / 2 {
                2 * (step as int)
            } else {
                usize::MAX as int
            },
            chunk.spec_start() == msg.1.spec_start(),
            i <= clen,
            i == clen || (i as int) % ts == 0,
            pass_inv(before, chunk@, step as int, down, i as int),
        decreases clen - i,
    {
        let ghost pre_iter = chunk@;
        let ghost ii = i as int;
        let ghost cts = chunk_tail_start(clen as int, step as int);
        let mut wrote_pair: bool = false;
        let mut pair: usize = 0;
        if step < clen - i {
            pair = i + step;
            wrote_pair = true;
            proof {
                vstd::arithmetic::div_mod::lemma_add_mod_noop(ii, step as int, ts);
                vstd::arithmetic::div_mod::lemma_small_mod(step as nat, ts as nat);
                vstd::arithmetic::div_mod::lemma_small_mod(0nat, ts as nat);
                assert((ii + step) % ts == step && ii % ts != step && (ii + step) % ts != 0);
                if ii + step == clen - 1 {
                    assert(cts == -1) by {
                        assert((clen - 1) % ts == step);
                    }
                }
            }
        } else if i < clen - 1 {
            pair = clen - 1;
            wrote_pair = true;
            proof {
                lemma_tail_start_here(clen as int, step as int, ii);
                assert((clen - 1) % ts != 0) by (nonlinear_arith)
                    requires
                        ts == 2 * (step as int),
                        step >= 1,
                        ((clen - 1) / ts) * ts == ii,
                        ii < clen - 1,
                ;
                assert(ii % ts != step) by (nonlinear_arith)
                    requires
                        ii % ts == 0,
                        ts == 2 * (step as int),
                        step >= 1,
                ;
            }
        }
        if wrote_pair {
            if down {
                let v = chunk.get(i).wrapping_add(*chunk.get(pair));
                let displaced = chunk.replace(pair, v);
                chunk.set(i, displaced);
            } else {
                let v = chunk.get(i).wrapping_add(*chunk.get(pair));
                chunk.set(pair, v);
            }
        }
        let ghost i_new: int = if clen - ii <= two_step {
            clen as int
        } else {
            ii + ts
        };
        proof {
            assert(i_new <= ii + ts);
            if clen - ii <= two_step {
                lemma_no_more_pairs(clen as int, step as int, ii);
            } else {
                assert((ii + ts) % ts == 0) by (nonlinear_arith)
                    requires
                        ii % ts == 0,
                        ts == 2 * (step as int),
                        step >= 1,
                ;
            }
            assert forall|j: int| 0 <= j < clen implies #[trigger] chunk@[j] == (if j % (2 * (
            step as int)) == step && j < i_new {
                wadd(before[j - step], before[j])
            } else if j == clen - 1 && cts >= 0 && cts < i_new {
                wadd(before[cts], before[j])
            } else if down && j % (2 * (step as int)) == 0 && j < i_new && chunk_pair(
                clen as int,
                step as int,
                j,
            ) >= 0 {
                before[chunk_pair(clen as int, step as int, j)]
            } else {
                before[j]
            }) by {
                assert(pre_iter[j] == (if j % ts == step && j < ii {
                    wadd(before[j - step], before[j])
                } else if j == clen - 1 && cts >= 0 && cts < ii {
                    wadd(before[cts], before[j])
                } else if down && j % ts == 0 && j < ii && chunk_pair(clen as int, step as int, j)
                    >= 0 {
                    before[chunk_pair(clen as int, step as int, j)]
                } else {
                    before[j]
                }));
                if ii <= j < i_new {
                    assert(j % ts == step ==> j == ii + step) by (nonlinear_arith)
                        requires
                            ii % ts == 0,
                            ts == 2 * (step as int),
                            step >= 1,
                            ii <= j < i_new,
                            i_new <= ii + ts,
                    ;
                    assert(j % ts == 0 ==> j == ii) by (nonlinear_arith)
                        requires
                            ii % ts == 0,
                            ts == 2 * (step as int),
                            step >= 1,
                            ii <= j < i_new,
                            i_new <= ii + ts,
                    ;
                }
                if j == clen - 1 && cts >= 0 {
                    assert(cts % ts == 0) by (nonlinear_arith)
                        requires
                            ts >= 2,
                            cts == ((clen - 1) / ts) * ts,
                    ;
                    if ii <= cts < i_new {
                        assert(cts == ii) by (nonlinear_arith)
                            requires
                                cts % ts == 0,
                                ii % ts == 0,
                                ii <= cts < i_new,
                                i_new <= ii + ts,
                                ts >= 2,
                        ;
                    }
                }
                if wrote_pair && j == pair && pair == ii + step {
                    assert(pre_iter[ii] == before[ii]);
                    assert(pre_iter[j] == before[j]);
                } else if wrote_pair && j == pair && pair == clen - 1 {
                    assert(cts == ii);
                    assert(pre_iter[ii] == before[ii]);
                    assert(pre_iter[j] == before[j]);
                } else if down && wrote_pair && j == ii {
                    assert(pre_iter[pair as int] == before[pair as int]);
                }
            }
        }
        if clen - i <= two_step {
            i = clen;
        } else {
            i = i + two_step;
        }
        proof {
            assert(i as int == i_new);
        }
    }
    proof {
        if down {
            assert(chunk@ =~= down_step_chunk(before, step as int));
        } else {
            assert(chunk@ =~= up_step_chunk(before, step as int));
        }
    }
    chunk
}

/// When the current pair start has no room for a full partner, it is the
/// chunk's rounded-down tail start.
proof fn lemma_tail_start_here(clen: int, s: int, i: int)
    requires
        s >= 1,
        0 <= i < clen - 1,
        i % (2 * s) == 0,
        i + s >= clen,
    ensures
        chunk_tail_start(clen, s) == i,
        (clen - 1) % (2 * s) != s,
{
    let ts = 2 * s;
    assert(((clen - 1) / ts) * ts == i) by (nonlinear_arith)
        requires
            s >= 1,
            ts == 2 * s,
            0 <= i < clen - 1,
            i % ts == 0,
            i + s >= clen,
    ;
    assert((clen - 1) % ts != s) by (nonlinear_arith)
        requires
            s >= 1,
            ts == 2 * s,
            0 <= i < clen - 1,
            i % ts == 0,
            i + s >= clen,
            ((clen - 1) / ts) * ts == i,
    ;
}

/// Past the last start that fits, no pair target and no tail start remain
/// unprocessed.
proof fn lemma_no_more_pairs(clen: int, s: int, i: int)
    requires
        s >= 1,
        0 <= i < clen,
        i % (2 * s) == 0,
        clen - i <= 2 * s,
    ensures
        forall|j: int| 0 <= j < clen && #[trigger] (j % (2 * s)) == s ==> j < i + s + 1,
        chunk_tail_start(clen, s) >= 0 ==> chunk_tail_start(clen, s) <= i,
        forall|j: int|
            0 <= j < clen && #[trigger] (j % (2 * s)) == 0 && chunk_pair(clen, s, j) >= 0 ==> j
                <= i,
{
    let ts = 2 * s;
    assert forall|j: int| 0 <= j < clen && #[trigger] (j % ts) == s implies j < i + s + 1 by {
        assert(j < i + s + 1) by (nonlinear_arith)
            requires
                s >= 1,
                ts == 2 * s,
                0 <= i < clen,
                i % ts == 0,
                clen - i <= ts,
                0 <= j < clen,
                j % ts == s,
        ;
    }
    if chunk_tail_start(clen, s) >= 0 {
        assert(((clen - 1) / ts) * ts <= i) by (nonlinear_arith)
            requires
                s >= 1,
                ts == 2 * s,
                0 <= i < clen,
                i % ts == 0,
                clen - i <= ts,
        ;
    }
    assert forall|j: int|
        0 <= j < clen && #[trigger] (j % ts) == 0 && chunk_pair(clen, s, j) >= 0 implies j
        <= i by {
        assert(j <= i) by (nonlinear_arith)
            requires
                s >= 1,
                ts == 2 * s,
                0 <= i < clen,
                i % ts == 0,
                clen - i <= ts,
                0 <= j < clen,
                j % ts == 0,
        ;
    }
}

/// The rounded-down tail start of a whole sweep at step `s`: the last pair
/// start (they sit at positions `s - 1 + c * 2s`) whose partner would fall
/// beyond the buffer and which therefore combines with the final element,
/// or -1 when there is none.
pub open spec fn global_tail_start(len: int, s: int) -> int {
    let b = s - 1 + (((len - 1) - (s - 1)) / (2 * s)) * (2 * s);
    if b + s >= len && b < len - 1 && (len - 1) % (2 * s) != 2 * s - 1 {
        b
    } else {
        -1
    }
}

/// One whole sweep pass over the buffer at step `s`: pair starts sit at
/// positions congruent to `s - 1` modulo `2s`, each pair's partner receives
/// the pair's combination, and on the down sweep each start receives its
/// partner's old value.
pub open spec fn pass_value(state: Seq<u64>, s: int, down: bool, g: int) -> u64 {
    let len = state.len() as int;
    if g % (2 * s) == 2 * s - 1 {
        wadd(state[g - s], state[g])
    } else if g == len - 1 && global_tail_start(len, s) >= 0 {
        wadd(state[global_tail_start(len, s)], state[g])
    } else if down && g % (2 * s) == s - 1 && chunk_pair(len, s, g) >= 0 {
        state[chunk_pair(len, s, g)]
    } else {
        state[g]
    }
}

/// Shifting by a pair-start offset turns chunk-local residues into global
/// ones.
proof fn lemma_shift_residue(b: int, j: int, s: int)
    requires
        s >= 1,
        b % (2 * s) == s - 1,
        0 <= j,
    ensures
        ((b + j) % (2 * s) == 2 * s - 1) <==> (j % (2 * s) == s),
        ((b + j) % (2 * s) == s - 1) <==> (j % (2 * s) == 0),
{
    let ts = 2 * s;
    vstd::arithmetic::div_mod::lemma_add_mod_noop(b, j, ts);
    vstd::arithmetic::div_mod::lemma_mod_division_less_than_divisor(j, ts);
    let r = j % ts;
    if s - 1 + r < ts {
        vstd::arithmetic::div_mod::lemma_small_mod((s - 1 + r) as nat, ts as nat);
    } else {
        vstd::arithmetic::div_mod::lemma_mod_sub_multiples_vanish(s - 1 + r, ts);
        vstd::arithmetic::div_mod::lemma_small_mod((s - 1 + r - ts) as nat, ts as nat);
    }
}

/// A chunk pass over `[b, e)` agrees with the whole-buffer pass wherever the
/// chunk boundaries are aligned to pair starts.
proof fn lemma_chunk_matches_global(state: Seq<u64>, s: int, down: bool, b: int, e: int, j: int)
    requires
        1 <= s < state.len(),
        s - 1 <= b < e <= state.len(),
        b % (2 * s) == s - 1,
        e == state.len() || e % (2 * s) == s - 1,
        0 <= j < e - b,
    ensures
        (if down {
            down_step_chunk(state.subrange(b, e), s)
        } else {
            up_step_chunk(state.subrange(b, e), s)
        })[j] == pass_value(state, s, down, b + j),
{
    let len = state.len() as int;
    let ts = 2 * s;
    let c = state.subrange(b, e);
    let clen = e - b;
    let g = b + j;
    lemma_shift_residue(b, j, s);
    vstd::arithmetic::div_mod::lemma_fundamental_div_mod(b, ts);
    let t = b / ts;
    if e < len {
        // A middle chunk: its length is a multiple of the pair stride, so it
        // has no rounded-down tail and every start has a full partner.
        vstd::arithmetic::div_mod::lemma_fundamental_div_mod(e, ts);
        let u = e / ts;
        let q = u - t;
        assert(clen == ts * q) by {
            vstd::arithmetic::mul::lemma_mul_is_distributive_sub(ts, u, t);
        }
        assert(q >= 1) by {
            if q <= 0 {
                vstd::arithmetic::mul::lemma_mul_inequality(q, 0, ts);
                vstd::arithmetic::mul::lemma_mul_is_commutative(q, ts);
            }
        }
        assert(clen - 1 == ts * (q - 1) + (ts - 1)) by {
            vstd::arithmetic::mul::lemma_mul_is_distributive_sub(ts, q, 1);
        }
        vstd::arithmetic::div_mod::lemma_fundamental_div_mod_converse(clen - 1, ts, q - 1, ts - 1);
        assert(((clen - 1) / ts) * ts == (q - 1) * ts);
        assert(chunk_tail_start(clen, s) == -1) by {
            vstd::arithmetic::mul::lemma_mul_is_commutative(q - 1, ts);
            vstd::arithmetic::mul::lemma_mul_is_distributive_sub(ts, q, 1);
            assert((q - 1) * ts + s < clen);
        }
        assert(g < len - 1);
        if j % ts == s {
            assert(j >= s) by {
                if j < ts {
                    vstd::arithmetic::div_mod::lemma_small_mod(j as nat, ts as nat);
                }
            }
            assert(c[j] == state[g] && c[j - s] == state[g - s]);
        } else if j % ts == 0 {
            assert(j + s < clen) by {
                vstd::arithmetic::div_mod::lemma_fundamental_div_mod(j, ts);
                vstd::arithmetic::div_mod::lemma_div_is_ordered(j, clen - 1, ts);
                vstd::arithmetic::mul::lemma_mul_inequality(j / ts, q - 1, ts);
                vstd::arithmetic::mul::lemma_mul_is_commutative(j / ts, ts);
                vstd::arithmetic::mul::lemma_mul_is_commutative(q - 1, ts);
                vstd::arithmetic::mul::lemma_mul_is_distributive_sub(ts, q, 1);
            }
            if down {
                assert(chunk_pair(clen, s, j) == j + s);
                assert(chunk_pair(len, s, g) == g + s);
                assert(c[j + s] == state[g + s]);
            } else {
                assert(c[j] == state[g]);
            }
        } else {
            assert(c[j] == state[g]);
        }
    } else {
        // The final chunk: its rounded-down tail is the whole sweep's.
        assert(len - s == ts * t + (clen - 1));
        vstd::arithmetic::div_mod::lemma_hoist_over_denominator(clen - 1, t, ts as nat);
        assert((clen - 1) / ts + t == (len - s) / ts);
        assert(b + ((clen - 1) / ts) * ts == s - 1 + ((len - s) / ts) * ts) by {
            vstd::arithmetic::mul::lemma_mul_is_distributive_add_other_way(
                ts,
                (clen - 1) / ts,
                t,
            );
            vstd::arithmetic::mul::lemma_mul_is_commutative(t, ts);
        }
        lemma_shift_residue(b, clen - 1, s);
        assert((clen - 1) % ts == s <==> (len - 1) % ts == ts - 1);
        assert(chunk_tail_start(clen, s) >= 0 ==> b + chunk_tail_start(clen, s)
            == global_tail_start(len, s));
        assert(chunk_tail_start(clen, s) >= 0 <==> global_tail_start(len, s) >= 0);
        if j % ts == s {
            assert(j >= s) by {
                if j < ts {
                    vstd::arithmetic::div_mod::lemma_small_mod(j as nat, ts as nat);
                }
            }
            assert(c[j] == state[g] && c[j - s] == state[g - s]);
        } else if j == clen - 1 && chunk_tail_start(clen, s) >= 0 {
            assert(c[chunk_tail_start(clen, s)] == state[global_tail_start(len, s)]);
            assert(c[j] == state[g]);
        } else if down && j % ts == 0 && chunk_pair(clen, s, j) >= 0 {
            assert(chunk_pair(clen, s, j) == chunk_pair(len, s, g) - b);
            assert(c[chunk_pair(clen, s, j)] == state[chunk_pair(len, s, g)]);
        } else {
            assert(c[j] == state[g]);
        }
    }
}

/// How many pair operations a sweep at step `s` performs on `len` elements:
/// one per full pair, plus one for an unpaired tail.
pub open spec fn spec_num_operations(len: int, s: int) -> int {
    let operands = len / s;
    operands / 2 + if operands % 2 == 1 && len % (2 * s) > 0 {
        1int
    } else {
        0int
    }
}

/// The last pair operation's start index still lies inside the buffer.
proof fn lemma_ops_bound(len: int, s: int)
    requires
        1 <= s < len,
    ensures
        spec_num_operations(len, s) >= 1,
        (spec_num_operations(len, s) - 1) * (2 * s) + s - 1 < len,
        2 * spec_num_operations(len, s) <= len + 2,
{
    vstd::arithmetic::div_mod::lemma_div_is_ordered_by_denominator(len, 1, s);
    vstd::arithmetic::div_mod::lemma_div_basics(len);
    let operands = len / s;
    let ops = spec_num_operations(len, s);
    vstd::arithmetic::div_mod::lemma_fundamental_div_mod(len, s);
    vstd::arithmetic::div_mod::lemma_mod_bound(len, s);
    vstd::arithmetic::div_mod::lemma_div_non_zero(len, s);
    if operands % 2 == 1 {
        // An odd operand count always leaves something beyond the last full
        // stride, so the extra tail operation is counted.
        vstd::arithmetic::div_mod::lemma_fundamental_div_mod(operands, 2);
        vstd::arithmetic::div_mod::lemma_mod_bound(operands, 2);
        let a = operands / 2;
        assert(len % (2 * s) == s + len % s) by {
            assert(len == (2 * s) * (s * a / s)  + (s + len % s)) by (nonlinear_arith)
                requires
                    s >= 1,
                    operands == len / s,
                    operands == 2 * a + 1,
                    len == s * operands + len % s,
            ;
            vstd::arithmetic::div_mod::lemma_fundamental_div_mod_converse(
                len,
                2 * s,
                s * a / s,
                s + len % s,
            );
        }
        assert(ops == a + 1);
        assert((ops - 1) * (2 * s) + s - 1 < len) by (nonlinear_arith)
            requires
                s >= 1,
                ops == a + 1,
                a >= 0,
                len == s * (2 * a + 1) + len % s,
                len % s >= 0,
        ;
    } else {
        vstd::arithmetic::div_mod::lemma_fundamental_div_mod(operands, 2);
        vstd::arithmetic::div_mod::lemma_mod_bound(operands, 2);
        let a = operands / 2;
        assert(ops == a);
        assert(a >= 1) by {
            if a == 0 {
                assert(operands == 0);
            }
        }
        assert((ops - 1) * (2 * s) + s - 1 < len) by (nonlinear_arith)
            requires
                s >= 1,
                ops == a,
                a >= 1,
                operands == 2 * a,
                len == s * operands + len % s,
                len % s >= 0,
        ;
    }
}

/// Given the current step of the pyramid, the buffer length and the worker
/// count, returns the boundaries of the ranges handed to the workers: every
/// boundary but the last sits on a pair start, and once the operation count
/// drops below the sequential threshold a single range covers the whole
/// sweep.
#[verifier::rlimit(100)]
fn pyramid_ranges_for(step: usize, vec_len: usize, num_threads: usize, sequential_length: usize) -> (r:
    Vec<usize>)
    requires
        1 <= step,
        step < vec_len,
        num_threads >= 1,
    ensures
        r@.len() >= 2,
        r@.len() - 1 <= num_threads,
        r@[0] == step - 1,
        r@.last() == vec_len,
        forall|i: int| 0 <= i < r@.len() - 1 ==> #[trigger] r@[i] < r@[i + 1],
        forall|i: int|
            0 <= i < r@.len() - 1 ==> (#[trigger] r@[i]) as int % (2 * (step as int)) == step - 1,
{
    let ghost ts = 2 * (step as int);
    // The number of pair operations in this sweep; a stride beyond the
    // buffer leaves exactly the one rounded-down tail operation.
    let num_operations: usize = if step > usize::MAX / 2 {
        1
    } else {
        let num_operands = vec_len / step;
        let mut ops = num_operands / 2;
        if num_operands % 2 == 1 && vec_len % (2 * step) > 0 {
            ops = ops + 1;
        }
        ops
    };
    proof {
        lemma_ops_bound(vec_len as int, step as int);
        if step > usize::MAX / 2 {
            assert(vec_len / step == 1) by (nonlinear_arith)
                requires
                    step as int > usize::MAX as int / 2,
                    step < vec_len <= usize::MAX,
            ;
            assert((vec_len as int) % (2 * (step as int)) == vec_len) by {
                vstd::arithmetic::div_mod::lemma_small_mod(
                    vec_len as nat,
                    (2 * (step as int)) as nat,
                );
            }
        }
        assert(num_operations == spec_num_operations(vec_len as int, step as int));
    }
    let ghost ops = num_operations as int;
    let mut r: Vec<usize> = Vec::new();
    if num_operations < sequential_length {
        r.push(step - 1);
        r.push(vec_len);
        proof {
            vstd::arithmetic::div_mod::lemma_small_mod((step - 1) as nat, ts as nat);
        }
        return r;
    }
    let starts: Vec<usize> = if num_operations > num_threads {
        helper_functions::chunk_ranges(num_operations, num_threads)
    } else {
        let mut v: Vec<usize> = Vec::new();
        let mut o: usize = 0;
        while o <= num_operations
            invariant
                o <= num_operations + 1,
                2 * (num_operations as int) <= vec_len + 2,
                vec_len <= usize::MAX,
                v@.len() == o,
                forall|i: int| 0 <= i < o ==> #[trigger] v@[i] == i,
            decreases num_operations + 1 - o,
        {
            v.push(o);
            o += 1;
        }
        v
    };
    proof {
        if num_operations > num_threads {
            assert forall|i: int| 0 <= i < starts@.len() implies #[trigger] starts@[i] <= ops by {
                helper_functions::lemma_chunk_offset_bounds(
                    ops,
                    num_threads as int,
                    i,
                );
            }
        }
    }
    proof {
        assert forall|i: int| 0 <= i < starts@.len() - 1 implies (starts@[i] as int) * ts + step
            - 1 < vec_len by {
            lemma_points_strict_chain(starts@, i, starts@.len() - 1);
            vstd::arithmetic::mul::lemma_mul_inequality(starts@[i] as int, ops - 1, ts);
        }
    }
    pyramid_map(&starts, step, vec_len)
}

/// Turns operation indices into buffer positions: operation `o` starts at
/// `o * 2 * step + step - 1`; the final boundary is the buffer's length.
#[verifier::rlimit(100)]
fn pyramid_map(starts: &Vec<usize>, step: usize, vec_len: usize) -> (r: Vec<usize>)
    requires
        1 <= step,
        step < vec_len,
        starts@.len() >= 2,
        forall|i: int| 0 <= i < starts@.len() - 1 ==> #[trigger] starts@[i] < starts@[i + 1],
        starts@[0] == 0,
        forall|i: int|
            0 <= i < starts@.len() - 1 ==> (#[trigger] starts@[i] as int) * (2 * (step as int))
                + step - 1 < vec_len,
    ensures
        r@.len() == starts@.len(),
        r@[0] == step - 1,
        r@.last() == vec_len,
        forall|i: int| 0 <= i < r@.len() - 1 ==> #[trigger] r@[i] < r@[i + 1],
        forall|i: int|
            0 <= i < r@.len() - 1 ==> (#[trigger] r@[i]) as int % (2 * (step as int)) == step - 1,
{
    let ghost ts = 2 * (step as int);
    let count = starts.len() - 1;
    let stride = if step <= usize::MAX / 2 {
        2 * step
    } else {
        usize::MAX
    };
    let mut r: Vec<usize> = Vec::new();
    let mut t: usize = 0;
    while t < count
        invariant
            count == starts@.len() - 1,
            t <= count,
            r@.len() == t,
            step >= 1,
            step < vec_len <= usize::MAX,
            ts == 2 * (step as int),
            stride == if step as int <= usize::MAX as int / 2 {
                ts
            } else {
                usize::MAX as int
            },
            forall|i: int| 0 <= i < starts@.len() - 1 ==> #[trigger] starts@[i] < starts@[i + 1],
            forall|i: int|
                0 <= i < starts@.len() - 1 ==> (#[trigger] starts@[i] as int) * ts + step - 1
                    < vec_len,
            forall|i: int| 0 <= i < t ==> #[trigger] r@[i] == starts@[i] as int * ts + step - 1,
            forall|i: int| 0 <= i < t ==> (#[trigger] r@[i]) as int % ts == step - 1,
            forall|i: int| 0 <= i < t ==> #[trigger] r@[i] < vec_len,
        decreases count - t,
    {
        proof {
            if step as int > usize::MAX as int / 2 {
                if starts@[t as int] >= 1 {
                    vstd::arithmetic::mul::lemma_mul_inequality(1, starts@[t as int] as int, ts);
                }
                assert(starts@[t as int] == 0);
            }
            vstd::arithmetic::div_mod::lemma_mod_multiples_vanish(
                starts@[t as int] as int,
                step - 1,
                ts,
            );
            vstd::arithmetic::mul::lemma_mul_is_commutative(starts@[t as int] as int, ts);
            vstd::arithmetic::div_mod::lemma_small_mod((step - 1) as nat, ts as nat);
        }
        let b = starts[t] * stride + (step - 1);
        proof {
            assert((b as int) % ts == step - 1);
        }
        r.push(b);
        t += 1;
    }
    r.push(vec_len);
    proof {
        assert forall|i: int| 0 <= i < r@.len() - 1 implies #[trigger] r@[i] < r@[i + 1] by {
            if i < r@.len() - 2 {
                assert(starts@[i] < starts@[i + 1]);
                vstd::arithmetic::mul::lemma_mul_strict_inequality(
                    starts@[i] as int,
                    starts@[i + 1] as int,
                    ts,
                );
            }
        }
        assert(r@[0] == 0 * ts + step - 1);
    }
    r
}

/// Strictly increasing boundaries never exceed a later one.
proof fn lemma_points_strict_chain(points: Seq<usize>, a: int, b: int)
    requires
        forall|j: int| 0 <= j < points.len() - 1 ==> #[trigger] points[j] < points[j + 1],
        0 <= a <= b < points.len(),
    ensures
        points[a] <= points[b] - (b - a),
    decreases b - a,
{
    if a < b {
        lemma_points_strict_chain(points, a, b - 1);
    }
}

impl Scanner {
    /// One whole sweep at `step`: partitions the sweep's pairs over the
    /// workers on pair-start boundaries, dispatches, and reassembles the
    /// buffer, which then holds the sweep's pass applied everywhere.  Never
    /// fails.
    #[verifier::rlimit(100)]
    fn blelloch_pass(&self, vec: Vec<u64>, step: usize, down: bool) -> (r: Result<
        Vec<u64>,
        ScanError,
    >)
        requires
            1 <= step,
            step < vec@.len(),
        ensures
            r matches Ok(out) && out@.len() == vec@.len() && (forall|g: int|
                0 <= g < vec@.len() ==> #[trigger] out@[g] == pass_value(
                    vec@,
                    step as int,
                    down,
                    g,
                )),
    {
        let ghost orig = vec@;
        let ghost s = step as int;
        let ranges = pyramid_ranges_for(
            step,
            vec.len(),
            self.num_threads(),
            self.sequential_length,
        );
        let mut data = SplitVector::with_vec(vec);
        let chunks = match data.chunk(&ranges) {
            Some(c) => c,
            None => {
                return Err(ScanError::InvalidChunking);
            },
        };
        let ghost pre = chunks@;
        let mut chunks = chunks;
        let mut msgs: Vec<(usize, SplitVectorChunk<u64>, bool)> = Vec::new();
        let count = chunks.len();
        let mut c: usize = 0;
        while c < count
            invariant
                count == pre.len(),
                c + chunks@.len() == count,
                chunks@ == pre.subrange(c as int, count as int),
                msgs@.len() == c,
                forall|j: int| 0 <= j < c ==> #[trigger] msgs@[j] == (step, pre[j], down),
            decreases count - c,
        {
            let ch = chunks.remove(0);
            msgs.push((step, ch, down));
            c += 1;
        }
        let recv = self.thread_pool.sendall(msgs, blelloch_pass_worker);
        let results = match recv.gather() {
            Ok(rs) => rs,
            Err(_) => {
                return Err(ScanError::FailedThreadInGather);
            },
        };
        let ghost res0 = results@;
        let ghost n = self.spec_threads();
        let ghost f = |g: int| pass_value(orig, s, down, g);
        proof {
            assert forall|j: int| 0 <= j < count implies {
                &&& (#[trigger] res0[j]).spec_start() == ranges@[j]
                &&& res0[j]@.len() == ranges@[j + 1] - ranges@[j]
                &&& forall|x: int|
                    0 <= x < res0[j]@.len() ==> #[trigger] res0[j]@[x] == f(ranges@[j] + x)
            } by {
                assert(call_ensures(
                    blelloch_pass_worker,
                    ((j as usize, n), (step, pre[j], down)),
                    res0[j],
                ));
                lemma_points_strict_chain(ranges@, j + 1, ranges@.len() - 1);
                lemma_points_strict_chain(ranges@, 0, j);
                assert(ranges@[j] >= step - 1);
                assert(pre[j]@ == orig.subrange(ranges@[j] as int, ranges@[j + 1] as int));
                assert forall|x: int| 0 <= x < res0[j]@.len() implies #[trigger] res0[j]@[x] == f(
                    ranges@[j] + x,
                ) by {
                    lemma_chunk_matches_global(
                        orig,
                        s,
                        down,
                        ranges@[j] as int,
                        ranges@[j + 1] as int,
                        x,
                    );
                }
            }
        }
        data.absorb(results);
        proof {
            lemma_concat_chunks_tiled(res0, f);
        }
        let out = match data.extract() {
            Some(v) => v,
            None => {
                return Err(ScanError::BrokenThreadLocking);
            },
        };
        proof {
            assert forall|g: int| 0 <= g < orig.len() implies #[trigger] out@[g] == pass_value(
                orig,
                s,
                down,
                g,
            ) by {
                if g < step - 1 {
                    vstd::arithmetic::div_mod::lemma_small_mod(g as nat, (2 * s) as nat);
                    assert(out@[g] == orig[g]);
                }
            }
        }
        Ok(out)
    }
}

/// The generic worker loop's progress: every pair whose start lies below
/// `hi` has been combined through the function (and on the down sweep
/// swapped); everything else still holds its original value.
pub open spec fn gen_worker_inv<T, F: Fn(&T, &T) -> T>(
    func: F,
    before: Seq<T>,
    state: Seq<T>,
    s: int,
    down: bool,
    hi: int,
    j: int,
) -> bool {
    let clen = before.len() as int;
    if j % (2 * s) == s && j < hi {
        call_ensures(func, (&before[j - s], &before[j]), state[j])
    } else if j == clen - 1 && chunk_tail_start(clen, s) >= 0 && chunk_tail_start(clen, s) < hi {
        call_ensures(func, (&before[chunk_tail_start(clen, s)], &before[j]), state[j])
    } else if down && j % (2 * s) == 0 && j < hi && chunk_pair(clen, s, j) >= 0 {
        state[j] == before[chunk_pair(clen, s, j)]
    } else {
        state[j] == before[j]
    }
}

/// One worker's share of a sweep for an arbitrary combining function: the
/// same pair walk as the word-sized worker, with `func` as the operator.
#[verifier::rlimit(100)]
fn blelloch_generic_worker<T, F: Fn(&T, &T) -> T + Copy>(
    id: ThreadId,
    msg: (usize, SplitVectorChunk<T>, F, bool),
) -> (r: SplitVectorChunk<T>)
    requires
        msg.0 >= 1,
        forall|a: &T, b: &T| call_requires(msg.2, (a, b)),
    ensures
        r.spec_start() == msg.1.spec_start(),
        r@.len() == msg.1@.len(),
        forall|j: int|
            0 <= j < msg.1@.len() ==> gen_chunk_rel(
                msg.2,
                msg.1@,
                msg.0 as int,
                msg.3,
                j,
                #[trigger] r@[j],
            ),
{
    let (step, chunk, func, down) = msg;
    let mut chunk = chunk;
    let ghost before = chunk@;
    let ghost ts = 2 * (step as int);
    let clen = chunk.len();
    let two_step = if step <= usize::MAX / 2 {
        2 * step
    } else {
        usize::MAX
    };
    let mut i: usize = 0;
    while i < clen
        invariant
            clen == chunk@.len(),
            before.len() == clen,
            step >= 1,
            ts == 2 * (step as int),
            two_step == if step <= usize::MAX / 2 {
                2 * (step as int)
            } else {
                usize::MAX as int
            },
            chunk.spec_start() == msg.1.spec_start(),
            down == msg.3,
            func == msg.2,
            forall|a: &T, b: &T| call_requires(func, (a, b)),
            i <= clen,
            i == clen || (i as int) % ts == 0,
            forall|j: int|
                0 <= j < clen ==> #[trigger] gen_worker_inv(
                    func,
                    before,
                    chunk@,
                    step as int,
                    down,
                    i as int,
                    j,
                ),
        decreases clen - i,
    {
        let ghost pre_iter = chunk@;
        let ghost ii = i as int;
        let ghost cts = chunk_tail_start(clen as int, step as int);
        let mut wrote_pair: bool = false;
        let mut pair: usize = 0;
        if step < clen - i {
            pair = i + step;
            wrote_pair = true;
            proof {
                vstd::arithmetic::div_mod::lemma_add_mod_noop(ii, step as int, ts);
                vstd::arithmetic::div_mod::lemma_small_mod(step as nat, ts as nat);
                vstd::arithmetic::div_mod::lemma_small_mod(0nat, ts as nat);
                assert((ii + step) % ts == step && ii % ts != step && (ii + step) % ts != 0);
                if ii + step == clen - 1 {
                    assert(cts == -1) by {
                        assert((clen - 1) % ts == step);
                    }
                }
            }
        } else if i < clen - 1 {
            pair = clen - 1;
            wrote_pair = true;
            proof {
                lemma_tail_start_here(clen as int, step as int, ii);
                assert((clen - 1) % ts != 0) by (nonlinear_arith)
                    requires
                        ts == 2 * (step as int),
                        step >= 1,
                        ((clen - 1) / ts) * ts == ii,
                        ii < clen - 1,
                ;
                assert(ii % ts != step) by (nonlinear_arith)
                    requires
                        (ii as int) % ts == 0,
                        ts == 2 * (step as int),
                        step >= 1,
                ;
            }
        }
        if wrote_pair {
            proof {
                assert(gen_worker_inv(func, before, pre_iter, step as int, down, ii, ii));
                assert(gen_worker_inv(
                    func,
                    before,
                    pre_iter,
                    step as int,
                    down,
                    ii,
                    pair as int,
                ));
                assert(pre_iter[ii] == before[ii]);
                assert(pre_iter[pair as int] == before[pair as int]);
            }
            if down {
                let result = func(chunk.get(i), chunk.get(pair));
                let displaced = chunk.replace(pair, result);
                chunk.set(i, displaced);
            } else {
                let result = func(chunk.get(i), chunk.get(pair));
                chunk.set(pair, result);
            }
        }
        let ghost i_new: int = if clen - ii <= two_step {
            clen as int
        } else {
            ii + ts
        };
        proof {
            assert(i_new <= ii + ts);
            if clen - ii <= two_step {
                lemma_no_more_pairs(clen as int, step as int, ii);
            } else {
                assert((ii + ts) % ts == 0) by (nonlinear_arith)
                    requires
                        (ii as int) % ts == 0,
                        ts == 2 * (step as int),
                        step >= 1,
                ;
            }
            assert forall|j: int| 0 <= j < clen implies #[trigger] gen_worker_inv(
                func,
                before,
                chunk@,
                step as int,
                down,
                i_new,
                j,
            ) by {
                assert(gen_worker_inv(func, before, pre_iter, step as int, down, ii, j));
                if ii <= j < i_new {
                    assert(j % ts == step ==> j == ii + step) by (nonlinear_arith)
                        requires
                            (ii as int) % ts == 0,
                            ts == 2 * (step as int),
                            step >= 1,
                            ii <= j < i_new,
                            i_new <= ii + ts,
                    ;
                    assert(j % ts == 0 ==> j == ii) by (nonlinear_arith)
                        requires
                            (ii as int) % ts == 0,
                            ts == 2 * (step as int),
                            step >= 1,
                            ii <= j < i_new,
                            i_new <= ii + ts,
                    ;
                }
                if j == clen - 1 && cts >= 0 {
                    assert(cts % ts == 0) by (nonlinear_arith)
                        requires
                            ts >= 2,
                            cts == ((clen - 1) / ts) * ts,
                    ;
                    if ii <= cts < i_new {
                        assert(cts == ii) by (nonlinear_arith)
                            requires
                                cts % ts == 0,
                                (ii as int) % ts == 0,
                                ii <= cts < i_new,
                                i_new <= ii + ts,
                                ts >= 2,
                        ;
                    }
                }
            }
        }
        if clen - i <= two_step {
            i = clen;
        } else {
            i = i + two_step;
        }
        proof {
            assert(i as int == i_new);
        }
    }
    proof {
        assert forall|j: int| 0 <= j < clen implies gen_chunk_rel(
            func,
            before,
            step as int,
            down,
            j,
            #[trigger] chunk@[j],
        ) by {
            assert(gen_worker_inv(func, before, chunk@, step as int, down, clen as int, j));
        }
    }
    chunk
}

impl Scanner {
    /// One whole sweep at `step` for an arbitrary combining function,
    /// partitioned over the workers on pair-start boundaries: every
    /// position of the result stands in the sweep's relation to the old
    /// buffer.  Never fails.
    #[verifier::rlimit(100)]
    fn blelloch_pass_generic<T, F: Fn(&T, &T) -> T + Copy>(
        &self,
        vec: Vec<T>,
        step: usize,
        func: F,
        down: bool,
    ) -> (r: Result<Vec<T>, ScanError>)
        requires
            1 <= step,
            step < vec@.len(),
            forall|a: &T, b: &T| call_requires(func, (a, b)),
        ensures
            r matches Ok(out) && gen_pass_rel(func, vec@, out@, step as int, down),
    {
        let ghost orig = vec@;
        let ghost s = step as int;
        let ranges = pyramid_ranges_for(
            step,
            vec.len(),
            self.num_threads(),
            self.sequential_length,
        );
        let mut data = SplitVector::with_vec(vec);
        let chunks = match data.chunk(&ranges) {
            Some(c) => c,
            None => {
                return Err(ScanError::InvalidChunking);
            },
        };
        let ghost pre = chunks@;
        let mut chunks = chunks;
        let mut msgs: Vec<(usize, SplitVectorChunk<T>, F, bool)> = Vec::new();
        let count = chunks.len();
        let mut c: usize = 0;
        while c < count
            invariant
                count == pre.len(),
                c + chunks@.len() == count,
                chunks@ == pre.subrange(c as int, count as int),
                msgs@.len() == c,
                forall|j: int| 0 <= j < c ==> #[trigger] msgs@[j] == (step, pre[j], func, down),
            decreases count - c,
        {
            let ch = chunks.remove(0);
            msgs.push((step, ch, func, down));
            c += 1;
        }
        let recv = self.thread_pool.sendall(msgs, blelloch_generic_worker);
        let results = match recv.gather() {
            Ok(rs) => rs,
            Err(_) => {
                return Err(ScanError::FailedThreadInGather);
            },
        };
        let ghost res0 = results@;
        let ghost n = self.spec_threads();
        let ghost p = |g: int, val: T| gen_value_rel(func, orig, s, down, g, val);
        proof {
            assert forall|j: int| 0 <= j < count implies {
                &&& (#[trigger] res0[j]).spec_start() == ranges@[j]
                &&& res0[j]@.len() == ranges@[j + 1] - ranges@[j]
                &&& forall|x: int|
                    0 <= x < res0[j]@.len() ==> p(ranges@[j] + x, #[trigger] res0[j]@[x])
            } by {
                assert(call_ensures(
                    blelloch_generic_worker,
                    ((j as usize, n), (step, pre[j], func, down)),
                    res0[j],
                ));
                lemma_points_strict_chain(ranges@, j + 1, ranges@.len() - 1);
                lemma_points_strict_chain(ranges@, 0, j);
                assert(ranges@[j] >= step - 1);
                assert(pre[j]@ == orig.subrange(ranges@[j] as int, ranges@[j + 1] as int));
                assert forall|x: int| 0 <= x < res0[j]@.len() implies p(
                    ranges@[j] + x,
                    #[trigger] res0[j]@[x],
                ) by {
                    lemma_chunk_matches_global_rel(
                        func,
                        orig,
                        s,
                        down,
                        ranges@[j] as int,
                        ranges@[j + 1] as int,
                        x,
                        res0[j]@[x],
                    );
                }
            }
        }
        data.absorb(results);
        proof {
            lemma_concat_chunks_tiled_rel(res0, p);
        }
        let out = match data.extract() {
            Some(v) => v,
            None => {
                return Err(ScanError::BrokenThreadLocking);
            },
        };
        proof {
            assert forall|g: int| 0 <= g < orig.len() implies gen_value_rel(
                func,
                orig,
                s,
                down,
                g,
                #[trigger] out@[g],
            ) by {
                if g < step - 1 {
                    vstd::arithmetic::div_mod::lemma_small_mod(g as nat, (2 * s) as nat);
                    assert(out@[g] == orig[g]);
                }
            }
        }
        Ok(out)
    }

    /// The steps of the pyramid: 1, 2, 4, ... while below `len`.
    fn pyramid_steps(len: usize) -> (r: Vec<usize>)
        ensures
            forall|i: int| 0 <= i < r@.len() ==> 1 <= #[trigger] r@[i] && r@[i] < len,
            forall|i: int| 0 <= i < r@.len() ==> is_pow2(#[trigger] r@[i] as int),
            r@.len() > 0 ==> r@[0] == 1,
            r@.len() == 0 ==> len <= 1,
            forall|i: int| 0 <= i < r@.len() - 1 ==> #[trigger] r@[i + 1] == 2 * r@[i],
            r@.len() > 0 ==> 2 * (r@.last() as int) >= len,
    {
        let mut steps: Vec<usize> = Vec::new();
        let mut step: usize = 1;
        while step < len
            invariant
                step >= 1,
                is_pow2(step as int) || step == usize::MAX,
                forall|i: int| 0 <= i < steps@.len() ==> 1 <= #[trigger] steps@[i] && steps@[i] < len,
                forall|i: int| 0 <= i < steps@.len() ==> is_pow2(#[trigger] steps@[i] as int),
                steps@.len() > 0 ==> steps@[0] == 1,
                steps@.len() == 0 ==> step == 1,
                forall|i: int| 0 <= i < steps@.len() - 1 ==> #[trigger] steps@[i + 1] == 2 * steps@[i],
                steps@.len() > 0 ==> (step as int == 2 * (steps@.last() as int) || (step
                    == usize::MAX && 2 * (steps@.last() as int) > usize::MAX as int)),
            decreases (if step < len {
                len - step
            } else {
                0int
            }),
        {
            steps.push(step);
            let next = if step <= usize::MAX / 2 {
                step * 2
            } else {
                usize::MAX
            };
            proof {
                if step <= usize::MAX / 2 {
                    assert(is_pow2(2 * (step as int))) by {
                        assert((2 * (step as int)) % 2 == 0) by {
                            vstd::arithmetic::div_mod::lemma_mod_multiples_basic(step as int, 2);
                            vstd::arithmetic::mul::lemma_mul_is_commutative(step as int, 2);
                        }
                        assert((2 * (step as int)) / 2 == step as int) by (nonlinear_arith)
                            requires
                                step >= 1,
                        ;
                    }
                }
            }
            step = next;
        }
        steps
    }

    /// Runs the up-sweep passes of the generic tree scan in step order,
    /// yielding the history of intermediate states.  Never fails.
    #[verifier::rlimit(100)]
    #[verifier::spinoff_prover]
    fn blelloch_up_phase<T, F: Fn(&T, &T) -> T + Copy>(
        &self,
        vec: Vec<T>,
        steps: &Vec<usize>,
        func: F,
    ) -> (r: Result<Vec<T>, ScanError>)
        requires
            forall|a: &T, b: &T| call_requires(func, (a, b)),
            forall|x: int|
                0 <= x < steps@.len() ==> 1 <= #[trigger] steps@[x] && steps@[x] < vec@.len(),
        ensures
            r matches Ok(out) && out@.len() == vec@.len() && has_up_chain(
                func,
                vec@,
                out@,
                steps_as_int(steps@),
            ),
    {
        let ghost orig = vec@;
        let ghost steps_g = steps_as_int(steps@);
        let ghost len0 = vec@.len();
        let mut result_vec = vec;
        let ghost mut ups: Seq<Seq<T>> = seq![orig];
        let mut i: usize = 0;
        while i < steps.len()
            invariant
                result_vec@.len() == len0,
                len0 == orig.len(),
                forall|a: &T, b: &T| call_requires(func, (a, b)),
                steps_g == steps_as_int(steps@),
                forall|x: int|
                    0 <= x < steps@.len() ==> 1 <= #[trigger] steps@[x] && steps@[x] < len0,
                i <= steps@.len(),
                ups.len() == i + 1,
                ups[0] == orig,
                ups.last() == result_vec@,
                forall|x: int|
                    0 <= x < i ==> gen_pass_rel(
                        func,
                        #[trigger] ups[x],
                        ups[x + 1],
                        steps_g[x],
                        false,
                    ),
            decreases steps@.len() - i,
        {
            let ghost before_pass = result_vec@;
            result_vec = match self.blelloch_pass_generic(result_vec, steps[i], func, false) {
                Ok(out) => out,
                Err(e) => {
                    return Err(e);
                },
            };
            proof {
                ups = ups.push(result_vec@);
                assert(ups[i as int] == before_pass);
            }
            i += 1;
        }
        proof {
            assert(up_chain(func, orig, result_vec@, steps_g, ups));
            assert(has_up_chain(func, orig, result_vec@, steps_g));
        }
        Ok(result_vec)
    }

    /// Runs the down-sweep passes of the generic tree scan in reverse step
    /// order, yielding the history of intermediate states.  Never fails.
    #[verifier::rlimit(100)]
    #[verifier::spinoff_prover]
    fn blelloch_down_phase<T, F: Fn(&T, &T) -> T + Copy>(
        &self,
        vec: Vec<T>,
        steps: &Vec<usize>,
        func: F,
    ) -> (r: Result<Vec<T>, ScanError>)
        requires
            forall|a: &T, b: &T| call_requires(func, (a, b)),
            forall|x: int|
                0 <= x < steps@.len() ==> 1 <= #[trigger] steps@[x] && steps@[x] < vec@.len(),
        ensures
            r matches Ok(out) && out@.len() == vec@.len() && has_down_chain(
                func,
                vec@,
                out@,
                steps_as_int(steps@),
            ),
    {
        let ghost orig = vec@;
        let ghost steps_g = steps_as_int(steps@);
        let ghost len0 = vec@.len();
        let ghost n = steps_g.len() as int;
        let mut result_vec = vec;
        let ghost mut downs: Seq<Seq<T>> = seq![orig];
        let mut j: usize = steps.len();
        while j > 0
            invariant
                result_vec@.len() == len0,
                len0 == orig.len(),
                forall|a: &T, b: &T| call_requires(func, (a, b)),
                steps_g == steps_as_int(steps@),
                n == steps_g.len(),
                forall|x: int|
                    0 <= x < steps@.len() ==> 1 <= #[trigger] steps@[x] && steps@[x] < len0,
                j <= steps@.len(),
                downs.len() == n + 1 - j,
                downs[0] == result_vec@,
                downs.last() == orig,
                forall|m: int|
                    0 <= m < downs.len() - 1 ==> gen_pass_rel(
                        func,
                        #[trigger] downs[m + 1],
                        downs[m],
                        steps_g[j + m],
                        true,
                    ),
            decreases j,
        {
            j -= 1;
            let ghost before_pass = result_vec@;
            result_vec = match self.blelloch_pass_generic(result_vec, steps[j], func, true) {
                Ok(out) => out,
                Err(e) => {
                    return Err(e);
                },
            };
            proof {
                let ghost old_downs = downs;
                downs = seq![result_vec@] + downs;
                assert(downs[0] == result_vec@);
                assert(downs.last() == old_downs.last());
                assert forall|m: int| 0 <= m < downs.len() - 1 implies gen_pass_rel(
                    func,
                    #[trigger] downs[m + 1],
                    downs[m],
                    steps_g[j + m],
                    true,
                ) by {
                    if m == 0 {
                        assert(downs[1] == before_pass);
                    } else {
                        assert(downs[m + 1] == old_downs[m]);
                        assert(downs[m] == old_downs[m - 1]);
                        assert(gen_pass_rel(
                            func,
                            old_downs[(m - 1) + 1],
                            old_downs[m - 1],
                            steps_g[(j + 1) + (m - 1)],
                            true,
                        ));
                    }
                }
            }
        }
        proof {
            assert(down_chain(func, orig, result_vec@, steps_g, downs));
            assert(has_down_chain(func, orig, result_vec@, steps_g));
        }
        Ok(result_vec)
    }

    /// The work-efficient tree scan for an arbitrary combining function:
    /// builds the pyramid of partial combinations bottom-up, seeds the top
    /// with the default value, and distributes the combinations back down.
    /// The contract records the whole history: the output is what some
    /// up-sweep chain, identity seeding, and down-sweep chain of the
    /// function's possible results produce.  Never fails.
    #[verifier::rlimit(100)]
    #[verifier::spinoff_prover]
    pub fn blelloch_scan_generic<T: Default, F: Fn(&T, &T) -> T + Copy>(
        &mut self,
        v: Vec<T>,
        func: F,
    ) -> (r: Result<Vec<T>, ScanError>)
        requires
            forall|a: &T, b: &T| call_requires(func, (a, b)),
        ensures
            r matches Ok(out) && {
                &&& out@.len() == v@.len()
                &&& v@.len() == 0 ==> out@ == v@
                &&& v@.len() >= 1 ==> has_tree_scan_trace(func, v@, out@)
            },
    {
        let ghost orig = v@;
        let mut result_vec = v;
        if result_vec.len() == 0 {
            return Ok(result_vec);
        }
        let steps = Scanner::pyramid_steps(result_vec.len());
        let ghost len0 = result_vec@.len();
        let ghost steps_g = steps_as_int(steps@);
        let ghost n = steps_g.len() as int;
        proof {
            assert(steps_shape(steps_g, len0 as int));
        }
        result_vec = match self.blelloch_up_phase(result_vec, &steps, func) {
            Ok(out) => out,
            Err(e) => {
                return Err(e);
            },
        };
        let ghost ups = choose|u: Seq<Seq<T>>| up_chain(func, orig, result_vec@, steps_g, u);
        let last = result_vec.len() - 1;
        let d = T::default();
        result_vec[last] = d;
        let ghost seeded = result_vec@;
        proof {
            assert(seeded == ups[n].update(len0 - 1, d));
        }
        result_vec = match self.blelloch_down_phase(result_vec, &steps, func) {
            Ok(out) => out,
            Err(e) => {
                return Err(e);
            },
        };
        let ghost downs = choose|w: Seq<Seq<T>>| down_chain(func, seeded, result_vec@, steps_g, w);
        proof {
            assert(downs[n] == seeded);
            assert(seeded[len0 - 1] == d);
            assert(downs[n] == ups[n].update(len0 - 1, downs[n][len0 - 1]));
            assert(tree_scan_trace(func, orig, result_vec@, steps_g, ups, downs));
            assert(has_tree_scan_trace(func, orig, result_vec@));
        }
        Ok(result_vec)
    }
}

impl Scanner {
    /// The work-efficient (Blelloch-style) tree scan over machine words:    /// The work-efficient (Blelloch-style) tree scan over machine words:    /// The work-efficient (Blelloch-style) tree scan over machine words:
    /// builds the pyramid of partial sums bottom-up, seeds the top with the
    /// identity, and distributes the sums back down, leaving each position
    /// the sum of everything before it — the exclusive running sum.  Never
    /// fails.
    #[verifier::rlimit(100)]
    pub fn blelloch_scan(&mut self, v: Vec<u64>) -> (r: Result<Vec<u64>, ScanError>)
        ensures
            r matches Ok(out) && out@ == exclusive_scan(v@),
    {
        let ghost orig = v@;
        let mut result_vec = v;
        if result_vec.len() == 0 {
            proof {
                assert(exclusive_scan(orig) =~= Seq::<u64>::empty());
            }
            return Ok(result_vec);
        }
        let steps = Scanner::pyramid_steps(result_vec.len());
        let ghost len0 = result_vec@.len();
        let ghost mut m: int = 1;
        proof {
            lemma_up_init(orig);
        }
        let mut i: usize = 0;
        while i < steps.len()
            invariant
                result_vec@.len() == len0,
                len0 == orig.len(),
                len0 >= 1,
                forall|x: int|
                    0 <= x < steps@.len() ==> 1 <= #[trigger] steps@[x] && steps@[x] < len0,
                forall|x: int| 0 <= x < steps@.len() ==> is_pow2(#[trigger] steps@[x] as int),
                forall|x: int|
                    0 <= x < steps@.len() - 1 ==> #[trigger] steps@[x + 1] == 2 * steps@[x],
                steps@.len() > 0 ==> 2 * (steps@.last() as int) >= len0,
                steps@.len() == 0 ==> len0 <= 1,
                i <= steps@.len(),
                is_pow2(m),
                result_vec@ == up_seq(orig, m),
                i < steps@.len() ==> m == steps@[i as int],
                i == steps@.len() ==> m >= len0,
                i == steps@.len() && steps@.len() > 0 ==> m == 2 * (steps@.last() as int),
                i == steps@.len() && steps@.len() == 0 ==> m == 1,
            decreases steps@.len() - i,
        {
            let s_exec = steps[i];
            result_vec = match self.blelloch_pass(result_vec, s_exec, false) {
                Ok(out) => out,
                Err(e) => {
                    return Err(e);
                },
            };
            proof {
                assert forall|g: int| 0 <= g < len0 implies result_vec@[g] == up_seq(
                    orig,
                    2 * m,
                )[g] by {
                    lemma_up_transition(orig, m, g);
                }
                assert(result_vec@ =~= up_seq(orig, 2 * m));
                m = 2 * m;
            }
            i += 1;
        }
        let last = result_vec.len() - 1;
        result_vec[last] = 0;
        proof {
            lemma_set_last(orig, m);
            assert(result_vec@ =~= up_seq(orig, m).update(len0 - 1, 0u64));
        }
        let mut j: usize = steps.len();
        while j > 0
            invariant
                result_vec@.len() == len0,
                len0 == orig.len(),
                len0 >= 1,
                forall|x: int|
                    0 <= x < steps@.len() ==> 1 <= #[trigger] steps@[x] && steps@[x] < len0,
                forall|x: int| 0 <= x < steps@.len() ==> is_pow2(#[trigger] steps@[x] as int),
                forall|x: int|
                    0 <= x < steps@.len() - 1 ==> #[trigger] steps@[x + 1] == 2 * steps@[x],
                steps@.len() > 0 ==> steps@[0] == 1,
                j <= steps@.len(),
                result_vec@ == down_seq(orig, m),
                j > 0 ==> m == 2 * (steps@[j - 1] as int),
                j == 0 ==> m == 1,
            decreases j,
        {
            j -= 1;
            let s_exec = steps[j];
            result_vec = match self.blelloch_pass(result_vec, s_exec, true) {
                Ok(out) => out,
                Err(e) => {
                    return Err(e);
                },
            };
            proof {
                assert forall|g: int| 0 <= g < len0 implies result_vec@[g] == down_seq(
                    orig,
                    steps@[j as int] as int,
                )[g] by {
                    lemma_down_transition(orig, steps@[j as int] as int, g);
                }
                assert(result_vec@ =~= down_seq(orig, steps@[j as int] as int));
                m = steps@[j as int] as int;
                if j > 0 {
                    assert(steps@[(j as int - 1) + 1] == 2 * steps@[j as int - 1]);
                }
            }
        }
        proof {
            lemma_down_final(orig);
        }
        Ok(result_vec)
    }
}

/// The largest power of two dividing `p` (1 for non-positive arguments).
pub open spec fn lowpow(p: int) -> int
    decreases p,
{
    if p <= 0 {
        1
    } else if p % 2 == 1 {
        1
    } else {
        2 * lowpow(p / 2)
    }
}

/// Whether `s` is a power of two.
pub open spec fn is_pow2(s: int) -> bool
    decreases s,
{
    if s <= 0 {
        false
    } else if s == 1 {
        true
    } else {
        s % 2 == 0 && is_pow2(s / 2)
    }
}

proof fn lemma_lowpow_pos(p: int)
    ensures
        lowpow(p) >= 1,
    decreases p,
{
    if p > 0 && p % 2 == 0 {
        lemma_lowpow_pos(p / 2);
    }
}

proof fn lemma_mod_one(p: int)
    requires
        p >= 0,
    ensures
        p % 1 == 0,
{
    vstd::arithmetic::div_mod::lemma_mod_bound(p, 1);
}

proof fn lemma_lowpow_divides(p: int)
    requires
        p >= 1,
    ensures
        1 <= lowpow(p) <= p,
        p % lowpow(p) == 0,
    decreases p,
{
    if p % 2 == 1 {
        lemma_mod_one(p);
    } else {
        lemma_lowpow_divides(p / 2);
        let l = lowpow(p / 2);
        let k = (p / 2) / l;
        vstd::arithmetic::div_mod::lemma_fundamental_div_mod(p / 2, l);
        vstd::arithmetic::div_mod::lemma_fundamental_div_mod(p, 2);
        assert(p == (2 * l) * k) by (nonlinear_arith)
            requires
                p / 2 == l * k + 0,
                p == 2 * (p / 2),
        ;
        assert(p % (2 * l) == 0) by {
            vstd::arithmetic::div_mod::lemma_mod_multiples_basic(k, 2 * l);
            vstd::arithmetic::mul::lemma_mul_is_commutative(k, 2 * l);
        }
        assert(2 * l <= p) by (nonlinear_arith)
            requires
                l <= p / 2,
                p == 2 * (p / 2),
        ;
    }
}

/// Dividing both sides of an even residue equation by two.
proof fn lemma_halve_mod(p: int, m: int, r: int)
    requires
        m >= 1,
        0 <= r < 2 * m,
        r % 2 == 0,
        p % 2 == 0,
        p % (2 * m) == r,
        p >= 0,
    ensures
        (p / 2) % m == r / 2,
{
    let q = p / (2 * m);
    vstd::arithmetic::div_mod::lemma_fundamental_div_mod(p, 2 * m);
    vstd::arithmetic::div_mod::lemma_fundamental_div_mod(p, 2);
    vstd::arithmetic::div_mod::lemma_fundamental_div_mod(r, 2);
    vstd::arithmetic::div_mod::lemma_div_pos_is_pos(p, 2 * m);
    assert(p / 2 == m * q + r / 2) by (nonlinear_arith)
        requires
            p == (2 * m) * q + r,
            p == 2 * (p / 2),
            r == 2 * (r / 2),
    ;
    vstd::arithmetic::div_mod::lemma_fundamental_div_mod_converse(p / 2, m, q, r / 2);
}

/// On positions congruent to `s` modulo `2s`, the largest dividing power of
/// two is exactly `s`.
proof fn lemma_lowpow_residue(p: int, s: int)
    requires
        is_pow2(s),
        p >= 1,
        p % (2 * s) == s,
    ensures
        lowpow(p) == s,
    decreases s,
{
    if s == 1 {
        let q = p / 2;
        vstd::arithmetic::div_mod::lemma_fundamental_div_mod(p, 2);
    } else {
        assert(s % 2 == 0);
        assert(p % 2 == 0) by {
            let q = p / (2 * s);
            vstd::arithmetic::div_mod::lemma_fundamental_div_mod(p, 2 * s);
            assert(p == 2 * (s * q + s / 2)) by (nonlinear_arith)
                requires
                    p == (2 * s) * q + s,
                    s == 2 * (s / 2),
            ;
            vstd::arithmetic::div_mod::lemma_mod_multiples_basic(s * q + s / 2, 2);
            vstd::arithmetic::mul::lemma_mul_is_commutative(s * q + s / 2, 2);
        }
        lemma_halve_mod(p, s, s);
        assert(p / 2 >= 1);
        lemma_lowpow_residue(p / 2, s / 2);
    }
}

/// On positions divisible by `2s`, the largest dividing power of two is at
/// least `2s`.
proof fn lemma_lowpow_multiple(p: int, s: int)
    requires
        is_pow2(s),
        p >= 1,
        p % (2 * s) == 0,
    ensures
        lowpow(p) >= 2 * s,
    decreases s,
{
    assert(p % 2 == 0) by {
        let q = p / (2 * s);
        vstd::arithmetic::div_mod::lemma_fundamental_div_mod(p, 2 * s);
        assert(p == 2 * (s * q)) by (nonlinear_arith)
            requires
                p == (2 * s) * q + 0,
        ;
        vstd::arithmetic::div_mod::lemma_mod_multiples_basic(s * q, 2);
        vstd::arithmetic::mul::lemma_mul_is_commutative(s * q, 2);
    }
    if s == 1 {
        lemma_lowpow_pos(p / 2);
    } else {
        lemma_halve_mod(p, s, 0);
        assert(p / 2 >= 1);
        lemma_lowpow_multiple(p / 2, s / 2);
    }
}

proof fn lemma_lowpow_pow2(p: int)
    requires
        p >= 1,
    ensures
        is_pow2(lowpow(p)),
    decreases p,
{
    if p % 2 == 1 {
    } else {
        lemma_lowpow_pow2(p / 2);
        lemma_lowpow_pos(p / 2);
        let l = lowpow(p / 2);
        assert((2 * l) % 2 == 0) by {
            vstd::arithmetic::div_mod::lemma_mod_multiples_basic(l, 2);
            vstd::arithmetic::mul::lemma_mul_is_commutative(l, 2);
        }
        assert((2 * l) / 2 == l) by (nonlinear_arith)
            requires
                l >= 1,
        ;
    }
}

/// A smaller power of two divides a larger one.
proof fn lemma_pow2_le_divides(a: int, b: int)
    requires
        is_pow2(a),
        is_pow2(b),
        a <= b,
    ensures
        b % a == 0,
    decreases a,
{
    if a == 1 {
        lemma_mod_one(b);
    } else {
        assert(b >= 2 && b % 2 == 0) by {
            if b == 1 {
            }
        }
        lemma_pow2_le_divides(a / 2, b / 2);
        let k = (b / 2) / (a / 2);
        vstd::arithmetic::div_mod::lemma_fundamental_div_mod(b / 2, a / 2);
        vstd::arithmetic::div_mod::lemma_fundamental_div_mod(b, 2);
        vstd::arithmetic::div_mod::lemma_fundamental_div_mod(a, 2);
        assert(b == a * k) by (nonlinear_arith)
            requires
                b / 2 == (a / 2) * k + 0,
                b == 2 * (b / 2),
                a == 2 * (a / 2),
        ;
        vstd::arithmetic::div_mod::lemma_mod_multiples_basic(k, a);
        vstd::arithmetic::mul::lemma_mul_is_commutative(k, a);
    }
}

/// Divisibility is transitive.
proof fn lemma_divides_transitive(c: int, b: int, a: int)
    requires
        a >= 1,
        b >= 1,
        c >= 0,
        c % b == 0,
        b % a == 0,
    ensures
        c % a == 0,
{
    let k = c / b;
    let m = b / a;
    vstd::arithmetic::div_mod::lemma_fundamental_div_mod(c, b);
    vstd::arithmetic::div_mod::lemma_fundamental_div_mod(b, a);
    assert(c == a * (m * k)) by (nonlinear_arith)
        requires
            c == b * k + 0,
            b == a * m + 0,
    ;
    vstd::arithmetic::div_mod::lemma_mod_multiples_basic(m * k, a);
    vstd::arithmetic::mul::lemma_mul_is_commutative(m * k, a);
}

/// On positions not divisible by `2s`, the largest dividing power of two is
/// at most `s`.
proof fn lemma_lowpow_not_multiple(p: int, s: int)
    requires
        is_pow2(s),
        p >= 1,
        p % (2 * s) != 0,
    ensures
        lowpow(p) <= s,
{
    if lowpow(p) > s {
        lemma_lowpow_pow2(p);
        lemma_lowpow_divides(p);
        assert(is_pow2(2 * s)) by {
            assert((2 * s) % 2 == 0) by {
                vstd::arithmetic::div_mod::lemma_mod_multiples_basic(s, 2);
                vstd::arithmetic::mul::lemma_mul_is_commutative(s, 2);
            }
            assert((2 * s) / 2 == s) by (nonlinear_arith)
                requires
                    s >= 1,
            ;
        }
        assert(2 * s <= lowpow(p)) by {
            lemma_pow2_between(s, lowpow(p));
        }
        lemma_pow2_le_divides(2 * s, lowpow(p));
        lemma_divides_transitive(p, lowpow(p), 2 * s);
    }
}

/// No power of two lies strictly between `s` and `2s`.
proof fn lemma_pow2_between(s: int, l: int)
    requires
        is_pow2(s),
        is_pow2(l),
        l > s,
    ensures
        l >= 2 * s,
    decreases s,
{
    if s == 1 {
        if l == 1 {
        }
        assert(l >= 2);
    } else {
        assert(l >= 2 && l % 2 == 0) by {
            if l == 1 {
            }
        }
        vstd::arithmetic::div_mod::lemma_fundamental_div_mod(l, 2);
        vstd::arithmetic::div_mod::lemma_fundamental_div_mod(s, 2);
        lemma_pow2_between(s / 2, l / 2);
    }
}

/// The up-sweep state once every step below `m` has run: each position holds
/// the sum of the `min(m, lowpow(i + 1))` elements ending at it, while the
/// final position holds everything from the last multiple of `m` below the
/// length.
pub open spec fn up_value(orig: Seq<u64>, m: int, i: int) -> u64 {
    let len = orig.len() as int;
    let p = i + 1;
    if i == len - 1 {
        wsum(orig.subrange(((len - 1) / m) * m, len))
    } else {
        wsum(
            orig.subrange(
                p - (if lowpow(p) < m {
                    lowpow(p)
                } else {
                    m
                }),
                p,
            ),
        )
    }
}

pub open spec fn up_seq(orig: Seq<u64>, m: int) -> Seq<u64> {
    Seq::new(orig.len(), |i: int| up_value(orig, m, i))
}

/// The down-sweep state once every step of `m` and above has run: positions
/// on `m`-boundaries (and the final position) already hold the exclusive
/// running sum of everything before their block, the rest still hold their
/// up-sweep values.
pub open spec fn down_value(orig: Seq<u64>, m: int, i: int) -> u64 {
    let len = orig.len() as int;
    let p = i + 1;
    if i == len - 1 {
        wsum(orig.take(((len - 1) / m) * m))
    } else if p % m == 0 {
        wsum(orig.take(p - m))
    } else {
        up_value(orig, m, i)
    }
}

pub open spec fn down_seq(orig: Seq<u64>, m: int) -> Seq<u64> {
    Seq::new(orig.len(), |i: int| down_value(orig, m, i))
}

/// Rounding `x` down to a multiple of `2m` is the same whether done at
/// granularity `m` or `2m`, except exactly on the odd `m`-multiples.
proof fn lemma_floor_change(x: int, m: int)
    requires
        m >= 1,
        x >= 0,
    ensures
        (x / m) * m == (x / (2 * m)) * (2 * m) + if x % (2 * m) >= m {
            m
        } else {
            0int
        },
{
    let q = x / (2 * m);
    let r = x % (2 * m);
    vstd::arithmetic::div_mod::lemma_fundamental_div_mod(x, 2 * m);
    vstd::arithmetic::div_mod::lemma_mod_bound(x, 2 * m);
    if r >= m {
        assert(x == m * (2 * q + 1) + (r - m)) by (nonlinear_arith)
            requires
                x == (2 * m) * q + r,
        ;
        vstd::arithmetic::div_mod::lemma_fundamental_div_mod_converse(x, m, 2 * q + 1, r - m);
        assert((2 * q + 1) * m == (2 * m) * q + m) by (nonlinear_arith);
        vstd::arithmetic::mul::lemma_mul_is_commutative(2 * q + 1, m);
        vstd::arithmetic::mul::lemma_mul_is_commutative(q, 2 * m);
    } else {
        assert(x == m * (2 * q) + r) by (nonlinear_arith)
            requires
                x == (2 * m) * q + r,
        ;
        vstd::arithmetic::div_mod::lemma_fundamental_div_mod_converse(x, m, 2 * q, r);
        assert((2 * q) * m == (2 * m) * q) by (nonlinear_arith);
        vstd::arithmetic::mul::lemma_mul_is_commutative(2 * q, m);
        vstd::arithmetic::mul::lemma_mul_is_commutative(q, 2 * m);
    }
}

/// When the final position is neither a pair partner nor a rounded-down
/// tail's partner at step `s`, its enclosing block boundary is the same at
/// granularity `s` and `2s`.
#[verifier::rlimit(100)]
#[verifier::spinoff_prover]
proof fn lemma_last_floor_stable(len: int, s: int)
    requires
        is_pow2(s),
        1 <= s < len,
        global_tail_start(len, s) == -1,
        (len - 1) % (2 * s) != 2 * s - 1,
    ensures
        ((len - 1) / s) * s == ((len - 1) / (2 * s)) * (2 * s),
{
    let ts = 2 * s;
    vstd::arithmetic::div_mod::lemma_mod_bound(len - 1, ts);
    lemma_floor_change(len - 1, s);
    if (len - 1) % ts >= s {
        let a = ((len - 1) - (s - 1)) / ts;
        let r = ((len - 1) - (s - 1)) % ts;
        vstd::arithmetic::div_mod::lemma_fundamental_div_mod(len - s, ts);
        vstd::arithmetic::div_mod::lemma_mod_bound(len - s, ts);
        let gt = s - 1 + a * ts;
        assert(len == ts * a + s + r);
        assert((len - 1) % ts == if s + r - 1 < ts {
            s + r - 1
        } else {
            s + r - 1 - ts
        }) by {
            if s + r - 1 < ts {
                assert(len - 1 == a * ts + (s + r - 1)) by (nonlinear_arith)
                    requires
                        len == ts * a + s + r,
                ;
                vstd::arithmetic::div_mod::lemma_fundamental_div_mod_converse(
                    len - 1,
                    ts,
                    a,
                    s + r - 1,
                );
            } else {
                assert(len - 1 == (a + 1) * ts + (s + r - 1 - ts)) by (nonlinear_arith)
                    requires
                        len == ts * a + s + r,
                ;
                vstd::arithmetic::div_mod::lemma_fundamental_div_mod_converse(
                    len - 1,
                    ts,
                    a + 1,
                    s + r - 1 - ts,
                );
            }
        }
        // The tail condition failed, so either the window is empty or the
        // final position is itself a partner.
        assert(gt + s >= len) by (nonlinear_arith)
            requires
                len == ts * a + s + r,
                gt == s - 1 + a * ts,
                ts == 2 * s,
                r < ts,
                (len - 1) % ts >= s,
                (len - 1) % ts == (if s + r - 1 < ts {
                    s + r - 1
                } else {
                    s + r - 1 - ts
                }),
                (len - 1) % ts != ts - 1,
        ;
        assert(gt < len - 1) by (nonlinear_arith)
            requires
                len == ts * a + s + r,
                gt == s - 1 + a * ts,
                ts == 2 * s,
                s >= 1,
                r >= 1 || (len - 1) % ts < s,
                (len - 1) % ts >= s,
                (len - 1) % ts == (if s + r - 1 < ts {
                    s + r - 1
                } else {
                    s + r - 1 - ts
                }),
        ;
        assert(global_tail_start(len, s) >= 0);
        assert(false);
    }
}

/// The up-sweep invariant advances by one pass: applying the pass at step
/// `s` to the state below `s` yields the state below `2s`.
#[verifier::rlimit(100)]
proof fn lemma_up_transition(orig: Seq<u64>, s: int, g: int)
    requires
        is_pow2(s),
        1 <= s < orig.len(),
        0 <= g < orig.len(),
    ensures
        pass_value(up_seq(orig, s), s, false, g) == up_value(orig, 2 * s, g),
{
    let len = orig.len() as int;
    let state = up_seq(orig, s);
    let ts = 2 * s;
    let p = g + 1;
    vstd::arithmetic::div_mod::lemma_mod_bound(g, ts);
    vstd::arithmetic::div_mod::lemma_mod_bound(p, ts);
    if g % ts == ts - 1 {
        // A pair's partner: it receives the combination of its pair.
        assert(p % ts == 0) by {
            let q = g / ts;
            vstd::arithmetic::div_mod::lemma_fundamental_div_mod(g, ts);
            assert(p == (q + 1) * ts + 0) by (nonlinear_arith)
                requires
                    g == ts * q + (ts - 1),
                    p == g + 1,
            ;
            vstd::arithmetic::div_mod::lemma_fundamental_div_mod_converse(p, ts, q + 1, 0);
        }
        let q1 = p - s;
        assert(q1 % ts == s && q1 >= s && q1 / ts * ts == p - ts) by {
            let w = p / ts;
            vstd::arithmetic::div_mod::lemma_fundamental_div_mod(p, ts);
            vstd::arithmetic::div_mod::lemma_div_pos_is_pos(p, ts);
            assert(w >= 1) by (nonlinear_arith)
                requires
                    p == ts * w,
                    p >= 1,
                    ts >= 2,
                    w >= 0,
            ;
            assert(q1 == (w - 1) * ts + s && q1 >= s) by (nonlinear_arith)
                requires
                    q1 == p - s,
                    p == ts * w,
                    ts == 2 * s,
                    s >= 1,
                    w >= 1,
            ;
            vstd::arithmetic::div_mod::lemma_fundamental_div_mod_converse(q1, ts, w - 1, s);
            assert((w - 1) * ts == ts * w - ts) by (nonlinear_arith);
        }
        lemma_lowpow_residue(q1, s);
        assert(g - s < len - 1);
        assert(state[g - s] == wsum(orig.subrange(p - ts, p - s)));
        if g == len - 1 {
            assert(p == len);
            assert(((len - 1) / s) * s == len - s && ((len - 1) / ts) * ts == len - ts) by {
                let w = p / ts;
                vstd::arithmetic::div_mod::lemma_fundamental_div_mod(p, ts);
                assert(len - 1 == ts * (w - 1) + (ts - 1)) by (nonlinear_arith)
                    requires
                        len == ts * w,
                        ts >= 2,
                ;
                vstd::arithmetic::div_mod::lemma_fundamental_div_mod_converse(
                    len - 1,
                    ts,
                    w - 1,
                    ts - 1,
                );
                assert(len - 1 == s * (2 * w - 1) + (s - 1)) by (nonlinear_arith)
                    requires
                        len == ts * w,
                        ts == 2 * s,
                        s >= 1,
                ;
                vstd::arithmetic::div_mod::lemma_fundamental_div_mod_converse(
                    len - 1,
                    s,
                    2 * w - 1,
                    s - 1,
                );
                assert((w - 1) * ts == len - ts && (2 * w - 1) * s == len - s) by (nonlinear_arith)
                    requires
                        len == ts * w,
                        ts == 2 * s,
                ;
            }
            crate::lemma_wsum_split(orig, len - ts, len - s, len);
        } else {
            lemma_lowpow_multiple(p, s);
            assert(state[g] == wsum(orig.subrange(p - s, p)));
            crate::lemma_wsum_split(orig, p - ts, p - s, p);
        }
    } else if g == len - 1 && global_tail_start(len, s) >= 0 {
        // The final position receives the rounded-down pair's combination.
        let a = ((len - 1) - (s - 1)) / ts;
        let gt = s - 1 + a * ts;
        let r = ((len - 1) - (s - 1)) % ts;
        vstd::arithmetic::div_mod::lemma_fundamental_div_mod(len - s, ts);
        vstd::arithmetic::div_mod::lemma_mod_bound(len - s, ts);
        assert(len == ts * a + s + r);
        assert(1 <= r < s) by (nonlinear_arith)
            requires
                len == ts * a + s + r,
                gt == s - 1 + a * ts,
                gt + s >= len,
                gt < len - 1,
                0 <= r < ts,
                ts == 2 * s,
        ;
        let pgt = gt + 1;
        assert(pgt % ts == s) by {
            assert(pgt == ts * a + s) by (nonlinear_arith)
                requires
                    pgt == s + a * ts,
            ;
            vstd::arithmetic::div_mod::lemma_fundamental_div_mod_converse(pgt, ts, a, s);
        }
        lemma_lowpow_residue(pgt, s);
        assert(gt < len - 1);
        assert(state[gt] == wsum(orig.subrange(pgt - s, pgt)));
        assert(((len - 1) / s) * s == pgt && ((len - 1) / ts) * ts == pgt - s) by {
            assert(len - 1 == s * (2 * a + 1) + (r - 1)) by (nonlinear_arith)
                requires
                    len == ts * a + s + r,
                    ts == 2 * s,
            ;
            vstd::arithmetic::div_mod::lemma_fundamental_div_mod_converse(
                len - 1,
                s,
                2 * a + 1,
                r - 1,
            );
            assert(len - 1 == ts * a + (s + r - 1)) by (nonlinear_arith)
                requires
                    len == ts * a + s + r,
            ;
            vstd::arithmetic::div_mod::lemma_fundamental_div_mod_converse(
                len - 1,
                ts,
                a,
                s + r - 1,
            );
            assert((2 * a + 1) * s == ts * a + s && a * ts == ts * a) by (nonlinear_arith)
                requires
                    ts == 2 * s,
            ;
        }
        crate::lemma_wsum_split(orig, pgt - s, pgt, len);
    } else {
        // Everything else keeps its value, and its target expression does
        // not change when the cap doubles.
        if g == len - 1 {
            lemma_last_floor_stable(len, s);
        } else {
            assert(p % ts != 0) by {
                if p % ts == 0 {
                    let w = p / ts;
                    vstd::arithmetic::div_mod::lemma_fundamental_div_mod(p, ts);
                    vstd::arithmetic::div_mod::lemma_div_pos_is_pos(p, ts);
                    assert(w >= 1) by (nonlinear_arith)
                        requires
                            p == ts * w,
                            p >= 1,
                            ts >= 2,
                            w >= 0,
                    ;
                    assert(g == (w - 1) * ts + (ts - 1)) by (nonlinear_arith)
                        requires
                            p == ts * w,
                            p == g + 1,
                            ts >= 2,
                    ;
                    vstd::arithmetic::div_mod::lemma_fundamental_div_mod_converse(
                        g,
                        ts,
                        w - 1,
                        ts - 1,
                    );
                }
            }
            lemma_lowpow_not_multiple(p, s);
            lemma_lowpow_pos(p);
        }
    }
}

/// A pair-start position's index is a multiple of `s` but of nothing
/// larger: splitting its residue class.
proof fn lemma_residue_s_mod(p: int, s: int, ts: int)
    requires
        s >= 1,
        ts == 2 * s,
        p >= 1,
        p % ts == s,
    ensures
        p % s == 0,
        p >= s,
{
    let c = p / ts;
    vstd::arithmetic::div_mod::lemma_fundamental_div_mod(p, ts);
    vstd::arithmetic::div_mod::lemma_div_pos_is_pos(p, ts);
    assert(p == (2 * c + 1) * s + 0 && p >= s) by (nonlinear_arith)
        requires
            p == ts * c + s,
            ts == 2 * s,
            s >= 1,
            c >= 0,
    ;
    vstd::arithmetic::div_mod::lemma_fundamental_div_mod_converse(p, s, 2 * c + 1, 0);
}

/// A multiple of `s` sits on an even or odd `s`-boundary: its residue
/// modulo `2s` is 0 or `s`.
proof fn lemma_multiple_residue(p: int, s: int, ts: int)
    requires
        s >= 1,
        ts == 2 * s,
        p >= 0,
        p % s == 0,
    ensures
        p % ts == 0 || p % ts == s,
{
    let k = p / s;
    vstd::arithmetic::div_mod::lemma_fundamental_div_mod(p, s);
    vstd::arithmetic::div_mod::lemma_fundamental_div_mod(k, 2);
    vstd::arithmetic::div_mod::lemma_mod_bound(k, 2);
    if k % 2 == 0 {
        assert(p == (k / 2) * ts + 0) by (nonlinear_arith)
            requires
                p == s * k,
                k == 2 * (k / 2),
                ts == 2 * s,
        ;
        vstd::arithmetic::div_mod::lemma_fundamental_div_mod_converse(p, ts, k / 2, 0);
    } else {
        assert(p == (k / 2) * ts + s) by (nonlinear_arith)
            requires
                p == s * k,
                k == 2 * (k / 2) + 1,
                ts == 2 * s,
        ;
        vstd::arithmetic::div_mod::lemma_fundamental_div_mod_converse(p, ts, k / 2, s);
    }
}

/// The down-sweep invariant advances by one pass: applying the down pass at
/// step `s` to the state above `2s` yields the state above `s`.
#[verifier::rlimit(100)]
proof fn lemma_down_transition(orig: Seq<u64>, s: int, g: int)
    requires
        is_pow2(s),
        1 <= s < orig.len(),
        0 <= g < orig.len(),
    ensures
        pass_value(down_seq(orig, 2 * s), s, true, g) == down_value(orig, s, g),
{
    let len = orig.len() as int;
    let state = down_seq(orig, 2 * s);
    let ts = 2 * s;
    let p = g + 1;
    vstd::arithmetic::div_mod::lemma_mod_bound(g, ts);
    vstd::arithmetic::div_mod::lemma_mod_bound(p, ts);
    if g % ts == ts - 1 {
        // A pair's partner: it receives the pair start's exclusive sum plus
        // its own up-sweep segment.
        assert(p % ts == 0) by {
            let q = g / ts;
            vstd::arithmetic::div_mod::lemma_fundamental_div_mod(g, ts);
            assert(p == (q + 1) * ts + 0) by (nonlinear_arith)
                requires
                    g == ts * q + (ts - 1),
                    p == g + 1,
            ;
            vstd::arithmetic::div_mod::lemma_fundamental_div_mod_converse(p, ts, q + 1, 0);
        }
        let q1 = p - s;
        assert(q1 % ts == s && q1 >= s && q1 / ts * ts == p - ts) by {
            let w = p / ts;
            vstd::arithmetic::div_mod::lemma_fundamental_div_mod(p, ts);
            vstd::arithmetic::div_mod::lemma_div_pos_is_pos(p, ts);
            assert(w >= 1) by (nonlinear_arith)
                requires
                    p == ts * w,
                    p >= 1,
                    ts >= 2,
                    w >= 0,
            ;
            assert(q1 == (w - 1) * ts + s && q1 >= s) by (nonlinear_arith)
                requires
                    q1 == p - s,
                    p == ts * w,
                    ts == 2 * s,
                    s >= 1,
                    w >= 1,
            ;
            vstd::arithmetic::div_mod::lemma_fundamental_div_mod_converse(q1, ts, w - 1, s);
            assert((w - 1) * ts == ts * w - ts) by (nonlinear_arith);
        }
        lemma_lowpow_residue(q1, s);
        assert(g - s < len - 1);
        assert(state[g - s] == wsum(orig.subrange(p - ts, p - s)));
        lemma_residue_s_mod(p - s, s, ts);
        assert(p % s == 0) by {
            let w = p / ts;
            vstd::arithmetic::div_mod::lemma_fundamental_div_mod(p, ts);
            assert(p == (2 * w) * s + 0) by (nonlinear_arith)
                requires
                    p == ts * w,
                    ts == 2 * s,
            ;
            vstd::arithmetic::div_mod::lemma_fundamental_div_mod_converse(p, s, 2 * w, 0);
        }
        if g == len - 1 {
            assert(((len - 1) / s) * s == len - s && ((len - 1) / ts) * ts == len - ts) by {
                let w = p / ts;
                vstd::arithmetic::div_mod::lemma_fundamental_div_mod(p, ts);
                assert(len - 1 == ts * (w - 1) + (ts - 1)) by (nonlinear_arith)
                    requires
                        len == ts * w,
                        ts >= 2,
                ;
                vstd::arithmetic::div_mod::lemma_fundamental_div_mod_converse(
                    len - 1,
                    ts,
                    w - 1,
                    ts - 1,
                );
                assert(len - 1 == s * (2 * w - 1) + (s - 1)) by (nonlinear_arith)
                    requires
                        len == ts * w,
                        ts == 2 * s,
                        s >= 1,
                ;
                vstd::arithmetic::div_mod::lemma_fundamental_div_mod_converse(
                    len - 1,
                    s,
                    2 * w - 1,
                    s - 1,
                );
                assert((w - 1) * ts == len - ts && (2 * w - 1) * s == len - s) by (nonlinear_arith)
                    requires
                        len == ts * w,
                        ts == 2 * s,
                ;
            }
            assert(orig.take(len - s) =~= orig.take(len - ts) + orig.subrange(len - ts, len - s));
            crate::lemma_wsum_concat(orig.take(len - ts), orig.subrange(len - ts, len - s));
            crate::lemma_wadd_comm(
                wsum(orig.take(len - ts)),
                wsum(orig.subrange(len - ts, len - s)),
            );
        } else {
            assert(state[g] == wsum(orig.take(p - ts)));
            assert(orig.take(p - s) =~= orig.take(p - ts) + orig.subrange(p - ts, p - s));
            crate::lemma_wsum_concat(orig.take(p - ts), orig.subrange(p - ts, p - s));
            crate::lemma_wadd_comm(wsum(orig.take(p - ts)), wsum(orig.subrange(p - ts, p - s)));
        }
    } else if g == len - 1 && global_tail_start(len, s) >= 0 {
        // The final position receives the rounded-down pair start's
        // exclusive sum plus its own up-sweep segment.
        let a = ((len - 1) - (s - 1)) / ts;
        let gt = s - 1 + a * ts;
        let r = ((len - 1) - (s - 1)) % ts;
        vstd::arithmetic::div_mod::lemma_fundamental_div_mod(len - s, ts);
        vstd::arithmetic::div_mod::lemma_mod_bound(len - s, ts);
        assert(len == ts * a + s + r);
        assert(1 <= r < s) by (nonlinear_arith)
            requires
                len == ts * a + s + r,
                gt == s - 1 + a * ts,
                gt + s >= len,
                gt < len - 1,
                0 <= r < ts,
                ts == 2 * s,
        ;
        let pgt = gt + 1;
        assert(pgt == ts * a + s) by (nonlinear_arith)
            requires
                pgt == s + a * ts,
        ;
        assert(pgt % ts == s) by {
            vstd::arithmetic::div_mod::lemma_fundamental_div_mod_converse(pgt, ts, a, s);
        }
        lemma_lowpow_residue(pgt, s);
        assert(gt < len - 1);
        assert(state[gt] == wsum(orig.subrange(pgt - s, pgt)));
        assert(((len - 1) / s) * s == pgt && ((len - 1) / ts) * ts == pgt - s) by {
            assert(len - 1 == s * (2 * a + 1) + (r - 1)) by (nonlinear_arith)
                requires
                    len == ts * a + s + r,
                    ts == 2 * s,
            ;
            vstd::arithmetic::div_mod::lemma_fundamental_div_mod_converse(
                len - 1,
                s,
                2 * a + 1,
                r - 1,
            );
            assert(len - 1 == ts * a + (s + r - 1)) by (nonlinear_arith)
                requires
                    len == ts * a + s + r,
            ;
            vstd::arithmetic::div_mod::lemma_fundamental_div_mod_converse(
                len - 1,
                ts,
                a,
                s + r - 1,
            );
            assert((2 * a + 1) * s == ts * a + s && a * ts == ts * a) by (nonlinear_arith)
                requires
                    ts == 2 * s,
            ;
        }
        assert(orig.take(pgt) =~= orig.take(pgt - s) + orig.subrange(pgt - s, pgt));
        crate::lemma_wsum_concat(orig.take(pgt - s), orig.subrange(pgt - s, pgt));
        crate::lemma_wadd_comm(wsum(orig.take(pgt - s)), wsum(orig.subrange(pgt - s, pgt)));
    } else if g % ts == s - 1 && chunk_pair(len, s, g) >= 0 {
        // A pair start: it receives its partner's old exclusive sum.
        let c = g / ts;
        vstd::arithmetic::div_mod::lemma_fundamental_div_mod(g, ts);
        assert(p == ts * c + s) by (nonlinear_arith)
            requires
                g == ts * c + (s - 1),
                p == g + 1,
        ;
        assert(p % ts == s) by {
            vstd::arithmetic::div_mod::lemma_fundamental_div_mod_converse(p, ts, c, s);
        }
        lemma_residue_s_mod(p, s, ts);
        assert(g < len - 1);
        assert(down_value(orig, s, g) == wsum(orig.take(p - s)));
        assert(p - s == ts * c);
        if g + s < len {
            let p2 = p + s;
            assert(p2 == (c + 1) * ts + 0) by (nonlinear_arith)
                requires
                    p == ts * c + s,
                    p2 == p + s,
                    ts == 2 * s,
            ;
            assert(p2 % ts == 0) by {
                vstd::arithmetic::div_mod::lemma_fundamental_div_mod_converse(p2, ts, c + 1, 0);
            }
            if g + s == len - 1 {
                assert(((len - 1) / ts) * ts == ts * c) by {
                    assert(len - 1 == c * ts + (ts - 1)) by (nonlinear_arith)
                        requires
                            p2 == (c + 1) * ts,
                            p2 == len,
                            ts >= 2,
                    ;
                    vstd::arithmetic::div_mod::lemma_fundamental_div_mod_converse(
                        len - 1,
                        ts,
                        c,
                        ts - 1,
                    );
                    assert(c * ts == ts * c) by (nonlinear_arith);
                }
            } else {
                assert(state[g + s] == wsum(orig.take(p2 - ts)));
                assert(p2 - ts == ts * c) by (nonlinear_arith)
                    requires
                        p2 == (c + 1) * ts,
                        ts >= 2,
                ;
            }
        } else {
            // The partner is the rounded-down final element.
            let a = ((len - 1) - (s - 1)) / ts;
            let r = ((len - 1) - (s - 1)) % ts;
            vstd::arithmetic::div_mod::lemma_fundamental_div_mod(len - s, ts);
            vstd::arithmetic::div_mod::lemma_mod_bound(len - s, ts);
            assert(len == ts * a + s + r);
            assert(c == a && r <= s - 1) by (nonlinear_arith)
                requires
                    len == ts * a + s + r,
                    g == ts * c + (s - 1),
                    g + s >= len,
                    g < len - 1,
                    0 <= r < ts,
                    ts == 2 * s,
                    s >= 1,
            ;
            assert(((len - 1) / ts) * ts == ts * c) by {
                assert(len - 1 == a * ts + (s + r - 1) && 0 <= s + r - 1 < ts) by (nonlinear_arith)
                    requires
                        len == ts * a + s + r,
                        0 <= r,
                        r <= s - 1,
                        ts == 2 * s,
                        s >= 1,
                ;
                vstd::arithmetic::div_mod::lemma_fundamental_div_mod_converse(
                    len - 1,
                    ts,
                    a,
                    s + r - 1,
                );
                assert(a * ts == ts * c) by (nonlinear_arith)
                    requires
                        a == c,
                ;
            }
        }
    } else {
        // Everything else keeps its value.
        if g == len - 1 {
            lemma_last_floor_stable(len, s);
        } else {
            assert(p % ts != 0) by {
                if p % ts == 0 {
                    let w = p / ts;
                    vstd::arithmetic::div_mod::lemma_fundamental_div_mod(p, ts);
                    vstd::arithmetic::div_mod::lemma_div_pos_is_pos(p, ts);
                    assert(w >= 1) by (nonlinear_arith)
                        requires
                            p == ts * w,
                            p >= 1,
                            ts >= 2,
                            w >= 0,
                    ;
                    assert(g == (w - 1) * ts + (ts - 1)) by (nonlinear_arith)
                        requires
                            p == ts * w,
                            p == g + 1,
                            ts >= 2,
                    ;
                    vstd::arithmetic::div_mod::lemma_fundamental_div_mod_converse(
                        g,
                        ts,
                        w - 1,
                        ts - 1,
                    );
                }
            }
            assert(p % ts != s) by {
                if p % ts == s {
                    let w = p / ts;
                    vstd::arithmetic::div_mod::lemma_fundamental_div_mod(p, ts);
                    assert(g == w * ts + (s - 1)) by (nonlinear_arith)
                        requires
                            p == ts * w + s,
                            p == g + 1,
                            ts == 2 * s,
                            s >= 1,
                    ;
                    vstd::arithmetic::div_mod::lemma_fundamental_div_mod_converse(
                        g,
                        ts,
                        w,
                        s - 1,
                    );
                }
            }
            assert(p % s != 0) by {
                if p % s == 0 {
                    lemma_multiple_residue(p, s, ts);
                }
            }
            lemma_lowpow_not_multiple(p, s);
            lemma_lowpow_pos(p);
            assert(lowpow(p) < s) by {
                if lowpow(p) == s {
                    lemma_lowpow_divides(p);
                }
            }
        }
    }
}

/// Before any pass has run, the buffer is the up-sweep state below 1.
proof fn lemma_up_init(orig: Seq<u64>)
    requires
        orig.len() >= 1,
    ensures
        up_seq(orig, 1) == orig,
{
    let len = orig.len() as int;
    assert forall|g: int| 0 <= g < len implies up_seq(orig, 1)[g] == orig[g] by {
        lemma_lowpow_pos(g + 1);
        if g == len - 1 {
            vstd::arithmetic::div_mod::lemma_fundamental_div_mod_converse(len - 1, 1, len - 1, 0);
            crate::lemma_wsum_singleton(orig, g);
        } else {
            crate::lemma_wsum_singleton(orig, g);
        }
    }
    assert(up_seq(orig, 1) =~= orig);
}

/// Writing the identity into the final position turns the finished up-sweep
/// state into the initial down-sweep state.
proof fn lemma_set_last(orig: Seq<u64>, m: int)
    requires
        orig.len() >= 1,
        m >= orig.len(),
    ensures
        up_seq(orig, m).update(orig.len() - 1, 0u64) == down_seq(orig, m),
{
    let len = orig.len() as int;
    assert forall|g: int| 0 <= g < len implies up_seq(orig, m).update(len - 1, 0u64)[g]
        == down_seq(orig, m)[g] by {
        let p = g + 1;
        if g == len - 1 {
            vstd::arithmetic::div_mod::lemma_fundamental_div_mod_converse(len - 1, m, 0, len - 1);
            assert(((len - 1) / m) * m == 0) by (nonlinear_arith)
                requires
                    (len - 1) / m == 0,
            ;
            assert(orig.take(0) =~= Seq::<u64>::empty());
            assert(wsum(Seq::<u64>::empty()) == 0);
        } else {
            vstd::arithmetic::div_mod::lemma_small_mod(p as nat, m as nat);
        }
    }
    assert(up_seq(orig, m).update(len - 1, 0u64) =~= down_seq(orig, m));
}

/// Once every step has been distributed back down, the buffer holds the
/// exclusive running sum.
proof fn lemma_down_final(orig: Seq<u64>)
    requires
        orig.len() >= 1,
    ensures
        down_seq(orig, 1) == exclusive_scan(orig),
{
    let len = orig.len() as int;
    assert forall|g: int| 0 <= g < len implies down_seq(orig, 1)[g] == exclusive_scan(orig)[g] by {
        let p = g + 1;
        lemma_mod_one(p);
        if g == len - 1 {
            vstd::arithmetic::div_mod::lemma_fundamental_div_mod_converse(len - 1, 1, len - 1, 0);
        }
    }
    assert(down_seq(orig, 1) =~= exclusive_scan(orig));
}

/// How one sweep relates a chunk's output value at `j` to the chunk's old
/// contents for an arbitrary combining function: every pair's partner holds
/// a value the function may return for the pair, on the down sweep every
/// pair start holds its partner's old value, and everything else is
/// unchanged.
pub open spec fn gen_chunk_rel<T, F: Fn(&T, &T) -> T>(
    func: F,
    c: Seq<T>,
    s: int,
    down: bool,
    j: int,
    val: T,
) -> bool {
    let clen = c.len() as int;
    if j % (2 * s) == s {
        call_ensures(func, (&c[j - s], &c[j]), val)
    } else if j == clen - 1 && chunk_tail_start(clen, s) >= 0 {
        call_ensures(func, (&c[chunk_tail_start(clen, s)], &c[j]), val)
    } else if down && j % (2 * s) == 0 && chunk_pair(clen, s, j) >= 0 {
        val == c[chunk_pair(clen, s, j)]
    } else {
        val == c[j]
    }
}

/// The same relation over the whole buffer: pair starts sit at positions
/// congruent to `s - 1` modulo `2s`.
pub open spec fn gen_value_rel<T, F: Fn(&T, &T) -> T>(
    func: F,
    state: Seq<T>,
    s: int,
    down: bool,
    g: int,
    val: T,
) -> bool {
    let len = state.len() as int;
    if g % (2 * s) == 2 * s - 1 {
        call_ensures(func, (&state[g - s], &state[g]), val)
    } else if g == len - 1 && global_tail_start(len, s) >= 0 {
        call_ensures(func, (&state[global_tail_start(len, s)], &state[g]), val)
    } else if down && g % (2 * s) == s - 1 && chunk_pair(len, s, g) >= 0 {
        val == state[chunk_pair(len, s, g)]
    } else {
        val == state[g]
    }
}

/// One whole sweep for an arbitrary combining function, position by
/// position.
pub open spec fn gen_pass_rel<T, F: Fn(&T, &T) -> T>(
    func: F,
    before: Seq<T>,
    after: Seq<T>,
    s: int,
    down: bool,
) -> bool {
    &&& after.len() == before.len()
    &&& forall|g: int|
        0 <= g < before.len() ==> gen_value_rel(func, before, s, down, g, #[trigger] after[g])
}

/// The doubling chain of sweep steps for a buffer of the given length.
pub open spec fn steps_shape(steps: Seq<int>, len: int) -> bool {
    &&& (len <= 1 ==> steps.len() == 0)
    &&& (len > 1 ==> steps.len() > 0 && steps[0] == 1 && 2 * steps.last() >= len)
    &&& (forall|i: int| 0 <= i < steps.len() ==> 1 <= #[trigger] steps[i] && steps[i] < len)
    &&& (forall|i: int| 0 <= i < steps.len() - 1 ==> #[trigger] steps[i + 1] == 2 * steps[i])
}

/// A step list as mathematical integers.
pub open spec fn steps_as_int(steps: Seq<usize>) -> Seq<int> {
    Seq::new(steps.len(), |i: int| steps[i] as int)
}

/// A chain of up-sweep passes from `input` to `output`, one per step.
pub open spec fn up_chain<T, F: Fn(&T, &T) -> T>(
    func: F,
    input: Seq<T>,
    output: Seq<T>,
    steps: Seq<int>,
    ups: Seq<Seq<T>>,
) -> bool {
    &&& ups.len() == steps.len() + 1
    &&& ups[0] == input
    &&& ups[steps.len() as int] == output
    &&& forall|x: int|
        0 <= x < steps.len() ==> gen_pass_rel(func, #[trigger] ups[x], ups[x + 1], steps[x], false)
}

/// A chain of down-sweep passes from `input` to `output`, one per step in
/// reverse order.
pub open spec fn down_chain<T, F: Fn(&T, &T) -> T>(
    func: F,
    input: Seq<T>,
    output: Seq<T>,
    steps: Seq<int>,
    downs: Seq<Seq<T>>,
) -> bool {
    &&& downs.len() == steps.len() + 1
    &&& downs[steps.len() as int] == input
    &&& downs[0] == output
    &&& forall|x: int|
        0 <= x < steps.len() ==> gen_pass_rel(
            func,
            #[trigger] downs[x + 1],
            downs[x],
            steps[x],
            true,
        )
}

/// Whether some chain of up-sweep passes links `input` to `output`.
pub open spec fn has_up_chain<T, F: Fn(&T, &T) -> T>(
    func: F,
    input: Seq<T>,
    output: Seq<T>,
    steps: Seq<int>,
) -> bool {
    exists|ups: Seq<Seq<T>>| up_chain(func, input, output, steps, ups)
}

/// Whether some chain of down-sweep passes links `input` to `output`.
pub open spec fn has_down_chain<T, F: Fn(&T, &T) -> T>(
    func: F,
    input: Seq<T>,
    output: Seq<T>,
    steps: Seq<int>,
) -> bool {
    exists|downs: Seq<Seq<T>>| down_chain(func, input, output, steps, downs)
}

/// The tree scan's full history for an arbitrary combining function: one
/// up-sweep pass per step of the doubling chain, the top seeded with the
/// operator's default value (of which nothing further is known for a
/// generic operand type), and one down-sweep pass per step in reverse.
pub open spec fn tree_scan_trace<T: Default, F: Fn(&T, &T) -> T>(
    func: F,
    input: Seq<T>,
    output: Seq<T>,
    steps: Seq<int>,
    ups: Seq<Seq<T>>,
    downs: Seq<Seq<T>>,
) -> bool {
    let n = steps.len() as int;
    let len = input.len() as int;
    &&& len >= 1
    &&& steps_shape(steps, len)
    &&& ups.len() == n + 1
    &&& downs.len() == n + 1
    &&& ups[0] == input
    &&& (forall|i: int|
        0 <= i < n ==> gen_pass_rel(func, #[trigger] ups[i], ups[i + 1], steps[i], false))
    &&& downs[n].len() == len
    &&& downs[n] == ups[n].update(len - 1, downs[n][len - 1])
    &&& call_ensures(T::default, (), downs[n][len - 1])
    &&& (forall|i: int|
        0 <= i < n ==> gen_pass_rel(func, #[trigger] downs[i + 1], downs[i], steps[i], true))
    &&& output == downs[0]
}

/// Whether some tree-scan history links `input` to `output`.
pub open spec fn has_tree_scan_trace<T: Default, F: Fn(&T, &T) -> T>(
    func: F,
    input: Seq<T>,
    output: Seq<T>,
) -> bool {
    exists|steps: Seq<int>, ups: Seq<Seq<T>>, downs: Seq<Seq<T>>|
        tree_scan_trace(func, input, output, steps, ups, downs)
}

/// A chunk pass relation over `[b, e)` transfers to the whole-buffer
/// relation wherever the chunk boundaries are aligned to pair starts.
#[verifier::rlimit(100)]
proof fn lemma_chunk_matches_global_rel<T, F: Fn(&T, &T) -> T>(
    func: F,
    state: Seq<T>,
    s: int,
    down: bool,
    b: int,
    e: int,
    j: int,
    val: T,
)
    requires
        1 <= s < state.len(),
        s - 1 <= b < e <= state.len(),
        b % (2 * s) == s - 1,
        e == state.len() || e % (2 * s) == s - 1,
        0 <= j < e - b,
        gen_chunk_rel(func, state.subrange(b, e), s, down, j, val),
    ensures
        gen_value_rel(func, state, s, down, b + j, val),
{
    let len = state.len() as int;
    let ts = 2 * s;
    let c = state.subrange(b, e);
    let clen = e - b;
    let g = b + j;
    lemma_shift_residue(b, j, s);
    vstd::arithmetic::div_mod::lemma_fundamental_div_mod(b, ts);
    let t = b / ts;
    if e < len {
        vstd::arithmetic::div_mod::lemma_fundamental_div_mod(e, ts);
        let u = e / ts;
        let q = u - t;
        assert(clen == ts * q) by {
            vstd::arithmetic::mul::lemma_mul_is_distributive_sub(ts, u, t);
        }
        assert(q >= 1) by {
            if q <= 0 {
                vstd::arithmetic::mul::lemma_mul_inequality(q, 0, ts);
                vstd::arithmetic::mul::lemma_mul_is_commutative(q, ts);
            }
        }
        assert(clen - 1 == ts * (q - 1) + (ts - 1)) by {
            vstd::arithmetic::mul::lemma_mul_is_distributive_sub(ts, q, 1);
        }
        vstd::arithmetic::div_mod::lemma_fundamental_div_mod_converse(clen - 1, ts, q - 1, ts - 1);
        assert(((clen - 1) / ts) * ts == (q - 1) * ts);
        assert(chunk_tail_start(clen, s) == -1) by {
            vstd::arithmetic::mul::lemma_mul_is_commutative(q - 1, ts);
            vstd::arithmetic::mul::lemma_mul_is_distributive_sub(ts, q, 1);
            assert((q - 1) * ts + s < clen);
        }
        assert(g < len - 1);
        if j % ts == s {
            assert(j >= s) by {
                if j < ts {
                    vstd::arithmetic::div_mod::lemma_small_mod(j as nat, ts as nat);
                }
            }
            assert(c[j] == state[g] && c[j - s] == state[g - s]);
        } else if j % ts == 0 {
            assert(j + s < clen) by {
                vstd::arithmetic::div_mod::lemma_fundamental_div_mod(j, ts);
                vstd::arithmetic::div_mod::lemma_div_is_ordered(j, clen - 1, ts);
                vstd::arithmetic::mul::lemma_mul_inequality(j / ts, q - 1, ts);
                vstd::arithmetic::mul::lemma_mul_is_commutative(j / ts, ts);
                vstd::arithmetic::mul::lemma_mul_is_commutative(q - 1, ts);
                vstd::arithmetic::mul::lemma_mul_is_distributive_sub(ts, q, 1);
            }
            if down {
                assert(chunk_pair(clen, s, j) == j + s);
                assert(chunk_pair(len, s, g) == g + s);
                assert(c[j + s] == state[g + s]);
            } else {
                assert(c[j] == state[g]);
            }
        } else {
            assert(c[j] == state[g]);
        }
    } else {
        assert(len - s == ts * t + (clen - 1));
        vstd::arithmetic::div_mod::lemma_hoist_over_denominator(clen - 1, t, ts as nat);
        assert((clen - 1) / ts + t == (len - s) / ts);
        assert(b + ((clen - 1) / ts) * ts == s - 1 + ((len - s) / ts) * ts) by {
            vstd::arithmetic::mul::lemma_mul_is_distributive_add_other_way(
                ts,
                (clen - 1) / ts,
                t,
            );
            vstd::arithmetic::mul::lemma_mul_is_commutative(t, ts);
        }
        lemma_shift_residue(b, clen - 1, s);
        assert((clen - 1) % ts == s <==> (len - 1) % ts == ts - 1);
        assert(chunk_tail_start(clen, s) >= 0 ==> b + chunk_tail_start(clen, s)
            == global_tail_start(len, s));
        assert(chunk_tail_start(clen, s) >= 0 <==> global_tail_start(len, s) >= 0);
        if j % ts == s {
            assert(j >= s) by {
                if j < ts {
                    vstd::arithmetic::div_mod::lemma_small_mod(j as nat, ts as nat);
                }
            }
            assert(c[j] == state[g] && c[j - s] == state[g - s]);
        } else if j == clen - 1 && chunk_tail_start(clen, s) >= 0 {
            assert(c[chunk_tail_start(clen, s)] == state[global_tail_start(len, s)]);
            assert(c[j] == state[g]);
        } else if down && j % ts == 0 && chunk_pair(clen, s, j) >= 0 {
            assert(chunk_pair(clen, s, j) == chunk_pair(len, s, g) - b);
            assert(c[chunk_pair(clen, s, j)] == state[chunk_pair(len, s, g)]);
        } else {
            assert(c[j] == state[g]);
        }
    }
}

} // verus!
