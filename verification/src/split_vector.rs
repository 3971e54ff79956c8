use vstd::prelude::*;

verus! {

/// A region token for a sub-range `[start, start + data.len())` of a
/// `SplitVector`'s buffer.  The token owns the elements of its region, so two
/// live chunks can never alias; the parent buffer can only be reclaimed after
/// every token has been handed back.
pub struct SplitVectorChunk<T> {
    data: Vec<T>,
    start: usize,
}

impl<T> View for SplitVectorChunk<T> {
    type V = Seq<T>;

    /// The elements of the chunk's region.
    closed spec fn view(&self) -> Seq<T> {
        self.data@
    }
}

impl<T> SplitVectorChunk<T> {
    /// The offset of this chunk's region in the parent buffer.
    pub closed spec fn spec_start(&self) -> usize {
        self.start
    }

    /// Builds a free-standing chunk; `absorb` only accepts chunk lists that
    /// exactly tile the lent region, so this cannot corrupt any parent.
    pub fn from_vec(data: Vec<T>, start: usize) -> (c: SplitVectorChunk<T>)
        ensures
            c@ == data@,
            c.spec_start() == start,
    {
        SplitVectorChunk { data, start }
    }

    /// Hands the chunk's elements out, dissolving the token.
    pub fn into_vec(self) -> (v: Vec<T>)
        ensures
            v@ == self@,
    {
        self.data
    }

    pub fn len(&self) -> (n: usize)
        ensures
            n == self@.len(),
    {
        self.data.len()
    }

    pub fn start(&self) -> (s: usize)
        ensures
            s == self.spec_start(),
    {
        self.start
    }

    pub fn get(&self, i: usize) -> (e: &T)
        requires
            i < self@.len(),
        ensures
            *e == self@[i as int],
    {
        &self.data[i]
    }

    pub fn set(&mut self, i: usize, value: T)
        requires
            i < old(self)@.len(),
        ensures
            final(self)@ == old(self)@.update(i as int, value),
            final(self).spec_start() == old(self).spec_start(),
    {
        self.data[i] = value;
    }

    /// Writes `value` at position `i` and returns the element it displaced.
    pub fn replace(&mut self, i: usize, value: T) -> (displaced: T)
        requires
            i < old(self)@.len(),
        ensures
            final(self)@ == old(self)@.update(i as int, value),
            final(self).spec_start() == old(self).spec_start(),
            displaced == old(self)@[i as int],
    {
        let mut value = value;
        core::mem::swap(&mut self.data[i], &mut value);
        value
    }

    pub fn last(&self) -> (e: Option<&T>)
        ensures
            self@.len() == 0 ==> e is None,
            self@.len() > 0 ==> (e matches Some(v) && *v == self@.last()),
    {
        if self.data.len() > 0 {
            Some(&self.data[self.data.len() - 1])
        } else {
            None
        }
    }
}

/// Wraps one buffer and splits it into non-overlapping mutable chunks, each
/// lent to one worker; the buffer can be reclaimed only once every chunk has
/// been handed back.
pub struct SplitVector<T> {
    /// The whole contents when no chunk is outstanding; otherwise the
    /// elements below the lent region.
    data: Vec<T>,
    /// The elements above the lent region; empty when no chunk is outstanding.
    suffix: Vec<T>,
    /// How many chunks are outstanding.
    lent: usize,
    /// The length of the complete buffer, split or not.
    full_len: usize,
}

impl<T> View for SplitVector<T> {
    type V = Seq<T>;

    /// The contents of the buffer; while chunks are outstanding, only the
    /// part below the lent region.
    closed spec fn view(&self) -> Seq<T> {
        self.data@
    }
}

impl<T: Default> SplitVector<T> {
    /// A buffer of `size` default-valued elements.
    pub fn with_size(size: usize) -> (s: SplitVector<T>)
        ensures
            s@.len() == size,
            s.outstanding() == 0,
            s.spec_len() == size,
            s.spec_suffix().len() == 0,
            forall|i: int|
                0 <= i < size ==> call_ensures(T::default, (), #[trigger] s@[i]),
    {
        let mut data: Vec<T> = Vec::new();
        while data.len() < size
            invariant
                data@.len() <= size,
                forall|i: int|
                    0 <= i < data@.len() ==> call_ensures(T::default, (), #[trigger] data@[i]),
            decreases size - data@.len(),
        {
            data.push(T::default());
        }
        SplitVector { data, suffix: Vec::new(), lent: 0, full_len: size }
    }
}

impl<T> SplitVector<T> {
    /// How many chunks are currently lent out.
    pub closed spec fn outstanding(&self) -> usize {
        self.lent
    }

    /// The length of the complete buffer, lent parts included.
    pub closed spec fn spec_len(&self) -> usize {
        self.full_len
    }

    /// The retained upper part while split; empty when whole.
    pub closed spec fn spec_suffix(&self) -> Seq<T> {
        self.suffix@
    }

    /// Wraps an existing buffer.
    pub fn with_vec(vec: Vec<T>) -> (s: SplitVector<T>)
        ensures
            s@ == vec@,
            s.outstanding() == 0,
            s.spec_len() == vec@.len(),
            s.spec_suffix().len() == 0,
    {
        let full_len = vec.len();
        SplitVector { data: vec, suffix: Vec::new(), lent: 0, full_len }
    }

    pub fn len(&self) -> (n: usize)
        ensures
            n == self.spec_len(),
    {
        self.full_len
    }

    /// One more than the number of outstanding chunks: the count of holders
    /// of the buffer.
    pub fn ref_count(&self) -> (n: usize)
        requires
            self.outstanding() < usize::MAX,
        ensures
            n == self.outstanding() + 1,
    {
        self.lent + 1
    }

    /// Splits the region `[offsets[0], offsets.last())` into one chunk per
    /// adjacent pair of offsets.  Fails, leaving the buffer untouched, if the
    /// offsets are not strictly increasing within the buffer's contents, or
    /// if any earlier chunk is still outstanding.
    #[verifier::rlimit(100)]
    pub fn chunk(&mut self, offsets: &Vec<usize>) -> (r: Option<Vec<SplitVectorChunk<T>>>)
        ensures
            ({
                let valid = old(self).outstanding() == 0 && offsets@.len() >= 1 && offsets@.last()
                    <= old(self)@.len() && (forall|i: int|
                    0 <= i < offsets@.len() - 1 ==> #[trigger] offsets@[i] < offsets@[i + 1]);
                &&& !valid ==> r is None && *final(self) == *old(self)
                &&& valid ==> (r matches Some(chunks) && {
                    &&& chunks@.len() == offsets@.len() - 1
                    &&& forall|i: int|
                        0 <= i < chunks@.len() ==> (#[trigger] chunks@[i]).spec_start()
                            == offsets@[i] && chunks@[i]@ == old(self)@.subrange(
                            offsets@[i] as int,
                            offsets@[i + 1] as int,
                        )
                    &&& final(self).outstanding() == chunks@.len()
                    &&& final(self).spec_len() == old(self).spec_len()
                    &&& chunks@.len() == 0 ==> *final(self) == *old(self)
                    &&& chunks@.len() > 0 ==> final(self)@ == old(self)@.subrange(
                        0,
                        offsets@[0] as int,
                    ) && final(self).spec_suffix() == old(self)@.subrange(
                        offsets@.last() as int,
                        old(self)@.len() as int,
                    )
                })
            }),
    {
        if self.lent != 0 || offsets.len() == 0 {
            return None;
        }
        if offsets[offsets.len() - 1] > self.data.len() {
            return None;
        }
        let mut i: usize = 0;
        while i < offsets.len() - 1
            invariant
                offsets@.len() >= 1,
                i <= offsets@.len() - 1,
                forall|j: int| 0 <= j < i ==> #[trigger] offsets@[j] < offsets@[j + 1],
                *self == *old(self),
                self.lent == 0,
                offsets@.last() <= self.data@.len(),
            decreases offsets@.len() - i,
        {
            if offsets[i] >= offsets[i + 1] {
                return None;
            }
            i += 1;
        }
        if offsets.len() == 1 {
            return Some(Vec::new());
        }
        // Carve the lent region out of the buffer, from the top down.
        let ghost orig = self.data@;
        let suffix = self.data.split_off(offsets[offsets.len() - 1]);
        let mut chunks_rev: Vec<SplitVectorChunk<T>> = Vec::new();
        let mut k: usize = offsets.len() - 1;
        while k > 0
            invariant
                offsets@.len() >= 2,
                k <= offsets@.len() - 1,
                forall|j: int| 0 <= j < offsets@.len() - 1 ==> #[trigger] offsets@[j] < offsets@[j + 1],
                offsets@.last() <= orig.len(),
                offsets@[k as int] <= orig.len(),
                self.data@ == orig.subrange(0, offsets@[k as int] as int),
                self.full_len == old(self).full_len,
                chunks_rev@.len() == offsets@.len() - 1 - k,
                forall|j: int|
                    0 <= j < chunks_rev@.len() ==> {
                        let c = offsets@.len() - 1 - j;
                        (#[trigger] chunks_rev@[j]).spec_start() == offsets@[c - 1]
                            && chunks_rev@[j]@ == orig.subrange(
                            offsets@[c - 1] as int,
                            offsets@[c] as int,
                        )
                    },
            decreases k,
        {
            proof {
                lemma_increasing_prefix(offsets@, k - 1 as int, offsets@.len() - 1);
            }
            let piece = self.data.split_off(offsets[k - 1]);
            proof {
                assert(self.data@ =~= orig.subrange(0, offsets@[k as int - 1] as int));
                assert(piece@ =~= orig.subrange(
                    offsets@[k as int - 1] as int,
                    offsets@[k as int] as int,
                ));
            }
            chunks_rev.push(SplitVectorChunk { data: piece, start: offsets[k - 1] });
            k -= 1;
        }
        let mut chunks: Vec<SplitVectorChunk<T>> = Vec::new();
        while chunks_rev.len() > 0
            invariant
                chunks@.len() + chunks_rev@.len() == offsets@.len() - 1,
                forall|j: int|
                    0 <= j < chunks_rev@.len() ==> {
                        let c = offsets@.len() - 1 - j;
                        (#[trigger] chunks_rev@[j]).spec_start() == offsets@[c - 1]
                            && chunks_rev@[j]@ == orig.subrange(
                            offsets@[c - 1] as int,
                            offsets@[c] as int,
                        )
                    },
                forall|j: int|
                    0 <= j < chunks@.len() ==> (#[trigger] chunks@[j]).spec_start() == offsets@[j]
                        && chunks@[j]@ == orig.subrange(offsets@[j] as int, offsets@[j + 1] as int),
            decreases chunks_rev@.len(),
        {
            let c = chunks_rev.pop().unwrap();
            chunks.push(c);
        }
        self.suffix = suffix;
        self.lent = chunks.len();
        Some(chunks)
    }

    /// Like `chunk`, but appends the buffer's length to the offsets so the
    /// final chunk always reaches the end.
    pub fn chunk_all(&mut self, offsets: Vec<usize>) -> (r: Option<Vec<SplitVectorChunk<T>>>)
        ensures
            ({
                let all = offsets@.push(old(self).spec_len());
                let valid = old(self).outstanding() == 0 && all.last() <= old(self)@.len() && (
                forall|i: int| 0 <= i < all.len() - 1 ==> #[trigger] all[i] < all[i + 1]);
                &&& !valid ==> r is None && *final(self) == *old(self)
                &&& valid ==> (r matches Some(chunks) && {
                    &&& chunks@.len() == offsets@.len()
                    &&& forall|i: int|
                        0 <= i < chunks@.len() ==> (#[trigger] chunks@[i]).spec_start() == all[i]
                            && chunks@[i]@ == old(self)@.subrange(all[i] as int, all[i + 1] as int)
                    &&& final(self).outstanding() == chunks@.len()
                    &&& final(self).spec_len() == old(self).spec_len()
                    &&& chunks@.len() > 0 ==> final(self)@ == old(self)@.subrange(0, all[0] as int)
                        && final(self).spec_suffix() == old(self)@.subrange(
                        all.last() as int,
                        old(self)@.len() as int,
                    )
                })
            }),
    {
        let mut offsets = offsets;
        let len = self.len();
        offsets.push(len);
        self.chunk(&offsets)
    }

    /// Takes every chunk back.  The chunks must exactly tile the lent region,
    /// in order; the buffer then holds their contents again and is whole.
    pub fn absorb(&mut self, chunks: Vec<SplitVectorChunk<T>>)
        requires
            chunks@.len() == old(self).outstanding(),
            chunks@.len() > 0,
            chunks@[0].spec_start() == old(self)@.len(),
            forall|i: int|
                0 <= i < chunks@.len() - 1 ==> (#[trigger] chunks@[i]).spec_start()
                    + chunks@[i]@.len() == chunks@[i + 1].spec_start(),
            chunks@.last().spec_start() + chunks@.last()@.len() + old(self).spec_suffix().len()
                == old(self).spec_len(),
        ensures
            final(self).outstanding() == 0,
            final(self).spec_len() == old(self).spec_len(),
            final(self).spec_suffix().len() == 0,
            final(self)@ == old(self)@ + concat_chunks(chunks@) + old(self).spec_suffix(),
            final(self)@.len() == final(self).spec_len(),
    {
        let mut chunks = chunks;
        let mut i: usize = 0;
        let ghost all = chunks@;
        let count = chunks.len();
        while i < count
            invariant
                count == all.len(),
                i + chunks@.len() == count,
                chunks@ == all.subrange(i as int, count as int),
                self.data@ == old(self).data@ + concat_chunks(all.subrange(0, i as int)),
                i < count ==> self.data@.len() == all[i as int].spec_start(),
                i == count ==> self.data@.len() + old(self).spec_suffix().len() == old(
                    self,
                ).spec_len(),
                self.suffix == old(self).suffix,
                self.lent == old(self).lent,
                self.full_len == old(self).full_len,
                forall|j: int|
                    0 <= j < all.len() - 1 ==> (#[trigger] all[j]).spec_start() + all[j]@.len()
                        == all[j + 1].spec_start(),
                all.last().spec_start() + all.last()@.len() + old(self).spec_suffix().len() == old(
                    self,
                ).spec_len(),
            decreases count - i,
        {
            proof {
                concat_chunks_snoc(all.subrange(0, i as int + 1));
                assert(all.subrange(0, i as int + 1).drop_last() =~= all.subrange(0, i as int));
            }
            let c = chunks.remove(0);
            let mut v = c.into_vec();
            self.data.append(&mut v);
            i += 1;
        }
        proof {
            assert(all.subrange(0, count as int) =~= all);
        }
        let mut suffix = Vec::new();
        core::mem::swap(&mut suffix, &mut self.suffix);
        self.data.append(&mut suffix);
        self.lent = 0;
        proof {
            assert(self.data@ =~= old(self).data@ + concat_chunks(all) + old(self).spec_suffix());
        }
    }

    /// Reclaims the buffer, leaving an empty one behind; fails if any chunk
    /// is still outstanding, which signals a broken splitting discipline.
    pub fn extract(&mut self) -> (r: Option<Vec<T>>)
        ensures
            old(self).outstanding() != 0 ==> r is None && *final(self) == *old(self),
            old(self).outstanding() == 0 ==> (r matches Some(v) && v@ == old(self)@
                && final(self).outstanding() == 0 && final(self)@.len() == 0 && final(
            self).spec_len() == 0),
    {
        if self.lent != 0 {
            return None;
        }
        let mut v = Vec::new();
        core::mem::swap(&mut v, &mut self.data);
        self.full_len = 0;
        Some(v)
    }

    /// Reclaims the buffer by consuming the wrapper; fails if any chunk is
    /// still outstanding.
    pub fn take_vec(self) -> (r: Option<Vec<T>>)
        ensures
            self.outstanding() != 0 ==> r is None,
            self.outstanding() == 0 ==> (r matches Some(v) && v@ == self@),
    {
        if self.lent != 0 {
            return None;
        }
        Some(self.data)
    }

    /// Overwrites one element of the contents; fails if any chunk is
    /// outstanding.
    pub fn set(&mut self, i: usize, value: T) -> (ok: bool)
        requires
            i < old(self)@.len(),
        ensures
            old(self).outstanding() != 0 ==> !ok && *final(self) == *old(self),
            old(self).outstanding() == 0 ==> ok && final(self)@ == old(self)@.update(i as int, value)
                && final(self).outstanding() == 0 && final(self).spec_len() == old(self).spec_len()
                && final(self).spec_suffix() == old(self).spec_suffix(),
    {
        if self.lent != 0 {
            return false;
        }
        self.data[i] = value;
        true
    }

    /// Reads one element of the contents; fails if any chunk is outstanding.
    pub fn get(&self, i: usize) -> (r: Option<&T>)
        requires
            i < self@.len(),
        ensures
            self.outstanding() != 0 ==> r is None,
            self.outstanding() == 0 ==> (r matches Some(v) && *v == self@[i as int]),
    {
        if self.lent != 0 {
            return None;
        }
        Some(&self.data[i])
    }
}

/// In a strictly increasing offset list, every earlier offset is at most
/// every later one.
proof fn lemma_increasing_prefix(offsets: Seq<usize>, a: int, b: int)
    requires
        forall|j: int| 0 <= j < offsets.len() - 1 ==> #[trigger] offsets[j] < offsets[j + 1],
        0 <= a <= b < offsets.len(),
    ensures
        offsets[a] <= offsets[b],
    decreases b - a,
{
    if a < b {
        lemma_increasing_prefix(offsets, a, b - 1);
    }
}

/// The concatenation of the contents of a list of chunks, in order.
pub open spec fn concat_chunks<T>(chunks: Seq<SplitVectorChunk<T>>) -> Seq<T>
    decreases chunks.len(),
{
    if chunks.len() == 0 {
        Seq::empty()
    } else {
        concat_chunks(chunks.drop_last()) + chunks.last()@
    }
}

/// Splitting off the last chunk splits off its contents.
pub proof fn concat_chunks_snoc<T>(chunks: Seq<SplitVectorChunk<T>>)
    requires
        chunks.len() > 0,
    ensures
        concat_chunks(chunks) == concat_chunks(chunks.drop_last()) + chunks.last()@,
{
}

/// When a list of chunks tiles a region contiguously and each chunk's
/// contents satisfy a property at their global positions, their
/// concatenation satisfies it throughout the region.
pub proof fn lemma_concat_chunks_tiled_rel<T>(
    chunks: Seq<SplitVectorChunk<T>>,
    p: spec_fn(int, T) -> bool,
)
    requires
        chunks.len() > 0,
        forall|j: int|
            0 <= j < chunks.len() - 1 ==> (#[trigger] chunks[j]).spec_start() + chunks[j]@.len()
                == chunks[j + 1].spec_start(),
        forall|j: int, i: int|
            #![trigger chunks[j]@[i]]
            0 <= j < chunks.len() && 0 <= i < chunks[j]@.len() ==> p(
                chunks[j].spec_start() + i,
                chunks[j]@[i],
            ),
    ensures
        concat_chunks(chunks).len() == chunks.last().spec_start() + chunks.last()@.len()
            - chunks[0].spec_start(),
        forall|x: int|
            0 <= x < concat_chunks(chunks).len() ==> p(
                chunks[0].spec_start() + x,
                #[trigger] concat_chunks(chunks)[x],
            ),
    decreases chunks.len(),
{
    if chunks.len() == 1 {
        reveal_with_fuel(concat_chunks, 2);
        assert(concat_chunks(chunks) =~= chunks[0]@);
    } else {
        let front = chunks.drop_last();
        lemma_concat_chunks_tiled_rel(front, p);
        assert(front[0] == chunks[0]);
        assert(front.last() == chunks[chunks.len() - 2]);
        let front_len = concat_chunks(front).len();
        assert(chunks.last().spec_start() == chunks[0].spec_start() + front_len);
        assert forall|x: int| 0 <= x < concat_chunks(chunks).len() implies p(
            chunks[0].spec_start() + x,
            #[trigger] concat_chunks(chunks)[x],
        ) by {
            if x < front_len {
                assert(concat_chunks(chunks)[x] == concat_chunks(front)[x]);
            } else {
                assert(concat_chunks(chunks)[x] == chunks.last()@[x - front_len]);
                assert(p(
                    chunks[chunks.len() - 1].spec_start() + (x - front_len),
                    chunks[chunks.len() - 1]@[x - front_len],
                ));
            }
        }
    }
}

/// When a list of chunks tiles a region contiguously and each chunk's
/// contents agree with `f` at its global positions, their concatenation
/// agrees with `f` throughout the region.
pub proof fn lemma_concat_chunks_tiled<T>(chunks: Seq<SplitVectorChunk<T>>, f: spec_fn(int) -> T)
    requires
        chunks.len() > 0,
        forall|j: int|
            0 <= j < chunks.len() - 1 ==> (#[trigger] chunks[j]).spec_start() + chunks[j]@.len()
                == chunks[j + 1].spec_start(),
        forall|j: int, i: int|
            #![trigger chunks[j]@[i]]
            0 <= j < chunks.len() && 0 <= i < chunks[j]@.len() ==> chunks[j]@[i] == f(
                chunks[j].spec_start() + i,
            ),
    ensures
        concat_chunks(chunks).len() == chunks.last().spec_start() + chunks.last()@.len()
            - chunks[0].spec_start(),
        forall|p: int|
            0 <= p < concat_chunks(chunks).len() ==> #[trigger] concat_chunks(chunks)[p] == f(
                chunks[0].spec_start() + p,
            ),
    decreases chunks.len(),
{
    if chunks.len() == 1 {
        reveal_with_fuel(concat_chunks, 2);
        assert(concat_chunks(chunks) =~= chunks[0]@);
    } else {
        let front = chunks.drop_last();
        lemma_concat_chunks_tiled(front, f);
        assert(front[0] == chunks[0]);
        assert(front.last() == chunks[chunks.len() - 2]);
        let front_len = concat_chunks(front).len();
        assert(chunks.last().spec_start() == chunks[0].spec_start() + front_len);
        assert forall|p: int| 0 <= p < concat_chunks(chunks).len() implies #[trigger] concat_chunks(
            chunks,
        )[p] == f(chunks[0].spec_start() + p) by {
            if p < front_len {
                assert(concat_chunks(chunks)[p] == concat_chunks(front)[p]);
            } else {
                assert(concat_chunks(chunks)[p] == chunks.last()@[p - front_len]);
                assert(chunks[chunks.len() - 1]@[p - front_len] == f(
                    chunks[chunks.len() - 1].spec_start() + (p - front_len),
                ));
            }
        }
    }
}

} // verus!
