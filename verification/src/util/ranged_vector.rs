use vstd::prelude::*;

verus! {

/// One half-open range `[start, end)` with an associated value, stored at
/// position `index` of its `RangedVector`.
#[derive(Clone, Debug)]
pub struct Range<T> {
    start: usize,
    end: usize,
    value: T,
    index: usize,
}

impl<T> Range<T> {
    pub closed spec fn spec_start(&self) -> usize {
        self.start
    }

    pub closed spec fn spec_end(&self) -> usize {
        self.end
    }

    pub closed spec fn spec_value(&self) -> T {
        self.value
    }

    pub closed spec fn spec_index_of(&self) -> usize {
        self.index
    }

    pub fn value(&self) -> (v: &T)
        ensures
            *v == self.spec_value(),
    {
        &self.value
    }

    pub fn start(&self) -> (s: usize)
        ensures
            s == self.spec_start(),
    {
        self.start
    }

    pub fn end(&self) -> (e: usize)
        ensures
            e == self.spec_end(),
    {
        self.end
    }
}

/// An ordered list of ranges with values, looked up by point containment:
/// built once per pass from the partition boundaries and the carries, and
/// immutable afterwards.
#[derive(Clone, Debug)]
pub struct RangedVector<T> {
    ranges: Vec<Range<T>>,
}

/// The position of the range containing `g` in a contiguous boundary list:
/// the number of boundaries after the first that are at most `g`.
pub open spec fn range_index_of(points: Seq<usize>, g: int) -> int
    decreases points.len(),
{
    if points.len() <= 1 {
        0
    } else if g < points[1] {
        0
    } else {
        1 + range_index_of(points.skip(1), g)
    }
}

/// In a monotone boundary list, the containing range's position is within
/// bounds and brackets the point.
pub proof fn lemma_range_index_of_brackets(points: Seq<usize>, g: int)
    requires
        points.len() >= 2,
        forall|j: int| 0 <= j < points.len() - 1 ==> #[trigger] points[j] <= points[j + 1],
        points[0] <= g < points.last(),
    ensures
        0 <= range_index_of(points, g) < points.len() - 1,
        points[range_index_of(points, g)] <= g < points[range_index_of(points, g) + 1],
    decreases points.len(),
{
    if g < points[1] {
    } else {
        let rest = points.skip(1);
        assert forall|j: int| 0 <= j < rest.len() - 1 implies #[trigger] rest[j] <= rest[j + 1] by {
            assert(rest[j] == points[j + 1]);
            assert(rest[j + 1] == points[j + 2]);
        }
        assert(rest.last() == points.last());
        lemma_range_index_of_brackets(rest, g);
        let ri = range_index_of(rest, g);
        assert(rest[ri] == points[ri + 1]);
        assert(rest[ri + 1] == points[ri + 2]);
    }
}

/// Between two adjacent boundaries, the containing range's position is that
/// of the lower boundary.
pub proof fn lemma_range_index_of_unique(points: Seq<usize>, i: int, g: int)
    requires
        points.len() >= 2,
        forall|j: int| 0 <= j < points.len() - 1 ==> #[trigger] points[j] <= points[j + 1],
        0 <= i < points.len() - 1,
        points[i] <= g < points[i + 1],
    ensures
        range_index_of(points, g) == i,
    decreases points.len(),
{
    if points.len() <= 1 {
    } else if g < points[1] {
        if i > 0 {
            lemma_increasing_points(points, 1, i);
        }
    } else {
        let rest = points.skip(1);
        assert forall|j: int| 0 <= j < rest.len() - 1 implies #[trigger] rest[j] <= rest[j + 1] by {
            assert(rest[j] == points[j + 1]);
            assert(rest[j + 1] == points[j + 2]);
        }
        assert(i >= 1) by {
            if i == 0 {
                assert(g < points[1]);
            }
        }
        assert(rest[i - 1] == points[i]);
        assert(rest[i] == points[i + 1]);
        lemma_range_index_of_unique(rest, i - 1, g);
    }
}

/// Monotonicity across a span of boundaries.
proof fn lemma_increasing_points(points: Seq<usize>, a: int, b: int)
    requires
        forall|j: int| 0 <= j < points.len() - 1 ==> #[trigger] points[j] <= points[j + 1],
        0 <= a <= b < points.len(),
    ensures
        points[a] <= points[b],
    decreases b - a,
{
    if a < b {
        lemma_increasing_points(points, a, b - 1);
    }
}

/// Ends never descend along a contiguous range list.
proof fn lemma_ends_chain<T>(rs: Seq<Range<T>>, a: int, b: int)
    requires
        forall|j: int|
            0 <= j < rs.len() - 1 ==> (#[trigger] rs[j]).spec_end() == rs[j + 1].spec_start(),
        forall|j: int|
            0 <= j < rs.len() ==> (#[trigger] rs[j]).spec_start() <= rs[j].spec_end(),
        0 <= a <= b < rs.len(),
    ensures
        rs[a].spec_end() <= rs[b].spec_end(),
    decreases b - a,
{
    if a < b {
        lemma_ends_chain(rs, a, b - 1);
    }
}

/// The lookup law: over contiguous ascending ranges that start at 0, the
/// rule "the first range whose end lies beyond the point" — which is what
/// `get` returns — picks exactly the unique range containing the point, and
/// a point at or beyond the covered total is contained in no range.
pub proof fn lemma_lookup_unique<T>(rs: Seq<Range<T>>, point: usize, i: int)
    requires
        rs.len() > 0,
        rs[0].spec_start() == 0,
        forall|j: int|
            0 <= j < rs.len() - 1 ==> (#[trigger] rs[j]).spec_end() == rs[j + 1].spec_start(),
        forall|j: int|
            0 <= j < rs.len() ==> (#[trigger] rs[j]).spec_start() <= rs[j].spec_end(),
        0 <= i < rs.len(),
        point < rs[i].spec_end(),
        forall|j: int| 0 <= j < i ==> point >= (#[trigger] rs[j]).spec_end(),
    ensures
        rs[i].spec_start() <= point < rs[i].spec_end(),
        forall|j: int|
            0 <= j < rs.len() && j != i ==> !((#[trigger] rs[j]).spec_start() <= point
                < rs[j].spec_end()),
{
    if i > 0 {
        assert(rs[i - 1].spec_end() == rs[i].spec_start());
    }
    assert forall|j: int|
        0 <= j < rs.len() && j != i implies !((#[trigger] rs[j]).spec_start() <= point
        < rs[j].spec_end()) by {
        if j > i {
            lemma_ends_chain(rs, i, j - 1);
            assert(rs[j - 1].spec_end() == rs[j].spec_start());
        }
    }
}

/// The lookup law beyond the covered span: a point at or past every range's
/// end is found in no range, which is exactly when `get` yields nothing.
pub proof fn lemma_lookup_beyond<T>(rs: Seq<Range<T>>, point: usize)
    requires
        rs.len() > 0,
        forall|j: int|
            0 <= j < rs.len() - 1 ==> (#[trigger] rs[j]).spec_end() == rs[j + 1].spec_start(),
        forall|j: int|
            0 <= j < rs.len() ==> (#[trigger] rs[j]).spec_start() <= rs[j].spec_end(),
        point >= rs.last().spec_end(),
    ensures
        forall|j: int| 0 <= j < rs.len() ==> point >= (#[trigger] rs[j]).spec_end(),
{
    assert forall|j: int| 0 <= j < rs.len() implies point >= (#[trigger] rs[j]).spec_end() by {
        lemma_ends_chain(rs, j, rs.len() - 1);
    }
}

impl<T> RangedVector<T> {
    /// The ranges, in order.
    pub closed spec fn view(&self) -> Seq<Range<T>> {
        self.ranges@
    }

    /// The index holds one range per value, the ranges bounded by adjacent
    /// points: range `i` spans `[points[i], points[i + 1])` and carries
    /// `values[i]`.
    pub fn new(points: Vec<usize>, values: Vec<T>) -> (rv: RangedVector<T>)
        requires
            points@.len() > values@.len(),
        ensures
            rv@.len() == values@.len(),
            forall|i: int|
                0 <= i < values@.len() ==> {
                    &&& (#[trigger] rv@[i]).spec_start() == points@[i]
                    &&& rv@[i].spec_end() == points@[i + 1]
                    &&& rv@[i].spec_value() == values@[i]
                    &&& rv@[i].spec_index_of() == i
                },
    {
        let ghost vals = values@;
        let mut values = values;
        let mut ranges: Vec<Range<T>> = Vec::new();
        let count = values.len();
        let mut i: usize = 0;
        while i < count
            invariant
                count == vals.len(),
                i + values@.len() == count,
                values@ == vals.subrange(i as int, count as int),
                count < points@.len(),
                ranges@.len() == i,
                forall|j: int|
                    0 <= j < i ==> {
                        &&& (#[trigger] ranges@[j]).spec_start() == points@[j]
                        &&& ranges@[j].spec_end() == points@[j + 1]
                        &&& ranges@[j].spec_value() == vals[j]
                        &&& ranges@[j].spec_index_of() == j
                    },
            decreases count - i,
        {
            let value = values.remove(0);
            let r = Range { start: points[i], end: points[i + 1], value, index: i };
            ranges.push(r);
            i += 1;
        }
        RangedVector { ranges }
    }

    /// The first range whose end lies beyond `point`; `None` when every
    /// range ends at or before it.  Over contiguous ascending ranges this is
    /// exactly the range containing `point`.
    pub fn get(&self, point: usize) -> (r: Option<&Range<T>>)
        ensures
            match r {
                Some(rg) => {
                    &&& exists|i: int|
                        0 <= i < self@.len() && *rg == self@[i] && point < (
                        #[trigger] self@[i]).spec_end() && (forall|j: int|
                            0 <= j < i ==> point >= (#[trigger] self@[j]).spec_end())
                },
                None => forall|j: int|
                    0 <= j < self@.len() ==> point >= (#[trigger] self@[j]).spec_end(),
            },
    {
        let mut i: usize = 0;
        while i < self.ranges.len()
            invariant
                i <= self@.len(),
                forall|j: int| 0 <= j < i ==> point >= (#[trigger] self@[j]).spec_end(),
            decreases self@.len() - i,
        {
            if point < self.ranges[i].end {
                return Some(&self.ranges[i]);
            }
            i += 1;
        }
        None
    }

    /// The range at position `index`, if any.
    pub fn get_range(&self, index: usize) -> (r: Option<&Range<T>>)
        ensures
            index < self@.len() ==> (r matches Some(rg) && *rg == self@[index as int]),
            index >= self@.len() ==> r is None,
    {
        if index < self.ranges.len() {
            Some(&self.ranges[index])
        } else {
            None
        }
    }

    /// The range after `range` in the index, if any.
    pub fn next_range(&self, range: &Range<T>) -> (r: Option<&Range<T>>)
        requires
            self@.len() > 0,
        ensures
            range.spec_index_of() + 1 < self@.len() ==> (r matches Some(rg) && *rg == self@[range.spec_index_of() + 1]),
            range.spec_index_of() + 1 >= self@.len() ==> r is None,
    {
        if range.index < self.ranges.len() - 1 {
            Some(&self.ranges[range.index + 1])
        } else {
            None
        }
    }
}

} // verus!
