//! Identifiers for registered artifacts, comparators for direct filters, and
//! the closed-open interval algebra that drives every cache extension.

use vstd::prelude::*;

verus! {

/// Handle of a registered distinct node.
#[derive(Clone, Copy, Debug, PartialEq, Eq, Hash, Structural)]
pub struct DistinctId(pub usize);

/// Handle of a registered file.
#[derive(Clone, Copy, Debug, PartialEq, Eq, Hash, Structural)]
pub struct FileId(pub usize);

/// Handle of a registered filter.
#[derive(Clone, Copy, Debug, PartialEq, Eq, Hash, Structural)]
pub struct FilterId(pub usize);

/// Handle of a registered tag.
#[derive(Clone, Copy, Debug, PartialEq, Eq, Hash, Structural)]
pub struct TagId(pub usize);

/// A typed identifier. All identifiers are drawn from one global counter, so
/// the wrapped number is unique across the four kinds.
#[derive(Clone, Copy, Debug, PartialEq, Eq, Hash, Structural)]
pub enum Id {
    Distinct(DistinctId),
    File(FileId),
    Filter(FilterId),
    Tag(TagId),
}

impl Id {
    /// The raw number behind the identifier, whatever its kind.
    pub open spec fn spec_num(self) -> int {
        match self {
            Id::Distinct(d) => d.0 as int,
            Id::File(f) => f.0 as int,
            Id::Filter(f) => f.0 as int,
            Id::Tag(t) => t.0 as int,
        }
    }

    pub fn num(&self) -> (r: usize)
        ensures
            r as int == self.spec_num(),
    {
        match self {
            Id::Distinct(d) => d.0,
            Id::File(f) => f.0,
            Id::Filter(f) => f.0,
            Id::Tag(t) => t.0,
        }
    }
}

/// Comparison operator of a direct filter. Values are compared as strings.
#[derive(Clone, Copy, Debug, PartialEq, Eq, Hash, Structural)]
pub enum Comparator {
    Equal,
    NotEqual,
    GreaterThan,
    GreaterThanEqual,
    LessThan,
    LessThanEqual,
}

/// A closed-open interval `[lo, hi)` over line indices.
#[derive(Clone, Copy, Debug, PartialEq, Eq, Hash, Structural)]
pub struct Interval(pub usize, pub usize);

impl Interval {
    pub open spec fn spec_is_empty(self) -> bool {
        self.0 == self.1
    }

    pub open spec fn spec_len(self) -> int {
        self.1 - self.0
    }

    /// `[other.0, self.0)` when the request starts before the cached bound,
    /// else the empty interval anchored at `self.0`.
    pub open spec fn spec_missing_before(self, other: Interval) -> Interval {
        if other.0 < self.0 {
            Interval(other.0, self.0)
        } else {
            Interval(self.0, self.0)
        }
    }

    /// `[self.1, other.1)` when the request ends after the cached bound,
    /// else the empty interval anchored at `self.1`.
    pub open spec fn spec_missing_after(self, other: Interval) -> Interval {
        if other.1 > self.1 {
            Interval(self.1, other.1)
        } else {
            Interval(self.1, self.1)
        }
    }

    pub open spec fn spec_contains(self, other: Interval) -> bool {
        other.spec_is_empty() || (self.spec_missing_before(other).spec_is_empty()
            && self.spec_missing_after(other).spec_is_empty())
    }

    pub fn is_empty(&self) -> (r: bool)
        ensures
            r == self.spec_is_empty(),
    {
        self.0 == self.1
    }

    pub fn len(&self) -> (r: usize)
        requires
            self.0 <= self.1,
        ensures
            r as int == self.spec_len(),
    {
        self.1 - self.0
    }

    pub fn contains(&self, other: Interval) -> (r: bool)
        ensures
            r == self.spec_contains(other),
    {
        other.is_empty() || (self.missing_before(other).is_empty()
            && self.missing_after(other).is_empty())
    }

    pub fn missing_before(&self, other: Interval) -> (r: Interval)
        ensures
            r == self.spec_missing_before(other),
    {
        if other.0 < self.0 {
            Interval(other.0, self.0)
        } else {
            Interval(self.0, self.0)
        }
    }

    pub fn missing_after(&self, other: Interval) -> (r: Interval)
        ensures
            r == self.spec_missing_after(other),
    {
        if other.1 > self.1 {
            Interval(self.1, other.1)
        } else {
            Interval(self.1, self.1)
        }
    }

    pub fn iter(&self) -> (r: IntervalIter)
        ensures
            r.spec_index() == self.0,
            r.spec_interval() == *self,
    {
        IntervalIter { index: self.0, interval: *self }
    }
}

/// Containment, unfolded to plain bounds arithmetic.
pub proof fn lemma_contains_bounds(a: Interval, b: Interval)
    ensures
        a.spec_contains(b) <==> (b.spec_is_empty() || (a.0 <= b.0 && b.1 <= a.1)),
{
}

/// An interval contains another exactly when the other is empty or neither a
/// prefix nor a suffix of the request is missing from it.
pub proof fn lemma_contains_iff_nothing_missing(a: Interval, b: Interval)
    ensures
        a.spec_contains(b) <==> (b.spec_is_empty() || (a.spec_missing_before(b).spec_is_empty()
            && a.spec_missing_after(b).spec_is_empty())),
{
}

/// Walks the indices of one interval in increasing order.
pub struct IntervalIter {
    index: usize,
    interval: Interval,
}

impl IntervalIter {
    pub closed spec fn spec_index(self) -> int {
        self.index as int
    }

    pub closed spec fn spec_interval(self) -> Interval {
        self.interval
    }

    /// The next index of the interval, or `None` once the upper bound is reached.
    pub fn next(&mut self) -> (r: Option<usize>)
        requires
            old(self).spec_index() <= old(self).spec_interval().1 as int,
        ensures
            old(self).spec_index() == old(self).spec_interval().1 as int ==> r is None
                && *final(self) == *old(self),
            old(self).spec_index() < old(self).spec_interval().1 as int ==> {
                &&& r == Some(old(self).spec_index() as usize)
                &&& final(self).spec_index() == old(self).spec_index() + 1
                &&& final(self).spec_interval() == old(self).spec_interval()
                &&& final(self).spec_index() <= final(self).spec_interval().1 as int
            },
    {
        if self.index == self.interval.1 {
            return None;
        }
        let result = self.index;
        self.index = self.index + 1;
        Some(result)
    }
}

/// The window size cap of the batch-doubling read loop.
pub const MAX_BATCH_SIZE: usize = 1024;

/// Yields consecutive read windows: the first is `[0, min(min, max))`, each
/// later one starts where the previous ended and doubles in length, capped at
/// `max`. The sequence is logically infinite; near the top of `usize` the
/// windows saturate to empty rather than overflow.
pub struct ReadIntervals {
    index: usize,
    next: usize,
    max: usize,
}

impl ReadIntervals {
    pub closed spec fn spec_index(self) -> int {
        self.index as int
    }

    pub closed spec fn spec_next(self) -> int {
        self.next as int
    }

    pub closed spec fn spec_max(self) -> int {
        self.max as int
    }

    pub fn new(min: usize, max: usize) -> (r: ReadIntervals)
        ensures
            r.spec_index() == 0,
            r.spec_next() == if min <= max { min as int } else { max as int },
            r.spec_max() == max as int,
            r.spec_next() <= r.spec_max(),
    {
        ReadIntervals { index: 0, next: if min <= max { min } else { max }, max }
    }

    /// The next read window.
    pub fn next(&mut self) -> (r: Interval)
        requires
            old(self).spec_next() <= old(self).spec_max(),
        ensures
            r.0 as int == old(self).spec_index(),
            r.0 <= r.1,
            r.spec_len() <= old(self).spec_next(),
            r.1 as int == final(self).spec_index(),
            // the window is only ever shorter than asked at the top of usize
            r.spec_len() == old(self).spec_next() || r.1 == usize::MAX,
            // the stride doubles, capped at the configured maximum
            final(self).spec_next() == if 2 * old(self).spec_next() <= old(self).spec_max() {
                2 * old(self).spec_next()
            } else {
                old(self).spec_max()
            },
            final(self).spec_next() >= old(self).spec_next(),
            final(self).spec_next() <= final(self).spec_max(),
            final(self).spec_max() == old(self).spec_max(),
    {
        let interval = Interval(self.index, self.index.saturating_add(self.next));
        self.index = interval.1;
        self.next = if self.next > self.max / 2 {
            self.max
        } else {
            self.next * 2
        };
        interval
    }
}

} // verus!
