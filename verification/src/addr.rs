//! Virtual addresses, 4K alignment, and half-open address ranges.
use vstd::prelude::*;

verus! {

/// The size of a 4K page, in bytes.
pub const PAGE_SIZE_4K: usize = 4096;

/// Whether `addr` is a multiple of 4096.
pub open spec fn spec_is_aligned_4k(addr: usize) -> bool {
    addr as int % 4096 == 0
}

/// Whether `addr` is a multiple of 4096.
pub fn is_aligned_4k(addr: usize) -> (r: bool)
    ensures
        r == spec_is_aligned_4k(addr),
{
    addr % 4096 == 0
}

/// A half-open range `[start, end)` of virtual addresses.
#[derive(Debug, Clone, Copy, PartialEq, Eq, Structural)]
pub struct AddrRange {
    /// The inclusive lower bound.
    pub start: usize,
    /// The exclusive upper bound.
    pub end: usize,
}

impl AddrRange {
    /// Whether the bounds are ordered.
    pub open spec fn wf(self) -> bool {
        self.start <= self.end
    }

    /// Whether the range holds no address.
    pub open spec fn spec_is_empty(self) -> bool {
        self.start == self.end
    }

    /// Whether `addr` lies in the range.
    pub open spec fn spec_contains(self, addr: usize) -> bool {
        self.start <= addr < self.end
    }

    /// Whether the two ranges share part of the address space:
    /// each one starts below the other's end.
    pub open spec fn spec_overlaps(self, other: AddrRange) -> bool {
        self.start < other.end && other.start < self.end
    }

    /// Whether the range lies entirely inside `other`.
    pub open spec fn spec_contained_in(self, other: AddrRange) -> bool {
        other.start <= self.start && self.end <= other.end
    }

    /// Builds the range `[start, end)`.
    pub fn new(start: usize, end: usize) -> (r: AddrRange)
        ensures
            r.start == start,
            r.end == end,
    {
        AddrRange { start, end }
    }

    /// Builds the range `[start, start + size)`.
    pub fn from_start_size(start: usize, size: usize) -> (r: AddrRange)
        requires
            start + size <= usize::MAX,
        ensures
            r.start == start,
            r.end == start + size,
    {
        AddrRange { start, end: start + size }
    }

    /// Builds the range `[start, start + size)`, or `None` when the end
    /// would not fit in an address.
    pub fn try_from_start_size(start: usize, size: usize) -> (r: Option<AddrRange>)
        ensures
            start + size <= usize::MAX <==> (r matches Some(g) && g.start == start && g.end
                == start + size),
            start + size > usize::MAX <==> r is None,
    {
        match start.checked_add(size) {
            Some(end) => Some(AddrRange { start, end }),
            None => None,
        }
    }

    /// Returns the number of addresses in the range.
    pub fn size(&self) -> (r: usize)
        requires
            self.wf(),
        ensures
            r == self.end - self.start,
    {
        self.end - self.start
    }

    /// Whether the range holds no address.
    pub fn is_empty(&self) -> (r: bool)
        ensures
            r == self.spec_is_empty(),
    {
        self.start == self.end
    }

    /// Whether `addr` lies in the range.
    pub fn contains(&self, addr: usize) -> (r: bool)
        ensures
            r == self.spec_contains(addr),
    {
        self.start <= addr && addr < self.end
    }

    /// Whether the two ranges share part of the address space.
    pub fn overlaps(&self, other: AddrRange) -> (r: bool)
        ensures
            r == self.spec_overlaps(other),
    {
        self.start < other.end && other.start < self.end
    }

    /// Whether the range lies entirely inside `other`.
    pub fn contained_in(&self, other: AddrRange) -> (r: bool)
        ensures
            r == self.spec_contained_in(other),
    {
        other.start <= self.start && self.end <= other.end
    }
}

} // verus!
