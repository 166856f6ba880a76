//! Half-open byte ranges.

use vstd::prelude::*;

verus! {

/// The bytes `start, start + 1, .., end - 1` of an archive. A span whose
/// `end` is not above its `start` holds no byte.
#[derive(Clone, Copy, Debug, PartialEq, Eq, Structural)]
pub struct Span {
    pub start: usize,
    pub end: usize,
}

impl Span {
    /// Byte `i` belongs to the span.
    pub open spec fn contains(self, i: int) -> bool {
        self.start <= i < self.end
    }

    /// The span holds no byte.
    pub open spec fn vacant(self) -> bool {
        self.end <= self.start
    }

    /// The number of bytes in the span.
    pub open spec fn extent(self) -> nat {
        if self.end <= self.start {
            0
        } else {
            (self.end - self.start) as nat
        }
    }

    /// The two spans have a byte in common.
    pub open spec fn intersects(self, other: Span) -> bool {
        &&& self.start < self.end
        &&& other.start < other.end
        &&& self.start < other.end
        &&& other.start < self.end
    }

    /// Every byte of the span is a byte of an archive of `len` bytes.
    pub open spec fn within(self, len: int) -> bool {
        self.vacant() || self.end <= len
    }

    pub fn new(start: usize, end: usize) -> (s: Span)
        ensures
            s.start == start,
            s.end == end,
    {
        Span { start, end }
    }

    pub fn len(&self) -> (n: usize)
        ensures
            n == self.extent(),
    {
        if self.end <= self.start {
            0
        } else {
            self.end - self.start
        }
    }

    pub fn is_empty(&self) -> (b: bool)
        ensures
            b == self.vacant(),
    {
        self.end <= self.start
    }

    pub fn overlaps(&self, other: &Span) -> (b: bool)
        ensures
            b == self.intersects(*other),
    {
        self.start < self.end && other.start < other.end && self.start < other.end && other.start
            < self.end
    }
}

/// Two spans intersect exactly when some byte belongs to both.
pub proof fn lemma_intersects_is_shared_byte(a: Span, b: Span)
    ensures
        a.intersects(b) <==> exists|i: int| a.contains(i) && b.contains(i),
{
    if a.intersects(b) {
        let i: int = if a.start >= b.start {
            a.start as int
        } else {
            b.start as int
        };
        assert(a.contains(i) && b.contains(i));
    }
}

} // verus!
