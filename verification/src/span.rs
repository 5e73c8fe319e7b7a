//! Byte ranges of a source.
use std::ops::Range;
use vstd::prelude::*;

verus! {

/// A byte range of a source: where it starts and how many bytes it covers.
#[derive(Debug, Clone, Copy, PartialEq, Eq, Structural)]
pub struct SourceSpan {
    /// Offset of the first byte.
    pub offset: usize,
    /// Number of bytes.
    pub length: usize,
}

impl SourceSpan {
    /// The offset of the first byte.
    pub open spec fn first(self) -> int {
        self.offset as int
    }

    /// The offset just past the last byte.
    pub open spec fn past(self) -> int {
        self.offset + self.length
    }

    /// The span ends at an offset that a `usize` can hold.
    pub open spec fn fits(self) -> bool {
        self.past() <= usize::MAX
    }

    /// A span of `length` bytes from `offset` on.
    pub fn new(offset: usize, length: usize) -> (span: Self)
        ensures
            span.offset == offset,
            span.length == length,
    {
        SourceSpan { offset, length }
    }

    /// The offset of the first byte.
    pub fn offset(&self) -> (offset: usize)
        ensures
            offset == self.offset,
    {
        self.offset
    }

    /// The number of bytes.
    pub fn len(&self) -> (length: usize)
        ensures
            length == self.length,
    {
        self.length
    }

    /// Whether the span covers no byte.
    pub fn is_empty(&self) -> (empty: bool)
        ensures
            empty == (self.length == 0),
    {
        self.length == 0
    }
}

impl From<Range<usize>> for SourceSpan {
    fn from(range: Range<usize>) -> (span: Self) {
        let length: usize = if range.start < range.end {
            range.end - range.start
        } else {
            0
        };
        SourceSpan { offset: range.start, length }
    }
}

impl vstd::std_specs::convert::FromSpecImpl<Range<usize>> for SourceSpan {
    open spec fn obeys_from_spec() -> bool {
        true
    }

    open spec fn from_spec(range: Range<usize>) -> Self {
        SourceSpan {
            offset: range.start,
            length: if range.start < range.end {
                (range.end - range.start) as usize
            } else {
                0
            },
        }
    }
}

/// Whether two spans overlap: each starts before the other ends.
pub open spec fn overlapping(a: SourceSpan, b: SourceSpan) -> bool {
    a.first() < b.past() && b.first() < a.past()
}

/// Whether `span` covers the byte at offset `at`.
pub open spec fn covers(span: SourceSpan, at: int) -> bool {
    span.first() <= at < span.past()
}

/// Whether `at` lies before the end of `span`.
fn before_end(at: usize, span: SourceSpan) -> (before: bool)
    ensures
        before == (at < span.past()),
{
    at < span.offset || at - span.offset < span.length
}

/// Whether two spans overlap.
pub(crate) fn spans_overlap(a: SourceSpan, b: SourceSpan) -> (overlap: bool)
    ensures
        overlap == overlapping(a, b),
{
    before_end(a.offset, b) && before_end(b.offset, a)
}

} // verus!
