use vstd::prelude::*;

verus! {

/// A half-open interval `[start, end)` of character indices into a document.
///
/// A span that a parser hands over is taken as it comes: it may be inverted
/// or reach past the text. `wf` and `within` say when it is usable.
#[derive(Clone, Copy, Debug, PartialEq, Eq, Structural)]
pub struct Span {
    pub start: usize,
    pub end: usize,
}

impl Span {
    /// A span is well formed when it is not inverted. It may be empty.
    pub open spec fn wf(&self) -> bool {
        self.start <= self.end
    }

    /// Whether the span is well formed and lies inside a text of `len`
    /// characters.
    pub open spec fn within(&self, len: nat) -> bool {
        self.start <= self.end && self.end <= len
    }

    /// Whether two spans share a character or touch: the later start does
    /// not lie behind the earlier end. An empty span, such as a cursor,
    /// overlaps with the span it lies in and with the span it stands next
    /// to.
    pub open spec fn spec_overlaps_with(&self, other: Span) -> bool {
        self.start <= other.end && other.start <= self.end && self.start <= self.end
            && other.start <= other.end
    }

    /// The span from `start` up to `end`.
    pub fn new(start: usize, end: usize) -> (span: Span)
        requires
            start <= end,
        ensures
            span.start == start,
            span.end == end,
    {
        Span { start, end }
    }

    /// The number of characters covered; zero for an inverted span.
    pub fn len(&self) -> (n: usize)
        ensures
            self.wf() ==> n == self.end - self.start,
            !self.wf() ==> n == 0,
    {
        if self.start <= self.end {
            self.end - self.start
        } else {
            0
        }
    }

    /// Whether the span covers no character.
    pub fn is_empty(&self) -> (b: bool)
        ensures
            b == (self.start >= self.end),
    {
        self.start >= self.end
    }

    /// Whether the two spans share a character or touch.
    #[verifier::when_used_as_spec(spec_overlaps_with)]
    pub fn overlaps_with(&self, other: Span) -> (b: bool)
        ensures
            b == self.spec_overlaps_with(other),
    {
        self.start <= other.end && other.start <= self.end && self.start <= self.end
            && other.start <= other.end
    }

    /// Whether the span can be used to slice a text of `len` characters.
    pub fn fits(&self, len: usize) -> (b: bool)
        ensures
            b == self.within(len as nat),
    {
        self.start <= self.end && self.end <= len
    }
}

} // verus!
