//! Byte positions and half-open byte ranges in a source text.
use vstd::prelude::*;

verus! {

/// An absolute byte offset in the source text.
#[derive(Clone, Copy, Debug, PartialEq, Eq, Structural)]
pub struct Location {
    pub byte: usize,
}

/// A half-open byte range `start..end` of the source text.
#[derive(Clone, Copy, Debug, PartialEq, Eq, Structural)]
pub struct Span {
    pub start: Location,
    pub end: Location,
}

impl Location {
    /// The location `n` bytes further on.
    pub fn offset(self, n: usize) -> (r: Location)
        requires
            self.byte + n <= usize::MAX,
        ensures
            r.byte == self.byte + n,
    {
        Location { byte: self.byte + n }
    }

    /// The span of the single byte at this location.
    pub fn unit(self) -> (r: Span)
        requires
            self.byte < usize::MAX,
        ensures
            r == Location::spec_unit(self),
    {
        Span { start: self, end: Location { byte: self.byte + 1 } }
    }

    pub open spec fn spec_unit(self) -> Span {
        Span { start: self, end: Location { byte: (self.byte + 1) as usize } }
    }

    /// The zero-width span at this location.
    pub fn empty(self) -> (r: Span)
        ensures
            r == (Span { start: self, end: self }),
    {
        Span { start: self, end: self }
    }
}

impl Span {
    /// A span is well formed when it does not run backwards.
    pub open spec fn wf(self) -> bool {
        self.start.byte <= self.end.byte
    }

    pub open spec fn len(self) -> int {
        self.end.byte - self.start.byte
    }

    /// Build the span `start..end`.
    pub fn new(start: usize, end: usize) -> (r: Span)
        ensures
            r.start.byte == start,
            r.end.byte == end,
    {
        Span { start: Location { byte: start }, end: Location { byte: end } }
    }

    /// The zero-width span at the start of this one.
    pub fn shrink_to_start(self) -> (r: Span)
        ensures
            r.start == self.start,
            r.end == self.start,
    {
        Span { start: self.start, end: self.start }
    }

    /// The zero-width span at the end of this one.
    pub fn shrink_to_end(self) -> (r: Span)
        ensures
            r.start == self.end,
            r.end == self.end,
    {
        Span { start: self.end, end: self.end }
    }

    /// The first `pos` bytes of this span.
    pub fn shrink_to_before(self, pos: usize) -> (r: Span)
        requires
            self.wf(),
            pos <= self.len(),
        ensures
            r.start == self.start,
            r.end.byte == self.start.byte + pos,
    {
        Span { start: self.start, end: Location { byte: self.start.byte + pos } }
    }

    /// What follows the byte at offset `pos` of this span.
    pub fn shrink_to_after(self, pos: usize) -> (r: Span)
        requires
            self.wf(),
            pos < self.len(),
        ensures
            r.start.byte == self.start.byte + pos + 1,
            r.end == self.end,
    {
        Span { start: Location { byte: self.start.byte + pos + 1 }, end: self.end }
    }
}

/// `spans`, in order, lie end to end and cover exactly `a..b`.
pub open spec fn tiles(spans: Seq<Span>, a: int, b: int) -> bool
    decreases spans.len(),
{
    if spans.len() == 0 {
        a == b
    } else {
        spans[0].start.byte == a && spans[0].wf() && tiles(spans.drop_first(), spans[0].end.byte as int, b)
    }
}

/// Two tilings that meet join into one.
pub proof fn lemma_tiles_append(x: Seq<Span>, y: Seq<Span>, a: int, b: int, c: int)
    requires
        tiles(x, a, b),
        tiles(y, b, c),
    ensures
        tiles(x + y, a, c),
    decreases x.len(),
{
    if x.len() > 0 {
        lemma_tiles_append(x.drop_first(), y, x[0].end.byte as int, b, c);
        assert((x + y).drop_first() =~= x.drop_first() + y);
    } else {
        assert(x + y =~= y);
    }
}

} // verus!
