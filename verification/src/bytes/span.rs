//! A range of bytes in a source buffer.
use vstd::prelude::*;
use vstd::slice::slice_subrange;

verus! {

/// The half-open range `[start, end)` of a source buffer.
///
/// Tree nodes do not copy bytes, they point at the source; a clean subtree is
/// written back with one copy, and no lexical detail of it can be lost.
#[derive(Debug, Copy, Clone, PartialEq, Eq, Hash, Structural)]
pub struct Span {
    pub start: u32,
    pub end: u32,
}

impl Span {
    /// Where the range begins.
    pub open spec fn lo(self) -> u32 {
        self.start
    }

    /// Where the range ends.
    pub open spec fn hi(self) -> u32 {
        self.end
    }

    /// Whether the range lies inside a buffer of `len` bytes.
    pub open spec fn within(self, len: nat) -> bool {
        self.lo() <= self.hi() <= len
    }

    /// The empty span at `at`.
    #[must_use]
    pub fn empty(at: u32) -> (r: Self)
        ensures
            r.lo() == at,
            r.hi() == at,
    {
        Span { start: at, end: at }
    }

    /// The span from `start` to `end`; `None` when it would be reversed.
    #[must_use]
    pub fn new(start: u32, end: u32) -> (r: Option<Self>)
        ensures
            r is Some <==> start <= end,
            r matches Some(s) ==> s.lo() == start && s.hi() == end,
    {
        if end < start {
            None
        } else {
            Some(Span { start, end })
        }
    }

    /// The span from `start` to `end`, empty at `start` when reversed.
    #[must_use]
    pub fn clamped(start: u32, end: u32) -> (r: Self)
        ensures
            r.lo() == start,
            r.hi() == if end < start { start } else { end },
    {
        if end < start {
            Span::empty(start)
        } else {
            Span { start, end }
        }
    }

    #[must_use]
    pub fn start(self) -> (r: u32)
        ensures
            r == self.lo(),
    {
        self.start
    }

    #[must_use]
    pub fn end(self) -> (r: u32)
        ensures
            r == self.hi(),
    {
        self.end
    }

    /// Number of bytes, zero for a reversed range.
    #[must_use]
    pub fn len(self) -> (r: u32)
        ensures
            r == if self.lo() <= self.hi() { self.hi() - self.lo() } else { 0 },
    {
        self.end.saturating_sub(self.start)
    }

    #[must_use]
    pub fn is_empty(self) -> (r: bool)
        ensures
            r == (self.lo() >= self.hi()),
    {
        self.start >= self.end
    }

    /// Cuts the span out of a buffer; `None` when it does not fit.
    #[must_use]
    pub fn slice(self, src: &[u8]) -> (r: Option<&[u8]>)
        ensures
            r is Some <==> self.within(src@.len()),
            r matches Some(s) ==> s@ == src@.subrange(self.lo() as int, self.hi() as int),
    {
        let lo: usize = self.start as usize;
        let hi: usize = self.end as usize;
        if lo <= hi && hi <= src.len() {
            Some(slice_subrange(src, lo, hi))
        } else {
            None
        }
    }

    /// Whether `other` begins where this span ends.
    #[must_use]
    pub fn touches(self, other: Self) -> (r: bool)
        ensures
            r == (self.hi() == other.lo()),
    {
        self.end == other.start
    }

    /// The smallest span that covers both.
    #[must_use]
    pub fn join(self, other: Self) -> (r: Self)
        ensures
            r.lo() == if self.lo() < other.lo() { self.lo() } else { other.lo() },
            r.hi() == if self.hi() > other.hi() { self.hi() } else { other.hi() },
    {
        Span {
            start: if self.start < other.start { self.start } else { other.start },
            end: if self.end > other.end { self.end } else { other.end },
        }
    }
}

impl Default for Span {
    fn default() -> (r: Self)
        ensures
            r.lo() == 0,
            r.hi() == 0,
    {
        Span { start: 0, end: 0 }
    }
}

} // verus!
