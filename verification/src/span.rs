//! Source-location ranges.

use vstd::prelude::*;

verus! {

/// A half-open byte range `lo..hi` of the source text.
#[derive(Clone, Copy, Debug, PartialEq, Eq, Structural)]
pub struct Span {
    pub lo: u32,
    pub hi: u32,
}

impl Span {
    /// `small` lies within `self`, bounds included.
    pub open spec fn encloses(self, small: Span) -> bool {
        self.lo <= small.lo && small.hi <= self.hi
    }

    /// The range packed into one word, `lo` in the upper half.
    pub open spec fn spec_key(self) -> u64 {
        (self.lo * 0x1_0000_0000 + self.hi) as u64
    }

    /// The range that a packed word stands for.
    pub open spec fn of_key(key: u64) -> Span {
        Span { lo: (key / 0x1_0000_0000) as u32, hi: (key % 0x1_0000_0000) as u32 }
    }

    /// The offsets of `self` counted from the start of `base`, where `self`
    /// is a proper range that does not begin before `base`.
    pub open spec fn spec_relative_to(self, base: Span) -> Option<(usize, usize)> {
        if base.lo <= self.lo <= self.hi {
            Some(((self.lo - base.lo) as usize, (self.hi - base.lo) as usize))
        } else {
            None
        }
    }

    /// The range from `lo` to `hi`.
    pub fn new(lo: u32, hi: u32) -> (span: Span)
        ensures
            span == (Span { lo, hi }),
    {
        Span { lo, hi }
    }

    /// Whether `small` lies within `self`, bounds included.
    pub fn contains(&self, small: Span) -> (inside: bool)
        ensures
            inside == self.encloses(small),
    {
        self.lo <= small.lo && small.hi <= self.hi
    }

    /// The range packed into one word.
    pub fn key(&self) -> (key: u64)
        ensures
            key == self.spec_key(),
            Span::of_key(key) == *self,
    {
        let lo: u64 = self.lo as u64;
        let hi: u64 = self.hi as u64;
        lo * 0x1_0000_0000 + hi
    }

    /// The range that a packed word stands for.
    pub fn from_key(key: u64) -> (span: Span)
        ensures
            span == Span::of_key(key),
            span.spec_key() == key,
    {
        let lo: u64 = key / 0x1_0000_0000;
        let hi: u64 = key % 0x1_0000_0000;
        Span { lo: lo as u32, hi: hi as u32 }
    }

    /// The offsets of the range counted from the start of `base`; none
    /// where the range begins before `base` or ends before it begins.
    pub fn relative_to(&self, base: Span) -> (offsets: Option<(usize, usize)>)
        ensures
            offsets == self.spec_relative_to(base),
    {
        if base.lo <= self.lo && self.lo <= self.hi {
            Some(((self.lo - base.lo) as usize, (self.hi - base.lo) as usize))
        } else {
            None
        }
    }

    /// Packing loses nothing: a range is found again from its word, and a
    /// word from its range.
    pub proof fn lemma_key_round_trip(span: Span, key: u64)
        ensures
            Span::of_key(span.spec_key()) == span,
            Span::of_key(key).spec_key() == key,
    {
    }

    /// Distinct ranges have distinct words.
    pub proof fn lemma_key_injective(a: Span, b: Span)
        requires
            a.spec_key() == b.spec_key(),
        ensures
            a == b,
    {
        Span::lemma_key_round_trip(a, 0);
        Span::lemma_key_round_trip(b, 0);
    }
}

/// Whether `small` lies within `large`, bounds included.
pub fn contains_span(large: Span, small: Span) -> (inside: bool)
    ensures
        inside == large.encloses(small),
{
    large.contains(small)
}

} // verus!
