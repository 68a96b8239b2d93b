use crate::utils::{
    align_down, align_up, align_up_overflows, spec_align_down, spec_align_up,
    spec_align_up_overflows, ALIGN,
};
use vstd::prelude::*;

verus! {

/// A half-open interval of addresses `[base, acme)`.
///
/// The span is empty whenever `acme <= base`; every empty span is
/// contained in every other span.
#[derive(Clone, Copy, PartialEq, Eq, Structural, Debug)]
pub struct Span {
    pub base: usize,
    pub acme: usize,
}

impl Span {
    /// Whether the interval holds no address.
    pub open spec fn spec_is_empty(self) -> bool {
        self.acme <= self.base
    }

    /// Whether `addr` lies inside the interval.
    pub open spec fn spec_contains(self, addr: int) -> bool {
        self.base <= addr < self.acme
    }

    /// Whether every address of `other` lies inside `self`.
    pub open spec fn spec_contains_span(self, other: Span) -> bool {
        other.spec_is_empty() || (self.base <= other.base && other.acme <= self.acme)
    }

    /// The number of addresses in the interval.
    pub open spec fn spec_size(self) -> int {
        if self.spec_is_empty() {
            0
        } else {
            self.acme - self.base
        }
    }

    /// The canonical empty span.
    pub fn empty() -> (r: Span)
        ensures
            r.spec_is_empty(),
            r == (Span { base: 0, acme: 0 }),
    {
        Span { base: 0, acme: 0 }
    }

    /// The span `[base, acme)`.
    pub fn new(base: usize, acme: usize) -> (r: Span)
        ensures
            r.base == base,
            r.acme == acme,
    {
        Span { base, acme }
    }

    /// Whether the span holds no address.
    pub fn is_empty(&self) -> (r: bool)
        ensures
            r == self.spec_is_empty(),
    {
        self.acme <= self.base
    }

    /// The number of addresses in the span.
    pub fn size(&self) -> (r: usize)
        ensures
            r == self.spec_size(),
    {
        if self.acme <= self.base {
            0
        } else {
            self.acme - self.base
        }
    }

    /// Whether `addr` lies inside the span.
    pub fn contains(&self, addr: usize) -> (r: bool)
        ensures
            r == self.spec_contains(addr as int),
    {
        self.base <= addr && addr < self.acme
    }

    /// Whether every address of `other` lies inside `self`.
    pub fn contains_span(&self, other: Span) -> (r: bool)
        ensures
            r == self.spec_contains_span(other),
    {
        other.acme <= other.base || (self.base <= other.base && other.acme <= self.acme)
    }

    /// The pair `(base, acme)` of a non-empty span.
    pub fn get_base_acme(&self) -> (r: Option<(usize, usize)>)
        ensures
            match r {
                Some((base, acme)) => !self.spec_is_empty() && base == self.base && acme
                    == self.acme,
                None => self.spec_is_empty(),
            },
    {
        if self.acme <= self.base {
            None
        } else {
            Some((self.base, self.acme))
        }
    }

    /// The span with base rounded up and acme rounded down to the
    /// word alignment; empty when rounding the base up would wrap.
    pub open spec fn spec_word_align_inward(self) -> Span {
        let acme = spec_align_down(self.acme as int, ALIGN as int) as usize;
        if spec_align_up_overflows(self.base) {
            Span { base: acme, acme }
        } else {
            Span { base: spec_align_up(self.base as int, ALIGN as int) as usize, acme }
        }
    }

    /// Round the base up and the acme down to the word alignment.
    ///
    /// When rounding the base up would wrap, the result is empty.
    pub fn word_align_inward(&self) -> (r: Span)
        ensures
            r == self.spec_word_align_inward(),
            r.base % 8 == 0,
            r.acme % 8 == 0,
            r.acme == spec_align_down(self.acme as int, ALIGN as int),
            !spec_align_up_overflows(self.base) ==> r.base == spec_align_up(
                self.base as int,
                ALIGN as int,
            ),
            spec_align_up_overflows(self.base) ==> r.spec_is_empty(),
            !r.spec_is_empty() ==> self.base <= r.base && r.acme <= self.acme,
    {
        let acme = align_down(self.acme);
        if align_up_overflows(self.base) {
            Span { base: acme, acme }
        } else {
            Span { base: align_up(self.base), acme }
        }
    }

    /// Grow the span by `below` addresses downward and `above` upward,
    /// saturating at the ends of the address space.
    pub fn extend(&self, below: usize, above: usize) -> (r: Span)
        ensures
            r.base == if self.base >= below {
                self.base - below
            } else {
                0
            },
            r.acme == if self.acme + above <= usize::MAX {
                self.acme + above
            } else {
                usize::MAX as int
            },
    {
        let base = if self.base >= below {
            self.base - below
        } else {
            0
        };
        let acme = if self.acme <= usize::MAX - above {
            self.acme + above
        } else {
            usize::MAX
        };
        Span { base, acme }
    }

    /// Shrink the span by `below` addresses at the bottom and `above` at
    /// the top, never moving either end past the other.
    pub fn truncate(&self, below: usize, above: usize) -> (r: Span)
        ensures
            r.base == if self.base + below <= self.acme {
                self.base + below
            } else {
                self.acme as int
            },
            r.acme == if self.acme >= above && self.acme - above >= self.base {
                self.acme - above
            } else {
                self.base as int
            },
    {
        let base = if self.base <= usize::MAX - below && self.base + below <= self.acme {
            self.base + below
        } else {
            self.acme
        };
        let acme = if self.acme >= above && self.acme - above >= self.base {
            self.acme - above
        } else {
            self.base
        };
        Span { base, acme }
    }

    /// The largest part of `self` that lies within `other`.
    pub fn fit_within(&self, other: Span) -> (r: Span)
        ensures
            other.spec_contains_span(r),
            !self.spec_is_empty() && !other.spec_is_empty() ==> r.base == if self.base
                >= other.base {
                self.base as int
            } else {
                other.base as int
            } && r.acme == if self.acme <= other.acme {
                self.acme as int
            } else {
                other.acme as int
            },
    {
        if self.acme <= self.base || other.acme <= other.base {
            Span { base: other.base, acme: other.base }
        } else {
            let base = if self.base >= other.base {
                self.base
            } else {
                other.base
            };
            let acme = if self.acme <= other.acme {
                self.acme
            } else {
                other.acme
            };
            Span { base, acme }
        }
    }

    /// The smallest span that covers both `self` and `other`.
    pub fn fit_over(&self, other: Span) -> (r: Span)
        ensures
            r.spec_contains_span(*self),
            r.spec_contains_span(other),
            other.spec_is_empty() ==> r == *self,
            self.spec_is_empty() && !other.spec_is_empty() ==> r == other,
            !self.spec_is_empty() && !other.spec_is_empty() ==> r.base == if self.base
                <= other.base {
                self.base as int
            } else {
                other.base as int
            } && r.acme == if self.acme >= other.acme {
                self.acme as int
            } else {
                other.acme as int
            },
    {
        if other.acme <= other.base {
            *self
        } else if self.acme <= self.base {
            other
        } else {
            let base = if self.base <= other.base {
                self.base
            } else {
                other.base
            };
            let acme = if self.acme >= other.acme {
                self.acme
            } else {
                other.acme
            };
            Span { base, acme }
        }
    }
}

} // verus!
