use vstd::prelude::*;

verus! {

/// Bit 0 of a tag word: set on every allocated-chunk tag.
///
/// The first word of a free chunk holds a word-aligned link value, so its
/// bit 0 is clear; this bit alone tells the two kinds of chunk apart.
pub const TAG_ALLOCATED_BIT: u64 = 1;

/// Bit 1 of a tag word: set when the chunk immediately below is free.
pub const TAG_BELOW_FREE_BIT: u64 = 2;

/// Mask selecting the acme address out of a tag word.
pub const TAG_ACME_MASK: u64 = 0xFFFF_FFFF_FFFF_FFFC;

/// A one-word chunk header: the chunk's acme with two low flag bits.
///
/// The acme is word-aligned, so its two low bits are free to carry the
/// `is_allocated` and `is_below_free` flags.
#[derive(Clone, Copy, PartialEq, Eq, Structural, Debug)]
pub struct Tag {
    pub word: u64,
}

impl Tag {
    /// The word that encodes a tag for an allocated chunk ending at
    /// `acme`: the acme with the allocated bit, and the below-free bit
    /// when asked.
    pub open spec fn spec_tag_word(acme: usize, is_below_free: bool) -> u64 {
        (acme as u64) | if is_below_free {
            3
        } else {
            1
        }
    }

    /// The acme encoded in the word: everything above the two flag bits.
    pub open spec fn spec_acme(self) -> int {
        (self.word & TAG_ACME_MASK) as int
    }

    /// Whether bit 0 marks the word as an allocated-chunk tag.
    pub open spec fn spec_is_allocated(self) -> bool {
        self.word & TAG_ALLOCATED_BIT == TAG_ALLOCATED_BIT
    }

    /// Whether bit 1 marks the chunk below as free.
    pub open spec fn spec_is_below_free(self) -> bool {
        self.word & TAG_BELOW_FREE_BIT == TAG_BELOW_FREE_BIT
    }

    /// Encode a tag for an allocated chunk ending at `acme`.
    pub fn new(acme: usize, is_below_free: bool) -> (r: Tag)
        requires
            acme % 8 == 0,
        ensures
            r.spec_acme() == acme,
            r.spec_is_allocated(),
            r.spec_is_below_free() == is_below_free,
            r.word == Self::spec_tag_word(acme, is_below_free),
    {
        let a: u64 = acme as u64;
        let flags: u64 = if is_below_free {
            3
        } else {
            1
        };
        let word: u64 = a | flags;
        proof {
            assert(a % 8 == 0) by {
                assert(acme as u64 == acme as int);
            }
            assert((a | 1u64) & 0xFFFF_FFFF_FFFF_FFFCu64 == a && (a | 1u64) & 1u64 == 1u64 && (a
                | 1u64) & 2u64 == 0u64) by (bit_vector)
                requires a % 8 == 0;
            assert((a | 3u64) & 0xFFFF_FFFF_FFFF_FFFCu64 == a && (a | 3u64) & 1u64 == 1u64 && (a
                | 3u64) & 2u64 == 2u64) by (bit_vector)
                requires a % 8 == 0;
        }
        Tag { word }
    }

    /// The chunk's acme.
    pub fn acme(&self) -> (r: usize)
        requires
            self.spec_acme() <= usize::MAX,
        ensures
            r == self.spec_acme(),
    {
        (self.word & TAG_ACME_MASK) as usize
    }

    /// Whether the word is an allocated-chunk tag.
    pub fn is_allocated(&self) -> (r: bool)
        ensures
            r == self.spec_is_allocated(),
    {
        self.word & TAG_ALLOCATED_BIT == TAG_ALLOCATED_BIT
    }

    /// Whether the chunk immediately below is free.
    pub fn is_below_free(&self) -> (r: bool)
        ensures
            r == self.spec_is_below_free(),
    {
        self.word & TAG_BELOW_FREE_BIT == TAG_BELOW_FREE_BIT
    }

    /// The same tag moved to end at `acme`, keeping both flags.
    pub fn with_acme(&self, acme: usize) -> (r: Tag)
        requires
            acme % 8 == 0,
            self.spec_is_allocated(),
        ensures
            r.spec_acme() == acme,
            r.spec_is_allocated(),
            r.spec_is_below_free() == self.spec_is_below_free(),
    {
        Tag::new(acme, self.is_below_free())
    }

    /// The same tag with the `is_below_free` flag set.
    pub fn with_below_free_set(&self) -> (r: Tag)
        ensures
            r.spec_acme() == self.spec_acme(),
            r.spec_is_allocated() == self.spec_is_allocated(),
            r.spec_is_below_free(),
            r.word == self.word | 2u64,
    {
        let w: u64 = self.word;
        proof {
            assert((w | 2u64) & 0xFFFF_FFFF_FFFF_FFFCu64 == w & 0xFFFF_FFFF_FFFF_FFFCu64 && (w
                | 2u64) & 1u64 == w & 1u64 && (w | 2u64) & 2u64 == 2u64) by (bit_vector);
        }
        Tag { word: w | TAG_BELOW_FREE_BIT }
    }

    /// The same tag with the `is_below_free` flag cleared.
    pub fn with_below_free_cleared(&self) -> (r: Tag)
        ensures
            r.spec_acme() == self.spec_acme(),
            r.spec_is_allocated() == self.spec_is_allocated(),
            !r.spec_is_below_free(),
            r.word == self.word & !2u64,
    {
        let w: u64 = self.word;
        proof {
            assert((w & !2u64) & 0xFFFF_FFFF_FFFF_FFFCu64 == w & 0xFFFF_FFFF_FFFF_FFFCu64 && (w
                & !2u64) & 1u64 == w & 1u64 && (w & !2u64) & 2u64 == 0u64) by (bit_vector);
        }
        Tag { word: w & !TAG_BELOW_FREE_BIT }
    }
}

} // verus!
