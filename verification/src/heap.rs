use crate::bins::{
    bin_of_size, clear_bit64, find_next_avail, set_bit64, spec_avail_bit, spec_bin_of_size,
    BIN_COUNT,
};
use crate::span::Span;
use crate::utils::{
    align_down, align_up_by, lemma_align_up, lemma_align_up_least, lemma_aligned_gap,
    lemma_div8_exact, lemma_divides_trans, lemma_mul8_mod, spec_align_up, ALIGN, MIN_CHUNK_SIZE,
    TAG_SIZE, WORD_SIZE,
};
use crate::tag::Tag;
use vstd::prelude::*;

verus! {

/// Size of the reserved header chunk at the bottom of the heap: one
/// tag word plus one word per bin.
pub const METADATA_CHUNK_SIZE: usize = TAG_SIZE + WORD_SIZE * BIN_COUNT;

/// Failure of an allocation request: no sufficient chunk could be
/// produced, even after the out-of-memory handler ran.
#[derive(Clone, Copy, PartialEq, Eq, Structural, Debug)]
pub struct AllocError;

/// A request shape: a size in bytes and a power-of-two alignment.
#[derive(Clone, Copy, PartialEq, Eq, Structural, Debug)]
pub struct Layout {
    pub size: usize,
    pub align: usize,
}

impl Layout {
    /// A valid layout has a power-of-two alignment.
    pub open spec fn wf(self) -> bool {
        self.align >= 1 && (self.align as u64) & ((self.align - 1) as u64) == 0
    }

    /// Build a layout, checking that `align` is a power of two.
    pub fn from_size_align(size: usize, align: usize) -> (r: Option<Layout>)
        ensures
            match r {
                Some(l) => l.size == size && l.align == align && l.wf(),
                None => !(Layout { size, align }).wf(),
            },
    {
        if align >= 1 && (align & (align - 1)) == 0 {
            proof {
                assert(align >= 1 && align & ((align - 1) as usize) == 0 ==> (align as u64) & ((
                align - 1) as u64) == 0) by (bit_vector);
            }
            Some(Layout { size, align })
        } else {
            proof {
                assert(align >= 1 && (align as u64) & ((align - 1) as u64) == 0 ==> align & ((
                align - 1) as usize) == 0) by (bit_vector);
            }
            None
        }
    }

    /// The size of the request.
    pub fn size(&self) -> (r: usize)
        ensures
            r == self.size,
    {
        self.size
    }

    /// The alignment of the request.
    pub fn align(&self) -> (r: usize)
        ensures
            r == self.align,
    {
        self.align
    }
}

/// One free chunk as recorded in its bin: its base address and size.
#[derive(Clone, Copy, PartialEq, Eq, Structural, Debug)]
pub struct BinEntry {
    pub base: usize,
    pub size: usize,
}

/// The policy run when no sufficient chunk is available.
///
/// Implementors may call [`Talc::extend`] on the passed heap to supply
/// more arena and return `Ok`, or return `Err` to make the allocation
/// fail. The handler must not call any other heap operation.
pub trait OomHandler: Sized {
    /// Whether this policy can ever report success; a policy for which
    /// this is false makes every exhausted allocation fail.
    spec fn spec_may_supply() -> bool;

    /// React to heap exhaustion while allocating `layout`.
    fn handle_oom(talc: &mut Talc<Self>, layout: Layout) -> (r: Result<(), AllocError>)
        requires
            old(talc).wf(),
            layout.wf(),
        ensures
            final(talc).wf(),
            r.is_err() ==> *final(talc) == *old(talc),
            !Self::spec_may_supply() ==> r.is_err(),
            old(talc).mem@.len() <= final(talc).mem@.len(),
            old(talc).allocatable_acme <= final(talc).allocatable_acme,
    ;
}

/// The default policy: fail every exhausted allocation.
#[derive(Clone, Copy, PartialEq, Eq, Structural, Debug)]
pub struct ErrOnOom;

impl OomHandler for ErrOnOom {
    open spec fn spec_may_supply() -> bool {
        false
    }

    fn handle_oom(_talc: &mut Talc<Self>, _layout: Layout) -> (r: Result<(), AllocError>)
        ensures
            r.is_err(),
    {
        Err(AllocError)
    }
}

/// The heap allocator.
///
/// The arena bytes are modelled as a vector of machine words owned by
/// the allocator; an address is a byte offset into that vector, and all
/// chunk metadata lives in those words exactly as it would in raw
/// memory. The bin table itself is held beside the words, and a
/// reserved chunk at the bottom of the heap stands in for the space the
/// table occupies, so the first chunk of the heap is never free.
pub struct Talc<H> {
    /// The out-of-memory policy.
    pub oom_handler: H,
    /// The arena bytes, as whole machine words.
    pub mem: Vec<u64>,
    /// The span most recently granted by `init`, `extend` or `truncate`.
    pub arena: Span,
    /// Base of the word-aligned sub-span partitioned into chunks.
    pub allocatable_base: usize,
    /// Acme of the word-aligned sub-span partitioned into chunks.
    pub allocatable_acme: usize,
    /// Whether the highest chunk of the allocatable span is free.
    pub is_top_free: bool,
    /// Availability bits of bins 0..64.
    pub availability_low: u64,
    /// Availability bits of bins 64..128.
    pub availability_high: u64,
    /// The segregated free lists: bin `b` records each free chunk whose
    /// size maps to `b`.
    pub bins: Vec<Vec<BinEntry>>,
}

impl<H> Talc<H> {
    /// The span in which allocations may be placed.
    pub open spec fn spec_alloc_span(self) -> Span {
        Span { base: self.allocatable_base, acme: self.allocatable_acme }
    }

    /// The bin table as a sequence of sequences of recorded chunks.
    pub open spec fn bins_view(self) -> Seq<Seq<BinEntry>> {
        Seq::new(self.bins@.len(), |b: int| self.bins@[b]@)
    }

    /// Whether availability bit `b` is set.
    pub open spec fn spec_avail(self, b: int) -> bool {
        spec_avail_bit(self.availability_low, self.availability_high, b)
    }

    /// A recorded free chunk lies word-aligned within the allocatable
    /// span and is at least the minimum chunk size.
    pub open spec fn entry_wf(self, e: BinEntry) -> bool {
        &&& e.base % 8 == 0
        &&& e.size % 8 == 0
        &&& e.size >= MIN_CHUNK_SIZE
        &&& self.allocatable_base <= e.base
        &&& e.base + e.size <= self.allocatable_acme
    }

    /// The bookkeeping invariant.
    ///
    /// The bin table has one list per bin; every recorded free chunk is
    /// well-formed and recorded in the bin of its size; an availability
    /// bit is set exactly when its list is non-empty; and the
    /// allocatable span is word-aligned, within the arena, and backed
    /// by the word vector.
    pub open spec fn wf(self) -> bool {
        &&& self.bins@.len() == BIN_COUNT
        &&& forall|b: int, i: int|
            0 <= b < BIN_COUNT && 0 <= i < self.bins_view()[b].len() ==> self.entry_wf(
                #[trigger] self.bins_view()[b][i],
            ) && spec_bin_of_size(self.bins_view()[b][i].size as int) == b
        &&& forall|b: int|
            0 <= b < BIN_COUNT ==> (#[trigger] self.spec_avail(b) <==> self.bins_view()[b].len()
                > 0)
        &&& self.allocatable_base % 8 == 0
        &&& self.allocatable_acme % 8 == 0
        &&& self.allocatable_base <= self.allocatable_acme
        &&& self.allocatable_acme <= self.mem@.len() * 8
        &&& (self.allocatable_base < self.allocatable_acme ==> self.allocatable_base >= 8
            && self.allocatable_acme - self.allocatable_base >= MIN_CHUNK_SIZE)
        &&& (self.allocatable_base == self.allocatable_acme ==> self.allocatable_base == 0)
        &&& self.arena.spec_contains_span(self.spec_alloc_span())
    }

    /// The arena and allocatable-span fields of `a` and `b` agree.
    pub open spec fn same_span_fields(a: Talc<H>, b: Talc<H>) -> bool {
        &&& a.arena == b.arena
        &&& a.allocatable_base == b.allocatable_base
        &&& a.allocatable_acme == b.allocatable_acme
        &&& a.is_top_free == b.is_top_free
    }

    /// Set availability bit `b`, which must be clear.
    pub fn set_avails(&mut self, b: usize)
        requires
            b < BIN_COUNT,
            !old(self).spec_avail(b as int),
        ensures
            final(self).spec_avail(b as int),
            forall|j: int| 0 <= j < BIN_COUNT && j != b ==> final(self).spec_avail(j) == old(self).spec_avail(j),
            final(self).mem == old(self).mem,
            final(self).bins == old(self).bins,
            Self::same_span_fields(*final(self), *old(self)),
            final(self).oom_handler == old(self).oom_handler,
    {
        proof {
            crate::bins::lemma_bit_is_zero_or_one();
        }
        if b < 64 {
            self.availability_low = set_bit64(self.availability_low, b as u64);
        } else {
            self.availability_high = set_bit64(self.availability_high, (b - 64) as u64);
        }
    }

    /// Clear availability bit `b`, which must be set.
    pub fn clear_avails(&mut self, b: usize)
        requires
            b < BIN_COUNT,
            old(self).spec_avail(b as int),
        ensures
            !final(self).spec_avail(b as int),
            forall|j: int| 0 <= j < BIN_COUNT && j != b ==> final(self).spec_avail(j) == old(self).spec_avail(j),
            final(self).mem == old(self).mem,
            final(self).bins == old(self).bins,
            Self::same_span_fields(*final(self), *old(self)),
            final(self).oom_handler == old(self).oom_handler,
    {
        proof {
            crate::bins::lemma_bit_is_zero_or_one();
        }
        if b < 64 {
            self.availability_low = clear_bit64(self.availability_low, b as u64);
        } else {
            self.availability_high = clear_bit64(self.availability_high, (b - 64) as u64);
        }
    }

    /// The least bin index at or above `bin` whose availability bit is
    /// set, found with a single count-trailing-zeros per bitmap word.
    pub fn next_bin(&self, bin: usize) -> (r: Option<usize>)
        ensures
            match r {
                Some(nb) => bin <= nb < BIN_COUNT && self.spec_avail(nb as int) && forall|j: int|
                    bin <= j < nb ==> !self.spec_avail(j),
                None => forall|j: int| bin <= j < BIN_COUNT ==> !self.spec_avail(j),
            },
    {
        find_next_avail(self.availability_low, self.availability_high, bin)
    }

    /// The chunk size that a request for `size` bytes occupies: the
    /// size rounded up to cover the tag word and the word alignment,
    /// never below the minimum chunk size.
    pub open spec fn spec_required_chunk_size(size: int) -> int {
        if size <= MIN_CHUNK_SIZE - TAG_SIZE {
            MIN_CHUNK_SIZE as int
        } else {
            spec_align_up(size + TAG_SIZE, 8)
        }
    }

    /// The chunk size needed to serve a request of `size` bytes.
    pub fn required_chunk_size(size: usize) -> (r: usize)
        requires
            1 <= size,
            size <= usize::MAX - 15,
        ensures
            r == Self::spec_required_chunk_size(size as int),
            r % 8 == 0,
            r >= MIN_CHUNK_SIZE,
            r >= size + TAG_SIZE,
    {
        if size <= MIN_CHUNK_SIZE - TAG_SIZE {
            MIN_CHUNK_SIZE
        } else {
            crate::utils::align_up(size + TAG_SIZE)
        }
    }

    /// Read the word at byte address `addr`.
    fn read_word(&self, addr: usize) -> (r: u64)
        requires
            addr % 8 == 0,
            addr + 8 <= self.mem@.len() * 8,
        ensures
            r == self.mem@[addr as int / 8],
    {
        proof {
            assert(addr % 8 == 0 && addr + 8 <= self.mem@.len() * 8 ==> addr as int / 8
                < self.mem@.len()) by (nonlinear_arith);
        }
        self.mem[addr / 8]
    }

    /// Write the word at byte address `addr`.
    fn write_word(&mut self, addr: usize, value: u64)
        requires
            addr % 8 == 0,
            addr + 8 <= old(self).mem@.len() * 8,
        ensures
            final(self).mem@ == old(self).mem@.update(addr as int / 8, value),
            final(self).mem@.len() == old(self).mem@.len(),
            final(self).bins == old(self).bins,
            final(self).availability_low == old(self).availability_low,
            final(self).availability_high == old(self).availability_high,
            Self::same_span_fields(*final(self), *old(self)),
            final(self).oom_handler == old(self).oom_handler,
    {
        proof {
            assert(addr % 8 == 0 && addr + 8 <= self.mem@.len() * 8 ==> addr as int / 8
                < self.mem@.len()) by (nonlinear_arith);
        }
        self.mem[addr / 8] = value;
    }

    /// Record `[base, acme)` as one free chunk: push it onto the bin of
    /// its size, mark the bin available, and write the free-chunk
    /// metadata (a cleared link word and the two boundary size words).
    #[verifier::spinoff_prover]
    #[verifier::rlimit(25)]
    fn register(&mut self, base: usize, acme: usize)
        requires
            old(self).wf(),
            base % 8 == 0,
            acme % 8 == 0,
            old(self).allocatable_base <= base,
            acme <= old(self).allocatable_acme,
            base + MIN_CHUNK_SIZE <= acme,
        ensures
            final(self).wf(),
            ({
                let size = acme - base;
                let b = spec_bin_of_size(size);
                final(self).bins_view()[b] == old(self).bins_view()[b].push(
                    (BinEntry { base, size: size as usize }),
                ) && forall|j: int|
                    0 <= j < BIN_COUNT && j != b ==> final(self).bins_view()[j] == old(self).bins_view()[j]
            }),
            final(self).mem@.len() == old(self).mem@.len(),
            final(self).mem@[base as int / 8] == 0,
            final(self).mem@[base as int / 8 + 2] == (acme - base) as u64,
            final(self).mem@[acme as int / 8 - 1] == (acme - base) as u64,
            forall|j: int|
                0 <= j < final(self).mem@.len() && j != base as int / 8 && j != base as int / 8
                    + 2 && j != acme as int / 8 - 1 ==> final(self).mem@[j] == old(self).mem@[j],
            Self::same_span_fields(*final(self), *old(self)),
            final(self).oom_handler == old(self).oom_handler,
    {
        let size = acme - base;
        let b = bin_of_size(size);
        let ghost pre = *self;
        if self.bins[b].len() == 0 {
            self.set_avails(b);
        }
        self.bins[b].push(BinEntry { base, size });
        proof {
            assert(self.bins_view()[b as int] == pre.bins_view()[b as int].push(
                (BinEntry { base, size }),
            ));
            assert(forall|j: int|
                0 <= j < BIN_COUNT && j != b ==> self.bins_view()[j] == pre.bins_view()[j]);
        }
        proof {
            let mid = *self;
            assert forall|bb: int, i: int|
                0 <= bb < BIN_COUNT && 0 <= i < mid.bins_view()[bb].len() implies mid.entry_wf(
                mid.bins_view()[bb][i]) && spec_bin_of_size(mid.bins_view()[bb][i].size as int)
                == bb by {
                if bb == b {
                    if i < pre.bins_view()[bb].len() {
                        assert(mid.bins_view()[bb][i] == pre.bins_view()[bb][i]);
                    } else {
                        assert(mid.bins_view()[bb][i] == (BinEntry { base, size }));
                    }
                } else {
                    assert(mid.bins_view()[bb][i] == pre.bins_view()[bb][i]);
                }
            }
            assert forall|bb: int|
                0 <= bb < BIN_COUNT implies (mid.spec_avail(bb) <==> mid.bins_view()[bb].len()
                > 0) by {
                assert(pre.spec_avail(bb) <==> pre.bins_view()[bb].len() > 0);
                if bb != b {
                    assert(mid.bins_view()[bb] == pre.bins_view()[bb]);
                    assert(mid.spec_avail(bb) == pre.spec_avail(bb));
                } else {
                    assert(mid.bins_view()[bb].len() == pre.bins_view()[bb].len() + 1);
                }
            }
            assert(mid.wf());
        }
        let ghost mid = *self;
        self.write_word(base, 0);
        self.write_word(base + (MIN_CHUNK_SIZE - TAG_SIZE), size as u64);
        self.write_word(acme - TAG_SIZE, size as u64);
        proof {
            assert(base as int / 8 + 2 == (base + 16) as int / 8) by (nonlinear_arith)
                requires base % 8 == 0, base + 16 <= usize::MAX;
            assert(acme as int / 8 - 1 == (acme - 8) as int / 8) by (nonlinear_arith)
                requires acme % 8 == 0, acme >= 8;
            assert(self.bins_view() == mid.bins_view());
            assert forall|bb: int, i: int|
                0 <= bb < BIN_COUNT && 0 <= i < self.bins_view()[bb].len() implies self.entry_wf(
                self.bins_view()[bb][i]) && spec_bin_of_size(self.bins_view()[bb][i].size as int)
                == bb by {
                assert(mid.entry_wf(mid.bins_view()[bb][i]));
            }
            assert forall|bb: int|
                0 <= bb < BIN_COUNT implies (self.spec_avail(bb) <==> self.bins_view()[bb].len()
                > 0) by {
                assert(mid.spec_avail(bb) <==> mid.bins_view()[bb].len() > 0);
                assert(self.spec_avail(bb) == mid.spec_avail(bb));
            }
        }
    }

    /// Remove the entry at position `idx` of bin `b`, clearing the
    /// availability bit when the bin empties.
    fn deregister_at(&mut self, b: usize, idx: usize) -> (e: BinEntry)
        requires
            old(self).wf(),
            b < BIN_COUNT,
            idx < old(self).bins_view()[b as int].len(),
        ensures
            final(self).wf(),
            e == old(self).bins_view()[b as int][idx as int],
            final(self).bins_view()[b as int] == old(self).bins_view()[b as int].remove(
                idx as int,
            ),
            forall|j: int|
                0 <= j < BIN_COUNT && j != b ==> final(self).bins_view()[j] == old(self).bins_view()[j],
            final(self).mem == old(self).mem,
            Self::same_span_fields(*final(self), *old(self)),
            final(self).oom_handler == old(self).oom_handler,
    {
        let ghost pre = *self;
        let e = self.bins[b][idx];
        self.bins[b].remove(idx);
        proof {
            pre.bins_view()[b as int].remove_ensures(idx as int);
            assert(self.bins_view()[b as int] == pre.bins_view()[b as int].remove(idx as int));
            assert(forall|j: int|
                0 <= j < BIN_COUNT && j != b ==> self.bins_view()[j] == pre.bins_view()[j]);
            assert(pre.spec_avail(b as int));
        }
        if self.bins[b].len() == 0 {
            self.clear_avails(b);
        }
        proof {
            let post = *self;
            assert forall|bb: int, i: int|
                0 <= bb < BIN_COUNT && 0 <= i < post.bins_view()[bb].len() implies post.entry_wf(
                post.bins_view()[bb][i]) && spec_bin_of_size(post.bins_view()[bb][i].size as int)
                == bb by {
                if bb == b {
                    if i < idx {
                        assert(post.bins_view()[bb][i] == pre.bins_view()[bb][i]);
                    } else {
                        assert(post.bins_view()[bb][i] == pre.bins_view()[bb][i + 1]);
                    }
                } else {
                    assert(post.bins_view()[bb][i] == pre.bins_view()[bb][i]);
                }
            }
            assert forall|bb: int|
                0 <= bb < BIN_COUNT implies (post.spec_avail(bb) <==> post.bins_view()[bb].len()
                > 0) by {
                assert(pre.spec_avail(bb) <==> pre.bins_view()[bb].len() > 0);
                if bb != b {
                    assert(post.bins_view()[bb] == pre.bins_view()[bb]);
                    assert(post.spec_avail(bb) == pre.spec_avail(bb));
                } else {
                    assert(post.bins_view()[bb].len() == pre.bins_view()[bb].len() - 1);
                    if post.bins_view()[bb].len() == 0 {
                        assert(!post.spec_avail(bb));
                    } else {
                        assert(post.spec_avail(bb) == pre.spec_avail(bb));
                    }
                }
            }
        }
        e
    }

    /// Remove the recorded free chunk `(base, size)` from the bin of
    /// its size. Returns whether it was found; when it was not, the
    /// heap is unchanged.
    fn deregister_chunk(&mut self, base: usize, size: usize) -> (found: bool)
        requires
            old(self).wf(),
            size >= MIN_CHUNK_SIZE,
        ensures
            final(self).wf(),
            found ==> exists|i: int|
                0 <= i < old(self).bins_view()[spec_bin_of_size(size as int)].len() && old(self).bins_view()[spec_bin_of_size(size as int)][i] == (BinEntry { base, size })
                    && final(self).bins_view()[spec_bin_of_size(size as int)] == old(self).bins_view()[spec_bin_of_size(size as int)].remove(i),
            found ==> forall|j: int|
                0 <= j < BIN_COUNT && j != spec_bin_of_size(size as int) ==> final(self).bins_view()[j] == old(self).bins_view()[j],
            !found ==> *final(self) == *old(self) && forall|i: int|
                0 <= i < old(self).bins_view()[spec_bin_of_size(size as int)].len() ==> old(self).bins_view()[spec_bin_of_size(size as int)][i] != (BinEntry { base, size }),
            final(self).mem == old(self).mem,
            Self::same_span_fields(*final(self), *old(self)),
            final(self).oom_handler == old(self).oom_handler,
    {
        let b = bin_of_size(size);
        let mut i: usize = 0;
        let n = self.bins[b].len();
        while i < n
            invariant
                *self == *old(self),
                self.wf(),
                b == spec_bin_of_size(size as int),
                b < BIN_COUNT,
                n == self.bins_view()[b as int].len(),
                i <= n,
                forall|k: int|
                    0 <= k < i ==> self.bins_view()[b as int][k] != (BinEntry { base, size }),
            decreases n - i,
        {
            let e = self.bins[b][i];
            if e.base == base && e.size == size {
                self.deregister_at(b, i);
                return true;
            }
            i = i + 1;
        }
        false
    }
}

impl Talc<ErrOnOom> {
    /// An empty heap that fails every exhausted allocation.
    pub fn new() -> (r: Talc<ErrOnOom>)
        ensures
            r.wf(),
            r.oom_handler == ErrOnOom,
            r.mem@.len() == 0,
            r.arena == (Span { base: 0, acme: 0 }),
            r.allocatable_base == 0,
            r.allocatable_acme == 0,
            !r.is_top_free,
            r.availability_low == 0,
            r.availability_high == 0,
            forall|b: int| 0 <= b < BIN_COUNT ==> r.bins_view()[b].len() == 0,
    {
        Talc::with_oom_handler(ErrOnOom)
    }
}

/// The bin table with every list empty.
fn empty_bins() -> (r: Vec<Vec<BinEntry>>)
    ensures
        r@.len() == BIN_COUNT,
        forall|b: int| 0 <= b < BIN_COUNT ==> r@[b]@.len() == 0,
{
    let mut v: Vec<Vec<BinEntry>> = Vec::new();
    let mut i: usize = 0;
    while i < BIN_COUNT
        invariant
            v@.len() == i,
            i <= BIN_COUNT,
            forall|b: int| 0 <= b < i ==> v@[b]@.len() == 0,
        decreases BIN_COUNT - i,
    {
        v.push(Vec::new());
        i = i + 1;
    }
    v
}

impl<H> Talc<H> {
    /// An empty heap with the given out-of-memory policy.
    pub fn with_oom_handler(oom_handler: H) -> (r: Talc<H>)
        ensures
            r.wf(),
            r.oom_handler == oom_handler,
            r.mem@.len() == 0,
            r.arena == (Span { base: 0, acme: 0 }),
            r.allocatable_base == 0,
            r.allocatable_acme == 0,
            !r.is_top_free,
            r.availability_low == 0,
            r.availability_high == 0,
            forall|b: int| 0 <= b < BIN_COUNT ==> r.bins_view()[b].len() == 0,
    {
        let r = Talc {
            oom_handler,
            mem: Vec::new(),
            arena: Span { base: 0, acme: 0 },
            allocatable_base: 0,
            allocatable_acme: 0,
            is_top_free: false,
            availability_low: 0,
            availability_high: 0,
            bins: empty_bins(),
        };
        proof {
            assert(forall|d: u64| (0u64 >> d) & 1 == 0) by (bit_vector);
        }
        r
    }

    /// The span granted to this allocator.
    pub fn get_arena(&self) -> (r: Span)
        ensures
            r == self.arena,
    {
        self.arena
    }

    /// The span in which allocations may be placed.
    pub fn get_allocatable_span(&self) -> (r: Span)
        ensures
            r == self.spec_alloc_span(),
    {
        Span { base: self.allocatable_base, acme: self.allocatable_acme }
    }
}


/// Well-formedness depends only on the bookkeeping fields and the
/// length of the word vector, not on the words' values.
proof fn lemma_wf_frame<H1, H2>(a: Talc<H1>, b: Talc<H2>)
    requires
        a.wf(),
        b.bins == a.bins,
        b.availability_low == a.availability_low,
        b.availability_high == a.availability_high,
        b.arena == a.arena,
        b.allocatable_base == a.allocatable_base,
        b.allocatable_acme == a.allocatable_acme,
        b.mem@.len() == a.mem@.len(),
    ensures
        b.wf(),
{
    assert(b.bins_view() =~= a.bins_view());
    assert forall|bb: int, i: int|
        0 <= bb < BIN_COUNT && 0 <= i < b.bins_view()[bb].len() implies b.entry_wf(
        b.bins_view()[bb][i]) && spec_bin_of_size(b.bins_view()[bb][i].size as int) == bb by {
        assert(a.entry_wf(a.bins_view()[bb][i]));
    }
    assert forall|bb: int|
        0 <= bb < BIN_COUNT implies (b.spec_avail(bb) <==> b.bins_view()[bb].len() > 0) by {
        assert(a.spec_avail(bb) <==> a.bins_view()[bb].len() > 0);
    }
}

/// A word index outside the byte range `[cb, ca]` differs from the
/// index of any aligned address inside it.
proof fn lemma_index_outside(j: int, a: int, cb: int, ca: int)
    requires
        a >= 0,
        a % 8 == 0,
        cb <= a <= ca,
        8 * j + 8 <= cb || ca + 8 <= 8 * j,
    ensures
        j != a / 8,
{
    lemma_div8_exact(a);
}

/// A power of two no larger than a word divides every word-aligned value.
proof fn lemma_small_pow2_divides(align: usize, x: int)
    requires
        1 <= align <= 8,
        (align as u64) & ((align - 1) as u64) == 0,
        x >= 0,
        x % 8 == 0,
    ensures
        x % (align as int) == 0,
{
    let a = align as u64;
    assert((align - 1) as u64 == a - 1);
    assert(a == 1 || a == 2 || a == 4 || a == 8) by (bit_vector)
        requires 1 <= a <= 8 && a & ((a - 1) as u64) == 0;
    assert(align as int == a as int);
    assert(align == 1 || align == 2 || align == 4 || align == 8);
    assert(8int % (align as int) == 0);
    lemma_divides_trans(x, 8, align as int);
}

/// A power of two larger than a word is a multiple of the word size.
proof fn lemma_big_pow2_mod8(align: usize)
    requires
        align > 8,
        (align as u64) & ((align - 1) as u64) == 0,
    ensures
        align % 8 == 0,
{
    let a = align as u64;
    assert((align - 1) as u64 == a - 1);
    assert(a > 8 && a & ((a - 1) as u64) == 0 ==> a & 7 == 0) by (bit_vector);
    assert(a % 8 == a & 7) by (bit_vector);
    assert(align as int % 8 == a as int % 8);
}

impl<H> Talc<H> {
    /// The allocation at `p` of `size` bytes was carved out of a chunk
    /// `[cb, cb+sz)` that stood recorded in the bins before the call,
    /// and every word below that chunk or above its end (past the
    /// neighbour's tag word) is unchanged.
    pub open spec fn spec_carved_from(
        pre: Talc<H>,
        post: Talc<H>,
        cb: usize,
        sz: usize,
        p: usize,
        size: usize,
    ) -> bool {
        &&& exists|b: int, i: int|
            0 <= b < BIN_COUNT && 0 <= i < pre.bins_view()[b].len() && pre.bins_view()[b][i] == (
            BinEntry { base: cb, size: sz })
        &&& cb + TAG_SIZE <= p
        &&& p + size <= cb + sz
        &&& forall|j: int|
            0 <= j < pre.mem@.len() && (8 * j + 8 <= cb || cb + sz + 8 <= 8 * j)
                ==> post.mem@[j] == pre.mem@[j]
    }

    /// Whether the recorded free chunk `e` could serve a request of
    /// shape `layout`.
    pub open spec fn spec_fits(e: BinEntry, layout: Layout) -> bool {
        e.size >= Self::spec_required_chunk_size(layout.size as int) && (layout.align <= 8
            || spec_align_up(e.base + TAG_SIZE, layout.align as int) + layout.size <= e.base
            + e.size)
    }

    /// Clear the free-neighbour mark above `chunk_acme`: the
    /// `is_below_free` bit of the tag there, or the top-free flag when
    /// the chunk ends the allocatable span.
    fn clear_below_free(&mut self, chunk_acme: usize)
        requires
            old(self).wf(),
            chunk_acme % 8 == 0,
            old(self).allocatable_base <= chunk_acme,
            chunk_acme <= old(self).allocatable_acme,
        ensures
            final(self).wf(),
            final(self).bins == old(self).bins,
            final(self).availability_low == old(self).availability_low,
            final(self).availability_high == old(self).availability_high,
            final(self).arena == old(self).arena,
            final(self).allocatable_base == old(self).allocatable_base,
            final(self).allocatable_acme == old(self).allocatable_acme,
            final(self).oom_handler == old(self).oom_handler,
            final(self).mem@.len() == old(self).mem@.len(),
            chunk_acme == old(self).allocatable_acme ==> !final(self).is_top_free
                && final(self).mem == old(self).mem,
            chunk_acme < old(self).allocatable_acme ==> final(self).is_top_free == old(self).is_top_free && final(self).mem@ == old(self).mem@.update(
                chunk_acme as int / 8,
                old(self).mem@[chunk_acme as int / 8] & !2u64,
            ),
    {
        if chunk_acme != self.allocatable_acme {
            proof {
                lemma_aligned_gap(chunk_acme as int, self.allocatable_acme as int);
            }
            let w = self.read_word(chunk_acme);
            let t = Tag { word: w };
            self.write_word(chunk_acme, t.with_below_free_cleared().word);
            proof {
                lemma_wf_frame(*old(self), *self);
            }
        } else {
            self.is_top_free = false;
            proof {
                lemma_wf_frame(*old(self), *self);
            }
        }
    }

    /// Find, and take out of its bin, the first recorded chunk that can
    /// serve `layout`, scanning bins upward from the bin of the
    /// required chunk size.
    ///
    /// Returns the chunk's base and acme and the allocation base
    /// within it; `None` exactly when no recorded chunk fits.
    #[verifier::spinoff_prover]
    #[verifier::rlimit(30)]
    fn get_sufficient_chunk(&mut self, layout: Layout) -> (r: Option<(usize, usize, usize)>)
        requires
            old(self).wf(),
            layout.wf(),
            1 <= layout.size,
            layout.size <= usize::MAX - 15,
        ensures
            final(self).wf(),
            final(self).mem == old(self).mem,
            Self::same_span_fields(*final(self), *old(self)),
            final(self).oom_handler == old(self).oom_handler,
            match r {
                None => *final(self) == *old(self) && forall|b: int, i: int|
                    0 <= b < BIN_COUNT && 0 <= i < old(self).bins_view()[b].len()
                        ==> !Self::spec_fits(#[trigger] old(self).bins_view()[b][i], layout),
                Some((cb, ca, ab)) => {
                    &&& ca - cb >= Self::spec_required_chunk_size(layout.size as int)
                    &&& cb % 8 == 0
                    &&& ca % 8 == 0
                    &&& final(self).allocatable_base <= cb
                    &&& ca <= final(self).allocatable_acme
                    &&& cb + TAG_SIZE <= ab
                    &&& ab + layout.size <= ca
                    &&& ab % 8 == 0
                    &&& ab % layout.align == 0
                    &&& (layout.align <= 8 ==> ab == cb + TAG_SIZE)
                    &&& (layout.align > 8 ==> ab == spec_align_up(
                        cb + TAG_SIZE,
                        layout.align as int,
                    ))
                    &&& exists|b: int, i: int|
                        0 <= b < BIN_COUNT && 0 <= i < old(self).bins_view()[b].len() && old(self).bins_view()[b][i] == (BinEntry { base: cb, size: (ca - cb) as usize })
                            && final(self).bins_view()[b] == old(self).bins_view()[b].remove(i)
                            && forall|j: int|
                            0 <= j < BIN_COUNT && j != b ==> final(self).bins_view()[j] == old(self).bins_view()[j]
                },
            },
    {
        let required = Self::required_chunk_size(layout.size);
        let start = bin_of_size(required);
        let mut bin = match self.next_bin(start) {
            Some(b) => b,
            None => {
                proof {
                    assert forall|b: int, i: int|
                        0 <= b < BIN_COUNT && 0 <= i < self.bins_view()[b].len()
                            implies !Self::spec_fits(
                        #[trigger] self.bins_view()[b][i],
                        layout,
                    ) by {
                        let e = self.bins_view()[b][i];
                        assert(self.entry_wf(e));
                        if b >= start {
                            assert(!self.spec_avail(b));
                            assert(self.bins_view()[b].len() == 0);
                        } else if e.size >= required {
                            crate::bins::lemma_bin_of_size_mono(
                                required as int,
                                e.size as int,
                            );
                        }
                    }
                }
                return None;
            },
        };
        proof {
            assert forall|b: int, i: int|
                0 <= b < bin && 0 <= i < self.bins_view()[b].len() implies !Self::spec_fits(
                #[trigger] self.bins_view()[b][i],
                layout,
            ) by {
                let e = self.bins_view()[b][i];
                assert(self.entry_wf(e));
                if b >= start {
                    assert(!self.spec_avail(b));
                    assert(self.bins_view()[b].len() == 0);
                } else if e.size >= required {
                    crate::bins::lemma_bin_of_size_mono(required as int, e.size as int);
                }
            }
        }
        loop
            invariant
                *self == *old(self),
                self.wf(),
                layout.wf(),
                1 <= layout.size,
                layout.size <= usize::MAX - 15,
                required == Self::spec_required_chunk_size(layout.size as int),
                required >= MIN_CHUNK_SIZE,
                required >= layout.size + TAG_SIZE,
                required % 8 == 0,
                start == spec_bin_of_size(required as int),
                start <= bin < BIN_COUNT,
                self.spec_avail(bin as int),
                forall|b: int, i: int|
                    0 <= b < bin && 0 <= i < self.bins_view()[b].len() ==> !Self::spec_fits(
                        #[trigger] self.bins_view()[b][i],
                        layout,
                    ),
            decreases BIN_COUNT - bin,
        {
            let n = self.bins[bin].len();
            let mut i: usize = 0;
            while i < n
                invariant
                    *self == *old(self),
                    self.wf(),
                    layout.wf(),
                    1 <= layout.size,
                    layout.size <= usize::MAX - 15,
                    required == Self::spec_required_chunk_size(layout.size as int),
                    required >= MIN_CHUNK_SIZE,
                    required >= layout.size + TAG_SIZE,
                    required % 8 == 0,
                    bin < BIN_COUNT,
                    n == self.bins_view()[bin as int].len(),
                    i <= n,
                    forall|k: int|
                        0 <= k < i ==> !Self::spec_fits(
                            #[trigger] self.bins_view()[bin as int][k],
                            layout,
                        ),
                decreases n - i,
            {
                let e = self.bins[bin][i];
                proof {
                    assert(e == self.bins_view()[bin as int][i as int]);
                    assert(self.entry_wf(self.bins_view()[bin as int][i as int]));
                }
                if e.size >= required {
                    if layout.align <= ALIGN {
                        self.deregister_at(bin, i);
                        proof {
                            lemma_small_pow2_divides(layout.align, (e.base + TAG_SIZE) as int);
                        }
                        return Some((e.base, e.base + e.size, e.base + TAG_SIZE));
                    } else {
                        match align_up_by(e.base + TAG_SIZE, layout.align) {
                            Some(ap) => {
                                if ap <= usize::MAX - layout.size && ap + layout.size <= e.base
                                    + e.size {
                                    self.deregister_at(bin, i);
                                    proof {
                                        lemma_big_pow2_mod8(layout.align);
                                        lemma_divides_trans(
                                            ap as int,
                                            layout.align as int,
                                            8,
                                        );
                                    }
                                    return Some((e.base, e.base + e.size, ap));
                                }
                            },
                            None => {},
                        }
                        proof {
                            assert(!Self::spec_fits(
                                self.bins_view()[bin as int][i as int],
                                layout,
                            ));
                        }
                    }
                }
                i = i + 1;
            }
            match self.next_bin(bin + 1) {
                Some(nb) => {
                    proof {
                        assert forall|b: int, i2: int|
                            0 <= b < nb && 0 <= i2 < self.bins_view()[b].len()
                                implies !Self::spec_fits(
                            #[trigger] self.bins_view()[b][i2],
                            layout,
                        ) by {
                            let e = self.bins_view()[b][i2];
                            assert(self.entry_wf(e));
                            if bin < b < nb {
                                assert(!self.spec_avail(b));
                                assert(self.bins_view()[b].len() == 0);
                            }
                        }
                    }
                    bin = nb;
                },
                None => {
                    proof {
                        assert forall|b: int, i2: int|
                            0 <= b < BIN_COUNT && 0 <= i2 < self.bins_view()[b].len()
                                implies !Self::spec_fits(
                            #[trigger] self.bins_view()[b][i2],
                            layout,
                        ) by {
                            let e = self.bins_view()[b][i2];
                            assert(self.entry_wf(e));
                            if b > bin {
                                assert(!self.spec_avail(b));
                                assert(self.bins_view()[b].len() == 0);
                            }
                        }
                    }
                    return None;
                },
            }
        }
    }
}

impl<H: OomHandler> Talc<H> {
    /// Allocate a block of `layout.size` bytes aligned to
    /// `layout.align`, invoking the out-of-memory handler when no
    /// recorded chunk fits.
    ///
    /// Succeeds whenever a recorded free chunk can serve the request;
    /// fails only when none can, even after the handler ran.
    #[verifier::spinoff_prover]
    #[verifier::rlimit(30)]
    pub fn malloc(&mut self, layout: Layout) -> (r: Result<usize, AllocError>)
        requires
            old(self).wf(),
            layout.wf(),
            1 <= layout.size,
            layout.size <= usize::MAX - 15,
        ensures
            final(self).wf(),
            old(self).mem@.len() <= final(self).mem@.len(),
            old(self).allocatable_acme <= final(self).allocatable_acme,
            match r {
                Ok(p) => p % 8 == 0 && p % layout.align == 0 && final(self).allocatable_base
                    + TAG_SIZE <= p && p + layout.size <= final(self).allocatable_acme,
                Err(_) => forall|b: int, i: int|
                    0 <= b < BIN_COUNT && 0 <= i < final(self).bins_view()[b].len()
                        ==> !Self::spec_fits(#[trigger] final(self).bins_view()[b][i], layout),
            },
            (exists|b: int, i: int|
                0 <= b < BIN_COUNT && 0 <= i < old(self).bins_view()[b].len()
                    && Self::spec_fits(#[trigger] old(self).bins_view()[b][i], layout))
                ==> r.is_ok(),
            !H::spec_may_supply() && (forall|b: int, i: int|
                0 <= b < BIN_COUNT && 0 <= i < old(self).bins_view()[b].len()
                    ==> !Self::spec_fits(#[trigger] old(self).bins_view()[b][i], layout))
                ==> r.is_err(),
            !H::spec_may_supply() && r.is_err() ==> *final(self) == *old(self),
            match r {
                Ok(p) => final(self).spec_decode_ok(p) && final(self).spec_decode_tagpos(p)
                    + TAG_SIZE <= p && p + layout.size <= final(self).spec_decode_acme(p),
                Err(_) => true,
            },
            (exists|b: int, i: int|
                0 <= b < BIN_COUNT && 0 <= i < old(self).bins_view()[b].len()
                    && Self::spec_fits(#[trigger] old(self).bins_view()[b][i], layout))
                ==> match r {
                Ok(p) => exists|cb: usize, sz: usize|
                    Self::spec_carved_from(*old(self), *final(self), cb, sz, p, layout.size),
                Err(_) => false,
            },
    {
        let mut found = self.get_sufficient_chunk(layout);
        let ghost first_found = found;
        proof {
            if found is Some {
                let (cb, ca, ab) = found->Some_0;
                assert(Self::spec_fits(
                    (BinEntry { base: cb, size: (ca - cb) as usize }),
                    layout,
                ));
            }
        }
        if found.is_none() {
            // the single out-of-memory retry: let the handler supply
            // more arena, then search once more
            match H::handle_oom(self, layout) {
                Ok(()) => {
                    found = self.get_sufficient_chunk(layout);
                },
                Err(_) => {
                    return Err(AllocError);
                },
            }
        }
        let (chunk_base, chunk_acme, alloc_base) = match found {
            Some(t) => t,
            None => {
                return Err(AllocError);
            },
        };
        let ghost pre_carve = *self;
        self.carve(chunk_base, chunk_acme, alloc_base, layout);
        proof {
            if exists|b: int, i: int|
                0 <= b < BIN_COUNT && 0 <= i < old(self).bins_view()[b].len() && Self::spec_fits(
                    #[trigger] old(self).bins_view()[b][i],
                    layout,
                ) {
                // a fitting record existed, so the first search found
                // one and the handler never ran
                assert(first_found is Some);
                assert(pre_carve.mem == old(self).mem);
                let sz = (chunk_acme - chunk_base) as usize;
                assert(Self::spec_carved_from(
                    *old(self),
                    *self,
                    chunk_base,
                    sz,
                    alloc_base,
                    layout.size,
                ));
            }
        }
        Ok(alloc_base)
    }
}

impl<H> Talc<H> {
    /// Split the taken chunk `[chunk_base, chunk_acme)` around the
    /// allocation at `alloc_base`: return slack at either end to the
    /// bins when it can stand as a chunk, and write the allocation's
    /// tag (and, when the tag cannot sit directly below the
    /// allocation, the word pointing at it).
    #[verifier::spinoff_prover]
    #[verifier::rlimit(75)]
    fn carve(&mut self, chunk_base: usize, chunk_acme: usize, alloc_base: usize, layout: Layout)
        requires
            old(self).wf(),
            layout.wf(),
            1 <= layout.size,
            layout.size <= usize::MAX - 15,
            chunk_acme - chunk_base >= Self::spec_required_chunk_size(layout.size as int),
            chunk_base % 8 == 0,
            chunk_acme % 8 == 0,
            old(self).allocatable_base <= chunk_base,
            chunk_acme <= old(self).allocatable_acme,
            chunk_base + TAG_SIZE <= alloc_base,
            alloc_base + layout.size <= chunk_acme,
            alloc_base % 8 == 0,
        ensures
            final(self).wf(),
            final(self).allocatable_base == old(self).allocatable_base,
            final(self).allocatable_acme == old(self).allocatable_acme,
            final(self).arena == old(self).arena,
            final(self).oom_handler == old(self).oom_handler,
            final(self).mem@.len() == old(self).mem@.len(),
            final(self).spec_decode_ok(alloc_base),
            final(self).spec_decode_tagpos(alloc_base) + TAG_SIZE <= alloc_base,
            alloc_base + layout.size <= final(self).spec_decode_acme(alloc_base),
            forall|j: int|
                0 <= j < old(self).mem@.len() && (8 * j + 8 <= chunk_base || chunk_acme + 8 <= 8
                    * j) ==> final(self).mem@[j] == old(self).mem@[j],
    {
        // the word below the allocation, where the tag is looked for
        let pre_alloc_ptr = align_down(alloc_base - TAG_SIZE);
        // the tag position, accounting for the minimum chunk size
        let mut tag_ptr = if chunk_acme - MIN_CHUNK_SIZE < pre_alloc_ptr {
            chunk_acme - MIN_CHUNK_SIZE
        } else {
            pre_alloc_ptr
        };
        proof {
            assert(pre_alloc_ptr == alloc_base - TAG_SIZE);
            assert(tag_ptr % 8 == 0);
            assert(chunk_base <= tag_ptr);
            assert(tag_ptr + MIN_CHUNK_SIZE <= chunk_acme);
        }

        let is_below_free = tag_ptr - chunk_base >= MIN_CHUNK_SIZE;
        if is_below_free {
            // the space below the allocation is a chunk of its own
            self.register(chunk_base, tag_ptr);
        } else {
            // too small to stand alone: absorb it into the allocation
            tag_ptr = chunk_base;
        }

        if tag_ptr != pre_alloc_ptr {
            // leave the real tag position where the tag is looked for
            let ghost before = *self;
            self.write_word(pre_alloc_ptr, tag_ptr as u64);
            proof {
                lemma_wf_frame(before, *self);
            }
        }

        // the acme the allocation needs, within the chunk
        let req_acme_0 = match align_up_by(alloc_base + layout.size, ALIGN) {
            Some(v) => v,
            None => {
                proof {
                    lemma_align_up_least((alloc_base + layout.size) as int, 8, chunk_acme as int);
                }
                chunk_acme
            },
        };
        proof {
            lemma_align_up_least((alloc_base + layout.size) as int, 8, chunk_acme as int);
        }
        let req_acme = if req_acme_0 > tag_ptr + MIN_CHUNK_SIZE {
            req_acme_0
        } else {
            tag_ptr + MIN_CHUNK_SIZE
        };

        let new_acme = if chunk_acme - req_acme >= MIN_CHUNK_SIZE {
            // the space above the allocation is a chunk of its own
            self.register(req_acme, chunk_acme);
            req_acme
        } else {
            self.clear_below_free(chunk_acme);
            chunk_acme
        };
        self.write_alloc_tag(tag_ptr, pre_alloc_ptr, new_acme, is_below_free, alloc_base);
        proof {
            let cb = chunk_base as int;
            let ca = chunk_acme as int;
            let tp = tag_ptr as int;
            let pa = pre_alloc_ptr as int;
            lemma_div8_exact(cb);
            lemma_div8_exact(ca);
            lemma_div8_exact(tp);
            lemma_div8_exact(pa);
            lemma_div8_exact(req_acme as int);
            // every word below the carved chunk or past its end is
            // untouched
            assert forall|j: int|
                0 <= j < old(self).mem@.len() && (8 * j + 8 <= chunk_base || chunk_acme + 8 <= 8
                    * j) implies self.mem@[j] == old(self).mem@[j] by {
                lemma_index_outside(j, cb, cb, ca);
                lemma_index_outside(j, tp, cb, ca);
                lemma_index_outside(j, pa, cb, ca);
                lemma_index_outside(j, ca, cb, ca);
                if is_below_free {
                    lemma_index_outside(j, cb + 16, cb, ca);
                    lemma_index_outside(j, tp - 8, cb, ca);
                }
                if ca - req_acme >= MIN_CHUNK_SIZE {
                    lemma_index_outside(j, req_acme as int, cb, ca);
                    lemma_index_outside(j, req_acme as int + 16, cb, ca);
                    lemma_index_outside(j, ca - 8, cb, ca);
                }
            }
        }
    }

    /// Write the allocation's tag at `tag_ptr`, ending at `new_acme`
    /// and recording whether the chunk below is free; afterwards the
    /// metadata behind `alloc_base` decodes to exactly this chunk.
    #[verifier::spinoff_prover]
    #[verifier::rlimit(50)]
    fn write_alloc_tag(
        &mut self,
        tag_ptr: usize,
        pre_alloc_ptr: usize,
        new_acme: usize,
        is_below_free: bool,
        alloc_base: usize,
    )
        requires
            old(self).wf(),
            tag_ptr % 8 == 0,
            new_acme % 8 == 0,
            alloc_base % 8 == 0,
            old(self).allocatable_base <= tag_ptr,
            tag_ptr + MIN_CHUNK_SIZE <= new_acme,
            new_acme <= old(self).allocatable_acme,
            pre_alloc_ptr == alloc_base - TAG_SIZE,
            tag_ptr + TAG_SIZE <= alloc_base,
            alloc_base <= new_acme,
            tag_ptr != pre_alloc_ptr ==> old(self).mem@[pre_alloc_ptr as int / 8] == (
            tag_ptr as u64),
        ensures
            final(self).wf(),
            final(self).mem@ == old(self).mem@.update(
                tag_ptr as int / 8,
                Tag::spec_tag_word(new_acme, is_below_free),
            ),
            final(self).mem@.len() == old(self).mem@.len(),
            final(self).bins == old(self).bins,
            final(self).availability_low == old(self).availability_low,
            final(self).availability_high == old(self).availability_high,
            Self::same_span_fields(*final(self), *old(self)),
            final(self).oom_handler == old(self).oom_handler,
            final(self).spec_decode_ok(alloc_base),
            final(self).spec_decode_tagpos(alloc_base) == tag_ptr,
            final(self).spec_decode_acme(alloc_base) == new_acme,
            final(self).spec_decode_below_free(alloc_base) == is_below_free,
    {
        let ghost before_tag = *self;
        let tag = Tag::new(new_acme, is_below_free);
        self.write_word(tag_ptr, tag.word);
        proof {
            lemma_wf_frame(before_tag, *self);
            let p = alloc_base as int;
            let tp = tag_ptr as int;
            let pa = pre_alloc_ptr as int;
            let na = new_acme as int;
            lemma_div8_exact(tp);
            lemma_div8_exact(pa);
            if tag_ptr != pre_alloc_ptr {
                lemma_aligned_gap(tp, pa);
                let tu = tag_ptr as u64;
                assert(tu % 8 == 0 ==> tu & 1 == 0) by (bit_vector);
                assert(self.mem@[pa / 8] == (tag_ptr as u64));
            }
            assert(self.mem@[tp / 8] == tag.word);
            assert((tag.word & crate::tag::TAG_ACME_MASK) as int == na);
            assert(self.spec_decode_tagpos(alloc_base) == tp);
            assert(self.spec_decode_tag(alloc_base) == tag.word);
            assert(self.spec_decode_acme(alloc_base) == na);
            assert(self.spec_decode_ok(alloc_base));
        }
    }
}


impl<H> Talc<H> {
    /// After a free, `[fb, fa)` is the recombined chunk: it covers the
    /// freed chunk `[cb, ca)`, lies word-aligned in the allocatable
    /// span, stands last in the bin of its size, and carries its size
    /// in both boundary words.
    pub open spec fn spec_freed_chunk_ok(
        pre: Talc<H>,
        post: Talc<H>,
        cb: int,
        ca: int,
        fb: int,
        fa: int,
    ) -> bool {
        &&& fb <= cb
        &&& ca <= fa
        &&& fb % 8 == 0
        &&& fa % 8 == 0
        &&& fa - fb >= MIN_CHUNK_SIZE
        &&& pre.allocatable_base <= fb
        &&& fa <= pre.allocatable_acme
        &&& post.bins_view()[spec_bin_of_size(fa - fb)].len() > 0
        &&& post.bins_view()[spec_bin_of_size(fa - fb)].last() == (BinEntry {
            base: fb as usize,
            size: (fa - fb) as usize,
        })
        &&& post.mem@[fb / 8 + 2] == (fa - fb) as u64
        &&& post.mem@[fa / 8 - 1] == (fa - fb) as u64
    }

    /// The word stored at byte address `addr`.
    pub open spec fn spec_word_at(self, addr: int) -> u64 {
        self.mem@[addr / 8]
    }

    /// The tag position recovered from the user pointer `p`: the word
    /// below `p` when it is itself a tag, else the address it holds.
    pub open spec fn spec_decode_tagpos(self, p: usize) -> int {
        let w = self.spec_word_at(p - TAG_SIZE);
        if w & 1 == 1 {
            p - TAG_SIZE
        } else {
            (w as usize) as int
        }
    }

    /// The tag word of the chunk behind the user pointer `p`.
    pub open spec fn spec_decode_tag(self, p: usize) -> u64 {
        self.spec_word_at(self.spec_decode_tagpos(p))
    }

    /// The acme of the chunk behind the user pointer `p`.
    pub open spec fn spec_decode_acme(self, p: usize) -> int {
        ((self.spec_decode_tag(p) & crate::tag::TAG_ACME_MASK) as usize) as int
    }

    /// Whether the chunk below the one behind `p` is marked free.
    pub open spec fn spec_decode_below_free(self, p: usize) -> bool {
        self.spec_decode_tag(p) & 2 == 2
    }

    /// Whether the metadata reachable from the user pointer `p` decodes
    /// as a well-formed allocated chunk within the allocatable span.
    pub open spec fn spec_decode_ok(self, p: usize) -> bool {
        &&& p % 8 == 0
        &&& p >= 2 * TAG_SIZE
        &&& self.allocatable_base + TAG_SIZE <= p
        &&& p <= self.allocatable_acme
        &&& ({
            let w = self.spec_word_at(p - TAG_SIZE);
            w & 1 == 1 || {
                let t = w as usize;
                &&& w <= usize::MAX as u64
                &&& t % 8 == 0
                &&& self.allocatable_base <= t
                &&& t + 2 * TAG_SIZE <= p
                &&& self.spec_word_at(t as int) & 1 == 1
            }
        })
        &&& (self.spec_decode_tag(p) & crate::tag::TAG_ACME_MASK) <= usize::MAX as u64
        &&& self.spec_decode_acme(p) % 8 == 0
        &&& self.spec_decode_tagpos(p) + MIN_CHUNK_SIZE <= self.spec_decode_acme(p)
        &&& p <= self.spec_decode_acme(p)
        &&& self.spec_decode_acme(p) <= self.allocatable_acme
    }

    /// Recover `(chunk_base, chunk_acme, tag word)` from a user
    /// pointer, validating every step of the tag-indirection rule;
    /// `None` when the metadata does not decode.
    fn decode_alloc(&self, p: usize) -> (r: Option<(usize, usize, u64)>)
        requires
            self.wf(),
        ensures
            r.is_some() == self.spec_decode_ok(p),
            match r {
                Some((cb, ca, w)) => {
                    &&& cb == self.spec_decode_tagpos(p)
                    &&& ca == self.spec_decode_acme(p)
                    &&& w == self.spec_decode_tag(p)
                    &&& w & 1 == 1
                    &&& cb % 8 == 0
                    &&& ca % 8 == 0
                    &&& self.allocatable_base <= cb
                    &&& cb + MIN_CHUNK_SIZE <= ca
                    &&& cb + TAG_SIZE <= p
                    &&& p <= ca
                    &&& ca <= self.allocatable_acme
                },
                None => true,
            },
    {
        if !(p % 8 == 0 && p >= 2 * TAG_SIZE && p - TAG_SIZE >= self.allocatable_base && p
            <= self.allocatable_acme) {
            return None;
        }
        let w = self.read_word(p - TAG_SIZE);
        let (tagpos, tw) = if w & 1 == 1 {
            (p - TAG_SIZE, w)
        } else {
            if w > usize::MAX as u64 {
                return None;
            }
            let t = w as usize;
            if !(t % 8 == 0 && t >= self.allocatable_base && t <= p - 2 * TAG_SIZE) {
                proof {
                    assert((w as usize) as u64 == w || w > usize::MAX as u64);
                }
                return None;
            }
            let t_word = self.read_word(t);
            if t_word & 1 != 1 {
                return None;
            }
            (t, t_word)
        };
        if tw & crate::tag::TAG_ACME_MASK > usize::MAX as u64 {
            return None;
        }
        let tag = Tag { word: tw };
        let ca = tag.acme();
        if !(ca % 8 == 0 && ca >= MIN_CHUNK_SIZE && tagpos <= ca - MIN_CHUNK_SIZE && p <= ca && ca
            <= self.allocatable_acme) {
            return None;
        }
        Some((tagpos, ca, tw))
    }

    /// Removing one occurrence of a value keeps every other value's
    /// membership, in both directions.
    proof fn lemma_entry_exists_iff_after_remove(s: Seq<BinEntry>, i: int, e: BinEntry)
        requires
            0 <= i < s.len(),
            s[i] != e,
        ensures
            (exists|j: int| 0 <= j < s.remove(i).len() && s.remove(i)[j] == e) == (exists|j: int|
                0 <= j < s.len() && s[j] == e),
    {
        s.remove_ensures(i);
        if exists|j: int| 0 <= j < s.len() && s[j] == e {
            let j = choose|j: int| 0 <= j < s.len() && s[j] == e;
            if j < i {
                assert(s.remove(i)[j] == e);
            } else {
                assert(s.remove(i)[j - 1] == e);
            }
        }
        if exists|j: int| 0 <= j < s.remove(i).len() && s.remove(i)[j] == e {
            let j = choose|j: int| 0 <= j < s.remove(i).len() && s.remove(i)[j] == e;
            if j < i {
                assert(s[j] == e);
            } else {
                assert(s[j + 1] == e);
            }
        }
    }

    /// Absorb the free neighbour above `chunk_acme` when there is one,
    /// mark the allocated neighbour above as over free space, or raise
    /// the top-free flag when `chunk_acme` ends the allocatable span.
    /// Returns the acme of the merged region.
    #[verifier::spinoff_prover]
    #[verifier::rlimit(30)]
    fn merge_up(&mut self, chunk_acme: usize) -> (r: usize)
        requires
            old(self).wf(),
            chunk_acme % 8 == 0,
            old(self).allocatable_base <= chunk_acme,
            chunk_acme <= old(self).allocatable_acme,
        ensures
            final(self).wf(),
            chunk_acme <= r,
            r % 8 == 0,
            r <= final(self).allocatable_acme,
            final(self).arena == old(self).arena,
            final(self).allocatable_base == old(self).allocatable_base,
            final(self).allocatable_acme == old(self).allocatable_acme,
            final(self).oom_handler == old(self).oom_handler,
            final(self).mem@.len() == old(self).mem@.len(),
            chunk_acme == old(self).allocatable_acme ==> final(self).is_top_free && final(self).mem == old(self).mem && r == chunk_acme,
            chunk_acme < old(self).allocatable_acme && old(self).spec_word_at(
                chunk_acme as int,
            ) & 1 == 1 ==> final(self).mem@ == old(self).mem@.update(
                chunk_acme as int / 8,
                old(self).spec_word_at(chunk_acme as int) | 2,
            ) && r == chunk_acme,
            chunk_acme < old(self).allocatable_acme && old(self).spec_word_at(
                chunk_acme as int,
            ) & 1 != 1 ==> final(self).mem == old(self).mem,
            r == old(self).spec_free_acme(chunk_acme as int),
            old(self).spec_above_free_ok(chunk_acme as int) ==> ({
                let s = old(self).spec_above_free_size(chunk_acme as int);
                let b = spec_bin_of_size(s);
                (exists|i: int|
                    0 <= i < old(self).bins_view()[b].len() && old(self).bins_view()[b][i] == (
                    BinEntry { base: chunk_acme, size: s as usize }) && final(self).bins_view()[b] == old(self).bins_view()[b].remove(i)) && forall|j: int|
                    0 <= j < BIN_COUNT && j != b ==> final(self).bins_view()[j] == old(self).bins_view()[j]
            }),
            !old(self).spec_above_free_ok(chunk_acme as int) ==> final(self).bins == old(self).bins,
    {
        if chunk_acme != self.allocatable_acme {
            proof {
                lemma_aligned_gap(chunk_acme as int, self.allocatable_acme as int);
            }
            let w = self.read_word(chunk_acme);
            if w & 1 == 1 {
                let ghost before = *self;
                self.write_word(chunk_acme, (Tag { word: w }).with_below_free_set().word);
                proof {
                    lemma_wf_frame(before, *self);
                }
                chunk_acme
            } else {
                let mut r = chunk_acme;
                if self.allocatable_acme - chunk_acme >= MIN_CHUNK_SIZE {
                    let s64 = self.read_word(chunk_acme + (MIN_CHUNK_SIZE - TAG_SIZE));
                    if s64 <= usize::MAX as u64 {
                        let s = s64 as usize;
                        if s % 8 == 0 && s >= MIN_CHUNK_SIZE && s <= self.allocatable_acme
                            - chunk_acme {
                            if self.deregister_chunk(chunk_acme, s) {
                                r = chunk_acme + s;
                            }
                        }
                    }
                }
                r
            }
        } else {
            self.is_top_free = true;
            proof {
                lemma_wf_frame(*old(self), *self);
            }
            chunk_acme
        }
    }

    /// Absorb the free chunk recorded below `chunk_base` when `below`
    /// says one is there. Returns the base of the merged region.
    #[verifier::spinoff_prover]
    #[verifier::rlimit(30)]
    fn merge_down(&mut self, chunk_base: usize, below: bool) -> (r: usize)
        requires
            old(self).wf(),
            chunk_base % 8 == 0,
            old(self).allocatable_base <= chunk_base,
            chunk_base <= old(self).allocatable_acme,
        ensures
            final(self).wf(),
            r <= chunk_base,
            r % 8 == 0,
            final(self).allocatable_base <= r,
            final(self).mem == old(self).mem,
            Self::same_span_fields(*final(self), *old(self)),
            final(self).oom_handler == old(self).oom_handler,
            r == old(self).spec_free_base(chunk_base as int, below),
            !(below && old(self).spec_below_free_ok(chunk_base as int)) ==> *final(self) == *old(self),
            below && old(self).spec_below_free_ok(chunk_base as int) ==> ({
                let s = old(self).spec_below_free_size(chunk_base as int);
                let b = spec_bin_of_size(s);
                (exists|i: int|
                    0 <= i < old(self).bins_view()[b].len() && old(self).bins_view()[b][i] == (
                    BinEntry { base: (chunk_base - s) as usize, size: s as usize }) && final(self).bins_view()[b] == old(self).bins_view()[b].remove(i)) && forall|j: int|
                    0 <= j < BIN_COUNT && j != b ==> final(self).bins_view()[j] == old(self).bins_view()[j]
            }),
    {
        let mut r = chunk_base;
        if below {
            if chunk_base >= TAG_SIZE && chunk_base - self.allocatable_base >= MIN_CHUNK_SIZE {
                let s64 = self.read_word(chunk_base - TAG_SIZE);
                if s64 <= usize::MAX as u64 {
                    let s = s64 as usize;
                    if s % 8 == 0 && s >= MIN_CHUNK_SIZE && s <= chunk_base
                        - self.allocatable_base {
                        if self.deregister_chunk(chunk_base - s, s) {
                            r = chunk_base - s;
                        }
                    }
                }
            }
        }
        r
    }

    /// Return the chunk behind `ptr` to the free lists, merging it with
    /// a free neighbour on either side, marking the neighbour above as
    /// over free space when it stays allocated, and raising the
    /// top-free flag when the chunk ends the allocatable span.
    ///
    /// A pointer whose metadata does not decode leaves the heap
    /// unchanged.
    #[verifier::spinoff_prover]
    #[verifier::rlimit(30)]
    pub fn free(&mut self, ptr: usize, _layout: Layout)
        requires
            old(self).wf(),
        ensures
            final(self).wf(),
            final(self).arena == old(self).arena,
            final(self).allocatable_base == old(self).allocatable_base,
            final(self).allocatable_acme == old(self).allocatable_acme,
            final(self).oom_handler == old(self).oom_handler,
            final(self).mem@.len() == old(self).mem@.len(),
            !old(self).spec_decode_ok(ptr) ==> *final(self) == *old(self),
            old(self).spec_decode_ok(ptr) ==> ({
                let cb = old(self).spec_decode_tagpos(ptr);
                let ca = old(self).spec_decode_acme(ptr);
                let fb = old(self).spec_free_base(cb, old(self).spec_decode_below_free(ptr));
                let fa = old(self).spec_free_acme(ca);
                &&& (ca == old(self).allocatable_acme ==> final(self).is_top_free)
                &&& (ca < old(self).allocatable_acme && old(self).spec_word_at(ca) & 1 == 1
                    ==> final(self).mem@[ca / 8] == (old(self).spec_word_at(ca) | 2))
                &&& Self::spec_freed_chunk_ok(*old(self), *final(self), cb, ca, fb, fa)
                &&& forall|j: int|
                    0 <= j < old(self).mem@.len() && j != fb / 8 && j != fb / 8 + 2 && j != fa
                        / 8 - 1 && j != ca / 8 ==> final(self).mem@[j] == old(self).mem@[j]
            }),
    {
        let d = self.decode_alloc(ptr);
        let (orig_base, orig_acme, tw) = match d {
            Some(t) => t,
            None => {
                return ;
            },
        };
        let tag = Tag { word: tw };
        let ghost pre = *self;
        let chunk_acme = self.merge_up(orig_acme);
        let ghost mid = *self;
        proof {
            // the metadata of a chunk below is untouched by the merge
            // above, so the below-chunk test reads the same state
            let cb = orig_base as int;
            let ca = orig_acme as int;
            lemma_div8_exact(cb - 8);
            lemma_div8_exact(ca);
            assert((cb - 8) / 8 < ca / 8) by (nonlinear_arith)
                requires
                    8 * ((cb - 8) as int / 8) == cb - 8,
                    8 * (ca / 8) == ca,
                    cb + 24 <= ca,
            ;
            assert(mid.spec_word_at(cb - 8) == pre.spec_word_at(cb - 8));
            assert(mid.spec_below_free_size(cb) == pre.spec_below_free_size(cb));
            let s_b = pre.spec_below_free_size(cb);
            let e = BinEntry { base: (cb - s_b) as usize, size: s_b as usize };
            if pre.spec_above_free_ok(ca) && MIN_CHUNK_SIZE <= s_b <= cb {
                let s_a = pre.spec_above_free_size(ca);
                let b_a = spec_bin_of_size(s_a);
                crate::bins::lemma_bin_of_size_range(s_b);
                crate::bins::lemma_bin_of_size_range(s_a);
                let i_a = choose|i: int|
                    0 <= i < pre.bins_view()[b_a].len() && pre.bins_view()[b_a][i] == (BinEntry {
                        base: orig_acme,
                        size: s_a as usize,
                    }) && mid.bins_view()[b_a] == pre.bins_view()[b_a].remove(i);
                assert(pre.bins_view()[b_a][i_a] != e);
                if spec_bin_of_size(s_b) == b_a {
                    Self::lemma_entry_exists_iff_after_remove(pre.bins_view()[b_a], i_a, e);
                } else {
                    assert(mid.bins_view()[spec_bin_of_size(s_b)] == pre.bins_view()[
                        spec_bin_of_size(s_b)]);
                }
            }
            assert(mid.spec_below_free_ok(cb) == pre.spec_below_free_ok(cb));
        }
        let chunk_base = self.merge_down(orig_base, tag.is_below_free());
        proof {
            assert(chunk_base + MIN_CHUNK_SIZE <= chunk_acme);
            assert(chunk_base as int == pre.spec_free_base(
                orig_base as int,
                pre.spec_decode_below_free(ptr),
            ));
        }
        let ghost mid2 = *self;
        self.register(chunk_base, chunk_acme);
        proof {
            let cb = old(self).spec_decode_tagpos(ptr);
            let ca = old(self).spec_decode_acme(ptr);
            let fb = chunk_base as int;
            let fa = chunk_acme as int;
            if ca < old(self).allocatable_acme && old(self).spec_word_at(ca) & 1 == 1 {
                assert(fb + MIN_CHUNK_SIZE <= ca && ca == fa);
                assert(fb / 8 + 3 <= ca / 8 && ca / 8 <= fa / 8) by (nonlinear_arith)
                    requires
                        fb % 8 == 0,
                        ca % 8 == 0,
                        fa % 8 == 0,
                        fb + 24 <= ca,
                        ca <= fa,
                        fb >= 0;
            }
            assert(final(self).bins_view()[spec_bin_of_size(fa - fb)].last() == (BinEntry {
                base: fb as usize,
                size: (fa - fb) as usize,
            }));
            if old(self).spec_decode_ok(ptr) {
                assert(Self::spec_freed_chunk_ok(*old(self), *final(self), cb, ca, fb, fa));
                assert forall|j: int|
                    0 <= j < old(self).mem@.len() && j != fb / 8 && j != fb / 8 + 2 && j != fa / 8
                        - 1 && j != ca / 8 implies final(self).mem@[j] == old(self).mem@[j] by {
                    assert(mid2.mem@[j] == mid.mem@[j]);
                    assert(mid.mem@[j] == old(self).mem@[j]);
                }
            }
        }
    }
}


impl<H> Talc<H> {
    /// The size stored in the low boundary word of a free chunk that
    /// would start at `ca`.
    pub open spec fn spec_above_free_size(self, ca: int) -> int {
        (self.spec_word_at(ca + (MIN_CHUNK_SIZE - TAG_SIZE)) as usize) as int
    }

    /// Whether a well-formed recorded free chunk starts at `ca`: the
    /// word there is no tag, the stored size is sane, and the chunk is
    /// recorded in the bin of its size.
    pub open spec fn spec_above_free_ok(self, ca: int) -> bool {
        let s64 = self.spec_word_at(ca + (MIN_CHUNK_SIZE - TAG_SIZE));
        let s = s64 as usize;
        &&& ca < self.allocatable_acme
        &&& self.spec_word_at(ca) & 1 != 1
        &&& self.allocatable_acme - ca >= MIN_CHUNK_SIZE
        &&& s64 <= usize::MAX as u64
        &&& s % 8 == 0
        &&& s >= MIN_CHUNK_SIZE
        &&& s <= self.allocatable_acme - ca
        &&& exists|i: int|
            0 <= i < self.bins_view()[spec_bin_of_size(s as int)].len()
                && self.bins_view()[spec_bin_of_size(s as int)][i] == (BinEntry {
                base: ca as usize,
                size: s,
            })
    }

    /// The size stored in the high boundary word of a free chunk that
    /// would end at `cb`.
    pub open spec fn spec_below_free_size(self, cb: int) -> int {
        (self.spec_word_at(cb - TAG_SIZE) as usize) as int
    }

    /// Whether a well-formed recorded free chunk ends at `cb`: the
    /// high boundary word below holds a sane size and the chunk is
    /// recorded in the bin of that size.
    pub open spec fn spec_below_free_ok(self, cb: int) -> bool {
        let s64 = self.spec_word_at(cb - TAG_SIZE);
        let s = s64 as usize;
        &&& cb >= TAG_SIZE
        &&& cb - self.allocatable_base >= MIN_CHUNK_SIZE
        &&& s64 <= usize::MAX as u64
        &&& s % 8 == 0
        &&& s >= MIN_CHUNK_SIZE
        &&& s <= cb - self.allocatable_base
        &&& exists|i: int|
            0 <= i < self.bins_view()[spec_bin_of_size(s as int)].len()
                && self.bins_view()[spec_bin_of_size(s as int)][i] == (BinEntry {
                base: (cb - s) as usize,
                size: s,
            })
    }

    /// The acme a freed chunk ending at `ca` grows to: the free
    /// neighbour above is absorbed when its metadata checks out.
    pub open spec fn spec_free_acme(self, ca: int) -> int {
        if self.spec_above_free_ok(ca) {
            ca + self.spec_above_free_size(ca)
        } else {
            ca
        }
    }

    /// The base a freed chunk starting at `cb` grows down to: the free
    /// neighbour below is absorbed when its tag said one is there and
    /// its metadata checks out.
    pub open spec fn spec_free_base(self, cb: int, below: bool) -> int {
        if below && self.spec_below_free_ok(cb) {
            cb - self.spec_below_free_size(cb)
        } else {
            cb
        }
    }

    /// The chunk acme a resized allocation at `ptr` requires: the end
    /// of its payload rounded up to the word alignment, never below
    /// the minimum chunk size above the chunk's base.
    pub open spec fn spec_new_req_acme(self, ptr: usize, new_size: usize) -> int {
        let cb = self.spec_decode_tagpos(ptr);
        let req0 = spec_align_up(ptr + new_size, 8);
        if req0 > cb + MIN_CHUNK_SIZE {
            req0
        } else {
            cb + MIN_CHUNK_SIZE
        }
    }

    /// Whether shrinking the allocation at `ptr` to `new_size` bytes
    /// carves a free tail: the pointer decodes, the chunk covers the
    /// old payload, and the slack above the shrunk payload can stand
    /// as a chunk.
    pub open spec fn spec_shrink_carves(self, ptr: usize, new_size: usize) -> bool {
        let ca = self.spec_decode_acme(ptr);
        let nr = self.spec_new_req_acme(ptr, new_size);
        &&& self.spec_decode_ok(ptr)
        &&& new_size <= ca - ptr
        &&& nr <= ca
        &&& ca - nr >= MIN_CHUNK_SIZE
    }

    /// Whether growing the allocation at `ptr` to `new_size` bytes can
    /// be done in place: the chunk already reaches the required acme,
    /// or the word above it is a recorded free chunk whose acme does.
    pub open spec fn spec_grow_in_place_ok(self, ptr: usize, new_size: usize) -> bool {
        let ca = self.spec_decode_acme(ptr);
        let nr = self.spec_new_req_acme(ptr, new_size);
        &&& self.spec_decode_ok(ptr)
        &&& (nr <= ca || (self.spec_above_free_ok(ca) && ca + self.spec_above_free_size(ca)
            >= nr))
    }

    /// Shrink the allocation at `ptr` to `new_size` bytes, in place and
    /// infallibly: when the slack above the shrunk allocation can stand
    /// as a chunk it is freed (merged with a free neighbour above), and
    /// the tag moves down; otherwise nothing changes.
    ///
    /// The first `new_size` bytes behind `ptr` are never touched. A
    /// pointer whose metadata does not decode leaves the heap
    /// unchanged.
    #[verifier::spinoff_prover]
    #[verifier::rlimit(30)]
    pub fn shrink(&mut self, ptr: usize, layout: Layout, new_size: usize)
        requires
            old(self).wf(),
            1 <= new_size,
            new_size <= layout.size,
        ensures
            final(self).wf(),
            final(self).arena == old(self).arena,
            final(self).allocatable_base == old(self).allocatable_base,
            final(self).allocatable_acme == old(self).allocatable_acme,
            final(self).oom_handler == old(self).oom_handler,
            final(self).mem@.len() == old(self).mem@.len(),
            !old(self).spec_decode_ok(ptr) ==> *final(self) == *old(self),
            old(self).spec_decode_ok(ptr) && !old(self).spec_shrink_carves(ptr, new_size)
                ==> *final(self) == *old(self),
            old(self).spec_shrink_carves(ptr, new_size) ==> ({
                let cb = old(self).spec_decode_tagpos(ptr);
                let ca = old(self).spec_decode_acme(ptr);
                let nr = old(self).spec_new_req_acme(ptr, new_size);
                let fa = old(self).spec_free_acme(ca);
                &&& (Tag { word: final(self).mem@[cb / 8] }).spec_is_allocated()
                &&& (Tag { word: final(self).mem@[cb / 8] }).spec_acme() == nr
                &&& (Tag { word: final(self).mem@[cb / 8] }).spec_is_below_free() == (Tag {
                    word: old(self).spec_decode_tag(ptr),
                }).spec_is_below_free()
                &&& Self::spec_freed_chunk_ok(*old(self), *final(self), nr, ca, nr, fa)
                &&& forall|j: int|
                    0 <= j < old(self).mem@.len() && j != cb / 8 && j != nr / 8 && j != nr / 8
                        + 2 && j != fa / 8 - 1 && j != ca / 8 ==> final(self).mem@[j] == old(self).mem@[j]
            }),
            forall|j: int|
                ptr <= 8 * j && 8 * j < ptr + new_size && 0 <= j < old(self).mem@.len()
                    ==> final(self).mem@[j] == old(self).mem@[j],
    {
        let d = self.decode_alloc(ptr);
        let (chunk_base, chunk_acme, tw) = match d {
            Some(t) => t,
            None => {
                return ;
            },
        };
        if new_size > chunk_acme - ptr {
            // the allocation cannot be this large: leave it alone
            return ;
        }
        let req_acme_0 = match align_up_by(ptr + new_size, ALIGN) {
            Some(v) => v,
            None => {
                proof {
                    lemma_align_up_least((ptr + new_size) as int, 8, chunk_acme as int);
                }
                chunk_acme
            },
        };
        proof {
            lemma_align_up_least((ptr + new_size) as int, 8, chunk_acme as int);
        }
        let new_req_acme = if req_acme_0 > chunk_base + MIN_CHUNK_SIZE {
            req_acme_0
        } else {
            chunk_base + MIN_CHUNK_SIZE
        };
        if new_req_acme <= chunk_acme && chunk_acme - new_req_acme >= MIN_CHUNK_SIZE {
            let top = self.merge_up(chunk_acme);
            self.register(new_req_acme, top);
            let ghost before = *self;
            self.write_word(
                chunk_base,
                (Tag { word: tw }).with_acme(new_req_acme).word,
            );
            proof {
                lemma_wf_frame(before, *self);
                let nr = new_req_acme as int;
                let fa = top as int;
                assert(chunk_base as int / 8 + 3 <= nr / 8 && nr / 8 + 2 <= fa / 8 - 1)
                    by (nonlinear_arith)
                    requires
                        chunk_base % 8 == 0,
                        new_req_acme % 8 == 0,
                        top % 8 == 0,
                        chunk_base + 24 <= new_req_acme,
                        new_req_acme + 24 <= top,
                        chunk_base >= 0,
                        nr == new_req_acme as int,
                        fa == top as int,
                ;
                assert(Self::spec_freed_chunk_ok(*old(self), *final(self), nr, chunk_acme as int, nr, fa));
            }
        }
    }
}

impl<H: OomHandler> Talc<H> {
    /// Take over the space up to `above_acme`, just absorbed from the
    /// free neighbour above: return the slack beyond `new_req_acme` to
    /// the bins when it can stand as a chunk, and move the tag at
    /// `chunk_base` up accordingly.
    #[verifier::spinoff_prover]
    #[verifier::rlimit(40)]
    fn extend_into_above(&mut self, chunk_base: usize, tw: u64, new_req_acme: usize, above_acme: usize)
        requires
            old(self).wf(),
            chunk_base % 8 == 0,
            new_req_acme % 8 == 0,
            above_acme % 8 == 0,
            tw & 1 == 1,
            old(self).allocatable_base <= chunk_base,
            chunk_base < new_req_acme,
            new_req_acme <= above_acme,
            above_acme <= old(self).allocatable_acme,
        ensures
            final(self).wf(),
            final(self).arena == old(self).arena,
            final(self).allocatable_base == old(self).allocatable_base,
            final(self).allocatable_acme == old(self).allocatable_acme,
            final(self).oom_handler == old(self).oom_handler,
            final(self).mem@.len() == old(self).mem@.len(),
            (Tag { word: final(self).mem@[chunk_base as int / 8] }).spec_is_allocated(),
            (Tag { word: final(self).mem@[chunk_base as int / 8] }).spec_acme() >= new_req_acme,
            forall|j: int|
                0 <= j < old(self).mem@.len() && chunk_base as int / 8 < j && 8 * j + 8
                    <= new_req_acme ==> final(self).mem@[j] == old(self).mem@[j],
    {
        proof {
            lemma_div8_exact(chunk_base as int);
            lemma_div8_exact(new_req_acme as int);
            lemma_div8_exact(above_acme as int);
        }
        if above_acme - new_req_acme >= MIN_CHUNK_SIZE {
            self.register(new_req_acme, above_acme);
            let ghost before = *self;
            self.write_word(chunk_base, (Tag { word: tw }).with_acme(new_req_acme).word);
            proof {
                lemma_wf_frame(before, *self);
            }
        } else {
            self.clear_below_free(above_acme);
            let ghost before = *self;
            self.write_word(chunk_base, (Tag { word: tw }).with_acme(above_acme).word);
            proof {
                lemma_wf_frame(before, *self);
            }
        }
    }

    /// Grow the allocation at `ptr` to `new_size` bytes: in place when
    /// the chunk already suffices or its neighbour above is a large
    /// enough free chunk, else by allocating anew, copying the payload
    /// and freeing the old chunk.
    ///
    /// A pointer whose metadata does not decode fails and leaves the
    /// heap unchanged.
    #[verifier::spinoff_prover]
    #[verifier::rlimit(100)]
    pub fn grow(&mut self, ptr: usize, layout: Layout, new_size: usize) -> (r: Result<
        usize,
        AllocError,
    >)
        requires
            old(self).wf(),
            layout.wf(),
            1 <= layout.size,
            layout.size <= new_size,
            new_size <= usize::MAX - 15,
        ensures
            final(self).wf(),
            !old(self).spec_decode_ok(ptr) ==> *final(self) == *old(self) && r.is_err(),
            match r {
                Ok(q) => q % 8 == 0 && q + new_size <= final(self).allocatable_acme,
                Err(_) => true,
            },
            old(self).spec_decode_ok(ptr) && spec_align_up(ptr + new_size, 8) <= old(self).spec_decode_acme(ptr) ==> *final(self) == *old(self) && r == Ok::<
                usize,
                AllocError,
            >(ptr),
            !H::spec_may_supply() && r.is_err() ==> *final(self) == *old(self),
            old(self).spec_grow_in_place_ok(ptr, new_size) ==> r == Ok::<usize, AllocError>(ptr)
                && forall|j: int|
                ptr <= 8 * j && 8 * j < ptr + layout.size && 0 <= j < old(self).mem@.len()
                    ==> final(self).mem@[j] == old(self).mem@[j],
            old(self).spec_decode_ok(ptr) && (exists|b: int, i: int|
                0 <= b < BIN_COUNT && 0 <= i < old(self).bins_view()[b].len() && Self::spec_fits(
                    #[trigger] old(self).bins_view()[b][i],
                    (Layout { size: new_size, align: layout.align }),
                )) ==> r.is_ok(),
            r.is_err() && old(self).spec_decode_ok(ptr) ==> forall|b: int, i: int|
                0 <= b < BIN_COUNT && 0 <= i < final(self).bins_view()[b].len()
                    ==> !Self::spec_fits(
                    #[trigger] final(self).bins_view()[b][i],
                    (Layout { size: new_size, align: layout.align }),
                ),
    {
        let d = self.decode_alloc(ptr);
        let (chunk_base, chunk_acme, tw) = match d {
            Some(t) => t,
            None => {
                return Err(AllocError);
            },
        };
        let req_acme_0 = if ptr <= usize::MAX - new_size {
            match align_up_by(ptr + new_size, ALIGN) {
                Some(v) => v,
                None => usize::MAX,
            }
        } else {
            usize::MAX
        };
        let new_req_acme = if req_acme_0 > chunk_base + MIN_CHUNK_SIZE {
            req_acme_0
        } else {
            chunk_base + MIN_CHUNK_SIZE
        };

        // the chunk may already be large enough
        if new_req_acme <= chunk_acme {
            return Ok(ptr);
        }

        // try to extend over a free neighbour above
        if ptr <= usize::MAX - new_size && chunk_acme != self.allocatable_acme {
            proof {
                lemma_aligned_gap(chunk_acme as int, self.allocatable_acme as int);
            }
            let w = self.read_word(chunk_acme);
            if w & 1 != 1 && self.allocatable_acme - chunk_acme >= MIN_CHUNK_SIZE {
                let s64 = self.read_word(chunk_acme + (MIN_CHUNK_SIZE - TAG_SIZE));
                if s64 <= usize::MAX as u64 {
                    let s = s64 as usize;
                    if s % 8 == 0 && s >= MIN_CHUNK_SIZE && s <= self.allocatable_acme
                        - chunk_acme && chunk_acme + s >= new_req_acme {
                        if self.deregister_chunk(chunk_acme, s) {
                            self.extend_into_above(chunk_base, tw, new_req_acme, chunk_acme + s);
                            proof {
                                lemma_div8_exact(chunk_base as int);
                                assert forall|j: int|
                                    ptr <= 8 * j && 8 * j < ptr + layout.size && 0 <= j < old(
                                    self).mem@.len() implies self.mem@[j] == old(self).mem@[j] by {
                                    assert(chunk_base as int / 8 < j) by (nonlinear_arith)
                                        requires
                                            8 * (chunk_base as int / 8) == chunk_base,
                                            chunk_base + 8 <= ptr,
                                            ptr <= 8 * j,
                                    ;
                                    lemma_align_up((ptr + new_size) as int, 8);
                                    let au = spec_align_up((ptr + new_size) as int, 8);
                                    if 8 * j + 8 > au {
                                        lemma_aligned_gap(au, 8 * j + 8);
                                        assert(false);
                                    }
                                    assert(8 * j + 8 <= new_req_acme);
                                }
                            }
                            return Ok(ptr);
                        }
                    }
                }
            }
        }

        // reallocate, copy the payload, free the old chunk
        proof {
            assert(!old(self).spec_grow_in_place_ok(ptr, new_size));
        }
        self.grow_realloc(ptr, chunk_acme, layout, new_size)
    }

    /// Serve a growth that cannot happen in place: allocate a new
    /// block of `new_size` bytes, copy the payload words over, and
    /// free the old chunk.
    #[verifier::spinoff_prover]
    #[verifier::rlimit(50)]
    fn grow_realloc(&mut self, ptr: usize, chunk_acme: usize, layout: Layout, new_size: usize) -> (r: Result<
        usize,
        AllocError,
    >)
        requires
            old(self).wf(),
            layout.wf(),
            1 <= layout.size,
            layout.size <= new_size,
            new_size <= usize::MAX - 15,
            ptr % 8 == 0,
            chunk_acme % 8 == 0,
            ptr <= chunk_acme,
            chunk_acme <= old(self).allocatable_acme,
        ensures
            final(self).wf(),
            old(self).mem@.len() <= final(self).mem@.len(),
            old(self).allocatable_acme <= final(self).allocatable_acme,
            match r {
                Ok(q) => q % 8 == 0 && q + new_size <= final(self).allocatable_acme,
                Err(_) => true,
            },
            (exists|b: int, i: int|
                0 <= b < BIN_COUNT && 0 <= i < old(self).bins_view()[b].len() && Self::spec_fits(
                    #[trigger] old(self).bins_view()[b][i],
                    (Layout { size: new_size, align: layout.align }),
                )) ==> r.is_ok(),
            r.is_err() ==> forall|b: int, i: int|
                0 <= b < BIN_COUNT && 0 <= i < final(self).bins_view()[b].len()
                    ==> !Self::spec_fits(
                    #[trigger] final(self).bins_view()[b][i],
                    (Layout { size: new_size, align: layout.align }),
                ),
            !H::spec_may_supply() && r.is_err() ==> *final(self) == *old(self),
    {
        let new_layout = Layout { size: new_size, align: layout.align };
        let q = match self.malloc(new_layout) {
            Ok(q) => q,
            Err(e) => {
                return Err(e);
            },
        };
        let copy_bytes = if layout.size <= chunk_acme - ptr {
            layout.size
        } else {
            chunk_acme - ptr
        };
        let words = (copy_bytes + 7) / 8;
        let mut i: usize = 0;
        proof {
            lemma_align_up((q + new_size) as int, 8);
            lemma_align_up_least((q + new_size) as int, 8, self.allocatable_acme as int);
            assert(8 * ((copy_bytes + 7) as int / 8) <= copy_bytes + 7) by (nonlinear_arith);
            lemma_div8_exact((chunk_acme - ptr) as int);
            assert(ptr + 8 * (words as int) <= chunk_acme as int) by (nonlinear_arith)
                requires
                    8 * (words as int) <= copy_bytes + 7,
                    copy_bytes <= chunk_acme - ptr,
                    8 * ((chunk_acme - ptr) as int / 8) == chunk_acme - ptr,
            ;
            lemma_mul8_mod(q as int, words as int);
            let au = spec_align_up((q + new_size) as int, 8);
            assert(q + 8 * (words as int) <= q + new_size + 7);
            if q + 8 * (words as int) > au {
                lemma_aligned_gap(au, q + 8 * (words as int));
                assert(false);
            }
        }
        while i < words
            invariant
                self.wf(),
                i <= words,
                ptr % 8 == 0,
                q % 8 == 0,
                ptr + 8 * (words as int) <= chunk_acme,
                chunk_acme <= old(self).allocatable_acme,
                old(self).allocatable_acme <= self.allocatable_acme,
                old(self).allocatable_acme <= old(self).mem@.len() * 8,
                old(self).mem@.len() <= self.mem@.len(),
                q + 8 * (words as int) <= self.allocatable_acme,
                self.allocatable_acme <= self.mem@.len() * 8,
                q + new_size <= self.allocatable_acme,
            decreases words - i,
        {
            let v = self.read_word(ptr + 8 * i);
            let ghost before = *self;
            self.write_word(q + 8 * i, v);
            proof {
                lemma_wf_frame(before, *self);
            }
            i = i + 1;
        }
        self.free(ptr, layout);
        Ok(q)
    }
}


impl<H> Talc<H> {
    /// Grow the word vector until it covers `acme` bytes.
    fn reserve_words(&mut self, acme: usize)
        ensures
            final(self).mem@.len() * 8 >= acme,
            old(self).mem@.len() <= final(self).mem@.len(),
            forall|j: int|
                0 <= j < old(self).mem@.len() ==> final(self).mem@[j] == old(self).mem@[j],
            final(self).bins == old(self).bins,
            final(self).availability_low == old(self).availability_low,
            final(self).availability_high == old(self).availability_high,
            Self::same_span_fields(*final(self), *old(self)),
            final(self).oom_handler == old(self).oom_handler,
    {
        let target = acme / 8 + if acme % 8 != 0 {
            1
        } else {
            0
        };
        proof {
            crate::utils::lemma_div8_exact(0);
            vstd::arithmetic::div_mod::lemma_fundamental_div_mod(acme as int, 8);
        }
        while self.mem.len() < target
            invariant
                target * 8 >= acme,
                old(self).mem@.len() <= self.mem@.len(),
                forall|j: int|
                    0 <= j < old(self).mem@.len() ==> self.mem@[j] == old(self).mem@[j],
                self.bins == old(self).bins,
                self.availability_low == old(self).availability_low,
                self.availability_high == old(self).availability_high,
                Self::same_span_fields(*self, *old(self)),
                self.oom_handler == old(self).oom_handler,
            decreases target - self.mem@.len(),
        {
            self.mem.push(0);
        }
        proof {
            assert(self.mem@.len() * 8 >= target * 8) by (nonlinear_arith)
                requires self.mem@.len() >= target;
        }
    }

    /// The exact state a freshly initialized heap over `arena` is in:
    /// the allocatable span is the aligned interior of the arena, the
    /// header chunk's tag sits at its base, the sole recorded free
    /// chunk is the tail above the header (when it is large enough,
    /// with the top-free flag raised), and every other bin is empty.
    /// An arena too small for the header leaves the span empty.
    pub open spec fn spec_init_result(r: Talc<H>, arena: Span) -> bool {
        let al = arena.spec_word_align_inward();
        let ma = al.base + METADATA_CHUNK_SIZE;
        &&& r.arena == arena
        &&& if !al.spec_is_empty() && al.acme - al.base > METADATA_CHUNK_SIZE {
            &&& r.allocatable_base == al.base
            &&& r.allocatable_acme == al.acme
            &&& (Tag { word: r.mem@[al.base as int / 8] }).spec_is_allocated()
            &&& (Tag { word: r.mem@[al.base as int / 8] }).spec_acme() == ma
            &&& !(Tag { word: r.mem@[al.base as int / 8] }).spec_is_below_free()
            &&& if al.acme - ma >= MIN_CHUNK_SIZE {
                &&& r.is_top_free
                &&& r.bins_view()[spec_bin_of_size(al.acme - ma)].len() == 1
                &&& r.bins_view()[spec_bin_of_size(al.acme - ma)][0] == (BinEntry {
                    base: ma as usize,
                    size: (al.acme - ma) as usize,
                })
                &&& forall|b: int|
                    0 <= b < BIN_COUNT && b != spec_bin_of_size(al.acme - ma)
                        ==> r.bins_view()[b].len() == 0
                &&& r.mem@[ma / 8] == 0
                &&& r.mem@[ma / 8 + 2] == (al.acme - ma) as u64
                &&& r.mem@[al.acme as int / 8 - 1] == (al.acme - ma) as u64
            } else {
                &&& !r.is_top_free
                &&& forall|b: int| 0 <= b < BIN_COUNT ==> r.bins_view()[b].len() == 0
            }
        } else {
            &&& r.allocatable_base == 0
            &&& r.allocatable_acme == 0
            &&& !r.is_top_free
            &&& forall|b: int| 0 <= b < BIN_COUNT ==> r.bins_view()[b].len() == 0
        }
    }

    /// Initialize the heap over `arena`: carve the reserved header
    /// chunk at its aligned base and register everything above it as
    /// one free top chunk. An arena too small for the header leaves the
    /// allocatable span empty, and every allocation then fails over to
    /// the out-of-memory handler.
    #[verifier::spinoff_prover]
    #[verifier::rlimit(30)]
    pub fn init(&mut self, arena: Span)
        requires
            old(self).wf(),
            !arena.spec_contains(0),
        ensures
            final(self).wf(),
            final(self).oom_handler == old(self).oom_handler,
            old(self).mem@.len() <= final(self).mem@.len(),
            Self::spec_init_result(*final(self), arena),
            ({
                let al = arena.spec_word_align_inward();
                let ma = al.base + METADATA_CHUNK_SIZE;
                !(!al.spec_is_empty() && al.acme - al.base > METADATA_CHUNK_SIZE && al.acme - ma
                    < MIN_CHUNK_SIZE) ==> final(self).spec_consistent()
            }),
    {
        self.arena = arena;
        self.availability_low = 0;
        self.availability_high = 0;
        self.bins = empty_bins();
        self.is_top_free = false;
        self.allocatable_base = 0;
        self.allocatable_acme = 0;
        proof {
            assert(forall|d: u64| (0u64 >> d) & 1 == 0) by (bit_vector);
        }
        let aligned = arena.word_align_inward();
        match aligned.get_base_acme() {
            Some((base, acme)) => {
                if acme - base > METADATA_CHUNK_SIZE {
                    proof {
                        lemma_align_up(arena.base as int, 8);
                        lemma_aligned_gap(0, base as int);
                    }
                    self.reserve_words(acme);
                    self.allocatable_base = base;
                    self.allocatable_acme = acme;
                    proof {
                        assert(self.wf());
                    }
                    let ghost mid = *self;
                    self.write_word(base, Tag::new(base + METADATA_CHUNK_SIZE, false).word);
                    proof {
                        lemma_wf_frame(mid, *self);
                    }
                    let metadata_acme = base + METADATA_CHUNK_SIZE;
                    if acme - metadata_acme >= MIN_CHUNK_SIZE {
                        self.register(metadata_acme, acme);
                        let ghost mid2 = *self;
                        self.is_top_free = true;
                        proof {
                            lemma_wf_frame(mid2, *self);
                            crate::bins::lemma_bin_of_size_range(
                                (acme - metadata_acme) as int,
                            );
                            let bin = spec_bin_of_size((acme - metadata_acme) as int);
                            assert(mid.bins_view()[bin].len() == 0);
                            assert(mid2.bins_view()[bin] == mid.bins_view()[bin].push(
                                (BinEntry {
                                    base: metadata_acme,
                                    size: (acme - metadata_acme) as usize,
                                }),
                            ));
                            assert(self.bins_view()[bin].len() == 1);
                            // the header chunk and the top chunk tile
                            // the span, so the heap starts consistent
                            let ma = metadata_acme as int;
                            let size = acme - metadata_acme;
                            assert((ma + 16) / 8 == ma / 8 + 2 && (ma + size - 8) as int / 8
                                == acme as int / 8 - 1 && ma + size == acme)
                                by (nonlinear_arith)
                                requires
                                    metadata_acme % 8 == 0,
                                    acme % 8 == 0,
                                    ma == metadata_acme as int,
                                    size == acme - metadata_acme,
                                    acme >= 8,
                                    metadata_acme + 24 <= acme,
                            ;
                            assert(self.spec_consistent_from(acme as int, true));
                            let k = acme as int / 8 - ma / 8;
                            vstd::arithmetic::div_mod::lemma_mod_multiples_basic(k, 8);
                            assert(size as int == 8 * k && 8 * k == k * 8) by (nonlinear_arith)
                                requires
                                    8 * (acme as int / 8) == acme,
                                    8 * (ma / 8) == ma,
                                    k == acme as int / 8 - ma / 8,
                                    size == acme - metadata_acme,
                                    ma == metadata_acme as int,
                            ;
                            assert(size % 8 == 0);
                            assert(0u64 & 1 == 0) by (bit_vector);
                            assert(self.spec_word_at(ma) == 0);
                            assert(self.spec_word_at(ma + (MIN_CHUNK_SIZE - TAG_SIZE))
                                == size as u64);
                            assert(self.spec_word_at(ma + size - TAG_SIZE) == size as u64);
                            assert(self.bins_view()[bin][0] == (BinEntry {
                                base: metadata_acme,
                                size: size as usize,
                            }));
                            assert(self.spec_consistent_from(ma, false));
                            assert((Tag { word: self.mem@[base as int / 8] }).spec_acme() == ma);
                            assert(self.spec_consistent_from(base as int, false));
                            assert(self.spec_consistent());
                            assert(base as int / 8 < metadata_acme as int / 8
                                && metadata_acme as int / 8 + 2 <= acme as int / 8 - 1)
                                by (nonlinear_arith)
                                requires
                                    base % 8 == 0,
                                    metadata_acme == base + 1032,
                                    metadata_acme % 8 == 0,
                                    acme % 8 == 0,
                                    metadata_acme + 24 <= acme,
                                    base >= 0,
                            ;
                        }
                    }
                }
            },
            None => {},
        }
    }

    /// The smallest span containing every live allocation: the
    /// allocatable span shaved of the top free chunk when the top is
    /// free, and of the bottom chunk when that chunk is free.
    #[verifier::spinoff_prover]
    #[verifier::rlimit(25)]
    pub fn get_allocated_span(&self) -> (r: Span)
        requires
            self.wf(),
        ensures
            r == self.spec_allocated_span(),
    {
        if self.allocatable_acme - self.allocatable_base < MIN_CHUNK_SIZE {
            return Span { base: 0, acme: 0 };
        }
        let span_size = self.allocatable_acme - self.allocatable_base;
        let mut allocated_acme = self.allocatable_acme;
        let mut allocated_base = self.allocatable_base;
        if self.is_top_free {
            let ts = self.read_word(self.allocatable_acme - TAG_SIZE);
            if ts <= span_size as u64 {
                allocated_acme = self.allocatable_acme - ts as usize;
            } else {
                allocated_acme = self.allocatable_base;
            }
        }
        let w = self.read_word(self.allocatable_base);
        if w & 1 != 1 {
            let bs = self.read_word(self.allocatable_base + (MIN_CHUNK_SIZE - TAG_SIZE));
            if bs <= span_size as u64 {
                allocated_base = self.allocatable_base + bs as usize;
            } else {
                allocated_base = self.allocatable_acme;
            }
        }
        Span { base: allocated_base, acme: allocated_acme }
    }

    /// The allocated span as the heap's words describe it; see
    /// [`Talc::get_allocated_span`].
    pub open spec fn spec_allocated_span(self) -> Span {
        if self.allocatable_acme - self.allocatable_base < MIN_CHUNK_SIZE {
            Span { base: 0, acme: 0 }
        } else {
            let span_size = (self.allocatable_acme - self.allocatable_base) as usize;
            let tw = self.spec_word_at(self.allocatable_acme - TAG_SIZE);
            let aa = if self.is_top_free {
                if tw <= span_size as u64 {
                    (self.allocatable_acme - tw as usize) as usize
                } else {
                    self.allocatable_base
                }
            } else {
                self.allocatable_acme
            };
            let bw = self.spec_word_at(self.allocatable_base as int);
            let bs = self.spec_word_at(self.allocatable_base + (MIN_CHUNK_SIZE - TAG_SIZE));
            let ab = if bw & 1 != 1 {
                if bs <= span_size as u64 {
                    (self.allocatable_base + bs as usize) as usize
                } else {
                    self.allocatable_acme
                }
            } else {
                self.allocatable_base
            };
            Span { base: ab, acme: aa }
        }
    }

    /// Whether every recorded free chunk lies within `[lo, hi)`.
    fn entries_within(&self, lo: usize, hi: usize) -> (r: bool)
        requires
            self.wf(),
        ensures
            r == forall|b: int, i: int|
                0 <= b < BIN_COUNT && 0 <= i < self.bins_view()[b].len() ==> lo <= (
                #[trigger] self.bins_view()[b][i]).base && self.bins_view()[b][i].base
                    + self.bins_view()[b][i].size <= hi,
    {
        let mut b: usize = 0;
        while b < BIN_COUNT
            invariant
                self.wf(),
                b <= BIN_COUNT,
                forall|bb: int, i: int|
                    0 <= bb < b && 0 <= i < self.bins_view()[bb].len() ==> lo <= (
                    #[trigger] self.bins_view()[bb][i]).base && self.bins_view()[bb][i].base
                        + self.bins_view()[bb][i].size <= hi,
            decreases BIN_COUNT - b,
        {
            let n = self.bins[b].len();
            let mut i: usize = 0;
            while i < n
                invariant
                    self.wf(),
                    b < BIN_COUNT,
                    n == self.bins_view()[b as int].len(),
                    i <= n,
                    forall|k: int|
                        0 <= k < i ==> lo <= (#[trigger] self.bins_view()[b as int][k]).base
                            && self.bins_view()[b as int][k].base + self.bins_view()[b as
                            int][k].size <= hi,
                decreases n - i,
            {
                let e = self.bins[b][i];
                proof {
                    assert(e == self.bins_view()[b as int][i as int]);
                    assert(self.entry_wf(self.bins_view()[b as int][i as int]));
                }
                if !(lo <= e.base && e.size <= hi && e.base <= hi - e.size) {
                    return false;
                }
                i = i + 1;
            }
            b = b + 1;
        }
        true
    }

    /// Widen the arena to `new_arena`, which must cover the current
    /// one: free space at either end of the allocatable span grows
    /// over the gained addresses, a boundary free chunk absorbing them
    /// outright. A heap with nothing placed yet is initialized afresh.
    #[verifier::spinoff_prover]
    #[verifier::rlimit(30)]
    pub fn extend(&mut self, new_arena: Span)
        requires
            old(self).wf(),
            new_arena.spec_contains_span(old(self).arena),
            !new_arena.spec_contains(0),
        ensures
            final(self).wf(),
            final(self).arena == new_arena,
            final(self).oom_handler == old(self).oom_handler,
            old(self).mem@.len() <= final(self).mem@.len(),
            old(self).allocatable_acme <= final(self).allocatable_acme,
            final(self).allocatable_base <= old(self).allocatable_base || old(self).allocatable_base == old(self).allocatable_acme,
            old(self).allocatable_base == old(self).allocatable_acme ==> Self::spec_init_result(
                *final(self),
                new_arena,
            ),
            ({
                let al = new_arena.spec_word_align_inward();
                let ob = old(self).allocatable_base as int;
                let oa = old(self).allocatable_acme as int;
                let live = ob < oa;
                &&& (live && old(self).is_top_free && old(self).spec_below_free_ok(oa) ==> final(self).allocatable_acme == al.acme && final(self).is_top_free)
                &&& (live && !old(self).is_top_free && al.acme - oa >= MIN_CHUNK_SIZE ==> final(self).allocatable_acme == al.acme && final(self).is_top_free)
                &&& (live && !old(self).is_top_free && al.acme - oa < MIN_CHUNK_SIZE ==> final(self).allocatable_acme == oa && !final(self).is_top_free)
                &&& (live && !old(self).is_top_free && old(self).spec_word_at(ob) & 1 == 1 && ob
                    - al.base >= MIN_CHUNK_SIZE ==> final(self).allocatable_base == al.base
                    && final(self).mem@[ob / 8] == (old(self).spec_word_at(ob) | 2))
                &&& (live && !old(self).is_top_free && old(self).spec_word_at(ob) & 1 != 1 && old(self).spec_above_free_ok(ob) ==> final(self).allocatable_base == al.base)
                &&& ({
                    let ts = old(self).spec_below_free_size(oa);
                    let tb = oa - ts;
                    let tf = old(self).is_top_free && old(self).spec_below_free_ok(oa);
                    &&& (live && tf && tb >= ob + MIN_CHUNK_SIZE && old(self).spec_word_at(ob) & 1
                        == 1 && ob - al.base >= MIN_CHUNK_SIZE ==> final(self).allocatable_base
                        == al.base && final(self).mem@[ob / 8] == (old(self).spec_word_at(ob)
                        | 2))
                    &&& (live && tf && tb >= ob + MIN_CHUNK_SIZE && old(self).spec_word_at(ob) & 1
                        != 1 && old(self).spec_above_free_ok(ob) ==> final(self).allocatable_base == al.base)
                    &&& (live && tf && tb == ob ==> final(self).allocatable_base == al.base
                        && final(self).allocatable_acme == al.acme)
                    &&& (live && tf && tb >= ob + MIN_CHUNK_SIZE && old(self).spec_word_at(ob) & 1
                        == 1 && ob - al.base >= MIN_CHUNK_SIZE ==> forall|j: int|
                        0 <= j < old(self).mem@.len() && ob + 8 <= 8 * j && 8 * j + 8 <= tb
                            ==> final(self).mem@[j] == old(self).mem@[j])
                    &&& (live && !old(self).is_top_free && old(self).spec_word_at(ob) & 1 == 1
                        && ob - al.base >= MIN_CHUNK_SIZE ==> forall|j: int|
                        0 <= j < old(self).mem@.len() && ob + 8 <= 8 * j && 8 * j + 8 <= oa
                            ==> final(self).mem@[j] == old(self).mem@[j])
                })
            }),
    {
        if self.allocatable_acme - self.allocatable_base < MIN_CHUNK_SIZE {
            // nothing is placed yet: initialize afresh
            self.init(new_arena);
            return ;
        }
        let old_base = self.allocatable_base;
        let old_acme = self.allocatable_acme;
        let aligned = new_arena.word_align_inward();
        proof {
            lemma_align_up_least(new_arena.base as int, 8, old_base as int);
            crate::utils::lemma_align_down_greatest(new_arena.acme as int, old_acme as int);
        }
        let (nb, na) = match aligned.get_base_acme() {
            Some(p) => p,
            None => {
                // unreachable: the aligned span covers the non-empty
                // old allocatable span
                proof {
                    assert(false);
                }
                (0, 0)
            },
        };
        self.reserve_words(na);
        self.arena = new_arena;
        proof {
            lemma_wf_respan(*old(self), *self);
            lemma_div8_exact(old_base as int);
            lemma_div8_exact(old_acme as int);
            let oldlen = old(self).mem@.len() as int;
            assert((old_acme - 8) as int / 8 < oldlen && old_base as int / 8 < oldlen
                && old_base as int / 8 + 2 < oldlen) by (nonlinear_arith)
                requires
                    8 * (old_acme as int / 8) == old_acme,
                    8 * (old_base as int / 8) == old_base,
                    old_base + 24 <= old_acme,
                    old_acme <= oldlen * 8,
                    old_base % 8 == 0,
                    old_acme % 8 == 0,
            ;
            assert(self.bins_view() =~= old(self).bins_view());
            assert(self.mem@[(old_acme - 8) as int / 8] == old(self).mem@[(old_acme - 8) as int
                / 8]);
            assert(self.mem@[old_base as int / 8] == old(self).mem@[old_base as int / 8]);
            assert(self.mem@[old_base as int / 8 + 2] == old(self).mem@[old_base as int / 8 + 2]);
            assert((old_acme - 8) as int / 8 == (old_acme as int - 8) / 8);
            assert((old_base + 16) as int / 8 == old_base as int / 8 + 2) by (nonlinear_arith)
                requires 8 * (old_base as int / 8) == old_base, old_base + 16 <= usize::MAX;
            assert(self.spec_below_free_ok(old_acme as int) == old(self).spec_below_free_ok(
                old_acme as int,
            ));
            assert(self.spec_word_at(old_base as int) == old(self).spec_word_at(old_base as int));
            assert(self.spec_above_free_size(old_base as int) == old(self).spec_above_free_size(
                old_base as int,
            ));
            assert(self.spec_above_free_ok(old_base as int) == old(self).spec_above_free_ok(
                old_base as int,
            ));
        }
        let ghost s1 = *self;

        // the top end: extend the top free chunk over the gained
        // space, or register the gain as a fresh top chunk
        self.extend_top(old_base, old_acme, na);
        proof {
            if s1.is_top_free && s1.spec_below_free_ok(old_acme as int) {
                let s2 = *self;
                let ts = s1.spec_below_free_size(old_acme as int);
                let tb = old_acme - ts;
                lemma_div8_exact(old_base as int);
                assert((old_base + 16) as int / 8 == old_base as int / 8 + 2) by (nonlinear_arith)
                    requires 8 * (old_base as int / 8) == old_base, old_base + 16 <= usize::MAX;
                if tb >= old_base + MIN_CHUNK_SIZE {
                    assert(8 * (old_base as int / 8) + 8 <= tb && 8 * (old_base as int / 8 + 2)
                        + 8 <= tb) by (nonlinear_arith)
                        requires 8 * (old_base as int / 8) == old_base, old_base + 24 <= tb;
                    assert(s2.mem@[old_base as int / 8] == s1.mem@[old_base as int / 8]);
                    assert(s2.mem@[old_base as int / 8 + 2] == s1.mem@[old_base as int / 8 + 2]);
                    assert(s2.spec_word_at(old_base as int) == s1.spec_word_at(old_base as int));
                    assert(s2.spec_above_free_size(old_base as int) == s1.spec_above_free_size(
                        old_base as int,
                    ));
                    if s1.spec_word_at(old_base as int) & 1 != 1 && s1.spec_above_free_ok(
                        old_base as int,
                    ) {
                        let bs = s1.spec_above_free_size(old_base as int);
                        crate::bins::lemma_bin_of_size_range(bs);
                        let b0 = spec_bin_of_size(bs);
                        let i0 = choose|i: int|
                            0 <= i < s1.bins_view()[b0].len() && s1.bins_view()[b0][i] == (
                            BinEntry { base: old_base, size: bs as usize });
                        assert(s1.bins_view()[b0][i0] != (BinEntry {
                            base: (old_acme - ts) as usize,
                            size: ts as usize,
                        }));
                        assert(exists|i2: int|
                            0 <= i2 < s2.bins_view()[b0].len() && s2.bins_view()[b0][i2] == (
                            BinEntry { base: old_base, size: bs as usize }));
                        assert(s2.spec_above_free_ok(old_base as int));
                    }
                } else if tb == old_base as int {
                    // the whole span was one free chunk, now extended
                    // to the new acme: the bottom pass extends it down
                    let ns = na as int - tb;
                    let k2 = na as int / 8 - old_base as int / 8;
                    lemma_div8_exact(na as int);
                    vstd::arithmetic::div_mod::lemma_mod_multiples_basic(k2, 8);
                    assert(ns == 8 * k2 && 8 * k2 == k2 * 8) by (nonlinear_arith)
                        requires
                            8 * (na as int / 8) == na,
                            8 * (old_base as int / 8) == old_base,
                            k2 == na as int / 8 - old_base as int / 8,
                            ns == na as int - tb,
                            tb == old_base as int,
                    ;
                    assert(s2.spec_word_at(old_base as int) == 0);
                    assert(0u64 & 1 == 0) by (bit_vector);
                    assert(s2.spec_above_free_size(old_base as int) == ns);
                    let b2 = spec_bin_of_size(ns);
                    assert(s2.bins_view()[b2].last() == (BinEntry {
                        base: old_base,
                        size: ns as usize,
                    }));
                    assert(s2.bins_view()[b2][s2.bins_view()[b2].len() - 1] == (BinEntry {
                        base: old_base,
                        size: ns as usize,
                    }));
                    assert(s2.spec_above_free_ok(old_base as int));
                }
            }
            if !s1.is_top_free {
                let s2 = *self;
                lemma_div8_exact(old_base as int);
                assert((old_base + 16) as int / 8 == old_base as int / 8 + 2) by (nonlinear_arith)
                    requires 8 * (old_base as int / 8) == old_base, old_base + 16 <= usize::MAX;
                assert(8 * (old_base as int / 8) + 8 <= old_acme && 8 * (old_base as int / 8 + 2)
                    + 8 <= old_acme) by (nonlinear_arith)
                    requires 8 * (old_base as int / 8) == old_base, old_base + 24 <= old_acme;
                if na - old_acme >= MIN_CHUNK_SIZE {
                    assert(s2.mem@[old_base as int / 8] == s1.mem@[old_base as int / 8]);
                    assert(s2.mem@[old_base as int / 8 + 2] == s1.mem@[old_base as int / 8 + 2]);
                } else {
                    assert(s2 == s1);
                }
                assert(s2.spec_word_at(old_base as int) == s1.spec_word_at(old_base as int));
                if s1.spec_word_at(old_base as int) & 1 != 1 {
                    assert(s2.spec_above_free_size(old_base as int) == s1.spec_above_free_size(
                        old_base as int,
                    ));
                    if s1.spec_above_free_ok(old_base as int) {
                        let s = s1.spec_above_free_size(old_base as int);
                        crate::bins::lemma_bin_of_size_range(s);
                        let b0 = spec_bin_of_size(s);
                        let i0 = choose|i: int|
                            0 <= i < s1.bins_view()[b0].len() && s1.bins_view()[b0][i] == (
                            BinEntry { base: old_base, size: s as usize });
                        assert(s2.bins_view()[b0][i0] == s1.bins_view()[b0][i0]);
                        assert(s2.spec_above_free_ok(old_base as int));
                    }
                    if s2.spec_above_free_ok(old_base as int) {
                        let s = s2.spec_above_free_size(old_base as int);
                        crate::bins::lemma_bin_of_size_range(s);
                        let b0 = spec_bin_of_size(s);
                        let i0 = choose|i: int|
                            0 <= i < s2.bins_view()[b0].len() && s2.bins_view()[b0][i] == (
                            BinEntry { base: old_base, size: s as usize });
                        if na - old_acme >= MIN_CHUNK_SIZE && b0 == spec_bin_of_size(
                            na - old_acme,
                        ) && i0 == s1.bins_view()[b0].len() {
                            assert(s2.bins_view()[b0][i0] == (BinEntry {
                                base: old_acme,
                                size: (na - old_acme) as usize,
                            }));
                            assert(false);
                        } else {
                            assert(s2.bins_view()[b0][i0] == s1.bins_view()[b0][i0]);
                        }
                        assert(s1.spec_above_free_ok(old_base as int));
                    }
                }
            }
        }
        // the bottom end: extend a free bottom chunk downward, or
        // register the gain below the allocated bottom chunk
        self.extend_bottom(nb, old_base);
    }

    /// Widen the top of the allocatable span to `na`: the top free
    /// chunk grows over the gain, a fresh top chunk is registered over
    /// a large enough gain, and a sliver is absorbed by leaving the
    /// acme where it was.
    fn extend_top(&mut self, old_base: usize, old_acme: usize, na: usize)
        requires
            old(self).wf(),
            old(self).allocatable_base == old_base,
            old(self).allocatable_acme == old_acme,
            old_base < old_acme,
            na % 8 == 0,
            old_acme <= na,
            na <= old(self).mem@.len() * 8,
            old(self).arena.spec_contains_span((Span { base: old_base, acme: na })),
        ensures
            final(self).wf(),
            final(self).allocatable_base == old_base,
            old_acme <= final(self).allocatable_acme <= na,
            final(self).arena == old(self).arena,
            final(self).oom_handler == old(self).oom_handler,
            final(self).mem@.len() == old(self).mem@.len(),
            old(self).is_top_free && old(self).spec_below_free_ok(old_acme as int) ==> ({
                let ts = old(self).spec_below_free_size(old_acme as int);
                let tb = old_acme - ts;
                &&& final(self).allocatable_acme == na
                &&& final(self).is_top_free
                &&& final(self).mem@[tb / 8] == 0
                &&& final(self).mem@[tb / 8 + 2] == (na - tb) as u64
                &&& final(self).bins_view()[spec_bin_of_size(na - tb)].len() > 0
                &&& final(self).bins_view()[spec_bin_of_size(na - tb)].last() == (BinEntry {
                    base: tb as usize,
                    size: (na - tb) as usize,
                })
                &&& forall|j: int|
                    0 <= j < old(self).mem@.len() && 8 * j + 8 <= tb ==> final(self).mem@[j]
                        == old(self).mem@[j]
                &&& forall|b: int, i: int|
                    0 <= b < BIN_COUNT && 0 <= i < old(self).bins_view()[b].len() && old(
                    self).bins_view()[b][i] != (BinEntry { base: tb as usize, size: ts as usize })
                        ==> exists|i2: int|
                        0 <= i2 < final(self).bins_view()[b].len() && final(self).bins_view()[
                        b][i2] == old(self).bins_view()[b][i]
            }),
            old(self).is_top_free && !old(self).spec_below_free_ok(old_acme as int) ==> *final(self) == *old(self),
            !old(self).is_top_free && na - old_acme >= MIN_CHUNK_SIZE ==> ({
                let b = spec_bin_of_size(na - old_acme);
                &&& final(self).allocatable_acme == na
                &&& final(self).is_top_free
                &&& final(self).bins_view()[b] == old(self).bins_view()[b].push(
                    (BinEntry { base: old_acme, size: (na - old_acme) as usize }),
                )
                &&& forall|j: int|
                    0 <= j < BIN_COUNT && j != b ==> final(self).bins_view()[j] == old(self).bins_view()[j]
                &&& forall|j: int|
                    0 <= j < old(self).mem@.len() && 8 * j + 8 <= old_acme ==> final(self).mem@[j] == old(self).mem@[j]
            }),
            !old(self).is_top_free && na - old_acme < MIN_CHUNK_SIZE ==> *final(self) == *old(self),
    {
        proof {
            lemma_div8_exact(old_acme as int);
        }
        if self.is_top_free {
            let ts64 = self.read_word(old_acme - TAG_SIZE);
            if ts64 <= usize::MAX as u64 {
                let ts = ts64 as usize;
                if ts % 8 == 0 && ts >= MIN_CHUNK_SIZE && ts <= old_acme - old_base {
                    if self.deregister_chunk(old_acme - ts, ts) {
                        let ghost pre = *self;
                        self.allocatable_acme = na;
                        proof {
                            lemma_wf_respan(pre, *self);
                        }
                        self.register(old_acme - ts, na);
                        proof {
                            if old(self).spec_below_free_ok(old_acme as int) {
                                let tb = (old_acme - ts) as int;
                                let top_e = (BinEntry { base: (old_acme - ts) as usize, size: ts });
                                lemma_div8_exact(tb);
                                lemma_div8_exact(na as int);
                                crate::bins::lemma_bin_of_size_range(ts as int);
                                crate::bins::lemma_bin_of_size_range(na as int - tb);
                                assert forall|j: int|
                                    0 <= j < old(self).mem@.len() && 8 * j + 8 <= tb
                                    implies self.mem@[j] == old(self).mem@[j] by {
                                    lemma_index_outside(j, tb, tb, na as int);
                                    lemma_index_outside(j, tb + 16, tb, na as int);
                                    lemma_index_outside(j, na as int - 8, tb, na as int);
                                }
                                let bt = spec_bin_of_size(ts as int);
                                let b2 = spec_bin_of_size(na as int - tb);
                                let id = choose|i: int|
                                    0 <= i < old(self).bins_view()[bt].len() && old(
                                    self).bins_view()[bt][i] == top_e && pre.bins_view()[bt]
                                        == old(self).bins_view()[bt].remove(i);
                                old(self).bins_view()[bt].remove_ensures(id);
                                assert forall|b: int, i: int|
                                    0 <= b < BIN_COUNT && 0 <= i < old(
                                    self).bins_view()[b].len() && old(self).bins_view()[b][i]
                                        != top_e implies exists|i2: int|
                                    0 <= i2 < self.bins_view()[b].len() && self.bins_view()[
                                    b][i2] == old(self).bins_view()[b][i] by {
                                    let e = old(self).bins_view()[b][i];
                                    let mi: int = if b == bt && i > id {
                                        i - 1
                                    } else {
                                        i
                                    };
                                    assert(pre.bins_view()[b][mi] == e);
                                    assert(self.bins_view()[b][mi] == e);
                                }
                            }
                        }
                    }
                }
            }
        } else {
            if na - old_acme >= MIN_CHUNK_SIZE {
                let ghost pre = *self;
                self.allocatable_acme = na;
                proof {
                    lemma_wf_respan(pre, *self);
                }
                self.register(old_acme, na);
                let ghost pre2 = *self;
                self.is_top_free = true;
                proof {
                    lemma_wf_frame(pre2, *self);
                }
            }
        }
    }

    /// Widen the bottom of the allocatable span to `nb`: a free bottom
    /// chunk grows over the gain, a fresh chunk is registered below an
    /// allocated bottom chunk over a large enough gain (marking that
    /// chunk as over free space), and a sliver is absorbed by leaving
    /// the base where it was.
    fn extend_bottom(&mut self, nb: usize, old_base: usize)
        requires
            old(self).wf(),
            old(self).allocatable_base == old_base,
            old_base < old(self).allocatable_acme,
            nb % 8 == 0,
            nb >= 8,
            nb <= old_base,
            old(self).arena.spec_contains_span(
                (Span { base: nb, acme: old(self).allocatable_acme }),
            ),
        ensures
            final(self).wf(),
            final(self).allocatable_acme == old(self).allocatable_acme,
            final(self).is_top_free == old(self).is_top_free,
            nb <= final(self).allocatable_base <= old_base,
            final(self).arena == old(self).arena,
            final(self).oom_handler == old(self).oom_handler,
            final(self).mem@.len() == old(self).mem@.len(),
            old(self).spec_word_at(old_base as int) & 1 == 1 && old_base - nb >= MIN_CHUNK_SIZE
                ==> final(self).allocatable_base == nb && final(self).mem@[old_base as int / 8]
                == (old(self).spec_word_at(old_base as int) | 2) && (forall|j: int|
                0 <= j < old(self).mem@.len() && old_base + 8 <= 8 * j ==> final(self).mem@[j]
                    == old(self).mem@[j]),
            old(self).spec_word_at(old_base as int) & 1 == 1 && old_base - nb < MIN_CHUNK_SIZE
                ==> *final(self) == *old(self),
            old(self).spec_word_at(old_base as int) & 1 != 1 && old(self).spec_above_free_ok(
                old_base as int,
            ) ==> final(self).allocatable_base == nb && (forall|j: int|
                0 <= j < old(self).mem@.len() && old_base + old(self).spec_above_free_size(
                    old_base as int,
                ) <= 8 * j ==> final(self).mem@[j] == old(self).mem@[j]),
            old(self).spec_word_at(old_base as int) & 1 != 1 && !old(self).spec_above_free_ok(
                old_base as int,
            ) ==> *final(self) == *old(self),
    {
        proof {
            lemma_div8_exact(old_base as int);
            lemma_div8_exact(nb as int);
        }
        let w = self.read_word(old_base);
        if w & 1 != 1 {
            let bs64 = self.read_word(old_base + (MIN_CHUNK_SIZE - TAG_SIZE));
            if bs64 <= usize::MAX as u64 {
                let bs = bs64 as usize;
                if bs % 8 == 0 && bs >= MIN_CHUNK_SIZE && bs <= self.allocatable_acme - old_base {
                    if self.deregister_chunk(old_base, bs) {
                        let ghost pre = *self;
                        self.allocatable_base = nb;
                        proof {
                            lemma_wf_respan(pre, *self);
                        }
                        self.register(nb, old_base + bs);
                        proof {
                            let lo = nb as int;
                            let hi = (old_base + bs) as int;
                            lemma_div8_exact(lo);
                            lemma_div8_exact(hi);
                            assert forall|j: int|
                                0 <= j < old(self).mem@.len() && old_base + bs <= 8 * j
                                implies self.mem@[j] == old(self).mem@[j] by {
                                lemma_index_outside(j, lo, lo, hi - 8);
                                lemma_index_outside(j, lo + 16, lo, hi - 8);
                                lemma_index_outside(j, hi - 8, lo, hi - 8);
                            }
                        }
                    }
                }
            }
        } else {
            if old_base - nb >= MIN_CHUNK_SIZE {
                let ghost pre = *self;
                self.allocatable_base = nb;
                proof {
                    lemma_wf_respan(pre, *self);
                }
                self.register(nb, old_base);
                let ghost pre2 = *self;
                self.write_word(old_base, (Tag { word: w }).with_below_free_set().word);
                proof {
                    lemma_wf_frame(pre2, *self);
                    let lo = nb as int;
                    let ob = old_base as int;
                    lemma_div8_exact(lo);
                    lemma_div8_exact(ob);
                    assert forall|j: int|
                        0 <= j < old(self).mem@.len() && old_base + 8 <= 8 * j
                        implies self.mem@[j] == old(self).mem@[j] by {
                        lemma_index_outside(j, lo, lo, ob);
                        lemma_index_outside(j, lo + 16, lo, ob);
                        lemma_index_outside(j, ob - 8, lo, ob);
                        lemma_index_outside(j, ob, lo, ob);
                    }
                }
            }
        }
    }

    /// Narrow the arena to `new_arena`, which the current arena must
    /// cover and which must still cover every live allocation: the
    /// free chunk at each trimmed end shrinks to the new bound, or is
    /// dropped when what would remain is below the minimum chunk size.
    /// A span too small to hold anything is initialized afresh, as is
    /// a heap whose stored metadata would not let the span shrink into
    /// the new arena.
    #[verifier::spinoff_prover]
    #[verifier::rlimit(75)]
    pub fn truncate(&mut self, new_arena: Span)
        requires
            old(self).wf(),
            old(self).arena.spec_contains_span(new_arena),
            !new_arena.spec_contains(0),
            new_arena.spec_word_align_inward().spec_contains_span(
                old(self).spec_allocated_span(),
            ),
        ensures
            final(self).wf(),
            final(self).arena == new_arena,
            final(self).oom_handler == old(self).oom_handler,
            ({
                let nal = new_arena.spec_word_align_inward();
                let ob = old(self).allocatable_base as int;
                let oa = old(self).allocatable_acme as int;
                &&& (ob == oa || nal.spec_is_empty() || nal.acme - nal.base < MIN_CHUNK_SIZE
                    ==> Self::spec_init_result(*final(self), new_arena))
                &&& (ob < oa && nal.base <= ob && oa <= nal.acme && nal.acme - nal.base
                    >= MIN_CHUNK_SIZE && !nal.spec_is_empty() ==> final(self).arena == new_arena
                    && final(self).mem == old(self).mem && final(self).bins == old(self).bins
                    && final(self).availability_low == old(self).availability_low && final(self).availability_high == old(self).availability_high && final(self).allocatable_base == ob && final(self).allocatable_acme == oa && final(self).is_top_free == old(self).is_top_free)
                &&& ({
                    let ts = old(self).spec_below_free_size(oa);
                    let tb = oa - ts;
                    let e = (BinEntry { base: tb as usize, size: ts as usize });
                    ob < oa && !nal.spec_is_empty() && nal.acme - nal.base >= MIN_CHUNK_SIZE
                        && nal.base <= ob && nal.acme < oa && old(self).is_top_free && nal.acme
                        >= ob + MIN_CHUNK_SIZE && old(self).spec_below_free_ok(oa) && tb
                        <= nal.acme && nal.acme - tb >= MIN_CHUNK_SIZE
                        && Self::spec_sole_chunk_within(*old(self), ob, nal.acme as int, e)
                        ==> final(self).allocatable_acme == nal.acme && final(self).is_top_free
                        && final(self).allocatable_base == ob && (forall|j: int|
                        0 <= j < old(self).mem@.len() && 8 * j + 8 <= tb ==> final(self).mem@[j]
                            == old(self).mem@[j])
                })
                &&& ({
                    let bs = old(self).spec_above_free_size(ob);
                    let e = (BinEntry {
                        base: old(self).allocatable_base,
                        size: bs as usize,
                    });
                    ob < oa && !nal.spec_is_empty() && nal.acme - nal.base >= MIN_CHUNK_SIZE && oa
                        <= nal.acme && nal.base > ob && nal.base <= oa && oa - nal.base
                        >= MIN_CHUNK_SIZE && old(self).spec_above_free_ok(ob) && ob + bs
                        >= nal.base && ob + bs - nal.base >= MIN_CHUNK_SIZE
                        && Self::spec_sole_chunk_within(*old(self), nal.base as int, oa, e)
                        ==> final(self).allocatable_base == nal.base && final(self).allocatable_acme == oa && (forall|j: int|
                        0 <= j < old(self).mem@.len() && ob + bs <= 8 * j ==> final(self).mem@[j]
                            == old(self).mem@[j])
                })
            }),
    {
        if self.allocatable_base == self.allocatable_acme {
            self.init(new_arena);
            return ;
        }
        let new_alloc = new_arena.word_align_inward();
        let (nb, na) = match new_alloc.get_base_acme() {
            Some((b, a)) => {
                if a - b >= MIN_CHUNK_SIZE {
                    (b, a)
                } else {
                    self.init(new_arena);
                    return ;
                }
            },
            None => {
                self.init(new_arena);
                return ;
            },
        };

        // trim the top: shrink or drop the top free chunk
        if na < self.allocatable_acme && self.is_top_free && na >= self.allocatable_base
            + MIN_CHUNK_SIZE {
            self.trim_top(na);
        }
        // trim the bottom: shrink or drop the bottom free chunk
        if nb > self.allocatable_base && nb <= self.allocatable_acme && self.allocatable_acme - nb
            >= MIN_CHUNK_SIZE {
            self.trim_bottom(nb);
        }

        let cur = Span { base: self.allocatable_base, acme: self.allocatable_acme };
        if new_arena.contains_span(cur) {
            let ghost pre = *self;
            self.arena = new_arena;
            proof {
                lemma_wf_respan(pre, *self);
            }
        } else {
            // the stored metadata did not let the span shrink into the
            // new arena: start afresh over it
            self.init(new_arena);
        }
    }

    /// Whether `e` is recorded exactly once and every other recorded
    /// chunk lies within `[lo, hi)`.
    pub open spec fn spec_sole_chunk_within(self, lo: int, hi: int, e: BinEntry) -> bool {
        exists|b0: int, i0: int|
            0 <= b0 < BIN_COUNT && 0 <= i0 < self.bins_view()[b0].len()
                && self.bins_view()[b0][i0] == e && forall|b: int, i: int|
                0 <= b < BIN_COUNT && 0 <= i < self.bins_view()[b].len() && !(b == b0 && i == i0)
                    ==> (#[trigger] self.bins_view()[b][i]) != e && lo
                    <= self.bins_view()[b][i].base && self.bins_view()[b][i].base
                    + self.bins_view()[b][i].size <= hi
    }

    /// After taking the sole occurrence of `e` out of its bin, every
    /// recorded chunk lies within `[lo, hi)`.
    proof fn lemma_entries_within_after_remove(
        pre: Talc<H>,
        post: Talc<H>,
        e: BinEntry,
        lo: int,
        hi: int,
    )
        requires
            pre.bins@.len() == BIN_COUNT,
            post.bins@.len() == BIN_COUNT,
            e.size >= MIN_CHUNK_SIZE,
            Self::spec_sole_chunk_within(pre, lo, hi, e),
            exists|i: int|
                0 <= i < pre.bins_view()[spec_bin_of_size(e.size as int)].len()
                    && pre.bins_view()[spec_bin_of_size(e.size as int)][i] == e && post.bins_view()[
                spec_bin_of_size(e.size as int)] == pre.bins_view()[spec_bin_of_size(
                    e.size as int,
                )].remove(i),
            forall|j: int|
                0 <= j < BIN_COUNT && j != spec_bin_of_size(e.size as int)
                    ==> post.bins_view()[j] == pre.bins_view()[j],
        ensures
            forall|b: int, i: int|
                0 <= b < BIN_COUNT && 0 <= i < post.bins_view()[b].len() ==> lo <= (
                #[trigger] post.bins_view()[b][i]).base && post.bins_view()[b][i].base
                    + post.bins_view()[b][i].size <= hi,
    {
        let bt = spec_bin_of_size(e.size as int);
        crate::bins::lemma_bin_of_size_range(e.size as int);
        let id = choose|i: int|
            0 <= i < pre.bins_view()[bt].len() && pre.bins_view()[bt][i] == e && post.bins_view()[
            bt] == pre.bins_view()[bt].remove(i);
        pre.bins_view()[bt].remove_ensures(id);
        let (b0, i0) = choose|b0: int, i0: int|
            0 <= b0 < BIN_COUNT && 0 <= i0 < pre.bins_view()[b0].len() && pre.bins_view()[b0][i0]
                == e && forall|b: int, i: int|
                0 <= b < BIN_COUNT && 0 <= i < pre.bins_view()[b].len() && !(b == b0 && i == i0)
                    ==> (#[trigger] pre.bins_view()[b][i]) != e && lo
                    <= pre.bins_view()[b][i].base && pre.bins_view()[b][i].base
                    + pre.bins_view()[b][i].size <= hi;
        assert(bt == b0 && id == i0) by {
            if !(bt == b0 && id == i0) {
                assert(pre.bins_view()[bt][id] != e);
            }
        }
        assert forall|b: int, i: int|
            0 <= b < BIN_COUNT && 0 <= i < post.bins_view()[b].len() implies lo <= (
        #[trigger] post.bins_view()[b][i]).base && post.bins_view()[b][i].base
            + post.bins_view()[b][i].size <= hi by {
            if b == bt {
                if i < id {
                    assert(post.bins_view()[b][i] == pre.bins_view()[b][i]);
                    assert(pre.bins_view()[b][i] != e || (b == b0 && i == i0));
                } else {
                    assert(post.bins_view()[b][i] == pre.bins_view()[b][i + 1]);
                }
            } else {
                assert(post.bins_view()[b][i] == pre.bins_view()[b][i]);
            }
        }
    }

    /// Shrink the top free chunk so that the allocatable span ends at
    /// `na`, or drop it when what would remain is below the minimum
    /// chunk size. Metadata that does not check out leaves the heap
    /// unchanged.
    #[verifier::spinoff_prover]
    #[verifier::rlimit(25)]
    fn trim_top(&mut self, na: usize)
        requires
            old(self).wf(),
            na % 8 == 0,
            old(self).allocatable_base < old(self).allocatable_acme,
            na < old(self).allocatable_acme,
            na >= old(self).allocatable_base + MIN_CHUNK_SIZE,
        ensures
            final(self).wf(),
            final(self).allocatable_base == old(self).allocatable_base,
            final(self).allocatable_acme <= old(self).allocatable_acme,
            final(self).arena == old(self).arena,
            final(self).oom_handler == old(self).oom_handler,
            ({
                let oa = old(self).allocatable_acme as int;
                let ob = old(self).allocatable_base as int;
                let ts = old(self).spec_below_free_size(oa);
                let tb = oa - ts;
                let e = (BinEntry { base: tb as usize, size: ts as usize });
                &&& (old(self).spec_below_free_ok(oa) && tb <= na && na - tb >= MIN_CHUNK_SIZE
                    && Self::spec_sole_chunk_within(*old(self), ob, na as int, e) ==> final(self).allocatable_acme == na && final(self).is_top_free == old(self).is_top_free && (
                    forall|j: int|
                        0 <= j < old(self).mem@.len() && 8 * j + 8 <= tb ==> final(self).mem@[j]
                            == old(self).mem@[j]))
                &&& (old(self).spec_below_free_ok(oa) && tb <= na && na - tb < MIN_CHUNK_SIZE
                    && tb >= ob + MIN_CHUNK_SIZE && Self::spec_sole_chunk_within(
                    *old(self),
                    ob,
                    tb,
                    e,
                ) ==> final(self).allocatable_acme == tb && !final(self).is_top_free && final(self).mem == old(self).mem)
            }),
    {
        let acme = self.allocatable_acme;
        let ts64 = self.read_word(acme - TAG_SIZE);
        if ts64 <= usize::MAX as u64 {
            let ts = ts64 as usize;
            if ts % 8 == 0 && ts >= MIN_CHUNK_SIZE && ts <= acme - self.allocatable_base {
                let top_base = acme - ts;
                if top_base <= na {
                    if self.deregister_chunk(top_base, ts) {
                        proof {
                            let pre = *old(self);
                            let e = (BinEntry { base: top_base, size: ts });
                            if pre.spec_below_free_ok(acme as int) {
                                if Self::spec_sole_chunk_within(
                                    pre,
                                    pre.allocatable_base as int,
                                    na as int,
                                    e,
                                ) {
                                    Self::lemma_entries_within_after_remove(
                                        pre,
                                        *self,
                                        e,
                                        pre.allocatable_base as int,
                                        na as int,
                                    );
                                }
                                if Self::spec_sole_chunk_within(
                                    pre,
                                    pre.allocatable_base as int,
                                    top_base as int,
                                    e,
                                ) {
                                    Self::lemma_entries_within_after_remove(
                                        pre,
                                        *self,
                                        e,
                                        pre.allocatable_base as int,
                                        top_base as int,
                                    );
                                }
                            }
                        }
                        if na - top_base >= MIN_CHUNK_SIZE && self.entries_within(
                            self.allocatable_base,
                            na,
                        ) {
                            let ghost pre = *self;
                            self.allocatable_acme = na;
                            proof {
                                lemma_wf_respan(pre, *self);
                            }
                            self.register(top_base, na);
                        } else if top_base >= self.allocatable_base + MIN_CHUNK_SIZE
                            && self.entries_within(self.allocatable_base, top_base) {
                            let ghost pre = *self;
                            self.allocatable_acme = top_base;
                            self.is_top_free = false;
                            proof {
                                lemma_wf_respan(pre, *self);
                            }
                        } else {
                            // inconsistent metadata: put the chunk back
                            self.register(top_base, acme);
                        }
                    }
                }
            }
        }
    }

    /// Shrink the bottom free chunk so that the allocatable span starts
    /// at `nb`, or drop it when what would remain is below the minimum
    /// chunk size (clearing the free-neighbour mark above it). Metadata
    /// that does not check out leaves the heap unchanged.
    #[verifier::spinoff_prover]
    #[verifier::rlimit(25)]
    fn trim_bottom(&mut self, nb: usize)
        requires
            old(self).wf(),
            nb % 8 == 0,
            old(self).allocatable_base < old(self).allocatable_acme,
            nb > old(self).allocatable_base,
            old(self).allocatable_acme - nb >= MIN_CHUNK_SIZE,
        ensures
            final(self).wf(),
            final(self).allocatable_acme == old(self).allocatable_acme,
            final(self).allocatable_base >= old(self).allocatable_base,
            final(self).arena == old(self).arena,
            final(self).oom_handler == old(self).oom_handler,
            final(self).is_top_free == old(self).is_top_free,
            ({
                let ob = old(self).allocatable_base as int;
                let oa = old(self).allocatable_acme as int;
                let bs = old(self).spec_above_free_size(ob);
                let e = (BinEntry { base: old(self).allocatable_base, size: bs as usize });
                old(self).spec_above_free_ok(ob) && ob + bs >= nb && ob + bs - nb
                    >= MIN_CHUNK_SIZE && Self::spec_sole_chunk_within(*old(self), nb as int, oa, e)
                    ==> final(self).allocatable_base == nb && (forall|j: int|
                    0 <= j < old(self).mem@.len() && ob + bs <= 8 * j ==> final(self).mem@[j]
                        == old(self).mem@[j])
            }),
    {
        let base = self.allocatable_base;
        let w = self.read_word(base);
        if w & 1 != 1 {
            let bs64 = self.read_word(base + (MIN_CHUNK_SIZE - TAG_SIZE));
            if bs64 <= usize::MAX as u64 {
                let bs = bs64 as usize;
                if bs % 8 == 0 && bs >= MIN_CHUNK_SIZE && bs <= self.allocatable_acme - base {
                    let bot_acme = base + bs;
                    if bot_acme >= nb {
                        if self.deregister_chunk(base, bs) {
                            proof {
                                let pre = *old(self);
                                let e = (BinEntry { base, size: bs });
                                if pre.spec_above_free_ok(base as int)
                                    && Self::spec_sole_chunk_within(
                                    pre,
                                    nb as int,
                                    pre.allocatable_acme as int,
                                    e,
                                ) {
                                    Self::lemma_entries_within_after_remove(
                                        pre,
                                        *self,
                                        e,
                                        nb as int,
                                        pre.allocatable_acme as int,
                                    );
                                }
                            }
                            if bot_acme - nb >= MIN_CHUNK_SIZE && self.entries_within(
                                nb,
                                self.allocatable_acme,
                            ) {
                                let ghost pre = *self;
                                self.allocatable_base = nb;
                                proof {
                                    lemma_wf_respan(pre, *self);
                                }
                                self.register(nb, bot_acme);
                            } else if self.allocatable_acme - bot_acme >= MIN_CHUNK_SIZE
                                && self.entries_within(bot_acme, self.allocatable_acme) {
                                let ghost pre = *self;
                                self.allocatable_base = bot_acme;
                                proof {
                                    lemma_wf_respan(pre, *self);
                                    lemma_aligned_gap(
                                        bot_acme as int,
                                        self.allocatable_acme as int,
                                    );
                                }
                                let w2 = self.read_word(bot_acme);
                                let ghost pre2 = *self;
                                self.write_word(
                                    bot_acme,
                                    (Tag { word: w2 }).with_below_free_cleared().word,
                                );
                                proof {
                                    lemma_wf_frame(pre2, *self);
                                }
                            } else {
                                // inconsistent metadata: put the chunk back
                                self.register(base, bot_acme);
                            }
                        }
                    }
                }
            }
        }
    }
}

impl Talc<ErrOnOom> {
    /// A heap initialized over `arena`, failing exhausted allocations.
    pub fn with_arena(arena: Span) -> (r: Talc<ErrOnOom>)
        requires
            !arena.spec_contains(0),
        ensures
            r.wf(),
            Talc::<ErrOnOom>::spec_init_result(r, arena),
    {
        let mut talc = Talc::new();
        talc.init(arena);
        talc
    }
}

impl<H: OomHandler> Talc<H> {
    /// A heap initialized over `arena` with the given policy.
    pub fn with_arena_and_oom_handler(arena: Span, oom_handler: H) -> (r: Talc<H>)
        requires
            !arena.spec_contains(0),
        ensures
            r.wf(),
            r.oom_handler == oom_handler,
            Self::spec_init_result(r, arena),
    {
        let mut talc = Talc::with_oom_handler(oom_handler);
        talc.init(arena);
        talc
    }
}

/// Well-formedness under a changed allocatable span or arena: the
/// bookkeeping is unchanged and every recorded chunk fits the new span.
proof fn lemma_wf_respan<H>(a: Talc<H>, b: Talc<H>)
    requires
        a.wf(),
        b.bins == a.bins,
        b.availability_low == a.availability_low,
        b.availability_high == a.availability_high,
        b.allocatable_base % 8 == 0,
        b.allocatable_acme % 8 == 0,
        b.allocatable_base <= b.allocatable_acme,
        b.allocatable_acme <= b.mem@.len() * 8,
        b.allocatable_base < b.allocatable_acme ==> b.allocatable_base >= 8
            && b.allocatable_acme - b.allocatable_base >= MIN_CHUNK_SIZE,
        b.allocatable_base == b.allocatable_acme ==> b.allocatable_base == 0,
        b.arena.spec_contains_span(b.spec_alloc_span()),
        forall|bb: int, i: int|
            0 <= bb < BIN_COUNT && 0 <= i < a.bins_view()[bb].len() ==> b.allocatable_base <= (
            #[trigger] a.bins_view()[bb][i]).base && a.bins_view()[bb][i].base
                + a.bins_view()[bb][i].size <= b.allocatable_acme,
    ensures
        b.wf(),
{
    assert(b.bins_view() =~= a.bins_view());
    assert forall|bb: int, i: int|
        0 <= bb < BIN_COUNT && 0 <= i < b.bins_view()[bb].len() implies b.entry_wf(
        b.bins_view()[bb][i]) && spec_bin_of_size(b.bins_view()[bb][i].size as int) == bb by {
        assert(a.entry_wf(a.bins_view()[bb][i]));
    }
    assert forall|bb: int|
        0 <= bb < BIN_COUNT implies (b.spec_avail(bb) <==> b.bins_view()[bb].len() > 0) by {
        assert(a.spec_avail(bb) <==> a.bins_view()[bb].len() > 0);
    }
}


impl<H> Talc<H> {
    /// Whether the free chunk `(base, size)` is recorded in the bin of
    /// its size.
    fn contains_chunk(&self, base: usize, size: usize) -> (r: bool)
        requires
            self.wf(),
            size >= MIN_CHUNK_SIZE,
        ensures
            r == exists|i: int|
                0 <= i < self.bins_view()[spec_bin_of_size(size as int)].len()
                    && self.bins_view()[spec_bin_of_size(size as int)][i] == (BinEntry {
                    base,
                    size,
                }),
    {
        let b = bin_of_size(size);
        let n = self.bins[b].len();
        let mut i: usize = 0;
        while i < n
            invariant
                self.wf(),
                b == spec_bin_of_size(size as int),
                b < BIN_COUNT,
                n == self.bins_view()[b as int].len(),
                i <= n,
                forall|k: int|
                    0 <= k < i ==> self.bins_view()[b as int][k] != (BinEntry { base, size }),
            decreases n - i,
        {
            let e = self.bins[b][i];
            if e.base == base && e.size == size {
                return true;
            }
            i = i + 1;
        }
        false
    }

    /// The chunks from `cursor` up to the allocatable acme tile that
    /// space exactly and satisfy every stored invariant: an allocated
    /// chunk's tag decodes within the span and its below-free flag
    /// equals `prev_free`; a free chunk never follows a free chunk,
    /// carries its size in both boundary words, and is recorded in the
    /// bin of its size; and at the acme, `prev_free` equals the
    /// top-free flag.
    pub open spec fn spec_consistent_from(self, cursor: int, prev_free: bool) -> bool
        decreases self.allocatable_acme - cursor,
    {
        if cursor >= self.allocatable_acme {
            cursor == self.allocatable_acme && prev_free == self.is_top_free
        } else {
            let w = self.spec_word_at(cursor);
            if w & 1 == 1 {
                let t = Tag { word: w };
                if w & crate::tag::TAG_ACME_MASK <= usize::MAX as u64 && t.spec_acme() % 8 == 0
                    && cursor + MIN_CHUNK_SIZE <= t.spec_acme() && t.spec_acme()
                    <= self.allocatable_acme && t.spec_is_below_free() == prev_free {
                    self.spec_consistent_from(t.spec_acme(), false)
                } else {
                    false
                }
            } else {
                let s64 = self.spec_word_at(cursor + (MIN_CHUNK_SIZE - TAG_SIZE));
                let s = s64 as usize;
                if !prev_free && self.allocatable_acme - cursor >= MIN_CHUNK_SIZE && s64
                    <= usize::MAX as u64 && s % 8 == 0 && s >= MIN_CHUNK_SIZE && s
                    <= self.allocatable_acme - cursor && self.spec_word_at(cursor + s - TAG_SIZE)
                    == s64 && (exists|i: int|
                    0 <= i < self.bins_view()[spec_bin_of_size(s as int)].len()
                        && self.bins_view()[spec_bin_of_size(s as int)][i] == (BinEntry {
                        base: cursor as usize,
                        size: s,
                    })) {
                    self.spec_consistent_from(cursor + s, true)
                } else {
                    false
                }
            }
        }
    }

    /// Whether the whole allocatable span is consistently tiled; an
    /// empty heap is.
    pub open spec fn spec_consistent(self) -> bool {
        self.allocatable_base == self.allocatable_acme || self.spec_consistent_from(
            self.allocatable_base as int,
            false,
        )
    }

    /// Walk the allocatable span chunk by chunk and check every stored
    /// invariant: the span is tiled exactly, no two free chunks are
    /// adjacent, each free chunk carries equal boundary size words and
    /// is recorded in the bin of its size, each allocated chunk's
    /// below-free flag matches its lower neighbour, and the top-free
    /// flag matches the highest chunk.
    ///
    /// Returns whether every check passed; an empty heap passes.
    #[verifier::spinoff_prover]
    #[verifier::rlimit(50)]
    pub fn scan_for_errors(&self) -> (r: bool)
        requires
            self.wf(),
        ensures
            r == self.spec_consistent(),
    {
        if self.allocatable_base == self.allocatable_acme {
            return true;
        }
        let acme = self.allocatable_acme;
        let mut cursor = self.allocatable_base;
        let mut prev_free = false;
        while cursor < acme
            invariant
                self.wf(),
                acme == self.allocatable_acme,
                self.allocatable_base <= cursor,
                cursor <= acme,
                cursor % 8 == 0,
                self.spec_consistent() == self.spec_consistent_from(cursor as int, prev_free),
            decreases acme - cursor,
        {
            proof {
                lemma_aligned_gap(cursor as int, acme as int);
            }
            let w = self.read_word(cursor);
            if w & 1 == 1 {
                // an allocated chunk: its tag must decode within the span
                if w & crate::tag::TAG_ACME_MASK > usize::MAX as u64 {
                    return false;
                }
                let t = Tag { word: w };
                let ca = t.acme();
                if !(ca % 8 == 0 && ca >= MIN_CHUNK_SIZE && cursor <= ca - MIN_CHUNK_SIZE && ca
                    <= acme) {
                    return false;
                }
                // the below-free flag must match the chunk below
                if t.is_below_free() != prev_free {
                    return false;
                }
                prev_free = false;
                cursor = ca;
            } else {
                // a free chunk: no free neighbour below it
                if prev_free {
                    return false;
                }
                if acme - cursor < MIN_CHUNK_SIZE {
                    return false;
                }
                let s64 = self.read_word(cursor + (MIN_CHUNK_SIZE - TAG_SIZE));
                if s64 > usize::MAX as u64 {
                    return false;
                }
                let s = s64 as usize;
                if !(s % 8 == 0 && s >= MIN_CHUNK_SIZE && s <= acme - cursor) {
                    return false;
                }
                // both boundary words carry the size
                let s2 = self.read_word(cursor + s - TAG_SIZE);
                if s2 != s64 {
                    return false;
                }
                // the chunk is recorded in the bin of its size
                if !self.contains_chunk(cursor, s) {
                    return false;
                }
                prev_free = true;
                cursor = cursor + s;
            }
        }
        // the chunks tile the span exactly
        if cursor != acme {
            return false;
        }
        // the top-free flag matches the highest chunk
        prev_free == self.is_top_free
    }

    /// A bin's availability bit is set exactly when its free list is
    /// non-empty; this holds of every well-formed heap, and every
    /// operation keeps the heap well-formed.
    pub proof fn lemma_availability_matches_bins(self, b: int)
        requires
            self.wf(),
            0 <= b < BIN_COUNT,
        ensures
            self.spec_avail(b) <==> self.bins_view()[b].len() > 0,
    {
    }
}


impl<H> Talc<H> {
    /// Read the word at `addr`, a word-aligned address within the
    /// heap's words; `None` otherwise.
    ///
    /// This is how a caller reads memory the allocator handed out.
    pub fn load(&self, addr: usize) -> (r: Option<u64>)
        ensures
            match r {
                Some(v) => addr % 8 == 0 && addr + 8 <= self.mem@.len() * 8 && v == self.mem@[addr
                    as int / 8],
                None => addr % 8 != 0 || addr + 8 > self.mem@.len() * 8,
            },
    {
        proof {
            if addr % 8 == 0 {
                lemma_div8_exact(addr as int);
                assert((addr as int / 8 < self.mem@.len()) <==> (addr + 8 <= self.mem@.len() * 8))
                    by (nonlinear_arith)
                    requires 8 * (addr as int / 8) == addr;
            }
        }
        if addr % 8 == 0 && addr / 8 < self.mem.len() {
            Some(self.mem[addr / 8])
        } else {
            None
        }
    }

    /// Write the word at `addr`, a word-aligned address within the
    /// heap's words; reports whether the write took place.
    ///
    /// This is how a caller writes memory the allocator handed out; the
    /// caller promises to write only through addresses the allocator
    /// returned, as it would with raw memory.
    pub fn store(&mut self, addr: usize, value: u64) -> (r: bool)
        ensures
            final(self).bins == old(self).bins,
            final(self).availability_low == old(self).availability_low,
            final(self).availability_high == old(self).availability_high,
            Self::same_span_fields(*final(self), *old(self)),
            final(self).oom_handler == old(self).oom_handler,
            old(self).wf() ==> final(self).wf(),
            r == (addr % 8 == 0 && addr + 8 <= old(self).mem@.len() * 8),
            r ==> final(self).mem@ == old(self).mem@.update(addr as int / 8, value),
            !r ==> final(self).mem == old(self).mem,
    {
        proof {
            if addr % 8 == 0 {
                lemma_div8_exact(addr as int);
                assert((addr as int / 8 < self.mem@.len()) <==> (addr + 8 <= self.mem@.len() * 8))
                    by (nonlinear_arith)
                    requires 8 * (addr as int / 8) == addr;
            }
        }
        if addr % 8 == 0 && addr / 8 < self.mem.len() {
            self.mem[addr / 8] = value;
            proof {
                if old(self).wf() {
                    lemma_wf_frame(*old(self), *self);
                }
            }
            true
        } else {
            false
        }
    }
}

} // verus!
