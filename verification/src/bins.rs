use crate::utils::MIN_CHUNK_SIZE;
use vstd::arithmetic::power2::{lemma2_to64, lemma2_to64_rest, lemma_pow2_adds, pow2};
use vstd::prelude::*;
use vstd::std_specs::bits::{axiom_u64_trailing_zeros, u64_trailing_zeros};

verus! {

/// Number of segregated free lists.
///
/// The first 64 bins hold one word-sized size step each, starting at the
/// minimum chunk size; the remaining bins hold one power-of-two size
/// doubling each, up to the top of the address space.
pub const BIN_COUNT: usize = 128;

/// Largest chunk size binned by word-sized steps; `2^9 + MIN_CHUNK_SIZE`.
pub const WORD_BIN_LIMIT: usize = 536;

/// The number of doublings above `2^9` needed before `size` fits:
/// counts up from `k` while `size` is at least `2^(10 + k)`, stopping at 54.
pub open spec fn spec_log_step(size: int, k: nat) -> nat
    decreases 54 - k,
{
    if k >= 54 || size < pow2((10 + k) as nat) {
        k
    } else {
        spec_log_step(size, (k + 1) as nat)
    }
}

/// The bin holding free chunks of `size` bytes: one bin per word-sized
/// step below `WORD_BIN_LIMIT`, then one bin per size doubling.
pub open spec fn spec_bin_of_size(size: int) -> int {
    if size < WORD_BIN_LIMIT {
        (size - MIN_CHUNK_SIZE) / 8
    } else {
        64 + spec_log_step(size, 0) as int
    }
}

proof fn lemma_log_step_props(size: int, k: nat)
    requires
        k <= 54,
    ensures
        k <= spec_log_step(size, k) <= 54,
        spec_log_step(size, k) < 54 ==> size < pow2((10 + spec_log_step(size, k)) as nat),
    decreases 54 - k,
{
    if !(k >= 54 || size < pow2((10 + k) as nat)) {
        lemma_log_step_props(size, (k + 1) as nat);
    }
}

proof fn lemma_log_step_mono(a: int, b: int, k: nat)
    requires
        a <= b,
        k <= 54,
    ensures
        spec_log_step(a, k) <= spec_log_step(b, k),
    decreases 54 - k,
{
    if k < 54 {
        if b < pow2((10 + k) as nat) {
        } else if a < pow2((10 + k) as nat) {
            lemma_log_step_props(b, k);
        } else {
            lemma_log_step_mono(a, b, (k + 1) as nat);
        }
    }
}

/// Every chunk size of at least `MIN_CHUNK_SIZE` maps to a bin index
/// below `BIN_COUNT`.
pub proof fn lemma_bin_of_size_range(size: int)
    requires
        size >= MIN_CHUNK_SIZE,
    ensures
        0 <= spec_bin_of_size(size) <= 118,
{
    if size < WORD_BIN_LIMIT {
    } else {
        lemma_log_step_props(size, 0);
    }
}

/// The bin mapping never decreases as the chunk size grows.
pub proof fn lemma_bin_of_size_mono(a: int, b: int)
    requires
        MIN_CHUNK_SIZE <= a <= b,
    ensures
        spec_bin_of_size(a) <= spec_bin_of_size(b),
{
    if b < WORD_BIN_LIMIT {
    } else if a < WORD_BIN_LIMIT {
        lemma_log_step_props(b, 0);
    } else {
        lemma_log_step_mono(a, b, 0);
    }
}

/// The bin whose free list may hold a chunk of `size` bytes.
pub fn bin_of_size(size: usize) -> (r: usize)
    requires
        size >= MIN_CHUNK_SIZE,
    ensures
        r == spec_bin_of_size(size as int),
        r <= 118,
{
    proof {
        lemma_bin_of_size_range(size as int);
    }
    if size < WORD_BIN_LIMIT {
        (size - MIN_CHUNK_SIZE) / 8
    } else {
        let s: u64 = size as u64;
        let mut k: u64 = 0;
        let mut threshold: u64 = 512;
        proof {
            lemma2_to64();
        }
        while k < 54 && s / 2 >= threshold
            invariant
                s == size as int,
                size >= WORD_BIN_LIMIT,
                k <= 54,
                threshold == pow2((9 + k) as nat),
                spec_log_step(size as int, 0) == spec_log_step(size as int, k as nat),
            decreases 54 - k,
        {
            proof {
                lemma2_to64();
                lemma2_to64_rest();
                lemma_pow2_adds((9 + k) as nat, 1);
                assert(pow2((10 + k) as nat) == 2 * pow2((9 + k) as nat));
                assert(s >= 2 * threshold);
            }
            k = k + 1;
            threshold = threshold * 2;
        }
        proof {
            if k < 54 {
                lemma2_to64();
                lemma_pow2_adds((9 + k) as nat, 1);
                assert(pow2((10 + k) as nat) == 2 * pow2((9 + k) as nat));
                assert(s < 2 * threshold);
            }
        }
        64 + (k as usize)
    }
}

/// Whether availability bit `b` is set in the bitmap pair `(low, high)`.
pub open spec fn spec_avail_bit(low: u64, high: u64, b: int) -> bool {
    if b < 64 {
        (low >> (b as u64)) & 1 == 1
    } else {
        (high >> ((b - 64) as u64)) & 1 == 1
    }
}

/// A single extracted bit is either zero or one.
pub proof fn lemma_bit_is_zero_or_one()
    ensures
        forall|w: u64, d: u64| ((#[trigger] (w >> d)) & 1 == 0) || ((w >> d) & 1 == 1),
{
    assert(forall|w: u64, d: u64| ((#[trigger] (w >> d)) & 1 == 0) || ((w >> d) & 1 == 1))
        by (bit_vector);
}

/// Set bit `b` of `w`, which must be clear.
pub fn set_bit64(w: u64, b: u64) -> (r: u64)
    requires
        b < 64,
        (w >> b) & 1 == 0,
    ensures
        (r >> b) & 1 == 1,
        forall|j: u64| j < 64 && j != b ==> (r >> j) & 1 == (w >> j) & 1,
{
    proof {
        assert((w >> b) & 1 == 0 ==> ((w ^ (1u64 << b)) >> b) & 1 == 1) by (bit_vector)
            requires b < 64;
        assert(forall|j: u64|
            j < 64 && j != b ==> ((w ^ (1u64 << b)) >> j) & 1 == (w >> j) & 1) by (bit_vector)
            requires b < 64;
    }
    w ^ (1u64 << b)
}

/// Clear bit `b` of `w`, which must be set.
pub fn clear_bit64(w: u64, b: u64) -> (r: u64)
    requires
        b < 64,
        (w >> b) & 1 == 1,
    ensures
        (r >> b) & 1 == 0,
        forall|j: u64| j < 64 && j != b ==> (r >> j) & 1 == (w >> j) & 1,
{
    proof {
        assert((w >> b) & 1 == 1 ==> ((w ^ (1u64 << b)) >> b) & 1 == 0) by (bit_vector)
            requires b < 64;
        assert(forall|j: u64|
            j < 64 && j != b ==> ((w ^ (1u64 << b)) >> j) & 1 == (w >> j) & 1) by (bit_vector)
            requires b < 64;
    }
    w ^ (1u64 << b)
}

/// The least bin index at or above `bin` whose availability bit is set
/// in `(low, high)`, found with one count-trailing-zeros per word.
pub fn find_next_avail(low: u64, high: u64, bin: usize) -> (r: Option<usize>)
    ensures
        match r {
            Some(nb) => bin <= nb < BIN_COUNT && spec_avail_bit(low, high, nb as int) && forall|
                j: int,
            | bin <= j < nb ==> !spec_avail_bit(low, high, j),
            None => forall|j: int| bin <= j < BIN_COUNT ==> !spec_avail_bit(low, high, j),
        },
{
    if bin < 64 {
        let s: u64 = bin as u64;
        let shifted: u64 = low >> s;
        if shifted != 0 {
            let tz: u64 = shifted.trailing_zeros() as u64;
            proof {
                axiom_u64_trailing_zeros(shifted);
                assert(((low >> s) >> tz) & 1 == 1 && s < 64 && tz < 64 ==> s + tz < 64 && (low
                    >> (s + tz)) & 1 == 1) by (bit_vector);
                assert forall|j: int| bin <= j < bin + tz implies !spec_avail_bit(
                    low,
                    high,
                    j,
                ) by {
                    let d: u64 = (j - s) as u64;
                    assert(((low >> s) >> d) & 1 == 0 ==> d < 64 && s < 64 && s + d < 64 ==> (low
                        >> (s + d)) & 1 == 0) by (bit_vector);
                }
            }
            Some(bin + tz as usize)
        } else if high != 0 {
            let tz: u64 = high.trailing_zeros() as u64;
            proof {
                axiom_u64_trailing_zeros(high);
                assert forall|j: int| bin <= j < 64 + tz implies !spec_avail_bit(
                    low,
                    high,
                    j,
                ) by {
                    if j < 64 {
                        let d: u64 = j as u64;
                        assert(low >> s == 0 && s <= d < 64 ==> (low >> d) & 1 == 0)
                            by (bit_vector);
                    }
                }
            }
            Some(64 + tz as usize)
        } else {
            proof {
                assert forall|j: int| bin <= j < BIN_COUNT implies !spec_avail_bit(
                    low,
                    high,
                    j,
                ) by {
                    if j < 64 {
                        let d: u64 = j as u64;
                        assert(low >> s == 0 && s <= d < 64 ==> (low >> d) & 1 == 0)
                            by (bit_vector);
                    } else {
                        let d: u64 = (j - 64) as u64;
                        assert((0u64 >> d) & 1 == 0) by (bit_vector);
                    }
                }
            }
            None
        }
    } else if bin < BIN_COUNT {
        let s: u64 = (bin - 64) as u64;
        let shifted: u64 = high >> s;
        if shifted != 0 {
            let tz: u64 = shifted.trailing_zeros() as u64;
            proof {
                axiom_u64_trailing_zeros(shifted);
                assert(((high >> s) >> tz) & 1 == 1 && s < 64 && tz < 64 ==> s + tz < 64 && (high
                    >> (s + tz)) & 1 == 1) by (bit_vector);
                assert forall|j: int| bin <= j < bin + tz implies !spec_avail_bit(
                    low,
                    high,
                    j,
                ) by {
                    let d: u64 = (j - bin) as u64;
                    assert(((high >> s) >> d) & 1 == 0 ==> d < 64 && s < 64 && s + d < 64 ==> (
                    high >> (s + d)) & 1 == 0) by (bit_vector);
                }
            }
            Some(bin + tz as usize)
        } else {
            proof {
                assert forall|j: int| bin <= j < BIN_COUNT implies !spec_avail_bit(
                    low,
                    high,
                    j,
                ) by {
                    let d: u64 = (j - 64) as u64;
                    assert(high >> s == 0 && s <= d < 64 ==> (high >> d) & 1 == 0)
                        by (bit_vector);
                }
            }
            None
        }
    } else {
        None
    }
}

} // verus!
