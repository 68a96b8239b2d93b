use vstd::arithmetic::div_mod::{
    lemma_fundamental_div_mod, lemma_mod_bound, lemma_mod_multiples_basic,
};
use vstd::prelude::*;

verus! {

/// Machine word size in bytes: the unit of all heap metadata.
pub const WORD_SIZE: usize = 8;

/// Alignment of every chunk base and acme.
pub const ALIGN: usize = 8;

/// Size of the two-pointer link node embedded in every free chunk.
pub const NODE_SIZE: usize = 16;

/// Size of the tag word that sits below every allocated chunk.
pub const TAG_SIZE: usize = 8;

/// Minimum size of any chunk, free or allocated.
pub const MIN_CHUNK_SIZE: usize = 24;

/// `x` rounded down to a multiple of `a`.
pub open spec fn spec_align_down(x: int, a: int) -> int
    recommends
        a >= 1,
{
    x - x % a
}

/// `x` rounded up to a multiple of `a`.
pub open spec fn spec_align_up(x: int, a: int) -> int
    recommends
        a >= 1,
{
    if x % a == 0 {
        x
    } else {
        x + a - x % a
    }
}

pub proof fn lemma_align_down(x: int, a: int)
    requires
        x >= 0,
        a >= 1,
    ensures
        spec_align_down(x, a) % a == 0,
        x - a < spec_align_down(x, a) <= x,
{
    lemma_fundamental_div_mod(x, a);
    lemma_mod_bound(x, a);
    let q = x / a;
    assert(spec_align_down(x, a) == a * q);
    lemma_mod_multiples_basic(q, a);
    assert((a * q) % a == 0) by {
        assert(a * q == q * a) by (nonlinear_arith);
    }
}

pub proof fn lemma_align_up(x: int, a: int)
    requires
        x >= 0,
        a >= 1,
    ensures
        spec_align_up(x, a) % a == 0,
        x <= spec_align_up(x, a) < x + a,
{
    lemma_fundamental_div_mod(x, a);
    lemma_mod_bound(x, a);
    if x % a != 0 {
        let q = x / a;
        let m = x % a;
        assert(x + a - m == a * (q + 1)) by (nonlinear_arith)
            requires x == a * q + m;
        lemma_mod_multiples_basic(q + 1, a);
        assert((a * (q + 1)) % a == 0) by {
            assert(a * (q + 1) == (q + 1) * a) by (nonlinear_arith);
        }
    }
}

/// A multiple of `a` that is at least `x` is at least `x` rounded up.
pub proof fn lemma_align_up_least(x: int, a: int, m: int)
    requires
        x >= 0,
        a >= 1,
        m % a == 0,
        m >= x,
    ensures
        m >= spec_align_up(x, a),
{
    lemma_align_up(x, a);
    let r = spec_align_up(x, a);
    if m < r {
        lemma_fundamental_div_mod(m, a);
        lemma_fundamental_div_mod(r, a);
        let qm = m / a;
        let qr = r / a;
        assert(m == a * qm && r == a * qr);
        assert(qm < qr) by {
            assert(a * qm < a * qr ==> qm < qr) by (nonlinear_arith)
                requires a >= 1;
        }
        assert(a * qm <= a * (qr - 1)) by (nonlinear_arith)
            requires a >= 1, qm <= qr - 1;
        assert(a * (qr - 1) == a * qr - a) by (nonlinear_arith);
        assert(m <= r - a);
        assert(r < x + a);
        assert(m < x);
    }
}

/// Divisibility carries down: a multiple of `a` is a multiple of every
/// divisor of `a`.
pub proof fn lemma_divides_trans(x: int, a: int, b: int)
    requires
        x >= 0,
        a >= 1,
        b >= 1,
        x % a == 0,
        a % b == 0,
    ensures
        x % b == 0,
{
    lemma_fundamental_div_mod(x, a);
    lemma_fundamental_div_mod(a, b);
    let qa = x / a;
    let qb = a / b;
    assert(x == (b * qb) * qa);
    assert((b * qb) * qa == b * (qb * qa)) by (nonlinear_arith);
    lemma_mod_multiples_basic(qb * qa, b);
    assert((b * (qb * qa)) % b == 0) by {
        assert(b * (qb * qa) == (qb * qa) * b) by (nonlinear_arith);
    }
}

/// Two distinct word-aligned addresses are at least a word apart.
pub proof fn lemma_aligned_gap(a: int, b: int)
    requires
        0 <= a < b,
        a % 8 == 0,
        b % 8 == 0,
    ensures
        a + 8 <= b,
{
    lemma_fundamental_div_mod(a, 8);
    lemma_fundamental_div_mod(b, 8);
    let qa = a / 8;
    let qb = b / 8;
    assert(8 * qa < 8 * qb);
    assert(qa < qb) by (nonlinear_arith)
        requires 8 * qa < 8 * qb;
    assert(8 * (qa + 1) <= 8 * qb) by (nonlinear_arith)
        requires qa + 1 <= qb;
}

/// A multiple of eight no larger than `x` is no larger than `x`
/// rounded down.
pub proof fn lemma_align_down_greatest(x: int, m: int)
    requires
        0 <= m <= x,
        m % 8 == 0,
    ensures
        m <= spec_align_down(x, 8),
{
    lemma_align_down(x, 8);
    let r = spec_align_down(x, 8);
    if m > r {
        lemma_aligned_gap(r, m);
    }
}

/// The exact quotient of a word-aligned value.
pub proof fn lemma_div8_exact(x: int)
    requires
        x >= 0,
        x % 8 == 0,
    ensures
        8 * (x / 8) == x,
{
    lemma_fundamental_div_mod(x, 8);
}

/// Adding whole words to a word-aligned value keeps it word-aligned.
pub proof fn lemma_mul8_mod(q: int, w: int)
    requires
        q >= 0,
        w >= 0,
        q % 8 == 0,
    ensures
        (q + 8 * w) % 8 == 0,
{
    lemma_fundamental_div_mod(q, 8);
    let k = q / 8 + w;
    assert(q + 8 * w == 8 * k);
    lemma_mod_multiples_basic(k, 8);
    assert((8 * k) % 8 == 0) by {
        assert(8 * k == k * 8) by (nonlinear_arith);
    }
}

/// Whether rounding `p` up to the word alignment would leave the address space.
pub open spec fn spec_align_up_overflows(p: usize) -> bool {
    p + (ALIGN - 1) > usize::MAX
}

/// True when `p` cannot be rounded up to `ALIGN` without wrapping.
pub fn align_up_overflows(p: usize) -> (r: bool)
    ensures
        r == spec_align_up_overflows(p),
{
    p > usize::MAX - (ALIGN - 1)
}

/// Round `p` down to the word alignment.
pub fn align_down(p: usize) -> (r: usize)
    ensures
        r == spec_align_down(p as int, ALIGN as int),
        r <= p < r + ALIGN,
        r % 8 == 0,
{
    proof {
        lemma_align_down(p as int, ALIGN as int);
    }
    p - p % ALIGN
}

/// Round `p` up to the word alignment.
pub fn align_up(p: usize) -> (r: usize)
    requires
        !spec_align_up_overflows(p),
    ensures
        r == spec_align_up(p as int, ALIGN as int),
        p <= r < p + ALIGN,
        r % 8 == 0,
{
    proof {
        lemma_align_up(p as int, ALIGN as int);
    }
    let m: usize = p % ALIGN;
    if m == 0 {
        p
    } else {
        p + (ALIGN - m)
    }
}

/// Round `p` up to a multiple of `align`; `None` when that would wrap.
pub fn align_up_by(p: usize, align: usize) -> (r: Option<usize>)
    requires
        align >= 1,
    ensures
        match r {
            Some(v) => v == spec_align_up(p as int, align as int) && p <= v < p + align && v
                % align == 0,
            None => spec_align_up(p as int, align as int) > usize::MAX,
        },
{
    proof {
        lemma_align_up(p as int, align as int);
    }
    let m: usize = p % align;
    if m == 0 {
        Some(p)
    } else if p <= usize::MAX - (align - m) {
        Some(p + (align - m))
    } else {
        None
    }
}


} // verus!
