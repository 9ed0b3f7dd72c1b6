//! 16.16 fixed-point scalar arithmetic.
//!
//! A real number x is represented by the `i64` value `round(x * FP_ONE)`.
//! Multiplication and division truncate toward zero; the contracts state
//! the results exactly through `tdiv`, and the lemmas at the end give the
//! bound and monotonicity facts the rest of the library needs.

use vstd::prelude::*;
use vstd::arithmetic::div_mod::{
    lemma_div_is_ordered, lemma_div_nonincreasing, lemma_div_pos_is_pos,
    lemma_div_multiples_vanish,
};

verus! {

/// The fixed-point unit: the representation of the real number 1.
pub const FP_ONE: i64 = 65536;

/// Magnitude of an integer.
pub open spec fn mag(a: int) -> int {
    if a >= 0 {
        a
    } else {
        -a
    }
}

/// Truncating (round-toward-zero) integer division; the divisor is
/// expected positive.
pub open spec fn tdiv(a: int, b: int) -> int {
    if a >= 0 {
        a / b
    } else {
        -((-a) / b)
    }
}

/// Fixed-point product: the mathematical product rescaled back, truncated.
pub open spec fn fmul(a: int, b: int) -> int {
    tdiv(a * b, FP_ONE as int)
}

/// Fixed-point quotient: `a / b` in real terms, truncated toward zero.
pub open spec fn fdiv(a: int, b: int) -> int {
    if b >= 0 {
        tdiv(a * FP_ONE, b)
    } else {
        tdiv(-(a * FP_ONE), -b)
    }
}

/// `r` is the integer square root of `n`.
pub open spec fn is_sqrt(n: int, r: int) -> bool {
    0 <= r && r * r <= n && n < (r + 1) * (r + 1)
}

/// The integer square root as a spec-level value.
pub open spec fn spec_isqrt(n: int) -> int {
    choose|r: int| is_sqrt(n, r)
}

/// The square root witness is unique, so `spec_isqrt` picks exactly it.
pub proof fn lemma_isqrt_unique(n: int, r: int)
    requires
        is_sqrt(n, r),
    ensures
        spec_isqrt(n) == r,
{
    assert(exists|x: int| is_sqrt(n, x)) by {
        assert(is_sqrt(n, r));
    };
    let r2 = spec_isqrt(n);
    assert(is_sqrt(n, r2));
    assert(r == r2) by (nonlinear_arith)
        requires
            is_sqrt(n, r),
            is_sqrt(n, r2),
    ;
}

/// `|a * b| <= ma * mb` whenever `|a| <= ma` and `|b| <= mb`.
pub proof fn lemma_mul_mag(a: int, b: int, ma: int, mb: int)
    requires
        mag(a) <= ma,
        mag(b) <= mb,
    ensures
        mag(a * b) <= ma * mb,
{
    assert(mag(a * b) <= ma * mb) by (nonlinear_arith)
        requires
            mag(a) <= ma,
            mag(b) <= mb,
    ;
}

/// Truncating division shrinks magnitudes and keeps signs.
pub proof fn lemma_tdiv_mag(a: int, b: int)
    requires
        b >= 1,
    ensures
        mag(tdiv(a, b)) <= mag(a),
        mag(tdiv(a, b)) <= mag(a) / b,
        a >= 0 ==> tdiv(a, b) >= 0,
        a <= 0 ==> tdiv(a, b) <= 0,
        tdiv(-a, b) == -tdiv(a, b),
{
    if a >= 0 {
        lemma_div_nonincreasing(a, b);
        lemma_div_pos_is_pos(a, b);
    } else {
        lemma_div_nonincreasing(-a, b);
        lemma_div_pos_is_pos(-a, b);
    }
}

/// Truncating division is monotone on non-negative numerators.
pub proof fn lemma_tdiv_ordered(a1: int, a2: int, b: int)
    requires
        b >= 1,
        0 <= a1 <= a2,
    ensures
        tdiv(a1, b) <= tdiv(a2, b),
{
    lemma_div_is_ordered(a1, a2, b);
}

/// Division by `b` inverts multiplication by `b` exactly.
pub proof fn lemma_tdiv_exact(k: int, b: int)
    requires
        b >= 1,
    ensures
        tdiv(k * b, b) == k,
{
    if k >= 0 {
        lemma_div_multiples_vanish(k, b);
        assert(k * b >= 0 && k * b == b * k) by (nonlinear_arith)
            requires
                k >= 0,
                b >= 1,
        ;
    } else {
        lemma_div_multiples_vanish(-k, b);
        assert(k * b < 0 && -(k * b) == b * (-k)) by (nonlinear_arith)
            requires
                k < 0,
                b >= 1,
        ;
    }
}

/// Multiplying a non-negative value by a factor in [0, 1] keeps it in
/// [0, value]; the workhorse for every energy-bound argument.
pub proof fn lemma_fmul_unit_interval(a: int, b: int)
    requires
        0 <= a,
        0 <= b <= FP_ONE as int,
    ensures
        0 <= fmul(a, b) <= a,
        0 <= a * b <= a * FP_ONE as int,
{
    assert(a * b <= a * FP_ONE as int) by (nonlinear_arith)
        requires
            0 <= a,
            b <= FP_ONE as int,
    ;
    assert(a * b >= 0) by (nonlinear_arith)
        requires
            0 <= a,
            0 <= b,
    ;
    lemma_tdiv_ordered(a * b, a * (FP_ONE as int), FP_ONE as int);
    lemma_tdiv_exact(a, FP_ONE as int);
    lemma_tdiv_mag(a * b, FP_ONE as int);
}

/// Scaling zero gives zero.
pub proof fn lemma_fmul_zero(x: int)
    ensures
        fmul(0, x) == 0,
{
    assert(0 * x == 0 && 0 * FP_ONE as int == 0) by (nonlinear_arith);
    lemma_tdiv_exact(0, FP_ONE as int);
}

/// Scaling by the fixed-point unit is the identity.
pub proof fn lemma_fmul_one(x: int)
    ensures
        fmul(FP_ONE as int, x) == x,
{
    assert(FP_ONE as int * x == x * FP_ONE as int) by (nonlinear_arith);
    lemma_tdiv_exact(x, FP_ONE as int);
}

/// Bound a fixed-point product from bounds on its factors: if
/// `ma * mb <= q * FP_ONE`, the product's magnitude stays within `q`.
pub proof fn lemma_fmul_mag(a: int, b: int, ma: int, mb: int, q: int)
    requires
        mag(a) <= ma,
        mag(b) <= mb,
        0 <= q,
        ma * mb <= q * FP_ONE as int,
    ensures
        mag(a * b) <= ma * mb,
        mag(fmul(a, b)) <= q,
{
    lemma_mul_mag(a, b, ma, mb);
    lemma_tdiv_mag(a * b, FP_ONE as int);
    lemma_tdiv_ordered(mag(a * b), q * FP_ONE as int, FP_ONE as int);
    lemma_tdiv_exact(q, FP_ONE as int);
}

/// Truncating division is monotone over all integers.
pub proof fn lemma_tdiv_mono(a1: int, a2: int, b: int)
    requires
        b >= 1,
        a1 <= a2,
    ensures
        tdiv(a1, b) <= tdiv(a2, b),
{
    if a1 >= 0 {
        lemma_div_is_ordered(a1, a2, b);
    } else if a2 >= 0 {
        lemma_div_pos_is_pos(a2, b);
        lemma_div_pos_is_pos(-a1, b);
    } else {
        lemma_div_is_ordered(-a2, -a1, b);
    }
}

/// Fixed-point multiplication.
pub fn mul_fp(a: i64, b: i64) -> (r: i64)
    requires
        -0x7fff_ffff_ffff_0000_0000 <= a as int * b as int <= 0x7fff_ffff_ffff_0000_0000,
    ensures
        r as int == fmul(a as int, b as int),
        mag(r as int) * FP_ONE as int <= mag(a as int * b as int),
{
    proof {
        lemma_tdiv_mag(a as int * b as int, FP_ONE as int);
        lemma_tdiv_ordered(
            mag(a as int * b as int),
            0x7fff_ffff_ffff_0000_0000,
            FP_ONE as int,
        );
        assert(mag(tdiv(a as int * b as int, FP_ONE as int)) * FP_ONE as int
            <= mag(a as int * b as int)) by (nonlinear_arith)
            requires
                mag(tdiv(a as int * b as int, FP_ONE as int))
                    <= mag(a as int * b as int) / FP_ONE as int,
                FP_ONE as int == 65536,
        ;
    }
    let p: i128 = (a as i128) * (b as i128);
    let q: i128 = if p >= 0 {
        p / 65536
    } else {
        -((-p) / 65536)
    };
    q as i64
}

/// Fixed-point division; truncates toward zero.
pub fn div_fp(a: i64, b: i64) -> (r: i64)
    requires
        b != 0,
        -0x7fff_ffff_ffff <= a <= 0x7fff_ffff_ffff,
    ensures
        r as int == fdiv(a as int, b as int),
        mag(r as int) <= mag(a as int) * FP_ONE as int,
{
    proof {
        lemma_mul_mag(a as int, FP_ONE as int, mag(a as int), FP_ONE as int);
        if b >= 0 {
            lemma_tdiv_mag(a as int * FP_ONE as int, b as int);
        } else {
            lemma_tdiv_mag(-(a as int * FP_ONE as int), -(b as int));
        }
    }
    let p: i128 = (a as i128) * 65536;
    if b > 0 {
        let bb: i128 = b as i128;
        let q: i128 = if p >= 0 {
            p / bb
        } else {
            -((-p) / bb)
        };
        q as i64
    } else {
        let nb: i128 = -(b as i128);
        let np: i128 = -p;
        let q: i128 = if np >= 0 {
            np / nb
        } else {
            -((-np) / nb)
        };
        q as i64
    }
}

/// Integer square root by binary search.
pub fn isqrt(n: u128) -> (r: u64)
    requires
        n < 0x10_0000_0000_0000_0000_0000_0000,
    ensures
        is_sqrt(n as int, r as int),
        r as int == spec_isqrt(n as int),
{
    let mut lo: u64 = 0;
    let mut hi: u64 = 0x4_0000_0000_0000;
    proof {
        assert(n < ((hi + 1) * (hi + 1))) by (nonlinear_arith)
            requires
                n < 0x10_0000_0000_0000_0000_0000_0000,
                hi == 0x4_0000_0000_0000,
        ;
    }
    while lo < hi
        invariant
            lo <= hi,
            hi <= 0x4_0000_0000_0000,
            lo as int * lo as int <= n as int,
            (n as int) < ((hi as int + 1) * (hi as int + 1)),
        decreases hi - lo,
    {
        let mid: u64 = lo + (hi - lo + 1) / 2;
        proof {
            assert((mid as int) * (mid as int)
                <= 0x4_0000_0000_0000 * 0x4_0000_0000_0000) by (nonlinear_arith)
                requires
                    0 <= mid as int <= 0x4_0000_0000_0000,
            ;
        }
        let sq: u128 = (mid as u128) * (mid as u128);
        if sq <= n {
            lo = mid;
        } else {
            hi = mid - 1;
        }
    }
    proof {
        lemma_isqrt_unique(n as int, lo as int);
    }
    lo
}

} // verus!
