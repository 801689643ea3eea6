//! Fixed-point scalar arithmetic.
//!
//! Coordinates and transform entries are `i64` values scaled by `ONE`:
//! the real number x is stored as `x * ONE`, truncated toward zero.
//! Every operation states its exact integer result, so rounding is part
//! of the contract rather than an afterthought.

use vstd::prelude::*;
use vstd::arithmetic::div_mod::{
    lemma_fundamental_div_mod, lemma_div_pos_is_pos, lemma_div_nonincreasing, lemma_mod_bound,
};

verus! {

/// Number of fixed-point units that stand for the real value 1.
pub const ONE: i64 = 65536;

/// Magnitude of an integer.
pub open spec fn iabs(a: int) -> int {
    if a >= 0 {
        a
    } else {
        -a
    }
}

/// Truncating division (round toward zero), for positive divisors.
/// This is the rounding that the machine's signed division performs.
pub open spec fn tdiv(a: int, b: int) -> int
    recommends
        b > 0,
{
    if a >= 0 {
        a / b
    } else {
        -((-a) / b)
    }
}

/// The quotient of a truncating division never grows in magnitude, and
/// multiplying it back by the divisor stays within the dividend.
pub proof fn lemma_tdiv_mag(a: int, b: int)
    requires
        b > 0,
    ensures
        iabs(tdiv(a, b)) * b <= iabs(a),
        iabs(tdiv(a, b)) <= iabs(a),
        a >= 0 ==> tdiv(a, b) >= 0,
        a <= 0 ==> tdiv(a, b) <= 0,
{
    let m = iabs(a);
    lemma_div_pos_is_pos(m, b);
    lemma_div_nonincreasing(m, b);
    lemma_fundamental_div_mod(m, b);
    lemma_mod_bound(m, b);
    assert(iabs(tdiv(a, b)) == m / b);
    assert((m / b) * b <= m);
}

/// A non-negative exact multiple divides back exactly.
proof fn lemma_div_exact_nonneg(q: int, b: int)
    requires
        q >= 0,
        b > 0,
    ensures
        (q * b) / b == q,
{
    lemma_fundamental_div_mod(q * b, b);
    lemma_mod_multiple_zero(q, b);
    let d = (q * b) / b;
    assert(q * b == b * d + (q * b) % b);
    assert(b * d == b * q) by (nonlinear_arith)
        requires q * b == b * d
    ;
    assert(d == q) by (nonlinear_arith)
        requires b * d == b * q, b > 0
    ;
}

/// Exact divisions are computed exactly.
pub proof fn lemma_tdiv_exact(q: int, b: int)
    requires
        b > 0,
    ensures
        tdiv(q * b, b) == q,
{
    if q >= 0 {
        lemma_div_exact_nonneg(q, b);
    } else {
        let p = -q;
        assert(-(q * b) == p * b) by (nonlinear_arith)
            requires p == -q
        ;
        lemma_div_exact_nonneg(p, b);
        assert(p * b > 0 ==> q * b < 0);
        assert(p * b >= 0) by (nonlinear_arith)
            requires p >= 0, b > 0
        ;
        if p * b == 0 {
            assert(p == 0) by (nonlinear_arith)
                requires p * b == 0, b > 0, p >= 0
            ;
        }
    }
}

/// A non-negative multiple of a positive number has remainder zero.
proof fn lemma_mod_multiple_zero(q: int, b: int)
    requires
        q >= 0,
        b > 0,
    ensures
        (q * b) % b == 0,
    decreases q,
{
    if q == 0 {
        assert(0int % b == 0) by (nonlinear_arith)
            requires b > 0
        ;
    } else {
        lemma_mod_multiple_zero(q - 1, b);
        assert(q * b == (q - 1) * b + b) by (nonlinear_arith);
        vstd::arithmetic::div_mod::lemma_mod_add_multiples_vanish((q - 1) * b, b);
        assert((b + (q - 1) * b) % b == ((q - 1) * b) % b);
    }
}

/// Interval bound on a product: factors within `la` and `lb` keep the
/// product within `la * lb`.
pub proof fn lemma_mul_bound(a: int, b: int, la: int, lb: int)
    requires
        -la <= a <= la,
        -lb <= b <= lb,
    ensures
        -(la * lb) <= a * b <= la * lb,
        iabs(a * b) <= la * lb,
{
    assert(-(la * lb) <= a * b <= la * lb) by (nonlinear_arith)
        requires
            -la <= a <= la,
            -lb <= b <= lb,
    ;
}

/// Multiplying by a positive factor scales the magnitude exactly.
pub proof fn lemma_mul_pos_mag(a: int, k: int)
    requires
        k > 0,
    ensures
        iabs(a * k) == iabs(a) * k,
{
    if a >= 0 {
        assert(a * k >= 0) by (nonlinear_arith)
            requires a >= 0, k > 0
        ;
    } else {
        assert(a * k < 0) by (nonlinear_arith)
            requires a < 0, k > 0
        ;
        assert(-(a * k) == (-a) * k) by (nonlinear_arith);
    }
}

/// Truncating division for any non-zero divisor.
pub open spec fn tdivs(a: int, b: int) -> int
    recommends
        b != 0,
{
    if b > 0 {
        tdiv(a, b)
    } else {
        -tdiv(a, -b)
    }
}

/// Truncating division with any non-zero divisor, on wide integers.
pub fn tdivs_i128(a: i128, b: i128) -> (r: i128)
    requires
        b != 0,
        b > i128::MIN,
        a > i128::MIN,
    ensures
        r == tdivs(a as int, b as int),
        iabs(r as int) <= iabs(a as int),
{
    if b > 0 {
        proof {
            lemma_tdiv_mag(a as int, b as int);
        }
        a / b
    } else {
        proof {
            lemma_tdiv_mag(a as int, -b as int);
        }
        -(a / (-b))
    }
}

/// Fixed-point product: the scaled values multiply and the result is
/// rescaled by a truncating division by `ONE`.
pub fn fp_mul(a: i64, b: i64) -> (r: i64)
    requires
        i64::MIN <= tdiv(a * b, ONE as int) <= i64::MAX,
    ensures
        r == tdiv(a * b, ONE as int),
{
    proof {
        assert(i128::MIN <= a * b <= i128::MAX) by (nonlinear_arith)
            requires i64::MIN <= a <= i64::MAX, i64::MIN <= b <= i64::MAX
        ;
    }
    let p: i128 = (a as i128) * (b as i128);
    let q: i128 = p / (ONE as i128);
    proof {
        assert(q == tdiv(a * b, ONE as int));
    }
    q as i64
}

/// The floor square root, defined by counting up.
pub open spec fn sqrt_floor(n: int) -> int
    decreases n,
{
    if n < 1 {
        0
    } else {
        let s = sqrt_floor(n - 1);
        if (s + 1) * (s + 1) <= n {
            s + 1
        } else {
            s
        }
    }
}

/// The floor square root is the unique non-negative integer whose
/// square brackets its argument.
pub proof fn lemma_sqrt_floor_bounds(n: int)
    requires
        n >= 0,
    ensures
        0 <= sqrt_floor(n),
        sqrt_floor(n) * sqrt_floor(n) <= n,
        n < (sqrt_floor(n) + 1) * (sqrt_floor(n) + 1),
    decreases n,
{
    if n == 0 {
        assert(sqrt_floor(0) == 0);
    } else {
        lemma_sqrt_floor_bounds(n - 1);
        let s = sqrt_floor(n - 1);
        if (s + 1) * (s + 1) <= n {
            assert((s + 2) * (s + 2) > (s + 1) * (s + 1) + 1) by (nonlinear_arith)
                requires s >= 0
            ;
            assert(n - 1 < (s + 1) * (s + 1));
        } else {
        }
    }
}

/// Any integer whose square brackets the argument is the floor root.
pub proof fn lemma_sqrt_floor_unique(n: int, r: int)
    requires
        n >= 0,
        r >= 0,
        r * r <= n,
        n < (r + 1) * (r + 1),
    ensures
        r == sqrt_floor(n),
{
    lemma_sqrt_floor_bounds(n);
    let s = sqrt_floor(n);
    if r < s {
        assert((r + 1) * (r + 1) <= s * s) by (nonlinear_arith)
            requires 0 <= r, r + 1 <= s
        ;
    }
    if s < r {
        assert((s + 1) * (s + 1) <= r * r) by (nonlinear_arith)
            requires 0 <= s, s + 1 <= r
        ;
    }
}

/// Compute the floor square root by bisection.
pub fn isqrt(n: u128) -> (r: u64)
    requires
        n < 0x40000000000000000000000000,
    ensures
        r as int == sqrt_floor(n as int),
        r * r <= n,
        n < (r + 1) * (r + 1),
{
    let mut lo: u64 = 0;
    let mut hi: u64 = 0x8000000000000;
    proof {
        assert(0x8000000000000 * 0x8000000000000 == 0x40000000000000000000000000int)
            by (nonlinear_arith);
        assert(0 * 0 <= n as int) by (nonlinear_arith);
    }
    while lo + 1 < hi
        invariant
            lo < hi,
            hi <= 0x8000000000000,
            (lo as int) * (lo as int) <= n as int,
            (n as int) < (hi as int) * (hi as int),
        decreases hi - lo,
    {
        let mid: u64 = lo + (hi - lo) / 2;
        proof {
            assert(lo < mid < hi);
            assert((mid as u128) * (mid as u128) <= 0x40000000000000000000000000u128)
                by (nonlinear_arith)
                requires (mid as u128) <= 0x8000000000000u128
            ;
        }
        if (mid as u128) * (mid as u128) <= n {
            lo = mid;
        } else {
            hi = mid;
        }
    }
    proof {
        assert(hi == lo + 1);
        lemma_sqrt_floor_unique(n as int, lo as int);
    }
    lo
}

} // verus!
