//! Fixed-point scalars and the few integer primitives everything rests on.
//!
//! A scalar is an `i64` counting multiples of `1 / FX_ONE`. Rounding in
//! the library is toward negative infinity (floor) — except in the cross
//! product, which truncates toward zero so that swapping its operands
//! exactly negates it. Every computation thus has an exact integer
//! specification: `floor_div` and `trunc_div` below are the two rounding
//! primitives, and `isqrt` is the floor square root.

use vstd::prelude::*;
use vstd::arithmetic::div_mod::{lemma_fundamental_div_mod, lemma_mod_division_less_than_divisor};

verus! {

/// The fixed-point unit: raw value of the scalar `1`.
pub const FX_ONE: i64 = 65536;

/// Sentinel magnitude standing for an unbounded interval end.
/// Far larger than any coordinate or ray parameter the library produces.
pub const FX_INF: i64 = 0x100_0000_0000;

/// Truncating (toward-zero) division by a positive divisor, as Rust's
/// own `/` rounds. Unlike flooring, truncation is odd-symmetric.
pub open spec fn trunc_div(a: int, b: int) -> int {
    if a >= 0 {
        a / b
    } else {
        -((-a) / b)
    }
}

/// Truncation is odd-symmetric: negating the dividend negates the
/// quotient exactly.
pub proof fn lemma_trunc_div_odd(a: int, b: int)
    requires
        b > 0,
    ensures
        trunc_div(-a, b) == -trunc_div(a, b),
{
}

/// Floor division for any divisor sign, as an exact spec-level function.
/// Equals Euclidean `/` for positive divisors.
pub open spec fn floor_div(a: int, b: int) -> int {
    if b > 0 {
        a / b
    } else {
        (-a) / (-b)
    }
}

/// For a positive divisor, the quotient and remainder bracket the dividend.
pub proof fn lemma_div_bound(a: int, b: int)
    requires
        b > 0,
    ensures
        b * (a / b) <= a < b * (a / b) + b,
{
    lemma_fundamental_div_mod(a, b);
    lemma_mod_division_less_than_divisor(a, b);
}

/// The quotient is the only integer whose multiples bracket the dividend.
pub proof fn lemma_div_unique(a: int, b: int, q: int)
    requires
        b > 0,
        b * q <= a < b * q + b,
    ensures
        a / b == q,
{
    lemma_div_bound(a, b);
    assert(a / b == q) by (nonlinear_arith)
        requires
            b > 0,
            b * q <= a < b * q + b,
            b * (a / b) <= a < b * (a / b) + b,
    ;
}

/// Floor division on `i128`, matching `floor_div` exactly.
pub fn fdiv(a: i128, b: i128) -> (q: i128)
    requires
        0 < b < 0x4000_0000_0000_0000_0000_0000_0000_0000,
        -0x4000_0000_0000_0000_0000_0000_0000_0000 < a
            < 0x4000_0000_0000_0000_0000_0000_0000_0000,
    ensures
        q == floor_div(a as int, b as int),
{
    if a >= 0 {
        proof {
            lemma_div_bound(a as int, b as int);
            assert(0 <= a as int / b as int <= a) by (nonlinear_arith)
                requires
                    a >= 0,
                    b >= 1,
                    b * ((a as int) / (b as int)) <= a,
            ;
        }
        a / b
    } else {
        let m: i128 = -a;
        let num: i128 = m + b - 1;
        proof {
            lemma_div_bound(num as int, b as int);
            assert(0 <= num as int / b as int <= num) by (nonlinear_arith)
                requires
                    num >= 0,
                    b >= 1,
                    b * ((num as int) / (b as int)) <= num,
            ;
            let q0 = num as int / b as int;
            assert(b * (-q0) == -(b * q0)) by (nonlinear_arith);
            lemma_div_unique(a as int, b as int, -q0);
        }
        -(num / b)
    }
}

/// Ceiling division by a positive divisor, as a spec-level function.
pub open spec fn ceil_div(a: int, b: int) -> int {
    -((-a) / b)
}

/// Ceiling division on `i128`, matching `ceil_div` exactly.
pub fn cdiv(a: i128, b: i128) -> (q: i128)
    requires
        0 < b < 0x4000_0000_0000_0000_0000_0000_0000_0000,
        -0x4000_0000_0000_0000_0000_0000_0000_0000 < a
            < 0x4000_0000_0000_0000_0000_0000_0000_0000,
    ensures
        q == ceil_div(a as int, b as int),
{
    proof {
        lemma_div_bound(-(a as int), b as int);
        assert(-a <= b * ((-(a as int)) / (b as int)) + b) by (nonlinear_arith)
            requires
                b * ((-(a as int)) / (b as int)) <= -a < b * ((-(a as int)) / (b as int)) + b,
        ;
        assert(b * ((-(a as int)) / (b as int)) <= -a);
        assert(-0x4000_0000_0000_0000_0000_0000_0000_0000 <= (-(a as int)) / (b as int)
            <= 0x4000_0000_0000_0000_0000_0000_0000_0000) by (nonlinear_arith)
            requires
                b >= 1,
                b * ((-(a as int)) / (b as int)) <= -a < b * ((-(a as int)) / (b as int)) + b,
                -0x4000_0000_0000_0000_0000_0000_0000_0000 < a
                    < 0x4000_0000_0000_0000_0000_0000_0000_0000,
        ;
    }
    let na: i128 = -a;
    -fdiv(na, b)
}

/// From `x * d <= m` with positive `d` follows `x <= m / d`.
pub proof fn lemma_mul_le_div(x: int, m: int, d: int)
    requires
        d > 0,
        x * d <= m,
    ensures
        x <= m / d,
{
    lemma_div_bound(m, d);
    assert(x <= m / d) by (nonlinear_arith)
        requires
            d > 0,
            x * d <= m,
            m < d * (m / d) + d,
    ;
}

/// From `x * d >= l` with positive `d` follows `x >= ceil_div(l, d)`.
pub proof fn lemma_mul_ge_ceil(x: int, l: int, d: int)
    requires
        d > 0,
        x * d >= l,
    ensures
        x >= ceil_div(l, d),
{
    lemma_div_bound(-l, d);
    assert(x >= -((-l) / d)) by (nonlinear_arith)
        requires
            d > 0,
            x * d >= l,
            -l < d * ((-l) / d) + d,
    ;
}

/// Everything at or above the ceiling quotient multiplies back to at
/// least the dividend.
pub proof fn lemma_ceil_mul_ge(x: int, l: int, d: int)
    requires
        d > 0,
        x >= ceil_div(l, d),
    ensures
        x * d >= l,
{
    lemma_div_bound(-l, d);
    assert(x * d >= l) by (nonlinear_arith)
        requires
            d > 0,
            x >= -((-l) / d),
            d * ((-l) / d) <= -l,
    ;
}

/// Everything at or below the floor quotient multiplies back to at most
/// the dividend.
pub proof fn lemma_floor_mul_le(x: int, u: int, d: int)
    requires
        d > 0,
        x <= u / d,
    ensures
        x * d <= u,
{
    lemma_div_bound(u, d);
    assert(x * d <= u) by (nonlinear_arith)
        requires
            d > 0,
            x <= u / d,
            d * (u / d) <= u,
    ;
}

/// Ceiling of the successor: `ceil_div(u + 1, d) == u / d + 1`.
pub proof fn lemma_ceil_succ(u: int, d: int)
    requires
        d > 0,
    ensures
        ceil_div(u + 1, d) == u / d + 1,
{
    lemma_div_bound(u, d);
    let q = u / d;
    assert(d * (-q - 1) <= -(u + 1) < d * (-q - 1) + d) by (nonlinear_arith)
        requires
            d > 0,
            d * q <= u < d * q + d,
    ;
    lemma_div_unique(-(u + 1), d, -q - 1);
}

/// Floor square root: the greatest `r` with `r * r <= n`.
pub fn isqrt(n: u128) -> (r: u128)
    requires
        n < 0x1_0000_0000_0000_0000_0000_0000_0000,  // 2^112
    ensures
        r * r <= n < (r + 1) * (r + 1),
        r < 0x100_0000_0000_0000,  // 2^56
{
    if n == 0 {
        return 0;
    }
    let mut lo: u128 = 0;
    let mut hi: u128 = 0x100_0000_0000_0000;  // 2^56
    assert(hi * hi > n) by (nonlinear_arith)
        requires
            hi == 0x100_0000_0000_0000,
            n < 0x1_0000_0000_0000_0000_0000_0000_0000,
    ;
    while lo + 1 < hi
        invariant
            lo * lo <= n,
            n < hi * hi,
            lo < hi <= 0x100_0000_0000_0000,
        decreases hi - lo,
    {
        let mid: u128 = lo + (hi - lo) / 2;
        proof {
            assert(mid * mid <= 0x1_0000_0000_0000_0000_0000_0000_0000) by (nonlinear_arith)
                requires
                    0 <= mid <= 0x100_0000_0000_0000,
            ;
        }
        if mid * mid <= n {
            lo = mid;
        } else {
            hi = mid;
        }
    }
    assert((lo + 1) * (lo + 1) >= hi * hi) by (nonlinear_arith)
        requires
            lo + 1 >= hi,
            lo >= 0,
            hi >= 1,
    ;
    lo
}

/// A uniformly random `i64` in `[min, max]`.
///
/// Relies on `rand::Rng::gen_range` over the inclusive range `min..=max`,
/// which is documented to return a uniform sample within that range.
#[verifier::external_body]
pub(crate) fn random_in_range_i64(min: i64, max: i64) -> (r: i64)
    requires
        min <= max,
    ensures
        min <= r <= max,
{
    rand::Rng::gen_range(&mut rand::thread_rng(), min..=max)
}

} // verus!
