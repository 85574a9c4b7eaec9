//! 3-component fixed-point vectors: points, directions and colours alike.
//!
//! Every operation's result is pinned exactly: scaling operations floor the
//! product of raw values back down by `FX_ONE` — the cross product alone
//! truncates toward zero, keeping it exactly anticommutative — and each
//! `ensures` states the resulting components as integer formulas over the
//! inputs.

use vstd::prelude::*;
use crate::fixed::{
    FX_ONE, floor_div, trunc_div, fdiv, isqrt, lemma_div_bound, lemma_trunc_div_odd,
    random_in_range_i64,
};

verus! {

/// Scale a raw product back to a fixed-point scalar, flooring.
pub open spec fn fxs(a: int) -> int {
    floor_div(a, FX_ONE as int)
}

/// Scale a raw product back to a fixed-point scalar, truncating toward
/// zero: the rounding of the cross product, chosen because it is
/// odd-symmetric.
pub open spec fn fxt(a: int) -> int {
    trunc_div(a, FX_ONE as int)
}

#[derive(Clone, Copy, Debug, PartialEq, Eq, Structural)]
pub struct Vec3 {
    pub x: i64,
    pub y: i64,
    pub z: i64,
}

/// Colours are vectors of three fixed-point channels in `[0, FX_ONE]`.
pub type Colour = Vec3;

/// Points reuse the vector type, as directions and colours do.
pub type Point3 = Vec3;

/// All three components lie within `[-m, m]`.
pub open spec fn bounded(v: Vec3, m: int) -> bool {
    -m <= v.x <= m && -m <= v.y <= m && -m <= v.z <= m
}

/// The raw (unscaled) inner product of two vectors.
pub open spec fn dot_raw(a: Vec3, b: Vec3) -> int {
    a.x * b.x + a.y * b.y + a.z * b.z
}

/// The fixed-point inner product.
pub open spec fn dot_fx(a: Vec3, b: Vec3) -> int {
    fxs(dot_raw(a, b))
}

/// The raw squared norm.
pub open spec fn norm2_raw(v: Vec3) -> int {
    dot_raw(v, v)
}

/// `r` is the floor square root of `n`.
pub open spec fn is_sqrt(n: int, r: int) -> bool {
    0 <= r && r * r <= n < (r + 1) * (r + 1)
}

/// The floor square root as a function, for use in contracts.
pub open spec fn sqrt_of(n: int) -> int {
    choose|r: int| is_sqrt(n, r)
}

/// The x component of the normalized vector, as `unit_vector` computes it.
pub open spec fn unit_x(v: Vec3) -> int {
    floor_div(v.x * FX_ONE, sqrt_of(norm2_raw(v)))
}

/// The y component of the normalized vector.
pub open spec fn unit_y(v: Vec3) -> int {
    floor_div(v.y * FX_ONE, sqrt_of(norm2_raw(v)))
}

/// The z component of the normalized vector.
pub open spec fn unit_z(v: Vec3) -> int {
    floor_div(v.z * FX_ONE, sqrt_of(norm2_raw(v)))
}

/// The x component of the mirror reflection of `v` about `n`.
pub open spec fn reflect_x(v: Vec3, n: Vec3) -> int {
    v.x - 2 * fxs(n.x * dot_fx(v, n))
}

/// The y component of the mirror reflection.
pub open spec fn reflect_y(v: Vec3, n: Vec3) -> int {
    v.y - 2 * fxs(n.y * dot_fx(v, n))
}

/// The z component of the mirror reflection.
pub open spec fn reflect_z(v: Vec3, n: Vec3) -> int {
    v.z - 2 * fxs(n.z * dot_fx(v, n))
}

/// The normalized vector as a vector value.
pub open spec fn unit_of(v: Vec3) -> Vec3 {
    Vec3 { x: unit_x(v) as i64, y: unit_y(v) as i64, z: unit_z(v) as i64 }
}

/// The mirror reflection as a vector value.
pub open spec fn reflect_of(v: Vec3, n: Vec3) -> Vec3 {
    Vec3 { x: reflect_x(v, n) as i64, y: reflect_y(v, n) as i64, z: reflect_z(v, n) as i64 }
}

/// The floor square root is unique, so any witness equals `sqrt_of`.
pub proof fn lemma_sqrt_unique(n: int, r: int)
    requires
        is_sqrt(n, r),
    ensures
        sqrt_of(n) == r,
{
    let c = choose|q: int| is_sqrt(n, q);
    assert(is_sqrt(n, c));
    assert(c == r) by (nonlinear_arith)
        requires
            is_sqrt(n, c),
            is_sqrt(n, r),
    ;
}

/// Componentwise products of bounded vectors have a bounded inner product.
pub proof fn lemma_dot_bound(a: Vec3, b: Vec3, ma: int, mb: int)
    requires
        bounded(a, ma),
        bounded(b, mb),
        0 <= ma,
        0 <= mb,
    ensures
        -3 * ma * mb <= dot_raw(a, b) <= 3 * ma * mb,
{
    assert(-3 * ma * mb <= a.x * b.x + a.y * b.y + a.z * b.z <= 3 * ma * mb)
        by (nonlinear_arith)
        requires
            -ma <= a.x <= ma,
            -ma <= a.y <= ma,
            -ma <= a.z <= ma,
            -mb <= b.x <= mb,
            -mb <= b.y <= mb,
            -mb <= b.z <= mb,
            0 <= ma,
            0 <= mb,
    ;
}

/// Bounded factors give a bounded product.
pub proof fn lemma_mul_bound(a: int, b: int, ma: int, mb: int)
    requires
        -ma <= a <= ma,
        -mb <= b <= mb,
        0 <= ma,
        0 <= mb,
    ensures
        -(ma * mb) <= a * b <= ma * mb,
{
    assert(-(ma * mb) <= a * b <= ma * mb) by (nonlinear_arith)
        requires
            -ma <= a <= ma,
            -mb <= b <= mb,
            0 <= ma,
            0 <= mb,
    ;
}

/// A square is never negative.
pub proof fn lemma_square_nonneg(a: int)
    ensures
        a * a >= 0,
{
    assert(a * a >= 0) by (nonlinear_arith);
}

/// Flooring a product down by the unit keeps it within the scaled bound.
pub proof fn lemma_fxs_bound(a: int, m: int)
    requires
        -m <= a <= m,
        0 <= m,
    ensures
        -(m / FX_ONE as int) - 1 <= fxs(a) <= m / FX_ONE as int,
{
    let s = FX_ONE as int;
    lemma_div_bound(a, s);
    lemma_div_bound(m, s);
    lemma_div_bound(-m, s);
    assert(-(m / s) - 1 <= a / s <= m / s) by (nonlinear_arith)
        requires
            s == 65536,
            -m <= a <= m,
            0 <= m,
            s * (a / s) <= a < s * (a / s) + s,
            s * (m / s) <= m < s * (m / s) + s,
    ;
}

/// Truncating a product down by the unit keeps it within the scaled bound.
pub proof fn lemma_fxt_bound(a: int, m: int)
    requires
        -m <= a <= m,
        0 <= m,
    ensures
        -(m / FX_ONE as int) <= fxt(a) <= m / FX_ONE as int,
{
    if a >= 0 {
        lemma_fxs_bound(a, m);
        lemma_div_bound(a, FX_ONE as int);
        assert(a / (FX_ONE as int) >= 0) by (nonlinear_arith)
            requires
                a >= 0,
                (FX_ONE as int) * (a / (FX_ONE as int)) <= a < (FX_ONE as int) * (a / (
                FX_ONE as int)) + FX_ONE,
        ;
    } else {
        lemma_fxs_bound(-a, m);
        lemma_div_bound(-a, FX_ONE as int);
        assert((-a) / (FX_ONE as int) >= 0) by (nonlinear_arith)
            requires
                -a >= 0,
                (FX_ONE as int) * ((-a) / (FX_ONE as int)) <= -a < (FX_ONE as int) * ((-a) / (
                FX_ONE as int)) + FX_ONE,
        ;
    }
}

/// Swapping the cross product's operands negates every component exactly:
/// the numerators negate, and truncation is odd-symmetric.
pub proof fn lemma_cross_antisymmetric(a: Vec3, b: Vec3)
    ensures
        fxt(a.y * b.z - a.z * b.y) == -fxt(b.y * a.z - b.z * a.y),
        fxt(a.z * b.x - a.x * b.z) == -fxt(b.z * a.x - b.x * a.z),
        fxt(a.x * b.y - a.y * b.x) == -fxt(b.x * a.y - b.y * a.x),
{
    assert(a.y * b.z - a.z * b.y == -(b.y * a.z - b.z * a.y)) by (nonlinear_arith);
    assert(a.z * b.x - a.x * b.z == -(b.z * a.x - b.x * a.z)) by (nonlinear_arith);
    assert(a.x * b.y - a.y * b.x == -(b.x * a.y - b.y * a.x)) by (nonlinear_arith);
    lemma_trunc_div_odd(b.y * a.z - b.z * a.y, FX_ONE as int);
    lemma_trunc_div_odd(b.z * a.x - b.x * a.z, FX_ONE as int);
    lemma_trunc_div_odd(b.x * a.y - b.y * a.x, FX_ONE as int);
}

/// The cross of a vector with itself is exactly the zero vector.
pub proof fn lemma_cross_self_zero(a: Vec3)
    ensures
        fxt(a.y * a.z - a.z * a.y) == 0,
        fxt(a.z * a.x - a.x * a.z) == 0,
        fxt(a.x * a.y - a.y * a.x) == 0,
{
    assert(a.y * a.z - a.z * a.y == 0) by (nonlinear_arith);
    assert(a.z * a.x - a.x * a.z == 0) by (nonlinear_arith);
    assert(a.x * a.y - a.y * a.x == 0) by (nonlinear_arith);
    crate::fixed::lemma_div_unique(0, FX_ONE as int, 0);
}

impl Vec3 {
    pub fn new(x: i64, y: i64, z: i64) -> (r: Self)
        ensures
            r == (Vec3 { x, y, z }),
    {
        Vec3 { x, y, z }
    }

    pub fn zero() -> (r: Self)
        ensures
            r == (Vec3 { x: 0i64, y: 0i64, z: 0i64 }),
    {
        Vec3 { x: 0, y: 0, z: 0 }
    }

    pub fn x(self) -> (r: i64)
        ensures
            r == self.x,
    {
        self.x
    }

    pub fn y(self) -> (r: i64)
        ensures
            r == self.y,
    {
        self.y
    }

    pub fn z(self) -> (r: i64)
        ensures
            r == self.z,
    {
        self.z
    }

    pub fn add(self, o: Self) -> (r: Self)
        requires
            bounded(self, 0x2000_0000_0000_0000int),
            bounded(o, 0x2000_0000_0000_0000int),
        ensures
            r.x == self.x + o.x,
            r.y == self.y + o.y,
            r.z == self.z + o.z,
    {
        Vec3 { x: self.x + o.x, y: self.y + o.y, z: self.z + o.z }
    }

    pub fn sub(self, o: Self) -> (r: Self)
        requires
            bounded(self, 0x2000_0000_0000_0000int),
            bounded(o, 0x2000_0000_0000_0000int),
        ensures
            r.x == self.x - o.x,
            r.y == self.y - o.y,
            r.z == self.z - o.z,
    {
        Vec3 { x: self.x - o.x, y: self.y - o.y, z: self.z - o.z }
    }

    pub fn neg(self) -> (r: Self)
        requires
            bounded(self, 0x2000_0000_0000_0000int),
        ensures
            r.x == -self.x,
            r.y == -self.y,
            r.z == -self.z,
    {
        Vec3 { x: -self.x, y: -self.y, z: -self.z }
    }

    /// Scale by a fixed-point scalar: each component is floored back down.
    pub fn scale(self, s: i64) -> (r: Self)
        requires
            -(0x4000_0000_0000_0000_0000int) <= self.x * s <= 0x4000_0000_0000_0000_0000int,
            -(0x4000_0000_0000_0000_0000int) <= self.y * s <= 0x4000_0000_0000_0000_0000int,
            -(0x4000_0000_0000_0000_0000int) <= self.z * s <= 0x4000_0000_0000_0000_0000int,
        ensures
            r.x == fxs(self.x * s),
            r.y == fxs(self.y * s),
            r.z == fxs(self.z * s),
            bounded(r, 0x4000_0000_0000_0001int),
    {
        proof {
            lemma_fxs_bound(self.x * s, 0x4000_0000_0000_0000_0000int);
            lemma_fxs_bound(self.y * s, 0x4000_0000_0000_0000_0000int);
            lemma_fxs_bound(self.z * s, 0x4000_0000_0000_0000_0000int);
            assert(0x4000_0000_0000_0000_0000int / (FX_ONE as int) == 0x4000_0000_0000_0000int);
        }
        Vec3 {
            x: fdiv(self.x as i128 * s as i128, FX_ONE as i128) as i64,
            y: fdiv(self.y as i128 * s as i128, FX_ONE as i128) as i64,
            z: fdiv(self.z as i128 * s as i128, FX_ONE as i128) as i64,
        }
    }

    /// Componentwise product, as colours multiply.
    pub fn comp_mul(self, o: Self) -> (r: Self)
        requires
            -(0x4000_0000_0000_0000_0000int) <= self.x * o.x <= 0x4000_0000_0000_0000_0000int,
            -(0x4000_0000_0000_0000_0000int) <= self.y * o.y <= 0x4000_0000_0000_0000_0000int,
            -(0x4000_0000_0000_0000_0000int) <= self.z * o.z <= 0x4000_0000_0000_0000_0000int,
        ensures
            r.x == fxs(self.x * o.x),
            r.y == fxs(self.y * o.y),
            r.z == fxs(self.z * o.z),
            bounded(r, 0x4000_0000_0000_0001int),
    {
        proof {
            lemma_fxs_bound(self.x * o.x, 0x4000_0000_0000_0000_0000int);
            lemma_fxs_bound(self.y * o.y, 0x4000_0000_0000_0000_0000int);
            lemma_fxs_bound(self.z * o.z, 0x4000_0000_0000_0000_0000int);
            assert(0x4000_0000_0000_0000_0000int / (FX_ONE as int) == 0x4000_0000_0000_0000int);
        }
        Vec3 {
            x: fdiv(self.x as i128 * o.x as i128, FX_ONE as i128) as i64,
            y: fdiv(self.y as i128 * o.y as i128, FX_ONE as i128) as i64,
            z: fdiv(self.z as i128 * o.z as i128, FX_ONE as i128) as i64,
        }
    }

    pub fn dot(self, rhs: Self) -> (r: i64)
        requires
            bounded(self, 0x1000_0000_0000_0000int),
            bounded(rhs, 0x1000_0000_0000_0000int),
            -(0x4000_0000_0000_0000_0000int) < dot_raw(self, rhs) < (0x4000_0000_0000_0000_0000int),
        ensures
            r == dot_fx(self, rhs),
    {
        proof {
            lemma_mul_bound(self.x as int, rhs.x as int, 0x1000_0000_0000_0000int, 0x1000_0000_0000_0000int);
            lemma_mul_bound(self.y as int, rhs.y as int, 0x1000_0000_0000_0000int, 0x1000_0000_0000_0000int);
            lemma_mul_bound(self.z as int, rhs.z as int, 0x1000_0000_0000_0000int, 0x1000_0000_0000_0000int);
        }
        let s: i128 = self.x as i128 * rhs.x as i128 + self.y as i128 * rhs.y as i128
            + self.z as i128 * rhs.z as i128;
        let q = fdiv(s, FX_ONE as i128);
        proof {
            lemma_fxs_bound(s as int, 0x4000_0000_0000_0000_0000int);
            assert(0x4000_0000_0000_0000_0000int / (FX_ONE as int) == 0x4000_0000_0000_0000int);
        }
        q as i64
    }

    /// The cross product, each component truncated toward zero — the one
    /// place the library rounds that way, so that swapping the operands
    /// negates the result exactly (`lemma_cross_antisymmetric`) and the
    /// self-cross is exactly zero (`lemma_cross_self_zero`).
    pub fn cross(self, rhs: Self) -> (r: Self)
        requires
            bounded(self, 0x40_0000_0000int),
            bounded(rhs, 0x40_0000_0000int),
        ensures
            r.x == fxt(self.y * rhs.z - self.z * rhs.y),
            r.y == fxt(self.z * rhs.x - self.x * rhs.z),
            r.z == fxt(self.x * rhs.y - self.y * rhs.x),
            bounded(r, 0x2000_0000_0000_0000int),
    {
        proof {
            lemma_cross_comp_fits(self.y as int, rhs.z as int, self.z as int, rhs.y as int);
            lemma_cross_comp_fits(self.z as int, rhs.x as int, self.x as int, rhs.z as int);
            lemma_cross_comp_fits(self.x as int, rhs.y as int, self.y as int, rhs.x as int);
        }
        Vec3 {
            x: ((self.y as i128 * rhs.z as i128 - self.z as i128 * rhs.y as i128) / (
            FX_ONE as i128)) as i64,
            y: ((self.z as i128 * rhs.x as i128 - self.x as i128 * rhs.z as i128) / (
            FX_ONE as i128)) as i64,
            z: ((self.x as i128 * rhs.y as i128 - self.y as i128 * rhs.x as i128) / (
            FX_ONE as i128)) as i64,
        }
    }

    /// The fixed-point squared length.
    pub fn length_squared(self) -> (r: i64)
        requires
            bounded(self, 0x40_0000_0000int),
        ensures
            r == fxs(norm2_raw(self)),
    {
        proof {
            lemma_dot_bound(self, self, 0x40_0000_0000int, 0x40_0000_0000int);
        }
        self.dot(self)
    }

    /// The raw length: the floor square root of the raw squared norm,
    /// which is again a fixed-point scalar.
    pub fn length(self) -> (r: i64)
        requires
            bounded(self, 0x2000_0000_0000int),
        ensures
            r == sqrt_of(norm2_raw(self)),
            is_sqrt(norm2_raw(self), r as int),
    {
        proof {
            lemma_dot_bound(self, self, 0x2000_0000_0000int, 0x2000_0000_0000int);
            lemma_square_nonneg(self.x as int);
            lemma_square_nonneg(self.y as int);
            lemma_square_nonneg(self.z as int);
        }
        let n: u128 = (self.x as i128 * self.x as i128 + self.y as i128 * self.y as i128
            + self.z as i128 * self.z as i128) as u128;
        let r = isqrt(n);
        proof {
            lemma_sqrt_unique(norm2_raw(self), r as int);
        }
        r as i64
    }

    /// Normalize to (fixed-point) unit length by the raw floor square root.
    pub fn unit_vector(self) -> (r: Self)
        requires
            bounded(self, 0x2000_0000_0000int),
            norm2_raw(self) > 0,
        ensures
            r.x == unit_x(self),
            r.y == unit_y(self),
            r.z == unit_z(self),
            bounded(r, FX_ONE as int),
    {
        let len = self.length();
        proof {
            lemma_square_nonneg(self.x as int);
            lemma_square_nonneg(self.y as int);
            lemma_square_nonneg(self.z as int);
            lemma_unit_comp_bound(self.x as int, norm2_raw(self), len as int);
            lemma_unit_comp_bound(self.y as int, norm2_raw(self), len as int);
            lemma_unit_comp_bound(self.z as int, norm2_raw(self), len as int);
        }
        Vec3 {
            x: fdiv(self.x as i128 * FX_ONE as i128, len as i128) as i64,
            y: fdiv(self.y as i128 * FX_ONE as i128, len as i128) as i64,
            z: fdiv(self.z as i128 * FX_ONE as i128, len as i128) as i64,
        }
    }

    /// True exactly when every component is zero: the fixed-point analogue
    /// of the degenerate-direction test.
    pub fn near_zero(self) -> (r: bool)
        ensures
            r == (self.x == 0 && self.y == 0 && self.z == 0),
    {
        self.x == 0 && self.y == 0 && self.z == 0
    }
}

/// A cross-product component of `2^38`-bounded vectors fits an `i64`.
proof fn lemma_cross_comp_fits(a: int, b: int, c: int, d: int)
    requires
        -(0x40_0000_0000int) <= a <= 0x40_0000_0000int,
        -(0x40_0000_0000int) <= b <= 0x40_0000_0000int,
        -(0x40_0000_0000int) <= c <= 0x40_0000_0000int,
        -(0x40_0000_0000int) <= d <= 0x40_0000_0000int,
    ensures
        -(0x2000_0000_0000_0000_0000int) <= a * b - c * d <= 0x2000_0000_0000_0000_0000int,
        -(0x1000_0000_0000_0000_0000int) <= a * b <= 0x1000_0000_0000_0000_0000int,
        -(0x1000_0000_0000_0000_0000int) <= c * d <= 0x1000_0000_0000_0000_0000int,
        -(0x2000_0000_0000_0000int) <= fxt(a * b - c * d) <= 0x2000_0000_0000_0000int,
{
    lemma_mul_bound(a, b, 0x40_0000_0000int, 0x40_0000_0000int);
    lemma_mul_bound(c, d, 0x40_0000_0000int, 0x40_0000_0000int);
    assert(-(0x2000_0000_0000_0000_0000int) <= a * b - c * d <= 0x2000_0000_0000_0000_0000int) by (nonlinear_arith)
        requires
            -(0x40_0000_0000int) <= a <= 0x40_0000_0000int,
            -(0x40_0000_0000int) <= b <= 0x40_0000_0000int,
            -(0x40_0000_0000int) <= c <= 0x40_0000_0000int,
            -(0x40_0000_0000int) <= d <= 0x40_0000_0000int,
    ;
    lemma_fxt_bound(a * b - c * d, 0x2000_0000_0000_0000_0000int);
    assert((0x2000_0000_0000_0000_0000int) / (FX_ONE as int) <= (0x2000_0000_0000_0000int));
}

/// Dividing a component by the vector's own floor length keeps the scaled
/// component within one fixed-point unit.
pub proof fn lemma_unit_comp_bound(x: int, n: int, len: int)
    requires
        n > 0,
        is_sqrt(n, len),
        x * x <= n,
        -(0x2000_0000_0000int) <= x <= 0x2000_0000_0000int,
    ensures
        len >= 1,
        -(FX_ONE as int) <= floor_div(x * FX_ONE, len) <= FX_ONE as int,
{
    assert(len >= 1) by (nonlinear_arith)
        requires
            is_sqrt(n, len),
            n > 0,
    ;
    assert(-len <= x <= len) by (nonlinear_arith)
        requires
            is_sqrt(n, len),
            x * x <= n,
    ;
    let s = FX_ONE as int;
    lemma_div_bound(x * s, len);
    assert(-s <= (x * s) / len <= s) by (nonlinear_arith)
        requires
            s == 65536,
            len >= 1,
            -len <= x <= len,
            len * ((x * s) / len) <= x * s < len * ((x * s) / len) + len,
    ;
}

impl Vec3 {
    /// Each component drawn uniformly from `[0, FX_ONE]`.
    pub fn random() -> (r: Self)
        ensures
            bounded(r, FX_ONE as int),
            r.x >= 0 && r.y >= 0 && r.z >= 0,
    {
        Vec3 {
            x: random_in_range_i64(0, FX_ONE),
            y: random_in_range_i64(0, FX_ONE),
            z: random_in_range_i64(0, FX_ONE),
        }
    }

    /// Each component drawn uniformly from `[min, max]`.
    pub fn random_range(min: i64, max: i64) -> (r: Self)
        requires
            min <= max,
        ensures
            min <= r.x <= max,
            min <= r.y <= max,
            min <= r.z <= max,
    {
        Vec3 {
            x: random_in_range_i64(min, max),
            y: random_in_range_i64(min, max),
            z: random_in_range_i64(min, max),
        }
    }

    /// Rejection-sample a vector of fixed-point length close to one.
    ///
    /// A bounded number of draws stands in for the almost-surely-terminating
    /// loop; the axis vector is the (practically unreachable) fallback.
    pub fn random_unit_vector() -> (r: Self)
        ensures
            bounded(r, FX_ONE as int),
            norm2_raw(r) >= (FX_ONE - 800) * (FX_ONE - 800),
            norm2_raw(r) <= (FX_ONE + 1200) * (FX_ONE + 1200),
    {
        let mut tries: u32 = 0;
        while tries < 64
            decreases 64 - tries,
        {
            let p = Self::random_range(-FX_ONE, FX_ONE);
            proof {
                lemma_dot_bound(p, p, FX_ONE as int, FX_ONE as int);
            }
            let lensq = p.length_squared();
            if 0 < lensq && lensq <= FX_ONE {
                proof {
                    lemma_lensq_pos(p);
                }
                let u = p.unit_vector();
                proof {
                    lemma_normalized_near_unit(p, u);
                }
                return u;
            }
            tries = tries + 1;
        }
        proof {
            assert((FX_ONE - 800) * (FX_ONE - 800) <= FX_ONE * FX_ONE) by (nonlinear_arith);
            assert(FX_ONE * FX_ONE <= (FX_ONE + 1200) * (FX_ONE + 1200)) by (nonlinear_arith);
        }
        Vec3 { x: FX_ONE, y: 0, z: 0 }
    }

    /// A near-unit vector on the side of `normal`, up to one unit of
    /// rounding in the raw inner product.
    pub fn random_on_hemisphere(normal: &Self) -> (r: Self)
        requires
            bounded(*normal, 0x40_0000_0000int),
        ensures
            bounded(r, FX_ONE as int),
            norm2_raw(r) >= (FX_ONE - 800) * (FX_ONE - 800),
            norm2_raw(r) <= (FX_ONE + 1200) * (FX_ONE + 1200),
            dot_raw(r, *normal) >= -(FX_ONE as int) + 1,
    {
        let u = Self::random_unit_vector();
        proof {
            lemma_dot_bound(u, *normal, FX_ONE as int, 0x40_0000_0000int);
        }
        let d = u.dot(*normal);
        let w = u.neg();
        proof {
            lemma_div_bound(dot_raw(u, *normal), FX_ONE as int);
            assert((-u.x) * normal.x + (-u.y) * normal.y + (-u.z) * normal.z
                == -(u.x * normal.x + u.y * normal.y + u.z * normal.z)) by (nonlinear_arith);
        }
        proof {
            assert((-u.x) * (-u.x) + (-u.y) * (-u.y) + (-u.z) * (-u.z) == u.x * u.x + u.y * u.y
                + u.z * u.z) by (nonlinear_arith);
        }
        if d > 0 {
            u
        } else {
            w
        }
    }

    /// Rejection-sample a point strictly inside the unit disk in the
    /// `z == 0` plane, with a bounded number of draws and the origin as
    /// fallback.
    pub fn random_in_unit_disk() -> (r: Self)
        ensures
            bounded(r, FX_ONE as int),
            r.z == 0,
            fxs(norm2_raw(r)) < FX_ONE as int,
    {
        let mut tries: u32 = 0;
        while tries < 64
            decreases 64 - tries,
        {
            let p = Vec3 {
                x: random_in_range_i64(-FX_ONE, FX_ONE),
                y: random_in_range_i64(-FX_ONE, FX_ONE),
                z: 0,
            };
            proof {
                lemma_dot_bound(p, p, FX_ONE as int, FX_ONE as int);
            }
            let lensq = p.length_squared();
            if lensq < FX_ONE {
                return p;
            }
            tries = tries + 1;
        }
        Vec3 { x: 0, y: 0, z: 0 }
    }

    /// Mirror reflection about `n`: `v - 2 (v . n) n`, scaled stepwise.
    pub fn reflect(v: &Vec3, n: &Vec3) -> (r: Vec3)
        requires
            bounded(*v, 0x4000_0000int),
            bounded(*n, 0x4000_0000int),
        ensures
            r.x == reflect_x(*v, *n),
            r.y == reflect_y(*v, *n),
            r.z == reflect_z(*v, *n),
    {
        proof {
            lemma_dot_bound(*v, *n, 0x4000_0000int, 0x4000_0000int);
            lemma_fxs_bound(dot_raw(*v, *n), 0x3000_0000_0000_0000int);
        }
        let d = v.dot(*n);
        proof {
            let db = 0x3000_0000_0000_0000int / (FX_ONE as int) + 1;
            lemma_mul_bound(n.x as int, d as int, 0x4000_0000int, db);
            lemma_mul_bound(n.y as int, d as int, 0x4000_0000int, db);
            lemma_mul_bound(n.z as int, d as int, 0x4000_0000int, db);
            lemma_fxs_bound(n.x * (d as int), 0x4000_0000int * db);
            lemma_fxs_bound(n.y * (d as int), 0x4000_0000int * db);
            lemma_fxs_bound(n.z * (d as int), 0x4000_0000int * db);
        }
        let t = n.scale(d);
        Vec3 { x: v.x - 2 * t.x, y: v.y - 2 * t.y, z: v.z - 2 * t.z }
    }
}

/// A positive fixed-point squared length means a positive raw squared norm.
proof fn lemma_lensq_pos(p: Vec3)
    requires
        fxs(norm2_raw(p)) > 0,
    ensures
        norm2_raw(p) > 0,
{
    lemma_div_bound(norm2_raw(p), FX_ONE as int);
    assert(norm2_raw(p) > 0) by (nonlinear_arith)
        requires
            (FX_ONE as int) * (norm2_raw(p) / (FX_ONE as int)) <= norm2_raw(p),
            norm2_raw(p) / (FX_ONE as int) > 0,
    ;
}

/// The clamped incidence cosine of a refraction: the floored inner
/// product of the negated incoming direction with the normal, confined to
/// the physical range `[-1, 1]`.
pub open spec fn refr_cos(uv: Vec3, n: Vec3) -> int {
    let md = fxs(-dot_raw(uv, n));
    if md > FX_ONE {
        FX_ONE as int
    } else if md < -FX_ONE {
        -FX_ONE as int
    } else {
        md
    }
}

/// The x component of the refraction's perpendicular part: the incoming
/// direction plus the cosine-scaled normal, scaled by the ratio.
pub open spec fn refr_perp_x(uv: Vec3, n: Vec3, eta: int) -> int {
    fxs((uv.x + fxs(n.x * refr_cos(uv, n))) * eta)
}

/// The y component of the refraction's perpendicular part.
pub open spec fn refr_perp_y(uv: Vec3, n: Vec3, eta: int) -> int {
    fxs((uv.y + fxs(n.y * refr_cos(uv, n))) * eta)
}

/// The z component of the refraction's perpendicular part.
pub open spec fn refr_perp_z(uv: Vec3, n: Vec3, eta: int) -> int {
    fxs((uv.z + fxs(n.z * refr_cos(uv, n))) * eta)
}

/// How far the perpendicular part's fixed-point squared length falls from
/// one, in either direction.
pub open spec fn refr_k(uv: Vec3, n: Vec3, eta: int) -> int {
    let px = refr_perp_x(uv, n, eta);
    let py = refr_perp_y(uv, n, eta);
    let pz = refr_perp_z(uv, n, eta);
    let lensq = fxs(px * px + py * py + pz * pz);
    if lensq > FX_ONE {
        lensq - FX_ONE
    } else {
        FX_ONE - lensq
    }
}

/// The magnitude of the refraction's parallel part: the floor square root
/// of the completing length, as a raw scalar.
pub open spec fn refr_spar(uv: Vec3, n: Vec3, eta: int) -> int {
    sqrt_of(refr_k(uv, n, eta) * FX_ONE)
}

/// The x component of Snell refraction: perpendicular part plus the
/// normal scaled by minus the parallel magnitude.
pub open spec fn refract_x(uv: Vec3, n: Vec3, eta: int) -> int {
    refr_perp_x(uv, n, eta) + fxs(-(n.x * refr_spar(uv, n, eta)))
}

/// The y component of Snell refraction.
pub open spec fn refract_y(uv: Vec3, n: Vec3, eta: int) -> int {
    refr_perp_y(uv, n, eta) + fxs(-(n.y * refr_spar(uv, n, eta)))
}

/// The z component of Snell refraction.
pub open spec fn refract_z(uv: Vec3, n: Vec3, eta: int) -> int {
    refr_perp_z(uv, n, eta) + fxs(-(n.z * refr_spar(uv, n, eta)))
}

impl Vec3 {
    /// Snell refraction: the perpendicular part scaled by the ratio, plus
    /// the parallel part completing the (near) unit length. The incidence
    /// cosine is clamped into the physical range `[-1, 1]`.
    pub fn refract(uv: &Vec3, n: &Vec3, etai_over_etat: i64) -> (r: Vec3)
        requires
            bounded(*uv, FX_ONE as int),
            bounded(*n, 0x200_0000int),
            0 < etai_over_etat <= 16 * FX_ONE,
        ensures
            r.x == refract_x(*uv, *n, etai_over_etat as int),
            r.y == refract_y(*uv, *n, etai_over_etat as int),
            r.z == refract_z(*uv, *n, etai_over_etat as int),
            bounded(r, 0x400_0000_0000int),
    {
        let nuv = uv.neg();
        proof {
            lemma_dot_bound(nuv, *n, FX_ONE as int, 0x200_0000int);
            lemma_fxs_bound(dot_raw(nuv, *n), 0xC00_0000_0000int);
            assert((-uv.x) * n.x + (-uv.y) * n.y + (-uv.z) * n.z == -(uv.x * n.x + uv.y * n.y
                + uv.z * n.z)) by (nonlinear_arith);
        }
        let md = nuv.dot(*n);
        let cos_theta = if md > FX_ONE {
            FX_ONE
        } else if md < -FX_ONE {
            -FX_ONE
        } else {
            md
        };
        proof {
            lemma_mul_bound(n.x as int, cos_theta as int, 0x200_0000int, FX_ONE as int);
            lemma_mul_bound(n.y as int, cos_theta as int, 0x200_0000int, FX_ONE as int);
            lemma_mul_bound(n.z as int, cos_theta as int, 0x200_0000int, FX_ONE as int);
            lemma_fxs_bound(n.x * cos_theta, 0x200_0000_0000int);
            lemma_fxs_bound(n.y * cos_theta, 0x200_0000_0000int);
            lemma_fxs_bound(n.z * cos_theta, 0x200_0000_0000int);
        }
        let nc = Vec3 {
            x: fdiv(n.x as i128 * cos_theta as i128, FX_ONE as i128) as i64,
            y: fdiv(n.y as i128 * cos_theta as i128, FX_ONE as i128) as i64,
            z: fdiv(n.z as i128 * cos_theta as i128, FX_ONE as i128) as i64,
        };
        let s1 = uv.add(nc);
        proof {
            lemma_mul_bound(s1.x as int, etai_over_etat as int, 0x400_0000int, 0x10_0000int);
            lemma_mul_bound(s1.y as int, etai_over_etat as int, 0x400_0000int, 0x10_0000int);
            lemma_mul_bound(s1.z as int, etai_over_etat as int, 0x400_0000int, 0x10_0000int);
            lemma_fxs_bound(s1.x * etai_over_etat, 0x4000_0000_0000int);
            lemma_fxs_bound(s1.y * etai_over_etat, 0x4000_0000_0000int);
            lemma_fxs_bound(s1.z * etai_over_etat, 0x4000_0000_0000int);
        }
        let r_out_perp = Vec3 {
            x: fdiv(s1.x as i128 * etai_over_etat as i128, FX_ONE as i128) as i64,
            y: fdiv(s1.y as i128 * etai_over_etat as i128, FX_ONE as i128) as i64,
            z: fdiv(s1.z as i128 * etai_over_etat as i128, FX_ONE as i128) as i64,
        };
        proof {
            lemma_dot_bound(r_out_perp, r_out_perp, 0x4000_0001int, 0x4000_0001int);
            lemma_fxs_bound(norm2_raw(r_out_perp), 0x4000_0000_0000_0000int);
            lemma_square_nonneg(r_out_perp.x as int);
            lemma_square_nonneg(r_out_perp.y as int);
            lemma_square_nonneg(r_out_perp.z as int);
        }
        let lensq = r_out_perp.dot(r_out_perp);
        let k: i64 = if lensq > FX_ONE {
            lensq - FX_ONE
        } else {
            FX_ONE - lensq
        };
        proof {
            assert(0 <= k <= 0x4001_0000_0000i64);
        }
        let kk: u128 = (k as u128) * 65536u128;
        let sq = isqrt(kk);
        proof {
            lemma_sqrt_unique(kk as int, sq as int);
            assert(sq <= 0x1_0000_0000u128) by (nonlinear_arith)
                requires
                    sq * sq <= kk,
                    kk <= 0x4001_0000_0000u128 * 65536u128,
            ;
            lemma_mul_bound(n.x as int, sq as int, 0x200_0000int, 0x1_0000_0000int);
            lemma_mul_bound(n.y as int, sq as int, 0x200_0000int, 0x1_0000_0000int);
            lemma_mul_bound(n.z as int, sq as int, 0x200_0000int, 0x1_0000_0000int);
            lemma_fxs_bound(-(n.x * (sq as int)), 0x200_0000_0000_0000int);
            lemma_fxs_bound(-(n.y * (sq as int)), 0x200_0000_0000_0000int);
            lemma_fxs_bound(-(n.z * (sq as int)), 0x200_0000_0000_0000int);
        }
        let spar: i64 = sq as i64;
        let mx: i128 = n.x as i128 * spar as i128;
        let my: i128 = n.y as i128 * spar as i128;
        let mz: i128 = n.z as i128 * spar as i128;
        let r_out_parallel = Vec3 {
            x: fdiv(-mx, FX_ONE as i128) as i64,
            y: fdiv(-my, FX_ONE as i128) as i64,
            z: fdiv(-mz, FX_ONE as i128) as i64,
        };
        r_out_perp.add(r_out_parallel)
    }
}

/// Normalizing an accepted sample — raw squared norm between one and a
/// little over one — yields a vector whose raw squared norm is within
/// `800` raw units below and `1200` above the unit: the floor in each
/// component moves it by at most one part in `256` of the length.
proof fn lemma_normalized_near_unit(p: Vec3, u: Vec3)
    requires
        bounded(p, FX_ONE as int),
        (FX_ONE as int) <= norm2_raw(p),
        fxs(norm2_raw(p)) <= FX_ONE,
        u.x == floor_div(p.x * FX_ONE, sqrt_of(norm2_raw(p))),
        u.y == floor_div(p.y * FX_ONE, sqrt_of(norm2_raw(p))),
        u.z == floor_div(p.z * FX_ONE, sqrt_of(norm2_raw(p))),
    ensures
        norm2_raw(u) >= (FX_ONE - 800) * (FX_ONE - 800),
        norm2_raw(u) <= (FX_ONE + 1200) * (FX_ONE + 1200),
{
    let s = FX_ONE as int;
    let n = norm2_raw(p);
    let len = sqrt_of(n);
    lemma_square_nonneg(p.x as int);
    lemma_square_nonneg(p.y as int);
    lemma_square_nonneg(p.z as int);
    assert(is_sqrt(n, len)) by {
        lemma_sqrt_exists(n);
    }
    assert(len >= 256) by (nonlinear_arith)
        requires
            is_sqrt(n, len),
            n >= 65536,
    ;
    lemma_div_bound(n, s);
    assert(n <= s * s + s - 1);
    assert(len <= s) by (nonlinear_arith)
        requires
            is_sqrt(n, len),
            n <= s * s + s - 1,
            s == 65536,
    ;
    lemma_div_bound(p.x * s, len);
    lemma_div_bound(p.y * s, len);
    lemma_div_bound(p.z * s, len);
    // per component: u_i * len = p_i * s - e_i with 0 <= e_i < len
    let ex = p.x * s - u.x * len;
    let ey = p.y * s - u.y * len;
    let ez = p.z * s - u.z * len;
    assert(0 <= ex < len && 0 <= ey < len && 0 <= ez < len) by (nonlinear_arith)
        requires
            len >= 1,
            len * ((p.x * s) / len) <= p.x * s < len * ((p.x * s) / len) + len,
            len * ((p.y * s) / len) <= p.y * s < len * ((p.y * s) / len) + len,
            len * ((p.z * s) / len) <= p.z * s < len * ((p.z * s) / len) + len,
            u.x == (p.x * s) / len,
            u.y == (p.y * s) / len,
            u.z == (p.z * s) / len,
            ex == p.x * s - u.x * len,
            ey == p.y * s - u.y * len,
            ez == p.z * s - u.z * len,
    ;
    // squared: (u_i len)^2 >= (p_i s)^2 - 2 |p_i| s len
    assert((u.x * len) * (u.x * len) >= (p.x * s) * (p.x * s) - 2 * s * s * len)
        by (nonlinear_arith)
        requires
            u.x * len == p.x * s - ex,
            0 <= ex < len,
            -s <= p.x <= s,
            s == 65536,
            1 <= len <= s,
    ;
    assert((u.y * len) * (u.y * len) >= (p.y * s) * (p.y * s) - 2 * s * s * len)
        by (nonlinear_arith)
        requires
            u.y * len == p.y * s - ey,
            0 <= ey < len,
            -s <= p.y <= s,
            s == 65536,
            1 <= len <= s,
    ;
    assert((u.z * len) * (u.z * len) >= (p.z * s) * (p.z * s) - 2 * s * s * len)
        by (nonlinear_arith)
        requires
            u.z * len == p.z * s - ez,
            0 <= ez < len,
            -s <= p.z <= s,
            s == 65536,
            1 <= len <= s,
    ;
    // sum, using n >= len^2
    assert((p.x * s) * (p.x * s) == s * s * (p.x * p.x)) by (nonlinear_arith);
    assert((p.y * s) * (p.y * s) == s * s * (p.y * p.y)) by (nonlinear_arith);
    assert((p.z * s) * (p.z * s) == s * s * (p.z * p.z)) by (nonlinear_arith);
    assert(s * s * (p.x * p.x) + s * s * (p.y * p.y) + s * s * (p.z * p.z) == s * s * n)
        by (nonlinear_arith)
        requires
            n == p.x * p.x + p.y * p.y + p.z * p.z,
    ;
    assert((u.x * len) * (u.x * len) == (len * len) * (u.x * u.x)) by (nonlinear_arith);
    assert((u.y * len) * (u.y * len) == (len * len) * (u.y * u.y)) by (nonlinear_arith);
    assert((u.z * len) * (u.z * len) == (len * len) * (u.z * u.z)) by (nonlinear_arith);
    assert((len * len) * (u.x * u.x) + (len * len) * (u.y * u.y) + (len * len) * (u.z * u.z)
        == (len * len) * norm2_raw(u)) by (nonlinear_arith)
        requires
            norm2_raw(u) == u.x * u.x + u.y * u.y + u.z * u.z,
    ;
    assert((u.x * len) * (u.x * len) + (u.y * len) * (u.y * len) + (u.z * len) * (u.z * len)
        >= s * s * n - 6 * s * s * len) by (nonlinear_arith)
        requires
            (u.x * len) * (u.x * len) >= (p.x * s) * (p.x * s) - 2 * s * s * len,
            (u.y * len) * (u.y * len) >= (p.y * s) * (p.y * s) - 2 * s * s * len,
            (u.z * len) * (u.z * len) >= (p.z * s) * (p.z * s) - 2 * s * s * len,
            (p.x * s) * (p.x * s) + (p.y * s) * (p.y * s) + (p.z * s) * (p.z * s) == s * s * n,
    ;
    assert((len * len) * norm2_raw(u) >= s * s * n - 6 * s * s * len);
    assert((len * len) * norm2_raw(u) >= s * s * (len * len) - 6 * s * s * len)
        by (nonlinear_arith)
        requires
            (len * len) * norm2_raw(u) >= s * s * n - 6 * s * s * len,
            n >= len * len,
            s == 65536,
    ;
    // with len >= 256 the loss stays below the 800-unit margin
    assert(s * s * (len * len) - 6 * s * s * len >= (len * len) * ((s - 800) * (s - 800)))
        by (nonlinear_arith)
        requires
            256 <= len <= s,
            s == 65536,
    ;
    assert(norm2_raw(u) >= (s - 800) * (s - 800)) by (nonlinear_arith)
        requires
            (len * len) * norm2_raw(u) >= (len * len) * ((s - 800) * (s - 800)),
            len >= 1,
    ;
    // upper bound: each floored component overshoots by less than one
    // part in `len`, and the sample's norm is below `(len + 1)^2`
    assert((u.x * len) * (u.x * len) <= (p.x * s) * (p.x * s) + 2 * s * s * len + len * len)
        by (nonlinear_arith)
        requires
            u.x * len == p.x * s - ex,
            0 <= ex < len,
            -s <= p.x <= s,
            s == 65536,
            1 <= len <= s,
    ;
    assert((u.y * len) * (u.y * len) <= (p.y * s) * (p.y * s) + 2 * s * s * len + len * len)
        by (nonlinear_arith)
        requires
            u.y * len == p.y * s - ey,
            0 <= ey < len,
            -s <= p.y <= s,
            s == 65536,
            1 <= len <= s,
    ;
    assert((u.z * len) * (u.z * len) <= (p.z * s) * (p.z * s) + 2 * s * s * len + len * len)
        by (nonlinear_arith)
        requires
            u.z * len == p.z * s - ez,
            0 <= ez < len,
            -s <= p.z <= s,
            s == 65536,
            1 <= len <= s,
    ;
    assert((u.x * len) * (u.x * len) + (u.y * len) * (u.y * len) + (u.z * len) * (u.z * len)
        <= s * s * n + 6 * s * s * len + 3 * (len * len)) by (nonlinear_arith)
        requires
            (u.x * len) * (u.x * len) <= (p.x * s) * (p.x * s) + 2 * s * s * len + len * len,
            (u.y * len) * (u.y * len) <= (p.y * s) * (p.y * s) + 2 * s * s * len + len * len,
            (u.z * len) * (u.z * len) <= (p.z * s) * (p.z * s) + 2 * s * s * len + len * len,
            (p.x * s) * (p.x * s) + (p.y * s) * (p.y * s) + (p.z * s) * (p.z * s) == s * s * n,
    ;
    assert((len * len) * norm2_raw(u) <= s * s * n + 6 * s * s * len + 3 * (len * len));
    assert(n <= len * len + 2 * len) by (nonlinear_arith)
        requires
            is_sqrt(n, len),
    ;
    assert((len * len) * norm2_raw(u) <= (len * len) * ((s + 1200) * (s + 1200)))
        by (nonlinear_arith)
        requires
            (len * len) * norm2_raw(u) <= s * s * n + 6 * s * s * len + 3 * (len * len),
            n <= len * len + 2 * len,
            256 <= len <= s,
            s == 65536,
    ;
    assert(norm2_raw(u) <= (s + 1200) * (s + 1200)) by (nonlinear_arith)
        requires
            (len * len) * norm2_raw(u) <= (len * len) * ((s + 1200) * (s + 1200)),
            len >= 1,
    ;
}

/// Every nonnegative integer has a floor square root.
pub proof fn lemma_sqrt_exists(n: int)
    requires
        n >= 0,
    ensures
        is_sqrt(n, sqrt_of(n)),
        sqrt_of(n) >= 0,
    decreases n,
{
    if n == 0 {
        assert(is_sqrt(0, 0));
        lemma_sqrt_unique(0, 0);
    } else {
        lemma_sqrt_exists(n - 1);
        let r = sqrt_of(n - 1);
        if (r + 1) * (r + 1) <= n {
            assert(is_sqrt(n, r + 1)) by (nonlinear_arith)
                requires
                    is_sqrt(n - 1, r),
                    (r + 1) * (r + 1) <= n,
            ;
            lemma_sqrt_unique(n, r + 1);
        } else {
            assert(is_sqrt(n, r));
            lemma_sqrt_unique(n, r);
        }
    }
}

/// A direction that is not all zero has a positive squared norm.
pub proof fn lemma_dir_norm_pos(d: Vec3)
    requires
        !(d.x == 0 && d.y == 0 && d.z == 0),
    ensures
        norm2_raw(d) >= 1,
{
    lemma_square_nonneg(d.x as int);
    lemma_square_nonneg(d.y as int);
    lemma_square_nonneg(d.z as int);
    if d.x != 0 {
        assert(d.x * d.x >= 1) by (nonlinear_arith)
            requires
                d.x != 0,
        ;
    } else if d.y != 0 {
        assert(d.y * d.y >= 1) by (nonlinear_arith)
            requires
                d.y != 0,
        ;
    } else {
        assert(d.z * d.z >= 1) by (nonlinear_arith)
            requires
                d.z != 0,
        ;
    }
}

} // verus!
