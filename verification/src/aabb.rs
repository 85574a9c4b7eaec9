//! Axis-aligned bounding boxes: three per-axis intervals and the ray slab
//! test.
//!
//! The slab test here carries the one contract the tree traversal needs:
//! when it answers `false`, no integer ray parameter within the query
//! interval lands the ray's point inside the box. That soundness claim is
//! exact, with no epsilon: it follows from the floor/ceiling bounds on the
//! per-axis feasible parameter ranges.

use vstd::prelude::*;
use crate::fixed::{
    FX_ONE, FX_INF, fdiv, cdiv, lemma_div_bound, lemma_mul_le_div, lemma_mul_ge_ceil,
    lemma_ceil_mul_ge, lemma_floor_mul_le, lemma_ceil_succ,
};
use crate::interval::{Interval, wf_interval};
use crate::ray::{Ray, at_x, at_y, at_z};
use crate::vec3::{Point3, bounded, fxs};

verus! {

#[derive(Clone, Copy, Debug, PartialEq, Eq, Structural)]
pub struct AABB {
    pub x: Interval,
    pub y: Interval,
    pub z: Interval,
}

/// Minimum slab thickness: boxes are padded so flat primitives still have
/// usable slabs. An even count of raw units, so halving is exact.
pub const PAD_DELTA: i64 = 8;

/// The interval of the given axis, any axis beyond the third reading as x.
pub open spec fn axis_of(b: AABB, axis: int) -> Interval {
    if axis == 1 {
        b.y
    } else if axis == 2 {
        b.z
    } else {
        b.x
    }
}

/// Box ends stay within the sentinel range.
pub open spec fn wf_box(b: AABB) -> bool {
    wf_interval(b.x) && wf_interval(b.y) && wf_interval(b.z)
}

/// Every axis interval of `inner` lies within the same axis of `outer`.
pub open spec fn contains_box(outer: AABB, inner: AABB) -> bool {
    &&& outer.x.min <= inner.x.min && inner.x.max <= outer.x.max
    &&& outer.y.min <= inner.y.min && inner.y.max <= outer.y.max
    &&& outer.z.min <= inner.z.min && inner.z.max <= outer.z.max
}

/// The point with the given coordinates lies inside the box on all axes.
pub open spec fn point_in_box(px: int, py: int, pz: int, b: AABB) -> bool {
    &&& b.x.min <= px <= b.x.max
    &&& b.y.min <= py <= b.y.max
    &&& b.z.min <= pz <= b.z.max
}

/// The smaller of two scalars.
pub open spec fn imin(a: int, b: int) -> int {
    if a <= b {
        a
    } else {
        b
    }
}

/// The larger of two scalars.
pub open spec fn imax(a: int, b: int) -> int {
    if a >= b {
        a
    } else {
        b
    }
}

impl AABB {
    /// Build from three axis intervals. An axis already `PAD_DELTA` thick
    /// is kept exactly; a thinner one is widened by half of `PAD_DELTA` on
    /// each side, so every non-inverted axis ends at least `PAD_DELTA`
    /// thick.
    pub fn new(x: &Interval, y: &Interval, z: &Interval) -> (r: Self)
        requires
            -FX_INF <= x.min <= FX_INF && -FX_INF <= x.max <= FX_INF,
            -FX_INF <= y.min <= FX_INF && -FX_INF <= y.max <= FX_INF,
            -FX_INF <= z.min <= FX_INF && -FX_INF <= z.max <= FX_INF,
        ensures
            x.max - x.min >= PAD_DELTA ==> r.x == *x,
            y.max - y.min >= PAD_DELTA ==> r.y == *y,
            z.max - z.min >= PAD_DELTA ==> r.z == *z,
            x.max - x.min < PAD_DELTA ==> r.x.min == x.min - 4 && r.x.max == x.max + 4,
            y.max - y.min < PAD_DELTA ==> r.y.min == y.min - 4 && r.y.max == y.max + 4,
            z.max - z.min < PAD_DELTA ==> r.z.min == z.min - 4 && r.z.max == z.max + 4,
            x.max - x.min >= 0 ==> r.x.max - r.x.min >= PAD_DELTA,
            y.max - y.min >= 0 ==> r.y.max - r.y.min >= PAD_DELTA,
            z.max - z.min >= 0 ==> r.z.max - r.z.min >= PAD_DELTA,
            r.x.min <= x.min && x.max <= r.x.max && r.x.min >= x.min - 4 && r.x.max <= x.max + 4,
            r.y.min <= y.min && y.max <= r.y.max && r.y.min >= y.min - 4 && r.y.max <= y.max + 4,
            r.z.min <= z.min && z.max <= r.z.max && r.z.min >= z.min - 4 && r.z.max <= z.max + 4,
    {
        let mut aabb = AABB { x: *x, y: *y, z: *z };
        aabb.pad_to_minimum();
        aabb
    }

    /// The everywhere-empty box, the neutral element of `from_boxes`.
    pub fn empty() -> (r: Self)
        ensures
            r.x.min == FX_INF && r.x.max == -FX_INF,
            r.y.min == FX_INF && r.y.max == -FX_INF,
            r.z.min == FX_INF && r.z.max == -FX_INF,
    {
        AABB { x: Interval::empty(), y: Interval::empty(), z: Interval::empty() }
    }

    /// The padded box spanned by two corner points, in either order: each
    /// axis runs from the smaller to the larger coordinate, kept exactly
    /// when at least `PAD_DELTA` apart and widened by 4 raw units on each
    /// side otherwise, so every axis ends at least `PAD_DELTA` thick.
    pub fn from_points(a: &Point3, b: &Point3) -> (r: Self)
        requires
            bounded(*a, FX_INF as int),
            bounded(*b, FX_INF as int),
        ensures
            imax(a.x as int, b.x as int) - imin(a.x as int, b.x as int) >= PAD_DELTA ==> r.x.min
                == imin(a.x as int, b.x as int) && r.x.max == imax(a.x as int, b.x as int),
            imax(a.y as int, b.y as int) - imin(a.y as int, b.y as int) >= PAD_DELTA ==> r.y.min
                == imin(a.y as int, b.y as int) && r.y.max == imax(a.y as int, b.y as int),
            imax(a.z as int, b.z as int) - imin(a.z as int, b.z as int) >= PAD_DELTA ==> r.z.min
                == imin(a.z as int, b.z as int) && r.z.max == imax(a.z as int, b.z as int),
            imax(a.x as int, b.x as int) - imin(a.x as int, b.x as int) < PAD_DELTA ==> r.x.min
                == imin(a.x as int, b.x as int) - 4 && r.x.max == imax(a.x as int, b.x as int) + 4,
            imax(a.y as int, b.y as int) - imin(a.y as int, b.y as int) < PAD_DELTA ==> r.y.min
                == imin(a.y as int, b.y as int) - 4 && r.y.max == imax(a.y as int, b.y as int) + 4,
            imax(a.z as int, b.z as int) - imin(a.z as int, b.z as int) < PAD_DELTA ==> r.z.min
                == imin(a.z as int, b.z as int) - 4 && r.z.max == imax(a.z as int, b.z as int) + 4,
            r.x.max - r.x.min >= PAD_DELTA,
            r.y.max - r.y.min >= PAD_DELTA,
            r.z.max - r.z.min >= PAD_DELTA,
            r.x.min <= imin(a.x as int, b.x as int) && imax(a.x as int, b.x as int) <= r.x.max,
            r.y.min <= imin(a.y as int, b.y as int) && imax(a.y as int, b.y as int) <= r.y.max,
            r.z.min <= imin(a.z as int, b.z as int) && imax(a.z as int, b.z as int) <= r.z.max,
            r.x.min >= imin(a.x as int, b.x as int) - 4 && r.x.max <= imax(a.x as int, b.x as int)
                + 4,
            r.y.min >= imin(a.y as int, b.y as int) - 4 && r.y.max <= imax(a.y as int, b.y as int)
                + 4,
            r.z.min >= imin(a.z as int, b.z as int) - 4 && r.z.max <= imax(a.z as int, b.z as int)
                + 4,
    {
        let ix = if a.x <= b.x {
            Interval::new(a.x, b.x)
        } else {
            Interval::new(b.x, a.x)
        };
        let iy = if a.y <= b.y {
            Interval::new(a.y, b.y)
        } else {
            Interval::new(b.y, a.y)
        };
        let iz = if a.z <= b.z {
            Interval::new(a.z, b.z)
        } else {
            Interval::new(b.z, a.z)
        };
        Self::new(&ix, &iy, &iz)
    }

    /// The exact per-axis union of two boxes. It contains both, which is
    /// the containment law the tree construction rests on.
    pub fn from_boxes(a: &AABB, b: &AABB) -> (r: Self)
        ensures
            r.x.min == imin(a.x.min as int, b.x.min as int),
            r.x.max == imax(a.x.max as int, b.x.max as int),
            r.y.min == imin(a.y.min as int, b.y.min as int),
            r.y.max == imax(a.y.max as int, b.y.max as int),
            r.z.min == imin(a.z.min as int, b.z.min as int),
            r.z.max == imax(a.z.max as int, b.z.max as int),
            contains_box(r, *a),
            contains_box(r, *b),
    {
        AABB {
            x: Interval::enclosing(&a.x, &b.x),
            y: Interval::enclosing(&a.y, &b.y),
            z: Interval::enclosing(&a.z, &b.z),
        }
    }

    pub fn axis_interval(&self, axis: usize) -> (r: Interval)
        ensures
            r == axis_of(*self, axis as int),
    {
        match axis {
            1 => self.y,
            2 => self.z,
            _ => self.x,
        }
    }

    /// The axis of greatest extent; exact ties fall to the later axis.
    pub fn longest_axis(&self) -> (r: usize)
        requires
            wf_box(*self),
        ensures
            r < 3,
            r == {
                let xs = self.x.max - self.x.min;
                let ys = self.y.max - self.y.min;
                let zs = self.z.max - self.z.min;
                if xs > ys {
                    if xs > zs {
                        0int
                    } else {
                        2int
                    }
                } else {
                    if ys > zs {
                        1int
                    } else {
                        2int
                    }
                }
            },
    {
        let x_size = self.x.size();
        let y_size = self.y.size();
        let z_size = self.z.size();
        if x_size > y_size {
            if x_size > z_size {
                0
            } else {
                2
            }
        } else {
            if y_size > z_size {
                1
            } else {
                2
            }
        }
    }

    /// Pad any axis thinner than `PAD_DELTA` by half of it on each side;
    /// a sufficiently thick axis is left untouched.
    fn pad_to_minimum(&mut self)
        requires
            -FX_INF <= old(self).x.min <= FX_INF && -FX_INF <= old(self).x.max <= FX_INF,
            -FX_INF <= old(self).y.min <= FX_INF && -FX_INF <= old(self).y.max <= FX_INF,
            -FX_INF <= old(self).z.min <= FX_INF && -FX_INF <= old(self).z.max <= FX_INF,
        ensures
            old(self).x.max - old(self).x.min >= PAD_DELTA ==> final(self).x == old(self).x,
            old(self).y.max - old(self).y.min >= PAD_DELTA ==> final(self).y == old(self).y,
            old(self).z.max - old(self).z.min >= PAD_DELTA ==> final(self).z == old(self).z,
            old(self).x.max - old(self).x.min < PAD_DELTA ==> final(self).x.min == old(self).x.min
                - 4 && final(self).x.max == old(self).x.max + 4,
            old(self).y.max - old(self).y.min < PAD_DELTA ==> final(self).y.min == old(self).y.min
                - 4 && final(self).y.max == old(self).y.max + 4,
            old(self).z.max - old(self).z.min < PAD_DELTA ==> final(self).z.min == old(self).z.min
                - 4 && final(self).z.max == old(self).z.max + 4,
            final(self).x.min <= old(self).x.min && old(self).x.max <= final(self).x.max,
            final(self).y.min <= old(self).y.min && old(self).y.max <= final(self).y.max,
            final(self).z.min <= old(self).z.min && old(self).z.max <= final(self).z.max,
            final(self).x.min >= old(self).x.min - 4 && final(self).x.max <= old(self).x.max + 4,
            final(self).y.min >= old(self).y.min - 4 && final(self).y.max <= old(self).y.max + 4,
            final(self).z.min >= old(self).z.min - 4 && final(self).z.max <= old(self).z.max + 4,
    {
        if self.x.size() < PAD_DELTA {
            self.x = self.x.expand(PAD_DELTA);
        }
        if self.y.size() < PAD_DELTA {
            self.y = self.y.expand(PAD_DELTA);
        }
        if self.z.size() < PAD_DELTA {
            self.z = self.z.expand(PAD_DELTA);
        }
    }
}

/// The per-axis feasibility condition of the slab test: at parameter `t`
/// the ray's coordinate on this axis lies within the slab.
pub open spec fn axis_ok(omin: int, omax: int, o: int, d: int, t: int) -> bool {
    omin <= o + fxs(t * d) <= omax
}

/// Bound the feasible parameters of one axis.
///
/// When the result's flag is false, no parameter is feasible on this axis;
/// otherwise every feasible parameter lies within the returned pair. An
/// empty slab always reports an empty bound.
fn axis_bounds(omin: i64, omax: i64, o: i64, d: i64) -> (res: (bool, i128, i128))
    requires
        -FX_INF <= omin <= FX_INF,
        -FX_INF <= omax <= FX_INF,
        -(0x8000_0000int) <= o <= 0x8000_0000int,
        -(0x4000_0000int) <= d <= 0x4000_0000int,
    ensures
        !res.0 ==> forall|t: int| !axis_ok(omin as int, omax as int, o as int, d as int, t),
        res.0 ==> forall|t: int|
            -FX_INF <= t <= FX_INF && axis_ok(omin as int, omax as int, o as int, d as int, t)
                ==> res.1 <= t <= res.2,
        res.0 ==> forall|t: int|
            res.1 <= t <= res.2 ==> axis_ok(omin as int, omax as int, o as int, d as int, t),
        omin > omax ==> (!res.0 || res.1 > res.2),
{
    if d == 0 {
        if omin <= o && o <= omax {
            (true, -(FX_INF as i128), FX_INF as i128)
        } else {
            (false, 0, 0)
        }
    } else {
        let l: i128 = FX_ONE as i128 * (omin as i128 - o as i128);
        let u: i128 = FX_ONE as i128 * (omax as i128 - o as i128 + 1) - 1;
        let (lo, hi): (i128, i128) = if d > 0 {
            (cdiv(l, d as i128), fdiv(u, d as i128))
        } else {
            (cdiv(-u, -(d as i128)), fdiv(-l, -(d as i128)))
        };
        proof {
            let omin_i = omin as int;
            let omax_i = omax as int;
            let oi = o as int;
            let di = d as int;
            let li = FX_ONE * (omin_i - oi);
            let ui = FX_ONE * (omax_i - oi + 1) - 1;
            assert forall|t: int|
                -FX_INF <= t <= FX_INF && axis_ok(omin_i, omax_i, oi, di, t)
                implies lo <= t <= hi by {
                lemma_div_bound(t * di, FX_ONE as int);
                assert(li <= t * di <= ui);
                if di > 0 {
                    lemma_mul_ge_ceil(t, li, di);
                    lemma_mul_le_div(t, ui, di);
                } else {
                    assert(t * (-di) == -(t * di)) by (nonlinear_arith);
                    lemma_mul_ge_ceil(t, -ui, -di);
                    lemma_mul_le_div(t, -li, -di);
                }
            }
            assert forall|t: int| lo <= t <= hi implies axis_ok(omin_i, omax_i, oi, di, t) by {
                if di > 0 {
                    lemma_ceil_mul_ge(t, li, di);
                    lemma_floor_mul_le(t, ui, di);
                } else {
                    lemma_ceil_mul_ge(t, -ui, -di);
                    lemma_floor_mul_le(t, -li, -di);
                    assert(t * (-di) == -(t * di)) by (nonlinear_arith);
                }
                assert(li <= t * di <= ui);
                lemma_div_bound(t * di, FX_ONE as int);
                assert(omin_i <= oi + fxs(t * di) <= omax_i) by (nonlinear_arith)
                    requires
                        li <= t * di <= ui,
                        li == FX_ONE * (omin_i - oi),
                        ui == FX_ONE * (omax_i - oi + 1) - 1,
                        FX_ONE == 65536,
                        (FX_ONE as int) * ((t * di) / (FX_ONE as int)) <= t * di < (
                        FX_ONE as int) * ((t * di) / (FX_ONE as int)) + FX_ONE,
                        fxs(t * di) == (t * di) / (FX_ONE as int),
                ;
            }
            if omin_i > omax_i {
                // The raw bounds satisfy li >= ui + 1, so the rounded
                // bounds cross: the slab admits no parameter.
                if di > 0 {
                    lemma_ceil_succ(ui, di);
                    lemma_div_bound(-ui - 1, di);
                    lemma_div_bound(-li, di);
                    vstd::arithmetic::div_mod::lemma_div_is_ordered(-li, -ui - 1, di);
                } else {
                    lemma_ceil_succ(-li, -di);
                    lemma_div_bound(-li, -di);
                    lemma_div_bound(ui, -di);
                    vstd::arithmetic::div_mod::lemma_div_is_ordered(ui, li - 1, -di);
                }
            }
        }
        (true, lo, hi)
    }
}

impl AABB {
    /// The slab test, exactly: it answers `true` precisely when some
    /// parameter within `ray_t` puts the ray's point inside this box. In
    /// particular a box with an inverted axis is never hit.
    pub fn hit(&self, ray: &Ray, ray_t: Interval) -> (r: bool)
        requires
            wf_box(*self),
            bounded(ray.origin, 0x8000_0000int),
            bounded(ray.direction, 0x4000_0000int),
            -FX_INF <= ray_t.min <= FX_INF,
            -FX_INF <= ray_t.max <= FX_INF,
        ensures
            !r ==> forall|t: int|
                ray_t.min <= t <= ray_t.max ==> !point_in_box(
                    at_x(*ray, t),
                    at_y(*ray, t),
                    at_z(*ray, t),
                    *self,
                ),
            r ==> exists|t: int|
                ray_t.min <= t <= ray_t.max && point_in_box(
                    at_x(*ray, t),
                    at_y(*ray, t),
                    at_z(*ray, t),
                    *self,
                ),
            self.x.min > self.x.max ==> !r,
            self.y.min > self.y.max ==> !r,
            self.z.min > self.z.max ==> !r,
    {
        let mut lo: i128 = ray_t.min as i128;
        let mut hi: i128 = ray_t.max as i128;

        let ghost bxmin = self.x.min as int;
        let ghost bxmax = self.x.max as int;
        let ghost bymin = self.y.min as int;
        let ghost bymax = self.y.max as int;
        let ghost bzmin = self.z.min as int;
        let ghost bzmax = self.z.max as int;
        let ghost ox = ray.origin.x as int;
        let ghost oy = ray.origin.y as int;
        let ghost oz = ray.origin.z as int;
        let ghost dx = ray.direction.x as int;
        let ghost dy = ray.direction.y as int;
        let ghost dz = ray.direction.z as int;

        let (okx, lx, hx) = axis_bounds(self.x.min, self.x.max, ray.origin.x, ray.direction.x);
        if !okx {
            proof {
                assert forall|t: int| ray_t.min <= t <= ray_t.max implies !point_in_box(
                    at_x(*ray, t),
                    at_y(*ray, t),
                    at_z(*ray, t),
                    *self,
                ) by {
                    if point_in_box(at_x(*ray, t), at_y(*ray, t), at_z(*ray, t), *self) {
                        assert(axis_ok(bxmin, bxmax, ox, dx, t));
                    }
                }
            }
            return false;
        }
        if lx > lo {
            lo = lx;
        }
        if hx < hi {
            hi = hx;
        }
        if hi < lo {
            proof {
                assert forall|t: int| ray_t.min <= t <= ray_t.max implies !point_in_box(
                    at_x(*ray, t),
                    at_y(*ray, t),
                    at_z(*ray, t),
                    *self,
                ) by {
                    if point_in_box(at_x(*ray, t), at_y(*ray, t), at_z(*ray, t), *self) {
                        assert(-FX_INF <= t <= FX_INF);
                        assert(axis_ok(bxmin, bxmax, ox, dx, t));
                    }
                }
            }
            return false;
        }

        let (oky, ly, hy) = axis_bounds(self.y.min, self.y.max, ray.origin.y, ray.direction.y);
        if !oky {
            proof {
                assert forall|t: int| ray_t.min <= t <= ray_t.max implies !point_in_box(
                    at_x(*ray, t),
                    at_y(*ray, t),
                    at_z(*ray, t),
                    *self,
                ) by {
                    if point_in_box(at_x(*ray, t), at_y(*ray, t), at_z(*ray, t), *self) {
                        assert(axis_ok(bymin, bymax, oy, dy, t));
                    }
                }
            }
            return false;
        }
        if ly > lo {
            lo = ly;
        }
        if hy < hi {
            hi = hy;
        }
        if hi < lo {
            proof {
                assert forall|t: int| ray_t.min <= t <= ray_t.max implies !point_in_box(
                    at_x(*ray, t),
                    at_y(*ray, t),
                    at_z(*ray, t),
                    *self,
                ) by {
                    if point_in_box(at_x(*ray, t), at_y(*ray, t), at_z(*ray, t), *self) {
                        assert(-FX_INF <= t <= FX_INF);
                        assert(axis_ok(bxmin, bxmax, ox, dx, t));
                        assert(axis_ok(bymin, bymax, oy, dy, t));
                    }
                }
            }
            return false;
        }

        let (okz, lz, hz) = axis_bounds(self.z.min, self.z.max, ray.origin.z, ray.direction.z);
        if !okz {
            proof {
                assert forall|t: int| ray_t.min <= t <= ray_t.max implies !point_in_box(
                    at_x(*ray, t),
                    at_y(*ray, t),
                    at_z(*ray, t),
                    *self,
                ) by {
                    if point_in_box(at_x(*ray, t), at_y(*ray, t), at_z(*ray, t), *self) {
                        assert(axis_ok(bzmin, bzmax, oz, dz, t));
                    }
                }
            }
            return false;
        }
        if lz > lo {
            lo = lz;
        }
        if hz < hi {
            hi = hz;
        }
        if hi < lo {
            proof {
                assert forall|t: int| ray_t.min <= t <= ray_t.max implies !point_in_box(
                    at_x(*ray, t),
                    at_y(*ray, t),
                    at_z(*ray, t),
                    *self,
                ) by {
                    if point_in_box(at_x(*ray, t), at_y(*ray, t), at_z(*ray, t), *self) {
                        assert(-FX_INF <= t <= FX_INF);
                        assert(axis_ok(bxmin, bxmax, ox, dx, t));
                        assert(axis_ok(bymin, bymax, oy, dy, t));
                        assert(axis_ok(bzmin, bzmax, oz, dz, t));
                    }
                }
            }
            return false;
        }

        proof {
            let t = lo as int;
            assert(axis_ok(bxmin, bxmax, ox, dx, t));
            assert(axis_ok(bymin, bymax, oy, dy, t));
            assert(axis_ok(bzmin, bzmax, oz, dz, t));
            assert(ray_t.min <= t <= ray_t.max);
            assert(point_in_box(at_x(*ray, t), at_y(*ray, t), at_z(*ray, t), *self));
        }
        true
    }
}

} // verus!
