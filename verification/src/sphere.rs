//! Spheres, static or moving, and their quadratic intersection routine.
//!
//! The intersection solves `|O + tD - C(time)|^2 = r^2` through the
//! half-discriminant form, exactly as the spec functions below state it:
//! the discriminant is computed exactly over raw integers, its floor square
//! root picks the roots, and the nearer root inside the open query interval
//! is preferred. An accepted hit additionally keeps its point within
//! `radius + SPHERE_PAD` of the centre on every axis, which pins the point
//! inside the sphere's bounding box whatever the rounding did.

use vstd::prelude::*;
use crate::fixed::{FX_ONE, FX_INF, floor_div, fdiv, isqrt, lemma_div_bound};
use crate::vec3::{
    Vec3, Point3, bounded, norm2_raw, fxs, sqrt_of, lemma_sqrt_unique, lemma_mul_bound,
    lemma_fxs_bound,
};
use crate::ray::{Ray, at_x, at_y, at_z, wf_ray};
use crate::interval::Interval;
use crate::aabb::{AABB, imin, imax, point_in_box, wf_box};
use crate::material::{Material, wf_material};
use crate::hittable::{HitRecord, wf_rec};

verus! {

/// Extra box padding around a sphere, absorbing every floor rounding the
/// intersection can introduce between the true surface and the stored
/// point.
pub const SPHERE_PAD: i64 = 256;

#[derive(Clone, Copy, Debug, PartialEq, Eq, Structural)]
pub struct Sphere {
    /// The centre as a ray: position at time zero plus its motion over one
    /// unit of time.
    pub centre: Ray,
    pub radius: i64,
    pub material: Material,
    pub bbox: AABB,
}

/// Validity of a sphere: coordinates and radius within the scene range, a
/// material in range, and a box that covers the swept centre with
/// `radius + SPHERE_PAD` to spare on every axis.
pub open spec fn wf_sphere(s: Sphere) -> bool {
    &&& bounded(s.centre.origin, 0x2000_0000int)
    &&& bounded(s.centre.direction, 0x4000_0000int)
    &&& -0x2000_0000 <= s.centre.origin.x + s.centre.direction.x <= 0x2000_0000
    &&& -0x2000_0000 <= s.centre.origin.y + s.centre.direction.y <= 0x2000_0000
    &&& -0x2000_0000 <= s.centre.origin.z + s.centre.direction.z <= 0x2000_0000
    &&& s.centre.time == 0
    &&& 1 <= s.radius <= 0x2000_0000
    &&& wf_material(s.material)
    &&& wf_box(s.bbox)
    &&& s.bbox.x.min <= imin(s.centre.origin.x as int, s.centre.origin.x + s.centre.direction.x)
        - s.radius - SPHERE_PAD
    &&& imax(s.centre.origin.x as int, s.centre.origin.x + s.centre.direction.x) + s.radius
        + SPHERE_PAD <= s.bbox.x.max
    &&& s.bbox.y.min <= imin(s.centre.origin.y as int, s.centre.origin.y + s.centre.direction.y)
        - s.radius - SPHERE_PAD
    &&& imax(s.centre.origin.y as int, s.centre.origin.y + s.centre.direction.y) + s.radius
        + SPHERE_PAD <= s.bbox.y.max
    &&& s.bbox.z.min <= imin(s.centre.origin.z as int, s.centre.origin.z + s.centre.direction.z)
        - s.radius - SPHERE_PAD
    &&& imax(s.centre.origin.z as int, s.centre.origin.z + s.centre.direction.z) + s.radius
        + SPHERE_PAD <= s.bbox.z.max
}

/// The x offset from the ray's origin to the centre at the ray's time.
pub open spec fn oc_x(s: Sphere, r: Ray) -> int {
    at_x(s.centre, r.time as int) - r.origin.x
}

/// The y offset from the ray's origin to the centre at the ray's time.
pub open spec fn oc_y(s: Sphere, r: Ray) -> int {
    at_y(s.centre, r.time as int) - r.origin.y
}

/// The z offset from the ray's origin to the centre at the ray's time.
pub open spec fn oc_z(s: Sphere, r: Ray) -> int {
    at_z(s.centre, r.time as int) - r.origin.z
}

/// The quadratic's leading coefficient: the direction's raw squared norm.
pub open spec fn sph_a(r: Ray) -> int {
    norm2_raw(r.direction)
}

/// The half linear coefficient `oc . D`, exact over raw integers.
pub open spec fn sph_h(s: Sphere, r: Ray) -> int {
    oc_x(s, r) * r.direction.x + oc_y(s, r) * r.direction.y + oc_z(s, r) * r.direction.z
}

/// The constant coefficient `|oc|^2 - radius^2`, exact over raw integers.
pub open spec fn sph_c0(s: Sphere, r: Ray) -> int {
    oc_x(s, r) * oc_x(s, r) + oc_y(s, r) * oc_y(s, r) + oc_z(s, r) * oc_z(s, r) - s.radius
        * s.radius
}

/// The exact half-form discriminant `h^2 - a c`.
pub open spec fn sph_disc(s: Sphere, r: Ray) -> int {
    sph_h(s, r) * sph_h(s, r) - sph_a(r) * sph_c0(s, r)
}

/// The nearer root of the quadratic, as a floored ray parameter.
pub open spec fn sph_root1(s: Sphere, r: Ray) -> int {
    floor_div((sph_h(s, r) - sqrt_of(sph_disc(s, r))) * FX_ONE, sph_a(r))
}

/// The farther root of the quadratic, as a floored ray parameter.
pub open spec fn sph_root2(s: Sphere, r: Ray) -> int {
    floor_div((sph_h(s, r) + sqrt_of(sph_disc(s, r))) * FX_ONE, sph_a(r))
}

/// The accepted point stays within `radius + SPHERE_PAD` of the centre on
/// every axis.
pub open spec fn sph_guard(s: Sphere, r: Ray, t: int) -> bool {
    &&& -(s.radius + SPHERE_PAD) <= at_x(r, t) - at_x(s.centre, r.time as int) <= s.radius
        + SPHERE_PAD
    &&& -(s.radius + SPHERE_PAD) <= at_y(r, t) - at_y(s.centre, r.time as int) <= s.radius
        + SPHERE_PAD
    &&& -(s.radius + SPHERE_PAD) <= at_z(r, t) - at_z(s.centre, r.time as int) <= s.radius
        + SPHERE_PAD
}

/// Whether the sphere reports a hit on the open parameter interval.
pub open spec fn sph_hits(s: Sphere, r: Ray, tmin: int, tmax: int) -> bool {
    &&& sph_disc(s, r) >= 0
    &&& if tmin < sph_root1(s, r) < tmax {
        sph_guard(s, r, sph_root1(s, r))
    } else if tmin < sph_root2(s, r) < tmax {
        sph_guard(s, r, sph_root2(s, r))
    } else {
        false
    }
}

/// The parameter of the reported hit: the nearer root when it lies in the
/// interval, the farther one otherwise.
pub open spec fn sph_hit_t(s: Sphere, r: Ray, tmin: int, tmax: int) -> int {
    if tmin < sph_root1(s, r) < tmax {
        sph_root1(s, r)
    } else {
        sph_root2(s, r)
    }
}

/// The x component of the outward normal at parameter `t`.
pub open spec fn sph_on_x(s: Sphere, r: Ray, t: int) -> int {
    floor_div((at_x(r, t) - at_x(s.centre, r.time as int)) * FX_ONE, s.radius as int)
}

/// The y component of the outward normal at parameter `t`.
pub open spec fn sph_on_y(s: Sphere, r: Ray, t: int) -> int {
    floor_div((at_y(r, t) - at_y(s.centre, r.time as int)) * FX_ONE, s.radius as int)
}

/// The z component of the outward normal at parameter `t`.
pub open spec fn sph_on_z(s: Sphere, r: Ray, t: int) -> int {
    floor_div((at_z(r, t) - at_z(s.centre, r.time as int)) * FX_ONE, s.radius as int)
}

/// The diamond angle: a rational, monotone stand-in for `atan2`, mapping
/// the quadrants of `(a, b)` onto `[0, 4)` fixed-point units.
pub open spec fn diamond(a: int, b: int) -> int {
    if a == 0 && b == 0 {
        0
    } else if a > 0 && b >= 0 {
        floor_div(b * FX_ONE, a + b)
    } else if a <= 0 && b > 0 {
        FX_ONE + floor_div((-a) * FX_ONE, (-a) + b)
    } else if a < 0 && b <= 0 {
        2 * FX_ONE + floor_div((-b) * FX_ONE, (-a) - b)
    } else {
        3 * FX_ONE + floor_div(a * FX_ONE, a - b)
    }
}

/// The longitude coordinate of the spherical parametrization, with the
/// diamond angle standing in for `atan2(-z, x) + pi`, scaled to `[0, 1]`.
pub open spec fn sph_u_of(x: int, z: int) -> int {
    let dm = diamond(x, -z);
    let shifted = if dm >= 2 * FX_ONE {
        dm - 2 * FX_ONE
    } else {
        dm + 2 * FX_ONE
    };
    floor_div(shifted, 4)
}

/// The latitude coordinate: a linear stand-in for `acos(-y) / pi`, exact
/// at the poles.
pub open spec fn sph_v_of(y: int) -> int {
    floor_div(y + FX_ONE, 2)
}

/// The record of a sphere hit: every field pinned by the formulas above.
pub open spec fn sph_rec(s: Sphere, r: Ray, tmin: int, tmax: int, rec: HitRecord) -> bool {
    let t = sph_hit_t(s, r, tmin, tmax);
    let onx = sph_on_x(s, r, t);
    let ony = sph_on_y(s, r, t);
    let onz = sph_on_z(s, r, t);
    let ff = fxs(r.direction.x * onx + r.direction.y * ony + r.direction.z * onz) < 0;
    &&& rec.t == t
    &&& rec.p.x == at_x(r, t) && rec.p.y == at_y(r, t) && rec.p.z == at_z(r, t)
    &&& rec.front_face == ff
    &&& (ff ==> rec.normal.x == onx && rec.normal.y == ony && rec.normal.z == onz)
    &&& (!ff ==> rec.normal.x == -onx && rec.normal.y == -ony && rec.normal.z == -onz)
    &&& rec.material == s.material
    &&& rec.u == sph_u_of(onx, onz)
    &&& rec.v == sph_v_of(ony)
}

/// Interpolating a bounded offset by a time in `[0, 1]` stays between zero
/// and the offset.
pub proof fn lemma_interp_between(t: int, d: int)
    requires
        0 <= t <= FX_ONE,
        -(0x4000_0000int) <= d <= 0x4000_0000int,
    ensures
        imin(0, d) <= fxs(t * d) <= imax(0, d),
{
    let s = FX_ONE as int;
    lemma_div_bound(t * d, s);
    if d >= 0 {
        assert(0 <= t * d <= s * d) by (nonlinear_arith)
            requires
                0 <= t <= s,
                d >= 0,
        ;
        assert(0 <= (t * d) / s <= d) by (nonlinear_arith)
            requires
                s == 65536,
                0 <= t * d <= s * d,
                s * ((t * d) / s) <= t * d < s * ((t * d) / s) + s,
        ;
    } else {
        assert(s * d <= t * d <= 0) by (nonlinear_arith)
            requires
                0 <= t <= s,
                d < 0,
        ;
        assert(d <= (t * d) / s <= 0) by (nonlinear_arith)
            requires
                s == 65536,
                s * d <= t * d <= 0,
                s * ((t * d) / s) <= t * d < s * ((t * d) / s) + s,
        ;
    }
}

/// A point within `radius + SPHERE_PAD` of the centre, scaled down by the
/// radius, has components within `257` fixed-point units.
proof fn lemma_normal_bound(dp: int, radius: int)
    requires
        1 <= radius,
        -(radius + SPHERE_PAD) <= dp <= radius + SPHERE_PAD,
    ensures
        -257 * FX_ONE <= floor_div(dp * FX_ONE, radius) <= 257 * FX_ONE,
{
    let s = FX_ONE as int;
    lemma_div_bound(dp * s, radius);
    assert(-257 * s <= (dp * s) / radius <= 257 * s) by (nonlinear_arith)
        requires
            s == 65536,
            1 <= radius,
            -(radius + 256) <= dp <= radius + 256,
            radius * ((dp * s) / radius) <= dp * s < radius * ((dp * s) / radius) + radius,
    ;
}

impl Sphere {
    /// Build a sphere between two time-keyed centres; its box covers both
    /// positions with `SPHERE_PAD` beyond the radius.
    pub fn new(centre1: Point3, centre2: Point3, radius: i64, material: Material) -> (r: Self)
        requires
            bounded(centre1, 0x2000_0000int),
            bounded(centre2, 0x2000_0000int),
            1 <= radius <= 0x2000_0000,
            wf_material(material),
        ensures
            wf_sphere(r),
            r.centre.origin == centre1,
            r.centre.direction.x == centre2.x - centre1.x,
            r.centre.direction.y == centre2.y - centre1.y,
            r.centre.direction.z == centre2.z - centre1.z,
            r.radius == radius,
            r.material == material,
    {
        let rv = Vec3::new(radius + SPHERE_PAD, radius + SPHERE_PAD, radius + SPHERE_PAD);
        let centre = Ray::new(centre1, centre2.sub(centre1), 0);
        let box1 = AABB::from_points(&centre1.sub(rv), &centre1.add(rv));
        let box2 = AABB::from_points(&centre2.sub(rv), &centre2.add(rv));
        let bbox = AABB::from_boxes(&box1, &box2);
        Sphere { centre, radius, material, bbox }
    }

    pub fn bounding_box(&self) -> (r: AABB)
        ensures
            r == self.bbox,
    {
        self.bbox
    }

    /// The diamond-angle texture coordinates of an outward normal.
    fn get_sphere_uv(p: &Vec3) -> (uv: (i64, i64))
        requires
            bounded(*p, 0x400_0000int),
        ensures
            uv.0 == sph_u_of(p.x as int, p.z as int),
            uv.1 == sph_v_of(p.y as int),
    {
        let a = p.x;
        let b = -p.z;
        let dm: i64 = if a == 0 && b == 0 {
            0
        } else if a > 0 && b >= 0 {
            proof {
                lemma_uv_div_bound(b as int, a as int + b as int);
            }
            fdiv(b as i128 * FX_ONE as i128, a as i128 + b as i128) as i64
        } else if a <= 0 && b > 0 {
            proof {
                lemma_uv_div_bound(-(a as int), -(a as int) + b as int);
            }
            FX_ONE + fdiv((-a) as i128 * FX_ONE as i128, (-a) as i128 + b as i128) as i64
        } else if a < 0 && b <= 0 {
            proof {
                lemma_uv_div_bound(-(b as int), -(a as int) - b as int);
            }
            2 * FX_ONE + fdiv((-b) as i128 * FX_ONE as i128, (-a) as i128 - b as i128) as i64
        } else {
            proof {
                lemma_uv_div_bound(a as int, a as int - b as int);
            }
            3 * FX_ONE + fdiv(a as i128 * FX_ONE as i128, a as i128 - b as i128) as i64
        };
        let shifted: i64 = if dm >= 2 * FX_ONE {
            dm - 2 * FX_ONE
        } else {
            dm + 2 * FX_ONE
        };
        let u = fdiv(shifted as i128, 4) as i64;
        let v = fdiv(p.y as i128 + FX_ONE as i128, 2) as i64;
        proof {
            lemma_div_bound(shifted as int, 4);
            lemma_div_bound(p.y + FX_ONE, 2);
        }
        (u, v)
    }

    /// Accept a candidate parameter: guard the point against the box
    /// margin, then fill every record field by the stated formulas.
    fn make_rec(&self, ray: &Ray, ccur: Vec3, t: i64) -> (res: Option<HitRecord>)
        requires
            wf_sphere(*self),
            wf_ray(*ray),
            ccur.x == at_x(self.centre, ray.time as int),
            ccur.y == at_y(self.centre, ray.time as int),
            ccur.z == at_z(self.centre, ray.time as int),
            -FX_INF <= t <= FX_INF,
        ensures
            res is Some <==> sph_guard(*self, *ray, t as int),
            res matches Some(rec) ==> ({
                let onx = sph_on_x(*self, *ray, t as int);
                let ony = sph_on_y(*self, *ray, t as int);
                let onz = sph_on_z(*self, *ray, t as int);
                let ff = fxs(
                    ray.direction.x * onx + ray.direction.y * ony + ray.direction.z * onz,
                ) < 0;
                &&& rec.t == t
                &&& rec.p.x == at_x(*ray, t as int) && rec.p.y == at_y(*ray, t as int)
                    && rec.p.z == at_z(*ray, t as int)
                &&& rec.front_face == ff
                &&& (ff ==> rec.normal.x == onx && rec.normal.y == ony && rec.normal.z == onz)
                &&& (!ff ==> rec.normal.x == -onx && rec.normal.y == -ony && rec.normal.z == -onz)
                &&& rec.material == self.material
                &&& rec.u == sph_u_of(onx, onz)
                &&& rec.v == sph_v_of(ony)
                &&& point_in_box(rec.p.x as int, rec.p.y as int, rec.p.z as int, self.bbox)
                &&& wf_rec(rec)
            }),
    {
        proof {
            lemma_interp_between(ray.time as int, self.centre.direction.x as int);
            lemma_interp_between(ray.time as int, self.centre.direction.y as int);
            lemma_interp_between(ray.time as int, self.centre.direction.z as int);
        }
        proof {
            lemma_mul_bound(t as int, ray.direction.x as int, FX_INF as int, 0x40_0000int);
            lemma_mul_bound(t as int, ray.direction.y as int, FX_INF as int, 0x40_0000int);
            lemma_mul_bound(t as int, ray.direction.z as int, FX_INF as int, 0x40_0000int);
            lemma_fxs_bound(t * ray.direction.x, 0x4000_0000_0000_0000int);
            lemma_fxs_bound(t * ray.direction.y, 0x4000_0000_0000_0000int);
            lemma_fxs_bound(t * ray.direction.z, 0x4000_0000_0000_0000int);
        }
        let p = ray.at(t);
        let margin = self.radius + SPHERE_PAD;
        let dx = p.x - ccur.x;
        let dy = p.y - ccur.y;
        let dz = p.z - ccur.z;
        if dx < -margin || dx > margin || dy < -margin || dy > margin || dz < -margin || dz
            > margin {
            return None;
        }
        proof {
            lemma_normal_bound(dx as int, self.radius as int);
            lemma_normal_bound(dy as int, self.radius as int);
            lemma_normal_bound(dz as int, self.radius as int);
        }
        let onx = fdiv(dx as i128 * FX_ONE as i128, self.radius as i128) as i64;
        let ony = fdiv(dy as i128 * FX_ONE as i128, self.radius as i128) as i64;
        let onz = fdiv(dz as i128 * FX_ONE as i128, self.radius as i128) as i64;
        let on = Vec3 { x: onx, y: ony, z: onz };
        proof {
            lemma_mul_bound(ray.direction.x as int, onx as int, 0x40_0000int, 0x200_0000int);
            lemma_mul_bound(ray.direction.y as int, ony as int, 0x40_0000int, 0x200_0000int);
            lemma_mul_bound(ray.direction.z as int, onz as int, 0x40_0000int, 0x200_0000int);
            lemma_fxs_bound(
                ray.direction.x * (onx as int) + ray.direction.y * (ony as int) + ray.direction.z
                    * (onz as int),
                0x4000_0000_0000_0000int,
            );
        }
        let dots = fdiv(
            ray.direction.x as i128 * onx as i128 + ray.direction.y as i128 * ony as i128
                + ray.direction.z as i128 * onz as i128,
            FX_ONE as i128,
        );
        let front_face = dots < 0;
        let normal = if front_face {
            on
        } else {
            Vec3 { x: -onx, y: -ony, z: -onz }
        };
        let (u, v) = Self::get_sphere_uv(&on);
        Some(
            HitRecord {
                p,
                normal,
                material: self.material,
                t,
                front_face,
                u,
                v,
            },
        )
    }

    /// Solve the quadratic exactly and report the nearer root inside the
    /// open interval, falling back to the farther one; an accepted hit has
    /// every record field pinned and its point inside the bounding box.
    pub fn hit(&self, ray: &Ray, ray_t: Interval) -> (res: Option<HitRecord>)
        requires
            wf_sphere(*self),
            wf_ray(*ray),
            -FX_INF <= ray_t.min <= FX_INF,
            -FX_INF <= ray_t.max <= FX_INF,
        ensures
            res is Some <==> sph_hits(*self, *ray, ray_t.min as int, ray_t.max as int),
            res matches Some(rec) ==> ({
                &&& sph_rec(*self, *ray, ray_t.min as int, ray_t.max as int, rec)
                &&& ray_t.min < rec.t < ray_t.max
                &&& point_in_box(rec.p.x as int, rec.p.y as int, rec.p.z as int, self.bbox)
                &&& wf_rec(rec)
            }),
    {
        let ccur = self.centre.at(ray.time);
        proof {
            lemma_interp_between(ray.time as int, self.centre.direction.x as int);
            lemma_interp_between(ray.time as int, self.centre.direction.y as int);
            lemma_interp_between(ray.time as int, self.centre.direction.z as int);
        }
        let ocx: i64 = ccur.x - ray.origin.x;
        let ocy: i64 = ccur.y - ray.origin.y;
        let ocz: i64 = ccur.z - ray.origin.z;
        let dx = ray.direction.x;
        let dy = ray.direction.y;
        let dz = ray.direction.z;
        proof {
            lemma_mul_bound(dx as int, dx as int, 0x40_0000int, 0x40_0000int);
            lemma_mul_bound(dy as int, dy as int, 0x40_0000int, 0x40_0000int);
            lemma_mul_bound(dz as int, dz as int, 0x40_0000int, 0x40_0000int);
            lemma_mul_bound(ocx as int, dx as int, 0xA000_0000int, 0x40_0000int);
            lemma_mul_bound(ocy as int, dy as int, 0xA000_0000int, 0x40_0000int);
            lemma_mul_bound(ocz as int, dz as int, 0xA000_0000int, 0x40_0000int);
            lemma_mul_bound(ocx as int, ocx as int, 0xA000_0000int, 0xA000_0000int);
            lemma_mul_bound(ocy as int, ocy as int, 0xA000_0000int, 0xA000_0000int);
            lemma_mul_bound(ocz as int, ocz as int, 0xA000_0000int, 0xA000_0000int);
            lemma_mul_bound(self.radius as int, self.radius as int, 0x2000_0000int, 0x2000_0000int);
        }
        let a: i128 = dx as i128 * dx as i128 + dy as i128 * dy as i128 + dz as i128 * dz as i128;
        let h: i128 = ocx as i128 * dx as i128 + ocy as i128 * dy as i128 + ocz as i128
            * dz as i128;
        let c0: i128 = ocx as i128 * ocx as i128 + ocy as i128 * ocy as i128 + ocz as i128
            * ocz as i128 - self.radius as i128 * self.radius as i128;
        proof {
            lemma_mul_bound(h as int, h as int, 0x80_0000_0000_0000int, 0x80_0000_0000_0000int);
            lemma_mul_bound(a as int, c0 as int, 0x3000_0000_0000int, 0x2_0000_0000_0000_0000int);
            crate::vec3::lemma_dir_norm_pos(ray.direction);
        }
        let disc: i128 = h * h - a * c0;
        if disc < 0 {
            return None;
        }
        let sq: i128 = isqrt(disc as u128) as i128;
        proof {
            lemma_sqrt_unique(sph_disc(*self, *ray), sq as int);
        }
        let root1: i128 = fdiv((h - sq) * 65536i128, a);
        if (ray_t.min as i128) < root1 && root1 < ray_t.max as i128 {
            return self.make_rec(ray, ccur, root1 as i64);
        }
        let root2: i128 = fdiv((h + sq) * 65536i128, a);
        if (ray_t.min as i128) < root2 && root2 < ray_t.max as i128 {
            return self.make_rec(ray, ccur, root2 as i64);
        }
        None
    }
}

/// A nonnegative numerator at most the positive denominator gives a
/// quotient within `[0, FX_ONE]` after scaling.
proof fn lemma_uv_div_bound(num: int, den: int)
    requires
        0 <= num <= den,
        1 <= den,
    ensures
        0 <= floor_div(num * FX_ONE, den) <= FX_ONE,
{
    let s = FX_ONE as int;
    lemma_div_bound(num * s, den);
    assert(0 <= (num * s) / den <= s) by (nonlinear_arith)
        requires
            s == 65536,
            0 <= num <= den,
            1 <= den,
            den * ((num * s) / den) <= num * s < den * ((num * s) / den) + den,
    ;
}

/// The raw squared norm of the cross product of the centre offset and
/// the ray direction: the squared area spanned by the two, which measures
/// the ray's miss distance.
pub open spec fn sph_cross_norm2(s: Sphere, r: Ray) -> int {
    let cx = oc_y(s, r) * r.direction.z - oc_z(s, r) * r.direction.y;
    let cy = oc_z(s, r) * r.direction.x - oc_x(s, r) * r.direction.z;
    let cz = oc_x(s, r) * r.direction.y - oc_y(s, r) * r.direction.x;
    cx * cx + cy * cy + cz * cz
}

/// A ray aimed exactly at the centre from strictly outside has a strictly
/// positive discriminant — two real roots — and the discriminant is
/// exactly `|oc|^2 radius^2`.
pub proof fn lemma_ray_at_centre_two_roots(s: Sphere, r: Ray)
    requires
        r.direction.x == oc_x(s, r),
        r.direction.y == oc_y(s, r),
        r.direction.z == oc_z(s, r),
        sph_c0(s, r) > 0,
        s.radius >= 1,
        sph_a(r) >= 1,
    ensures
        sph_disc(s, r) == sph_a(r) * (s.radius * s.radius),
        sph_disc(s, r) > 0,
{
    let ox = oc_x(s, r);
    let oy = oc_y(s, r);
    let oz = oc_z(s, r);
    let rad = s.radius as int;
    assert((ox * ox + oy * oy + oz * oz) * (ox * ox + oy * oy + oz * oz) - (ox * ox + oy * oy + oz
        * oz) * ((ox * ox + oy * oy + oz * oz) - rad * rad) == (ox * ox + oy * oy + oz * oz) * (rad
        * rad)) by (nonlinear_arith);
    assert(sph_a(r) * (rad * rad) >= 1 * (rad * rad)) by (nonlinear_arith)
        requires
            sph_a(r) >= 1,
            rad * rad >= 0,
    ;
    assert(rad * rad >= 1) by (nonlinear_arith)
        requires
            rad >= 1,
    ;
}

/// The exact Lagrange identity behind tangency: the discriminant is
/// `radius^2 |D|^2` minus the squared cross of offset and direction. A
/// tangent ray — one whose squared miss distance equals the squared
/// radius, scaled by `|D|^2` — has discriminant exactly zero.
pub proof fn lemma_tangent_discriminant(s: Sphere, r: Ray)
    ensures
        sph_disc(s, r) == s.radius * s.radius * sph_a(r) - sph_cross_norm2(s, r),
        sph_cross_norm2(s, r) == s.radius * s.radius * sph_a(r) <==> sph_disc(s, r) == 0,
{
    let ox = oc_x(s, r);
    let oy = oc_y(s, r);
    let oz = oc_z(s, r);
    let dx = r.direction.x as int;
    let dy = r.direction.y as int;
    let dz = r.direction.z as int;
    let rad = s.radius as int;
    let aa = ox * dx;
    let bb = oy * dy;
    let cc = oz * dz;
    let p1 = oy * dz;
    let p2 = oz * dy;
    let p3 = oz * dx;
    let p4 = ox * dz;
    let p5 = ox * dy;
    let p6 = oy * dx;
    let h0 = aa + bb + cc;
    let na = dx * dx + dy * dy + dz * dz;
    let no = ox * ox + oy * oy + oz * oz;
    assert(h0 * h0 == aa * aa + bb * bb + cc * cc + 2 * (aa * bb) + 2 * (aa * cc) + 2 * (bb * cc))
        by (nonlinear_arith)
        requires
            h0 == aa + bb + cc,
    ;
    assert(aa * bb == p5 * p6) by (nonlinear_arith)
        requires
            aa == ox * dx,
            bb == oy * dy,
            p5 == ox * dy,
            p6 == oy * dx,
    ;
    assert(aa * cc == p3 * p4) by (nonlinear_arith)
        requires
            aa == ox * dx,
            cc == oz * dz,
            p3 == oz * dx,
            p4 == ox * dz,
    ;
    assert(bb * cc == p1 * p2) by (nonlinear_arith)
        requires
            bb == oy * dy,
            cc == oz * dz,
            p1 == oy * dz,
            p2 == oz * dy,
    ;
    assert(na * no == (dx * dx) * no + (dy * dy) * no + (dz * dz) * no) by (nonlinear_arith)
        requires
            na == dx * dx + dy * dy + dz * dz,
    ;
    assert((dx * dx) * no == (dx * dx) * (ox * ox) + (dx * dx) * (oy * oy) + (
        dx * dx) * (oz * oz)) by (nonlinear_arith)
        requires
            no == ox * ox + oy * oy + oz * oz,
    ;
    assert((dx * dx) * (ox * ox) == (ox * dx) * (ox * dx)) by (nonlinear_arith);
    assert((dx * dx) * (oy * oy) == (oy * dx) * (oy * dx)) by (nonlinear_arith);
    assert((dx * dx) * (oz * oz) == (oz * dx) * (oz * dx)) by (nonlinear_arith);
    assert((dy * dy) * no == (dy * dy) * (ox * ox) + (dy * dy) * (oy * oy) + (
        dy * dy) * (oz * oz)) by (nonlinear_arith)
        requires
            no == ox * ox + oy * oy + oz * oz,
    ;
    assert((dy * dy) * (ox * ox) == (ox * dy) * (ox * dy)) by (nonlinear_arith);
    assert((dy * dy) * (oy * oy) == (oy * dy) * (oy * dy)) by (nonlinear_arith);
    assert((dy * dy) * (oz * oz) == (oz * dy) * (oz * dy)) by (nonlinear_arith);
    assert((dz * dz) * no == (dz * dz) * (ox * ox) + (dz * dz) * (oy * oy) + (
        dz * dz) * (oz * oz)) by (nonlinear_arith)
        requires
            no == ox * ox + oy * oy + oz * oz,
    ;
    assert((dz * dz) * (ox * ox) == (ox * dz) * (ox * dz)) by (nonlinear_arith);
    assert((dz * dz) * (oy * oy) == (oy * dz) * (oy * dz)) by (nonlinear_arith);
    assert((dz * dz) * (oz * oz) == (oz * dz) * (oz * dz)) by (nonlinear_arith);
    assert((p1 - p2) * (p1 - p2) == p1 * p1 - 2 * (p1 * p2) + p2 * p2) by (nonlinear_arith);
    assert((p3 - p4) * (p3 - p4) == p3 * p3 - 2 * (p3 * p4) + p4 * p4) by (nonlinear_arith);
    assert((p5 - p6) * (p5 - p6) == p5 * p5 - 2 * (p5 * p6) + p6 * p6) by (nonlinear_arith);
    assert(h0 * h0 - na * no == -((p1 - p2) * (p1 - p2) + (p3 - p4) * (p3 - p4) + (p5 - p6) * (p5
        - p6)));
    assert(na * (no - rad * rad) == na * no - na * (rad * rad)) by (nonlinear_arith);
    assert(rad * rad * na == na * (rad * rad)) by (nonlinear_arith);
    assert(sph_h(s, r) == h0);
    assert(sph_a(r) == na);
    assert(sph_c0(s, r) == no - rad * rad);
    assert(sph_cross_norm2(s, r) == (p1 - p2) * (p1 - p2) + (p3 - p4) * (p3 - p4) + (p5 - p6) * (p5
        - p6)) by {
        assert((oy * dz - oz * dy) == p1 - p2);
        assert((oz * dx - ox * dz) == p3 - p4);
        assert((ox * dy - oy * dx) == p5 - p6);
    }
}

} // verus!
