//! Planar parallelogram primitives.
//!
//! A quad precomputes its plane normal, offset and the helper vector `w`
//! that turns a hit point into planar coordinates without a change of
//! basis. The intersection solves the plane equation, keeps the point
//! inside the bounding box, and accepts exactly when both planar
//! coordinates lie in the closed unit interval.

use vstd::prelude::*;
use crate::fixed::{FX_ONE, FX_INF, floor_div, fdiv, lemma_div_bound};
use crate::vec3::{
    Vec3, Point3, bounded, dot_raw, norm2_raw, fxs, fxt, sqrt_of, lemma_mul_bound,
    lemma_fxs_bound, lemma_fxt_bound, lemma_dot_bound, lemma_square_nonneg,
};
use crate::ray::{Ray, at_x, at_y, at_z, wf_ray};
use crate::interval::Interval;
use crate::aabb::{AABB, point_in_box, wf_box};
use crate::material::{Material, wf_material};
use crate::hittable::{HitRecord, wf_rec};

verus! {

#[derive(Clone, Copy, Debug, PartialEq, Eq, Structural)]
pub struct Quad {
    pub q: Point3,
    pub u: Vec3,
    pub v: Vec3,
    pub w: Vec3,
    pub material: Material,
    pub bbox: AABB,
    pub normal: Vec3,
    pub d: i64,
}

/// The x component of the (unnormalized) plane normal `u x v`.
pub open spec fn qn_x(u: Vec3, v: Vec3) -> int {
    fxt(u.y * v.z - u.z * v.y)
}

/// The y component of the (unnormalized) plane normal `u x v`.
pub open spec fn qn_y(u: Vec3, v: Vec3) -> int {
    fxt(u.z * v.x - u.x * v.z)
}

/// The z component of the (unnormalized) plane normal `u x v`.
pub open spec fn qn_z(u: Vec3, v: Vec3) -> int {
    fxt(u.x * v.y - u.y * v.x)
}

/// The raw squared norm of the plane normal.
pub open spec fn qn_norm2(u: Vec3, v: Vec3) -> int {
    qn_x(u, v) * qn_x(u, v) + qn_y(u, v) * qn_y(u, v) + qn_z(u, v) * qn_z(u, v)
}

/// The fixed-point squared norm `n . n` of the plane normal.
pub open spec fn qnn(u: Vec3, v: Vec3) -> int {
    fxs(qn_norm2(u, v))
}

/// The box contains all four corners of the parallelogram — the corner,
/// both edge ends and the far corner — on every axis.
pub open spec fn quad_box_covers(b: AABB, q: Point3, u: Vec3, v: Vec3) -> bool {
    &&& b.x.min <= q.x <= b.x.max
    &&& b.y.min <= q.y <= b.y.max
    &&& b.z.min <= q.z <= b.z.max
    &&& b.x.min <= q.x + u.x <= b.x.max
    &&& b.y.min <= q.y + u.y <= b.y.max
    &&& b.z.min <= q.z + u.z <= b.z.max
    &&& b.x.min <= q.x + v.x <= b.x.max
    &&& b.y.min <= q.y + v.y <= b.y.max
    &&& b.z.min <= q.z + v.z <= b.z.max
    &&& b.x.min <= q.x + u.x + v.x <= b.x.max
    &&& b.y.min <= q.y + u.y + v.y <= b.y.max
    &&& b.z.min <= q.z + u.z + v.z <= b.z.max
}

/// Validity of a quad: corner and edges within range, a non-degenerate
/// plane, and every derived field equal to its construction formula.
pub open spec fn wf_quad(qd: Quad) -> bool {
    &&& bounded(qd.q, 0x200_0000int)
    &&& bounded(qd.u, 0x200_0000int)
    &&& bounded(qd.v, 0x200_0000int)
    &&& qnn(qd.u, qd.v) >= FX_ONE
    &&& qd.normal.x == floor_div(qn_x(qd.u, qd.v) * FX_ONE, sqrt_of(qn_norm2(qd.u, qd.v)))
    &&& qd.normal.y == floor_div(qn_y(qd.u, qd.v) * FX_ONE, sqrt_of(qn_norm2(qd.u, qd.v)))
    &&& qd.normal.z == floor_div(qn_z(qd.u, qd.v) * FX_ONE, sqrt_of(qn_norm2(qd.u, qd.v)))
    &&& bounded(qd.normal, FX_ONE as int)
    &&& qd.w.x == floor_div(qn_x(qd.u, qd.v) * FX_ONE, qnn(qd.u, qd.v))
    &&& qd.w.y == floor_div(qn_y(qd.u, qd.v) * FX_ONE, qnn(qd.u, qd.v))
    &&& qd.w.z == floor_div(qn_z(qd.u, qd.v) * FX_ONE, qnn(qd.u, qd.v))
    &&& bounded(qd.w, 0x10_0000_0000int)
    &&& qd.d == fxs(dot_raw(qd.normal, qd.q))
    &&& wf_box(qd.bbox)
    &&& -0x1000_0000 <= qd.bbox.x.min <= 0x1000_0000 && -0x1000_0000 <= qd.bbox.x.max
        <= 0x1000_0000
    &&& -0x1000_0000 <= qd.bbox.y.min <= 0x1000_0000 && -0x1000_0000 <= qd.bbox.y.max
        <= 0x1000_0000
    &&& -0x1000_0000 <= qd.bbox.z.min <= 0x1000_0000 && -0x1000_0000 <= qd.bbox.z.max
        <= 0x1000_0000
    &&& quad_box_covers(qd.bbox, qd.q, qd.u, qd.v)
    &&& wf_material(qd.material)
}

/// The fixed-point component of the plane equation along the ray.
pub open spec fn quad_denom(qd: Quad, r: Ray) -> int {
    fxs(dot_raw(qd.normal, r.direction))
}

/// The floored ray parameter where the ray meets the plane.
pub open spec fn quad_t(qd: Quad, r: Ray) -> int {
    floor_div((qd.d - fxs(dot_raw(qd.normal, r.origin))) * FX_ONE, quad_denom(qd, r))
}

/// The first planar coordinate of the hit point.
pub open spec fn quad_alpha(qd: Quad, r: Ray) -> int {
    let t = quad_t(qd, r);
    let plx = at_x(r, t) - qd.q.x;
    let ply = at_y(r, t) - qd.q.y;
    let plz = at_z(r, t) - qd.q.z;
    let cx = fxt(ply * qd.v.z - plz * qd.v.y);
    let cy = fxt(plz * qd.v.x - plx * qd.v.z);
    let cz = fxt(plx * qd.v.y - ply * qd.v.x);
    fxs(qd.w.x * cx + qd.w.y * cy + qd.w.z * cz)
}

/// The second planar coordinate of the hit point.
pub open spec fn quad_beta(qd: Quad, r: Ray) -> int {
    let t = quad_t(qd, r);
    let plx = at_x(r, t) - qd.q.x;
    let ply = at_y(r, t) - qd.q.y;
    let plz = at_z(r, t) - qd.q.z;
    let cx = fxt(qd.u.y * plz - qd.u.z * ply);
    let cy = fxt(qd.u.z * plx - qd.u.x * plz);
    let cz = fxt(qd.u.x * ply - qd.u.y * plx);
    fxs(qd.w.x * cx + qd.w.y * cy + qd.w.z * cz)
}

/// Whether the quad reports a hit on the closed parameter interval.
pub open spec fn quad_hits(qd: Quad, r: Ray, tmin: int, tmax: int) -> bool {
    &&& quad_denom(qd, r) != 0
    &&& tmin <= quad_t(qd, r) <= tmax
    &&& point_in_box(
        at_x(r, quad_t(qd, r)),
        at_y(r, quad_t(qd, r)),
        at_z(r, quad_t(qd, r)),
        qd.bbox,
    )
    &&& 0 <= quad_alpha(qd, r) <= FX_ONE
    &&& 0 <= quad_beta(qd, r) <= FX_ONE
}

/// The record of a quad hit: every field pinned by the formulas above.
pub open spec fn quad_rec(qd: Quad, r: Ray, rec: HitRecord) -> bool {
    let t = quad_t(qd, r);
    let ff = fxs(dot_raw(r.direction, qd.normal)) < 0;
    &&& rec.t == t
    &&& rec.p.x == at_x(r, t) && rec.p.y == at_y(r, t) && rec.p.z == at_z(r, t)
    &&& rec.front_face == ff
    &&& (ff ==> rec.normal == qd.normal)
    &&& (!ff ==> rec.normal.x == -qd.normal.x && rec.normal.y == -qd.normal.y && rec.normal.z
        == -qd.normal.z)
    &&& rec.material == qd.material
    &&& rec.u == quad_alpha(qd, r)
    &&& rec.v == quad_beta(qd, r)
}

/// Scaling a bounded component by the unit and dividing by a denominator
/// at least the unit cannot grow it by more than one.
proof fn lemma_w_bound(ni: int, nn: int)
    requires
        nn >= FX_ONE,
        -(0x8_0000_0100int) <= ni <= 0x8_0000_0100int,
    ensures
        -(0x10_0000_0000int) <= floor_div(ni * FX_ONE, nn) <= 0x10_0000_0000int,
{
    let s = FX_ONE as int;
    lemma_div_bound(ni * s, nn);
    assert(-(0x10_0000_0000int) <= (ni * s) / nn <= 0x10_0000_0000int) by (nonlinear_arith)
        requires
            s == 65536,
            nn >= s,
            -(0x8_0000_0100int) <= ni <= 0x8_0000_0100int,
            nn * ((ni * s) / nn) <= ni * s < nn * ((ni * s) / nn) + nn,
    ;
}

impl Quad {
    /// Build a quad from a corner and two edges; the plane must be
    /// non-degenerate (its normal has fixed-point squared norm at least
    /// one).
    pub fn new(q: Point3, u: Vec3, v: Vec3, material: Material) -> (r: Self)
        requires
            bounded(q, 0x200_0000int),
            bounded(u, 0x200_0000int),
            bounded(v, 0x200_0000int),
            qnn(u, v) >= FX_ONE,
            wf_material(material),
        ensures
            wf_quad(r),
            r.q == q && r.u == u && r.v == v && r.material == material,
    {
        let n = u.cross(v);
        proof {
            lemma_mul_bound(u.y as int, v.z as int, 0x200_0000int, 0x200_0000int);
            lemma_mul_bound(u.z as int, v.y as int, 0x200_0000int, 0x200_0000int);
            lemma_mul_bound(u.z as int, v.x as int, 0x200_0000int, 0x200_0000int);
            lemma_mul_bound(u.x as int, v.z as int, 0x200_0000int, 0x200_0000int);
            lemma_mul_bound(u.x as int, v.y as int, 0x200_0000int, 0x200_0000int);
            lemma_mul_bound(u.y as int, v.x as int, 0x200_0000int, 0x200_0000int);
            lemma_fxt_bound(u.y * v.z - u.z * v.y, 0x8_0000_0000_0000int);
            lemma_fxt_bound(u.z * v.x - u.x * v.z, 0x8_0000_0000_0000int);
            lemma_fxt_bound(u.x * v.y - u.y * v.x, 0x8_0000_0000_0000int);
            lemma_dot_bound(n, n, 0x8_0000_0100int, 0x8_0000_0100int);
            lemma_square_nonneg(n.x as int);
            lemma_square_nonneg(n.y as int);
            lemma_square_nonneg(n.z as int);
            lemma_div_bound(norm2_raw(n), FX_ONE as int);
            assert(norm2_raw(n) > 0);
        }
        let nn = n.dot(n);
        let normal = n.unit_vector();
        proof {
            lemma_dot_bound(normal, q, FX_ONE as int, 0x200_0000int);
            lemma_fxs_bound(dot_raw(normal, q), 0x1_0000_0000_0000int);
            lemma_fxs_bound(norm2_raw(n), 0x100_0000_0000_0000_0000int);
            lemma_w_bound(n.x as int, nn as int);
            lemma_w_bound(n.y as int, nn as int);
            lemma_w_bound(n.z as int, nn as int);
        }
        let d = normal.dot(q);
        let w = Vec3 {
            x: fdiv(n.x as i128 * FX_ONE as i128, nn as i128) as i64,
            y: fdiv(n.y as i128 * FX_ONE as i128, nn as i128) as i64,
            z: fdiv(n.z as i128 * FX_ONE as i128, nn as i128) as i64,
        };
        let mut quad = Quad {
            q,
            u,
            v,
            w,
            material,
            bbox: AABB::empty(),
            normal,
            d,
        };
        quad.set_bounding_box();
        quad
    }

    /// The box over both diagonals of the parallelogram, so a flat quad
    /// still has a usable box.
    pub fn set_bounding_box(&mut self)
        requires
            bounded(old(self).q, 0x200_0000int),
            bounded(old(self).u, 0x200_0000int),
            bounded(old(self).v, 0x200_0000int),
        ensures
            final(self).q == old(self).q,
            final(self).u == old(self).u,
            final(self).v == old(self).v,
            final(self).w == old(self).w,
            final(self).material == old(self).material,
            final(self).normal == old(self).normal,
            final(self).d == old(self).d,
            wf_box(final(self).bbox),
            -0x1000_0000 <= final(self).bbox.x.min <= 0x1000_0000,
            -0x1000_0000 <= final(self).bbox.x.max <= 0x1000_0000,
            -0x1000_0000 <= final(self).bbox.y.min <= 0x1000_0000,
            -0x1000_0000 <= final(self).bbox.y.max <= 0x1000_0000,
            -0x1000_0000 <= final(self).bbox.z.min <= 0x1000_0000,
            -0x1000_0000 <= final(self).bbox.z.max <= 0x1000_0000,
            quad_box_covers(final(self).bbox, old(self).q, old(self).u, old(self).v),
    {
        let c0 = self.q;
        let c3 = self.q.add(self.u).add(self.v);
        let c1 = self.q.add(self.u);
        let c2 = self.q.add(self.v);
        let bbox_diagonal1 = AABB::from_points(&c0, &c3);
        let bbox_diagonal2 = AABB::from_points(&c1, &c2);
        self.bbox = AABB::from_boxes(&bbox_diagonal1, &bbox_diagonal2);
    }

    pub fn bounding_box(&self) -> (r: AABB)
        ensures
            r == self.bbox,
    {
        self.bbox
    }

    /// Record the planar coordinates when both lie in the unit interval.
    pub fn is_interior(alpha: i64, beta: i64, rec: &mut HitRecord) -> (r: bool)
        ensures
            r == (0 <= alpha <= FX_ONE && 0 <= beta <= FX_ONE),
            r ==> final(rec).u == alpha && final(rec).v == beta && final(rec).p == old(rec).p
                && final(rec).normal == old(rec).normal && final(rec).material == old(rec).material
                && final(rec).t == old(rec).t && final(rec).front_face == old(rec).front_face,
            !r ==> *final(rec) == *old(rec),
    {
        let unit_interval = Interval::new(0, FX_ONE);
        if !unit_interval.contains(alpha) || !unit_interval.contains(beta) {
            return false;
        }
        rec.u = alpha;
        rec.v = beta;
        true
    }

    /// Solve the plane equation and accept a hit exactly when the
    /// parameter lies in the closed interval, the point stays inside the
    /// bounding box, and the planar coordinates lie in the unit square.
    pub fn hit(&self, ray: &Ray, ray_t: Interval) -> (res: Option<HitRecord>)
        requires
            wf_quad(*self),
            wf_ray(*ray),
            -FX_INF <= ray_t.min <= FX_INF,
            -FX_INF <= ray_t.max <= FX_INF,
        ensures
            res is Some <==> quad_hits(*self, *ray, ray_t.min as int, ray_t.max as int),
            res matches Some(rec) ==> ({
                &&& quad_rec(*self, *ray, rec)
                &&& ray_t.min <= rec.t <= ray_t.max
                &&& point_in_box(rec.p.x as int, rec.p.y as int, rec.p.z as int, self.bbox)
                &&& wf_rec(rec)
            }),
    {
        proof {
            lemma_dot_bound(self.normal, ray.direction, FX_ONE as int, 0x40_0000int);
            lemma_fxs_bound(dot_raw(self.normal, ray.direction), 0xC0_0000_0000_0000int);
        }
        let denom = self.normal.dot(ray.direction);
        if denom == 0 {
            return None;
        }
        proof {
            lemma_dot_bound(self.normal, ray.origin, FX_ONE as int, 0x1_0000_0000int);
            lemma_fxs_bound(dot_raw(self.normal, ray.origin), 0x3_0000_0000_0000_0000int);
            lemma_dot_bound(self.normal, self.q, FX_ONE as int, 0x200_0000int);
            lemma_fxs_bound(dot_raw(self.normal, self.q), 0x1_0000_0000_0000int);
        }
        let dn = self.normal.dot(ray.origin);
        let num: i64 = self.d - dn;
        let tq: i128 = if denom > 0 {
            fdiv(num as i128 * 65536i128, denom as i128)
        } else {
            fdiv(-(num as i128 * 65536i128), -(denom as i128))
        };
        if !(ray_t.min as i128 <= tq && tq <= ray_t.max as i128) {
            return None;
        }
        let t = tq as i64;
        let p = ray.at(t);
        // the in-box guard keeps the stored point inside the quad's box,
        // whatever the floor roundings did around the plane
        if p.x < self.bbox.x.min || p.x > self.bbox.x.max || p.y < self.bbox.y.min || p.y
            > self.bbox.y.max || p.z < self.bbox.z.min || p.z > self.bbox.z.max {
            return None;
        }
        let planar = p.sub(self.q);
        let chi_a = planar.cross(self.v);
        let chi_b = self.u.cross(planar);
        proof {
            lemma_quad_cross_bound(planar, self.v);
            lemma_quad_cross_bound2(self.u, planar);
            lemma_dot_bound(self.w, chi_a, 0x10_0000_0000int, 0x100_0000_0000int);
            lemma_dot_bound(self.w, chi_b, 0x10_0000_0000int, 0x100_0000_0000int);
            lemma_fxs_bound(dot_raw(self.w, chi_a), 0x3000_0000_0000_0000_0000int);
            lemma_fxs_bound(dot_raw(self.w, chi_b), 0x3000_0000_0000_0000_0000int);
        }
        let alpha = self.w.dot(chi_a);
        let beta = self.w.dot(chi_b);
        if !(0 <= alpha && alpha <= FX_ONE) || !(0 <= beta && beta <= FX_ONE) {
            return None;
        }
        proof {
            lemma_dot_bound(ray.direction, self.normal, 0x40_0000int, FX_ONE as int);
            lemma_fxs_bound(dot_raw(ray.direction, self.normal), 0xC0_0000_0000_0000int);
            lemma_mul_bound(ray.direction.x as int, self.normal.x as int, 0x40_0000int, FX_ONE as int);
            lemma_mul_bound(ray.direction.y as int, self.normal.y as int, 0x40_0000int, FX_ONE as int);
            lemma_mul_bound(ray.direction.z as int, self.normal.z as int, 0x40_0000int, FX_ONE as int);
        }
        let dots = fdiv(
            ray.direction.x as i128 * self.normal.x as i128 + ray.direction.y as i128
                * self.normal.y as i128 + ray.direction.z as i128 * self.normal.z as i128,
            FX_ONE as i128,
        );
        let front_face = dots < 0;
        let normal = if front_face {
            self.normal
        } else {
            Vec3 { x: -self.normal.x, y: -self.normal.y, z: -self.normal.z }
        };
        Some(
            HitRecord {
                p,
                normal,
                material: self.material,
                t,
                front_face,
                u: alpha,
                v: beta,
            },
        )
    }
}

/// The cross of a box-bounded offset with a quad edge has components of
/// moderate size.
proof fn lemma_quad_cross_bound(a: Vec3, b: Vec3)
    requires
        bounded(a, 0x2200_0000int),
        bounded(b, 0x200_0000int),
    ensures
        bounded(
            Vec3 {
                x: fxt(a.y * b.z - a.z * b.y) as i64,
                y: fxt(a.z * b.x - a.x * b.z) as i64,
                z: fxt(a.x * b.y - a.y * b.x) as i64,
            },
            0x100_0000_0000int,
        ),
        -(0x100_0000_0000int) <= fxt(a.y * b.z - a.z * b.y) <= 0x100_0000_0000int,
        -(0x100_0000_0000int) <= fxt(a.z * b.x - a.x * b.z) <= 0x100_0000_0000int,
        -(0x100_0000_0000int) <= fxt(a.x * b.y - a.y * b.x) <= 0x100_0000_0000int,
{
    lemma_mul_bound(a.y as int, b.z as int, 0x2200_0000int, 0x200_0000int);
    lemma_mul_bound(a.z as int, b.y as int, 0x2200_0000int, 0x200_0000int);
    lemma_mul_bound(a.z as int, b.x as int, 0x2200_0000int, 0x200_0000int);
    lemma_mul_bound(a.x as int, b.z as int, 0x2200_0000int, 0x200_0000int);
    lemma_mul_bound(a.x as int, b.y as int, 0x2200_0000int, 0x200_0000int);
    lemma_mul_bound(a.y as int, b.x as int, 0x2200_0000int, 0x200_0000int);
    lemma_fxt_bound(a.y * b.z - a.z * b.y, 0x8800_0000_0000_0000int);
    lemma_fxt_bound(a.z * b.x - a.x * b.z, 0x8800_0000_0000_0000int);
    lemma_fxt_bound(a.x * b.y - a.y * b.x, 0x8800_0000_0000_0000int);
}

/// The cross of a quad edge with a box-bounded offset has components of
/// moderate size.
proof fn lemma_quad_cross_bound2(a: Vec3, b: Vec3)
    requires
        bounded(a, 0x200_0000int),
        bounded(b, 0x2200_0000int),
    ensures
        -(0x100_0000_0000int) <= fxt(a.y * b.z - a.z * b.y) <= 0x100_0000_0000int,
        -(0x100_0000_0000int) <= fxt(a.z * b.x - a.x * b.z) <= 0x100_0000_0000int,
        -(0x100_0000_0000int) <= fxt(a.x * b.y - a.y * b.x) <= 0x100_0000_0000int,
{
    lemma_mul_bound(a.y as int, b.z as int, 0x200_0000int, 0x2200_0000int);
    lemma_mul_bound(a.z as int, b.y as int, 0x200_0000int, 0x2200_0000int);
    lemma_mul_bound(a.z as int, b.x as int, 0x200_0000int, 0x2200_0000int);
    lemma_mul_bound(a.x as int, b.z as int, 0x200_0000int, 0x2200_0000int);
    lemma_mul_bound(a.x as int, b.y as int, 0x200_0000int, 0x2200_0000int);
    lemma_mul_bound(a.y as int, b.x as int, 0x200_0000int, 0x2200_0000int);
    lemma_fxt_bound(a.y * b.z - a.z * b.y, 0x8800_0000_0000_0000int);
    lemma_fxt_bound(a.z * b.x - a.x * b.z, 0x8800_0000_0000_0000int);
    lemma_fxt_bound(a.x * b.y - a.y * b.x, 0x8800_0000_0000_0000int);
}

} // verus!
