//! Hit records and the closed set of hittable shapes.
//!
//! The nearest-hit semantics lives here: `prim_hits`, `prim_hit_t` and
//! `prim_hit_rec` characterize a single primitive's intersection exactly,
//! and `best_opt` says that a query result is the closest hit over a
//! sequence of primitives. Both the linear scan and the tree traversal
//! promise `best_opt`, which is what makes them interchangeable.

use vstd::prelude::*;
use crate::fixed::{FX_ONE, FX_INF};
use crate::vec3::{Vec3, Point3, bounded, dot_fx, lemma_dot_bound};
use crate::ray::{Ray, wf_ray};
use crate::aabb::AABB;
use crate::material::{Material, Lambertian, wf_material};
use crate::interval::Interval;
use crate::aabb::{point_in_box};
use crate::sphere::{
    Sphere, wf_sphere, sph_hits, sph_hit_t, sph_rec, sph_root1, sph_root2, sph_disc, sph_a,
};
use crate::quad::{Quad, wf_quad, quad_hits, quad_t, quad_rec};
use crate::vec3::sqrt_of;

verus! {

#[derive(Clone, Copy, Debug, PartialEq, Eq, Structural)]
pub struct HitRecord {
    pub p: Point3,
    pub normal: Vec3,
    pub material: Material,
    pub t: i64,
    pub front_face: bool,
    pub u: i64,
    pub v: i64,
}

/// Bounds on a record the shading code relies on.
pub open spec fn wf_rec(rec: HitRecord) -> bool {
    &&& bounded(rec.p, 0x1_0000_0000int)
    &&& bounded(rec.normal, 0x200_0000int)
    &&& wf_material(rec.material)
}

impl HitRecord {
    /// A blank record: zero point and normal, a black Lambertian stand-in.
    pub fn new() -> (r: Self)
        ensures
            r.p == (Vec3 { x: 0i64, y: 0i64, z: 0i64 }),
            r.normal == (Vec3 { x: 0i64, y: 0i64, z: 0i64 }),
            r.material == Material::Lambertian(
                Lambertian { albedo: Vec3 { x: 0i64, y: 0i64, z: 0i64 } },
            ),
            r.t == 0,
            !r.front_face,
            r.u == 0 && r.v == 0,
    {
        HitRecord {
            p: Vec3::zero(),
            normal: Vec3::zero(),
            material: Material::Lambertian(Lambertian { albedo: Vec3 { x: 0, y: 0, z: 0 } }),
            t: 0,
            front_face: false,
            u: 0,
            v: 0,
        }
    }

    /// Orient the stored normal against the incoming ray and remember on
    /// which side the ray arrived.
    pub fn set_face_normal(&mut self, r: &Ray, outward_normal: Vec3)
        requires
            bounded(r.direction, 0x4000_0000int),
            bounded(outward_normal, 0x4000_0000int),
        ensures
            final(self).front_face == (dot_fx(r.direction, outward_normal) < 0),
            final(self).front_face ==> final(self).normal == outward_normal,
            !final(self).front_face ==> final(self).normal.x == -outward_normal.x
                && final(self).normal.y == -outward_normal.y && final(self).normal.z
                == -outward_normal.z,
            final(self).p == old(self).p,
            final(self).material == old(self).material,
            final(self).t == old(self).t,
            final(self).u == old(self).u,
            final(self).v == old(self).v,
    {
        proof {
            lemma_dot_bound(r.direction, outward_normal, 0x4000_0000int, 0x4000_0000int);
        }
        let d = r.direction.dot(outward_normal);
        self.front_face = d < 0;
        self.normal = if self.front_face {
            outward_normal
        } else {
            outward_normal.neg()
        };
    }
}

/// The two leaf shapes a scene is made of.
#[derive(Clone, Copy, Debug, PartialEq, Eq, Structural)]
pub enum Primitive {
    Sphere(Sphere),
    Quad(Quad),
}

/// Validity of a leaf shape.
pub open spec fn wf_prim(p: Primitive) -> bool {
    match p {
        Primitive::Sphere(s) => wf_sphere(s),
        Primitive::Quad(q) => wf_quad(q),
    }
}

/// The bounding box a leaf reports.
pub open spec fn prim_bbox(p: Primitive) -> AABB {
    match p {
        Primitive::Sphere(s) => s.bbox,
        Primitive::Quad(q) => q.bbox,
    }
}

/// Whether the leaf reports a hit on the given parameter interval.
pub open spec fn prim_hits(p: Primitive, r: Ray, tmin: int, tmax: int) -> bool {
    match p {
        Primitive::Sphere(s) => sph_hits(s, r, tmin, tmax),
        Primitive::Quad(q) => quad_hits(q, r, tmin, tmax),
    }
}

/// The reported hit's parameter.
pub open spec fn prim_hit_t(p: Primitive, r: Ray, tmin: int, tmax: int) -> int {
    match p {
        Primitive::Sphere(s) => sph_hit_t(s, r, tmin, tmax),
        Primitive::Quad(q) => quad_t(q, r),
    }
}

/// The reported record, every field pinned.
pub open spec fn prim_rec(p: Primitive, r: Ray, tmin: int, tmax: int, rec: HitRecord) -> bool {
    match p {
        Primitive::Sphere(s) => sph_rec(s, r, tmin, tmax, rec),
        Primitive::Quad(q) => quad_rec(q, r, rec),
    }
}

impl Primitive {
    /// Dispatch the intersection to the concrete shape.
    pub fn hit(&self, ray: &Ray, ray_t: Interval) -> (res: Option<HitRecord>)
        requires
            wf_prim(*self),
            wf_ray(*ray),
            -FX_INF <= ray_t.min <= FX_INF,
            -FX_INF <= ray_t.max <= FX_INF,
        ensures
            res is Some <==> prim_hits(*self, *ray, ray_t.min as int, ray_t.max as int),
            res matches Some(rec) ==> ({
                &&& prim_rec(*self, *ray, ray_t.min as int, ray_t.max as int, rec)
                &&& ray_t.min <= rec.t <= ray_t.max
                &&& rec.t == prim_hit_t(*self, *ray, ray_t.min as int, ray_t.max as int)
                &&& point_in_box(rec.p.x as int, rec.p.y as int, rec.p.z as int, prim_bbox(*self))
                &&& wf_rec(rec)
            }),
    {
        match self {
            Primitive::Sphere(s) => s.hit(ray, ray_t),
            Primitive::Quad(q) => q.hit(ray, ray_t),
        }
    }

    pub fn bounding_box(&self) -> (r: AABB)
        ensures
            r == prim_bbox(*self),
    {
        match self {
            Primitive::Sphere(s) => s.bounding_box(),
            Primitive::Quad(q) => q.bounding_box(),
        }
    }
}

/// The nearer root never exceeds the farther one.
proof fn lemma_roots_ordered(s: Sphere, r: Ray)
    requires
        sph_disc(s, r) >= 0,
        sph_a(r) >= 1,
    ensures
        sph_root1(s, r) <= sph_root2(s, r),
{
    crate::vec3::lemma_sqrt_exists(sph_disc(s, r));
    let sq = sqrt_of(sph_disc(s, r));
    let h = crate::sphere::sph_h(s, r);
    assert((h - sq) * FX_ONE <= (h + sq) * FX_ONE) by (nonlinear_arith)
        requires
            sq >= 0,
    ;
    vstd::arithmetic::div_mod::lemma_div_is_ordered(
        (h - sq) * FX_ONE,
        (h + sq) * FX_ONE,
        sph_a(r),
    );
}

/// Widening the interval's upper end keeps an existing hit, with the same
/// parameter and the same record.
pub proof fn lemma_prim_widen(p: Primitive, r: Ray, tmin: int, b1: int, b2: int)
    requires
        wf_ray(r),
        b1 <= b2,
        prim_hits(p, r, tmin, b1),
    ensures
        prim_hits(p, r, tmin, b2),
        prim_hit_t(p, r, tmin, b2) == prim_hit_t(p, r, tmin, b1),
        forall|rec: HitRecord|
            prim_rec(p, r, tmin, b1, rec) == #[trigger] prim_rec(p, r, tmin, b2, rec),
{
    match p {
        Primitive::Sphere(s) => {
            crate::vec3::lemma_dir_norm_pos(r.direction);
            lemma_roots_ordered(s, r);
        },
        Primitive::Quad(q) => {},
    }
}

/// Tightening the interval's upper end above the hit parameter keeps the
/// hit, with the same parameter and the same record.
pub proof fn lemma_prim_tighten(p: Primitive, r: Ray, tmin: int, b: int, b2: int)
    requires
        wf_ray(r),
        prim_hits(p, r, tmin, b),
        prim_hit_t(p, r, tmin, b) < b2 <= b,
    ensures
        prim_hits(p, r, tmin, b2),
        prim_hit_t(p, r, tmin, b2) == prim_hit_t(p, r, tmin, b),
        forall|rec: HitRecord|
            prim_rec(p, r, tmin, b, rec) == #[trigger] prim_rec(p, r, tmin, b2, rec),
{
    match p {
        Primitive::Sphere(s) => {
            crate::vec3::lemma_dir_norm_pos(r.direction);
            lemma_roots_ordered(s, r);
        },
        Primitive::Quad(q) => {},
    }
}

/// No leaf of the sequence hits on the interval.
pub open spec fn misses_all(s: Seq<Primitive>, r: Ray, tmin: int, tmax: int) -> bool {
    forall|i: int| 0 <= i < s.len() ==> !prim_hits(#[trigger] s[i], r, tmin, tmax)
}

/// `rec` is a hit of some leaf and no leaf hits nearer.
pub open spec fn is_best_hit(
    s: Seq<Primitive>,
    r: Ray,
    tmin: int,
    tmax: int,
    rec: HitRecord,
) -> bool {
    &&& exists|i: int|
        0 <= i < s.len() && prim_hits(#[trigger] s[i], r, tmin, tmax) && prim_rec(
            s[i],
            r,
            tmin,
            tmax,
            rec,
        )
    &&& forall|i: int|
        0 <= i < s.len() && prim_hits(#[trigger] s[i], r, tmin, tmax) ==> rec.t <= prim_hit_t(
            s[i],
            r,
            tmin,
            tmax,
        )
}

/// A query result is the closest hit over the sequence: none exactly when
/// nothing hits, and otherwise a nearest record.
pub open spec fn best_opt(
    s: Seq<Primitive>,
    r: Ray,
    tmin: int,
    tmax: int,
    res: Option<HitRecord>,
) -> bool {
    match res {
        Option::None => misses_all(s, r, tmin, tmax),
        Option::Some(rec) => is_best_hit(s, r, tmin, tmax, rec),
    }
}

/// The closed set of hittable shapes: the two leaves, the unordered
/// aggregate, and the tree node.
pub enum Hittable {
    Sphere(Sphere),
    Quad(Quad),
    List(crate::hittable_list::HittableList),
    Node(crate::bvh::BVHNode),
}

/// Validity of a hittable shape.
pub open spec fn wf_hittable(h: Hittable) -> bool {
    match h {
        Hittable::Sphere(s) => wf_sphere(s),
        Hittable::Quad(q) => wf_quad(q),
        Hittable::List(l) => crate::hittable_list::wf_list(l),
        Hittable::Node(n) => crate::bvh::wf_node(n),
    }
}

/// The primitives a hittable shape answers for.
pub open spec fn hittable_prims(h: Hittable) -> Seq<Primitive> {
    match h {
        Hittable::Sphere(s) => seq![Primitive::Sphere(s)],
        Hittable::Quad(q) => seq![Primitive::Quad(q)],
        Hittable::List(l) => l.objects@,
        Hittable::Node(n) => crate::bvh::tree_prims(crate::bvh::BvhTree::Node(n)),
    }
}

impl Hittable {
    /// The closest hit over the shape's primitives, whatever the variant:
    /// the aggregate scans, the tree prunes, and both promise `best_opt`.
    pub fn hit(&self, ray: &Ray, ray_t: Interval) -> (res: Option<HitRecord>)
        requires
            wf_hittable(*self),
            wf_ray(*ray),
            -FX_INF <= ray_t.min <= FX_INF,
            -FX_INF <= ray_t.max <= FX_INF,
        ensures
            best_opt(hittable_prims(*self), *ray, ray_t.min as int, ray_t.max as int, res),
            res matches Some(rec) ==> wf_rec(rec) && ray_t.min <= rec.t <= ray_t.max,
    {
        match self {
            Hittable::Sphere(s) => {
                let ghost prims = hittable_prims(*self);
                let res = Primitive::Sphere(*s).hit(ray, ray_t);
                proof {
                    assert(prims.len() == 1 && prims[0] == Primitive::Sphere(*s));
                }
                res
            },
            Hittable::Quad(q) => {
                let ghost prims = hittable_prims(*self);
                let res = Primitive::Quad(*q).hit(ray, ray_t);
                proof {
                    assert(prims.len() == 1 && prims[0] == Primitive::Quad(*q));
                }
                res
            },
            Hittable::List(l) => l.hit(ray, ray_t),
            Hittable::Node(n) => n.hit(ray, ray_t),
        }
    }

    /// The box enclosing the shape.
    pub fn bounding_box(&self) -> (r: AABB)
        ensures
            r == match *self {
                Hittable::Sphere(s) => s.bbox,
                Hittable::Quad(q) => q.bbox,
                Hittable::List(l) => l.bbox,
                Hittable::Node(n) => n.bbox,
            },
    {
        match self {
            Hittable::Sphere(s) => s.bounding_box(),
            Hittable::Quad(q) => q.bounding_box(),
            Hittable::List(l) => l.bounding_box(),
            Hittable::Node(n) => n.bounding_box(),
        }
    }
}

} // verus!
