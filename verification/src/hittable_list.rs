//! The unordered aggregate: a linear scan over its members, tightening the
//! parameter interval to the nearest hit found so far.
//!
//! Its contract is `best_opt`: the scan reports exactly the closest hit
//! over the member sequence, which the interval-stability lemmas of the
//! leaf shapes turn from a statement about shrinking intervals into one
//! about the original query interval.

use vstd::prelude::*;
use crate::fixed::FX_INF;
use crate::interval::Interval;
use crate::aabb::{AABB, contains_box};
use crate::ray::{Ray, wf_ray};
use crate::hittable::{
    HitRecord, wf_rec, Primitive, wf_prim, prim_bbox, prim_hits, prim_hit_t, prim_rec,
    lemma_prim_widen, lemma_prim_tighten, best_opt,
};

verus! {

pub struct HittableList {
    pub objects: Vec<Primitive>,
    pub bbox: AABB,
}

/// Validity of a list: every member valid and covered by the running box.
pub open spec fn wf_list(l: HittableList) -> bool {
    &&& forall|i: int| 0 <= i < l.objects@.len() ==> wf_prim(#[trigger] l.objects@[i])
    &&& forall|i: int|
        0 <= i < l.objects@.len() ==> contains_box(l.bbox, prim_bbox(#[trigger] l.objects@[i]))
}

impl HittableList {
    /// A list holding one member.
    pub fn new(object: Primitive) -> (r: Self)
        requires
            wf_prim(object),
        ensures
            wf_list(r),
            r.objects@.len() == 1,
            r.objects@[0] == object,
    {
        let bbox = AABB::from_boxes(&AABB::empty(), &object.bounding_box());
        let mut objects: Vec<Primitive> = Vec::new();
        objects.push(object);
        HittableList { objects, bbox }
    }

    /// The empty list.
    pub fn empty() -> (r: Self)
        ensures
            wf_list(r),
            r.objects@.len() == 0,
    {
        HittableList { objects: Vec::new(), bbox: AABB::empty() }
    }

    /// Add a member. The box is the union of the old box and the new
    /// member's: it only ever grows, and covers the newcomer too.
    pub fn add(&mut self, object: Primitive)
        requires
            wf_prim(object),
            wf_list(*old(self)),
        ensures
            wf_list(*final(self)),
            final(self).objects@ == old(self).objects@.push(object),
            contains_box(final(self).bbox, old(self).bbox),
            contains_box(final(self).bbox, prim_bbox(object)),
    {
        self.bbox = AABB::from_boxes(&self.bbox, &object.bounding_box());
        self.objects.push(object);
    }

    /// Remove every member; the box keeps its old extent.
    pub fn clear(&mut self)
        ensures
            wf_list(*final(self)),
            final(self).objects@.len() == 0,
            final(self).bbox == old(self).bbox,
    {
        self.objects.clear();
    }

    pub fn bounding_box(&self) -> (r: AABB)
        ensures
            r == self.bbox,
    {
        self.bbox
    }

    /// Linear-scan intersection: the closest hit over all members.
    pub fn hit(&self, ray: &Ray, ray_t: Interval) -> (res: Option<HitRecord>)
        requires
            wf_list(*self),
            wf_ray(*ray),
            -FX_INF <= ray_t.min <= FX_INF,
            -FX_INF <= ray_t.max <= FX_INF,
        ensures
            best_opt(self.objects@, *ray, ray_t.min as int, ray_t.max as int, res),
            res matches Some(rec) ==> wf_rec(rec) && ray_t.min <= rec.t <= ray_t.max,
    {
        let ghost s = self.objects@;
        let ghost a = ray_t.min as int;
        let ghost b = ray_t.max as int;
        let mut best: Option<HitRecord> = None;
        let mut closest: i64 = ray_t.max;
        let mut i: usize = 0;
        while i < self.objects.len()
            invariant
                wf_list(*self),
                wf_ray(*ray),
                -FX_INF <= ray_t.min <= FX_INF,
                -FX_INF <= ray_t.max <= FX_INF,
                s == self.objects@,
                a == ray_t.min as int,
                b == ray_t.max as int,
                0 <= i <= s.len(),
                best is None ==> closest == ray_t.max,
                best is None ==> forall|j: int| 0 <= j < i ==> !prim_hits(#[trigger] s[j], *ray, a, b),
                best matches Some(rec) ==> ({
                    &&& closest == rec.t
                    &&& ray_t.min <= rec.t <= ray_t.max
                    &&& wf_rec(rec)
                    &&& exists|j: int|
                        0 <= j < i && prim_hits(#[trigger] s[j], *ray, a, b) && prim_rec(
                            s[j],
                            *ray,
                            a,
                            b,
                            rec,
                        )
                    &&& forall|j: int|
                        0 <= j < i && prim_hits(#[trigger] s[j], *ray, a, b) ==> rec.t
                            <= prim_hit_t(s[j], *ray, a, b)
                }),
            decreases s.len() - i,
        {
            let sub = Interval::new(ray_t.min, closest);
            let res = self.objects[i].hit(ray, sub);
            match res {
                Some(nr) => {
                    proof {
                        lemma_prim_widen(s[i as int], *ray, a, closest as int, b);
                    }
                    best = Some(nr);
                    closest = nr.t;
                },
                None => {
                    proof {
                        if prim_hits(s[i as int], *ray, a, b) && prim_hit_t(s[i as int], *ray, a, b)
                            < closest {
                            lemma_prim_tighten(
                                s[i as int],
                                *ray,
                                a,
                                b,
                                closest as int,
                            );
                            assert(false);
                        }
                    }
                },
            }
            i = i + 1;
        }
        best
    }
}

impl Default for HittableList {
    /// The default list is the empty one.
    fn default() -> (r: Self)
        ensures
            wf_list(r),
            r.objects@.len() == 0,
    {
        HittableList { objects: Vec::new(), bbox: AABB::empty() }
    }
}

} // verus!
