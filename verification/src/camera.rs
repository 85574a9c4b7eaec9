//! The recursive shading integrator: the camera's core. Pixel sampling and
//! image output are mechanical affine mappings that live with the
//! application shell; what is worth proving is the radiance recursion.
//!
//! Terminal cases are pinned exactly: zero radiance at depth zero, and the
//! background gradient whenever the ray misses every primitive — whatever
//! the remaining depth. A hit hands the material one scattering
//! transition; the scattered radiance is attenuated componentwise, and
//! every returned channel stays within `[0, 1]`.

use vstd::prelude::*;
use crate::fixed::{FX_ONE, FX_INF, floor_div, fdiv, lemma_div_bound};
use crate::vec3::{Vec3, Colour, fxs, norm2_raw, sqrt_of, lemma_mul_bound};
use crate::ray::{Ray, wf_ray};
use crate::interval::Interval;
use crate::material::{valid_colour, material_attenuation};
use crate::hittable::{Hittable, HitRecord, wf_hittable, hittable_prims, misses_all, is_best_hit};

verus! {

/// The lower end of every shading query: hits nearer than this are
/// treated as self-intersection noise.
pub const T_MIN: i64 = 66;

/// The vertical blend parameter of the background: the ray's unit
/// direction height mapped into `[0, 1]`.
pub open spec fn bg_a(r: Ray) -> int {
    (floor_div(r.direction.y * FX_ONE, sqrt_of(norm2_raw(r.direction))) + FX_ONE) / 2
}

/// One channel of the background: white blended toward the horizon colour.
pub open spec fn bg_channel(a: int, b: int) -> int {
    (FX_ONE - a) + fxs(a * b)
}

/// The background gradient a missing ray returns, channel by channel.
pub open spec fn background_spec(r: Ray) -> (int, int, int) {
    let a = bg_a(r);
    (bg_channel(a, 32768), bg_channel(a, 45875), bg_channel(a, 65536))
}

/// Blending toward a channel value in `[0, 1]` keeps the result there.
proof fn lemma_blend_valid(a: int, b: int)
    requires
        0 <= a <= FX_ONE,
        0 <= b <= FX_ONE,
    ensures
        0 <= bg_channel(a, b) <= FX_ONE,
{
    let s = FX_ONE as int;
    lemma_div_bound(a * b, s);
    assert(0 <= (a * b) / s <= a) by (nonlinear_arith)
        requires
            s == 65536,
            0 <= a <= s,
            0 <= b <= s,
            s * ((a * b) / s) <= a * b < s * ((a * b) / s) + s,
    ;
}

/// Attenuating one valid channel by another keeps it valid.
proof fn lemma_attenuate_valid(a: int, b: int)
    requires
        0 <= a <= FX_ONE,
        0 <= b <= FX_ONE,
    ensures
        0 <= fxs(a * b) <= FX_ONE,
{
    let s = FX_ONE as int;
    lemma_div_bound(a * b, s);
    assert(0 <= (a * b) / s <= s) by (nonlinear_arith)
        requires
            s == 65536,
            0 <= a <= s,
            0 <= b <= s,
            s * ((a * b) / s) <= a * b < s * ((a * b) / s) + s,
    ;
}

/// The background is never the zero colour: its third channel blends
/// `1.0` toward `1.0`, so it is exactly one for every well-formed ray.
/// With the depth-one hit clause of `ray_colour`, a zero radiance at
/// positive depth can only mean a hit.
pub proof fn lemma_background_never_zero(r: Ray)
    requires
        wf_ray(r),
    ensures
        background_spec(r).2 == FX_ONE as int,
{
    let s = FX_ONE as int;
    let n = norm2_raw(r.direction);
    crate::vec3::lemma_dir_norm_pos(r.direction);
    crate::vec3::lemma_sqrt_exists(n);
    let len = sqrt_of(n);
    crate::vec3::lemma_square_nonneg(r.direction.x as int);
    crate::vec3::lemma_square_nonneg(r.direction.y as int);
    crate::vec3::lemma_square_nonneg(r.direction.z as int);
    crate::vec3::lemma_unit_comp_bound(r.direction.y as int, n, len);
    let uy = floor_div(r.direction.y * FX_ONE, len);
    assert(-s <= uy <= s);
    let a = bg_a(r);
    lemma_div_bound(uy + s, 2);
    assert(0 <= a <= s) by (nonlinear_arith)
        requires
            -s <= uy <= s,
            s == 65536,
            a == (uy + s) / 2,
            2 * ((uy + s) / 2) <= uy + s < 2 * ((uy + s) / 2) + 2,
    ;
    assert(s * a <= a * 65536 < s * a + s) by (nonlinear_arith)
        requires
            s == 65536,
    ;
    crate::fixed::lemma_div_unique(a * 65536, s, a);
}

/// A ray that misses every primitive shades to the background whatever
/// the positive depth was: any two such radiance values are equal.
pub proof fn lemma_miss_depth_independent(r: Ray, c1: Colour, c2: Colour)
    requires
        c1.x == background_spec(r).0 && c1.y == background_spec(r).1 && c1.z == background_spec(
            r,
        ).2,
        c2.x == background_spec(r).0 && c2.y == background_spec(r).1 && c2.z == background_spec(
            r,
        ).2,
    ensures
        c1 == c2,
{
}

/// The radiance carried back along a ray: zero at the depth bound, the
/// background on a miss, and otherwise the hit material's attenuation
/// multiplied componentwise into the scattered ray's radiance — or zero,
/// when the material absorbs the path or the scattered ray degenerates.
pub fn ray_colour(ray: &Ray, depth: u32, world: &Hittable) -> (c: Colour)
    requires
        wf_hittable(*world),
        wf_ray(*ray),
    ensures
        valid_colour(c),
        depth == 0 ==> c == (Vec3 { x: 0i64, y: 0i64, z: 0i64 }),
        depth > 0 && misses_all(hittable_prims(*world), *ray, T_MIN as int, FX_INF as int) ==> ({
            &&& c.x == background_spec(*ray).0
            &&& c.y == background_spec(*ray).1
            &&& c.z == background_spec(*ray).2
        }),
        depth == 1 && !misses_all(hittable_prims(*world), *ray, T_MIN as int, FX_INF as int)
            ==> c == (Vec3 { x: 0i64, y: 0i64, z: 0i64 }),
        depth >= 1 && !misses_all(hittable_prims(*world), *ray, T_MIN as int, FX_INF as int) ==> (
        (c == (Vec3 { x: 0i64, y: 0i64, z: 0i64 })) || (exists|rec: HitRecord, sub: Colour|
            #![trigger is_best_hit(
                hittable_prims(*world),
                *ray,
                T_MIN as int,
                FX_INF as int,
                rec,
            ), valid_colour(sub)]
            is_best_hit(hittable_prims(*world), *ray, T_MIN as int, FX_INF as int, rec)
                && valid_colour(sub) && c.x == fxs(material_attenuation(rec.material).x * sub.x)
                && c.y == fxs(material_attenuation(rec.material).y * sub.y) && c.z == fxs(
                material_attenuation(rec.material).z * sub.z,
            ))),
    decreases depth,
{
    if depth == 0 {
        return Vec3::zero();
    }
    let res = world.hit(ray, Interval::new(T_MIN, FX_INF));
    match res {
        Some(rec) => {
            match rec.material.scatter(ray, &rec) {
                Some((attenuation, scattered)) => {
                    if scattered.is_wf() {
                        let rc = ray_colour(&scattered, depth - 1, world);
                        proof {
                            if depth == 1 {
                                assert(rc == (Vec3 { x: 0i64, y: 0i64, z: 0i64 }));
                                assert(attenuation.x * rc.x == 0 && attenuation.y * rc.y == 0
                                    && attenuation.z * rc.z == 0) by (nonlinear_arith)
                                    requires
                                        rc.x == 0 && rc.y == 0 && rc.z == 0,
                                ;
                                lemma_div_bound(0, FX_ONE as int);
                                crate::fixed::lemma_div_unique(0, FX_ONE as int, 0);
                            }
                            lemma_attenuate_valid(attenuation.x as int, rc.x as int);
                            lemma_attenuate_valid(attenuation.y as int, rc.y as int);
                            lemma_attenuate_valid(attenuation.z as int, rc.z as int);
                            lemma_mul_bound(
                                attenuation.x as int,
                                rc.x as int,
                                FX_ONE as int,
                                FX_ONE as int,
                            );
                            lemma_mul_bound(
                                attenuation.y as int,
                                rc.y as int,
                                FX_ONE as int,
                                FX_ONE as int,
                            );
                            lemma_mul_bound(
                                attenuation.z as int,
                                rc.z as int,
                                FX_ONE as int,
                                FX_ONE as int,
                            );
                        }
                        let out = attenuation.comp_mul(rc);
                        proof {
                            assert(is_best_hit(
                                hittable_prims(*world),
                                *ray,
                                T_MIN as int,
                                FX_INF as int,
                                rec,
                            ));
                            assert(valid_colour(rc));
                            assert(attenuation == material_attenuation(rec.material));
                        }
                        out
                    } else {
                        // a degenerate scattered ray carries no radiance
                        Vec3::zero()
                    }
                },
                None => Vec3::zero(),
            }
        },
        None => {
            proof {
                crate::vec3::lemma_dir_norm_pos(ray.direction);
            }
            let unit = ray.direction.unit_vector();
            let a: i64 = (unit.y + FX_ONE) / 2;
            proof {
                lemma_blend_valid(a as int, 32768);
                lemma_blend_valid(a as int, 45875);
                lemma_blend_valid(a as int, 65536);
                lemma_mul_bound(a as int, 65536, FX_ONE as int, FX_ONE as int);
            }
            let cx = (FX_ONE - a) + fdiv(a as i128 * 32768i128, FX_ONE as i128) as i64;
            let cy = (FX_ONE - a) + fdiv(a as i128 * 45875i128, FX_ONE as i128) as i64;
            let cz = (FX_ONE - a) + fdiv(a as i128 * 65536i128, FX_ONE as i128) as i64;
            Vec3 { x: cx, y: cy, z: cz }
        },
    }
}

} // verus!
