//! Material scattering models: Lambertian diffuse, fuzzed metal and
//! refractive dielectric.
//!
//! Each scatter call consumes random draws, so the contracts state what
//! holds of every outcome: which fields are pinned exactly (attenuation,
//! scattered origin and time), when scattering is owed (Lambertian and
//! dielectric always scatter; metal only reports a scatter that leaves the
//! surface on the outside), and the shape of the scattered direction.

use vstd::prelude::*;
use crate::fixed::{FX_ONE, floor_div, fdiv, isqrt, lemma_div_bound, lemma_div_unique};
use crate::vec3::{
    Vec3, Colour, bounded, dot_raw, dot_fx, fxs, norm2_raw, sqrt_of, unit_of, reflect_of,
    refr_cos, refract_x, refract_y, refract_z, lemma_sqrt_unique, lemma_dot_bound,
    lemma_mul_bound, lemma_fxs_bound, lemma_square_nonneg,
};
use crate::ray::Ray;
use crate::hittable::{HitRecord, wf_rec};

verus! {

/// Colour channels lie in `[0, 1]`.
pub open spec fn valid_colour(c: Colour) -> bool {
    0 <= c.x <= FX_ONE && 0 <= c.y <= FX_ONE && 0 <= c.z <= FX_ONE
}

#[derive(Clone, Copy, Debug, PartialEq, Eq, Structural)]
pub struct Lambertian {
    pub albedo: Colour,
}

#[derive(Clone, Copy, Debug, PartialEq, Eq, Structural)]
pub struct Metal {
    pub albedo: Colour,
    pub fuzz: i64,
}

#[derive(Clone, Copy, Debug, PartialEq, Eq, Structural)]
pub struct Dielectric {
    pub refractive_index: i64,
}

/// The closed set of scattering models a primitive can carry.
#[derive(Clone, Copy, Debug, PartialEq, Eq, Structural)]
pub enum Material {
    Lambertian(Lambertian),
    Metal(Metal),
    Dielectric(Dielectric),
}

/// Validity of a material's parameters: colours in range, fuzz in `[0, 1]`,
/// a positive refractive index of moderate size.
pub open spec fn wf_material(m: Material) -> bool {
    match m {
        Material::Lambertian(l) => valid_colour(l.albedo),
        Material::Metal(mt) => valid_colour(mt.albedo) && 0 <= mt.fuzz <= FX_ONE,
        Material::Dielectric(d) => FX_ONE / 16 <= d.refractive_index <= 16 * FX_ONE,
    }
}

/// The attenuation a material multiplies into the scattered radiance:
/// the albedo for the diffuse and specular models, white for the
/// dielectric.
pub open spec fn material_attenuation(m: Material) -> Colour {
    match m {
        Material::Lambertian(l) => l.albedo,
        Material::Metal(mt) => mt.albedo,
        Material::Dielectric(d) => Vec3 { x: FX_ONE, y: FX_ONE, z: FX_ONE },
    }
}

impl Lambertian {
    pub fn new(albedo: Colour) -> (r: Self)
        ensures
            r.albedo == albedo,
    {
        Lambertian { albedo }
    }
}

impl Metal {
    /// Fuzz is clamped from above to one.
    pub fn new(albedo: Colour, fuzz: i64) -> (r: Self)
        ensures
            r.albedo == albedo,
            r.fuzz == if fuzz > FX_ONE {
                FX_ONE as int
            } else {
                fuzz as int
            },
    {
        Metal {
            albedo,
            fuzz: if fuzz > FX_ONE {
                FX_ONE
            } else {
                fuzz
            },
        }
    }
}

/// Schlick's reflectance approximation over fixed-point scalars:
/// `r0 + (1 - r0) * (1 - cos)^5` with `r0 = ((1 - n)/(1 + n))^2`.
pub open spec fn reflectance_spec(cosine: int, refractive_index: int) -> int {
    let q = floor_div((FX_ONE - refractive_index) * FX_ONE, FX_ONE + refractive_index);
    let r0 = fxs(q * q);
    let p1 = FX_ONE - cosine;
    let p2 = fxs(p1 * p1);
    let p4 = fxs(p2 * p2);
    let p5 = fxs(p4 * p1);
    r0 + fxs((FX_ONE - r0) * p5)
}

/// The `r0` base term of Schlick's approximation alone.
pub open spec fn schlick_r0(refractive_index: int) -> int {
    let q = floor_div((FX_ONE - refractive_index) * FX_ONE, FX_ONE + refractive_index);
    fxs(q * q)
}

impl Dielectric {
    pub fn new(refractive_index: i64) -> (r: Self)
        ensures
            r.refractive_index == refractive_index,
    {
        Dielectric { refractive_index }
    }

    /// Schlick's reflectance, computed exactly as `reflectance_spec` says.
    pub fn reflectance(cosine: i64, refractive_index: i64) -> (r: i64)
        requires
            0 < refractive_index <= 16 * FX_ONE,
            -2 * FX_ONE <= cosine <= FX_ONE,
        ensures
            r == reflectance_spec(cosine as int, refractive_index as int),
    {
        proof {
            lemma_reflectance_bounds(cosine as int, refractive_index as int);
        }
        let q = fdiv(
            (FX_ONE as i128 - refractive_index as i128) * FX_ONE as i128,
            FX_ONE as i128 + refractive_index as i128,
        ) as i64;
        let r0 = fdiv(q as i128 * q as i128, FX_ONE as i128) as i64;
        let p1 = FX_ONE - cosine;
        let p2 = fdiv(p1 as i128 * p1 as i128, FX_ONE as i128) as i64;
        let p4 = fdiv(p2 as i128 * p2 as i128, FX_ONE as i128) as i64;
        let p5 = fdiv(p4 as i128 * p1 as i128, FX_ONE as i128) as i64;
        proof {
            lemma_mul_bound(
                FX_ONE - r0 as int,
                p5 as int,
                257 * FX_ONE as int,
                243 * FX_ONE as int,
            );
            lemma_fxs_bound(
                (FX_ONE - r0 as int) * p5 as int,
                257 * FX_ONE as int * (243 * FX_ONE as int),
            );
        }
        r0 + fdiv((FX_ONE as i128 - r0 as i128) * p5 as i128, FX_ONE as i128) as i64
    }
}

/// All intermediate Schlick terms are small, so the computation neither
/// overflows nor truncates.
proof fn lemma_reflectance_bounds(cosine: int, ri: int)
    requires
        0 < ri <= 16 * FX_ONE,
        -2 * FX_ONE <= cosine <= FX_ONE,
    ensures
        ({
            let s = FX_ONE as int;
            let q = floor_div((s - ri) * s, s + ri);
            -16 * s <= q <= s
        }),
        ({
            let s = FX_ONE as int;
            let q = floor_div((s - ri) * s, s + ri);
            let r0 = fxs(q * q);
            0 <= r0 <= 256 * s
        }),
        ({
            let s = FX_ONE as int;
            let p1 = s - cosine;
            let p2 = fxs(p1 * p1);
            let p4 = fxs(p2 * p2);
            let p5 = fxs(p4 * p1);
            0 <= p2 <= 9 * s && 0 <= p4 <= 81 * s && 0 <= p5 <= 243 * s
        }),
{
    let s = FX_ONE as int;
    let num = (s - ri) * s;
    assert(-16 * s * s <= num <= s * s) by (nonlinear_arith)
        requires
            s == 65536,
            0 < ri <= 16 * s,
            num == (s - ri) * s,
    ;
    let den = s + ri;
    let q = floor_div(num, den);
    lemma_div_bound(num, den);
    assert(-16 * s <= q <= s) by (nonlinear_arith)
        requires
            s == 65536,
            s < den <= 17 * s,
            -16 * s * s <= num <= s * s,
            den * (num / den) <= num < den * (num / den) + den,
            q == num / den,
    ;
    lemma_square_nonneg(q);
    assert(q * q <= 256 * s * s) by (nonlinear_arith)
        requires
            -16 * s <= q <= s,
            s == 65536,
    ;
    lemma_div_bound(q * q, s);
    assert(0 <= (q * q) / s <= 256 * s) by (nonlinear_arith)
        requires
            s == 65536,
            0 <= q * q <= 256 * s * s,
            s * ((q * q) / s) <= q * q < s * ((q * q) / s) + s,
    ;
    let p1 = s - cosine;
    assert(0 <= p1 <= 3 * s);
    assert(p1 * p1 <= 9 * s * s) by (nonlinear_arith)
        requires
            0 <= p1 <= 3 * s,
    ;
    lemma_square_nonneg(p1);
    lemma_div_bound(p1 * p1, s);
    let p2 = fxs(p1 * p1);
    assert(0 <= p2 <= 9 * s) by (nonlinear_arith)
        requires
            s == 65536,
            0 <= p1 * p1 <= 9 * s * s,
            s * ((p1 * p1) / s) <= p1 * p1 < s * ((p1 * p1) / s) + s,
            p2 == (p1 * p1) / s,
    ;
    assert(p2 * p2 <= 81 * s * s) by (nonlinear_arith)
        requires
            0 <= p2 <= 9 * s,
    ;
    lemma_square_nonneg(p2);
    lemma_div_bound(p2 * p2, s);
    let p4 = fxs(p2 * p2);
    assert(0 <= p4 <= 81 * s) by (nonlinear_arith)
        requires
            s == 65536,
            0 <= p2 * p2 <= 81 * s * s,
            s * ((p2 * p2) / s) <= p2 * p2 < s * ((p2 * p2) / s) + s,
            p4 == (p2 * p2) / s,
    ;
    assert(0 <= p4 * p1 <= 243 * s * s) by (nonlinear_arith)
        requires
            0 <= p4 <= 81 * s,
            0 <= p1 <= 3 * s,
    ;
    lemma_div_bound(p4 * p1, s);
    let p5 = fxs(p4 * p1);
    assert(0 <= p5 <= 243 * s) by (nonlinear_arith)
        requires
            s == 65536,
            0 <= p4 * p1 <= 243 * s * s,
            s * ((p4 * p1) / s) <= p4 * p1 < s * ((p4 * p1) / s) + s,
            p5 == (p4 * p1) / s,
    ;
}

/// At normal incidence the fifth-power term vanishes, so Schlick's
/// reflectance is exactly its `r0` base term.
pub proof fn lemma_reflectance_normal_incidence(refractive_index: int)
    ensures
        reflectance_spec(FX_ONE as int, refractive_index) == schlick_r0(refractive_index),
{
    let s = FX_ONE as int;
    assert(floor_div(0, s) == 0) by {
        lemma_div_unique(0, s, 0);
    }
    let q = floor_div((s - refractive_index) * s, s + refractive_index);
    let r0 = fxs(q * q);
    assert(fxs((s - r0) * 0) == 0) by {
        assert((s - r0) * 0 == 0) by (nonlinear_arith);
        lemma_div_unique(0, s, 0);
    }
}

/// At a refractive index of exactly one, the `r0` base term is zero and
/// the reflectance reduces to the bare fifth-power term; at normal
/// incidence it is then exactly zero.
pub proof fn lemma_reflectance_matched_index(cosine: int)
    ensures
        reflectance_spec(cosine, FX_ONE as int) == ({
            let p1 = FX_ONE - cosine;
            let p2 = fxs(p1 * p1);
            let p4 = fxs(p2 * p2);
            fxs(p4 * p1)
        }),
        reflectance_spec(FX_ONE as int, FX_ONE as int) == 0,
{
    let s = FX_ONE as int;
    assert((s - s) * s == 0) by (nonlinear_arith);
    assert(floor_div(0, 2 * s) == 0) by {
        lemma_div_unique(0, 2 * s, 0);
    }
    let q = floor_div((s - s) * s, s + s);
    assert(q == 0);
    assert(q * q == 0) by (nonlinear_arith)
        requires
            q == 0,
    ;
    assert(floor_div(0, s) == 0) by {
        lemma_div_unique(0, s, 0);
    }
    let p1 = s - cosine;
    let p2 = fxs(p1 * p1);
    let p4 = fxs(p2 * p2);
    let p5 = fxs(p4 * p1);
    assert((s - 0) * p5 == s * p5) by (nonlinear_arith);
    assert(floor_div(s * p5, s) == p5) by {
        lemma_div_unique(s * p5, s, p5);
    }
    lemma_reflectance_normal_incidence(s);
}

/// The scattered direction is the normal plus a near-unit sample — each
/// component within one, raw squared norm within 800 raw units below and
/// 1200 above the unit — or the bare normal when that sum cancels.
pub open spec fn lambertian_dir_ok(n: Vec3, d: Vec3) -> bool {
    d == n || (exists|u: Vec3|
        #[trigger] bounded(u, FX_ONE as int) && norm2_raw(u) >= (FX_ONE - 800) * (FX_ONE - 800)
            && norm2_raw(u) <= (FX_ONE + 1200) * (FX_ONE + 1200) && d.x == n.x + u.x && d.y == n.y
            + u.y && d.z == n.z + u.z)
}

impl Lambertian {
    /// Diffuse scattering: always scatters, attenuates by the albedo, and
    /// sends the ray from the hit point along the normal perturbed by a
    /// near-unit random vector (the normal alone if the sum cancels).
    pub fn scatter(&self, ray_in: &Ray, rec: &HitRecord) -> (res: Option<(Colour, Ray)>)
        requires
            valid_colour(self.albedo),
            wf_rec(*rec),
        ensures
            res is Some,
            res matches Some(p) ==> p.0 == self.albedo && p.1.origin == rec.p && p.1.time
                == ray_in.time && lambertian_dir_ok(rec.normal, p.1.direction),
    {
        let u = Vec3::random_unit_vector();
        let mut scatter_direction = rec.normal.add(u);
        if scatter_direction.near_zero() {
            scatter_direction = rec.normal;
        }
        proof {
            if scatter_direction != rec.normal {
                assert(bounded(u, FX_ONE as int) && scatter_direction.x == rec.normal.x + u.x
                    && scatter_direction.y == rec.normal.y + u.y && scatter_direction.z
                    == rec.normal.z + u.z);
            }
        }
        Some((self.albedo, Ray::new(rec.p, scatter_direction, ray_in.time())))
    }
}

impl Metal {
    /// Specular scattering: mirror the incoming direction, normalize,
    /// perturb by `fuzz` times a random near-unit vector, and report a
    /// scatter only when the result leaves the surface on the outside. A
    /// degenerate mirror direction is absorbed; with zero fuzz nothing is
    /// random, so a well-aimed reflection is owed a scatter.
    pub fn scatter(&self, ray_in: &Ray, rec: &HitRecord) -> (res: Option<(Colour, Ray)>)
        requires
            valid_colour(self.albedo),
            0 <= self.fuzz <= FX_ONE,
            wf_rec(*rec),
            bounded(ray_in.direction, 0x40_0000int),
        ensures
            res matches Some(p) ==> ({
                let m = unit_of(reflect_of(ray_in.direction, rec.normal));
                &&& p.0 == self.albedo
                &&& p.1.origin == rec.p
                &&& p.1.time == ray_in.time
                &&& dot_fx(p.1.direction, rec.normal) > 0
                &&& exists|u: Vec3|
                    #[trigger] bounded(u, FX_ONE as int) && norm2_raw(u) >= (FX_ONE - 800) * (
                    FX_ONE - 800) && norm2_raw(u) <= (FX_ONE + 1200) * (FX_ONE + 1200)
                        && p.1.direction.x == m.x + fxs(u.x * self.fuzz) && p.1.direction.y == m.y
                        + fxs(u.y * self.fuzz) && p.1.direction.z == m.z + fxs(u.z * self.fuzz)
            }),
            reflect_of(ray_in.direction, rec.normal) == (Vec3 { x: 0i64, y: 0i64, z: 0i64 })
                ==> res is None,
            ({
                let rv = reflect_of(ray_in.direction, rec.normal);
                self.fuzz == 0 && rv != (Vec3 { x: 0i64, y: 0i64, z: 0i64 }) && dot_fx(
                    unit_of(rv),
                    rec.normal,
                ) > 0
            }) ==> res is Some,
    {
        proof {
            lemma_dot_bound(ray_in.direction, rec.normal, 0x40_0000int, 0x200_0000int);
            lemma_fxs_bound(dot_raw(ray_in.direction, rec.normal), 0x1_8000_0000_0000int);
            lemma_mul_bound(
                rec.normal.x as int,
                dot_fx(ray_in.direction, rec.normal),
                0x200_0000int,
                0x1_8000_0001int,
            );
            lemma_mul_bound(
                rec.normal.y as int,
                dot_fx(ray_in.direction, rec.normal),
                0x200_0000int,
                0x1_8000_0001int,
            );
            lemma_mul_bound(
                rec.normal.z as int,
                dot_fx(ray_in.direction, rec.normal),
                0x200_0000int,
                0x1_8000_0001int,
            );
            lemma_fxs_bound(
                rec.normal.x * dot_fx(ray_in.direction, rec.normal),
                0x3_0000_0002_000000int,
            );
            lemma_fxs_bound(
                rec.normal.y * dot_fx(ray_in.direction, rec.normal),
                0x3_0000_0002_000000int,
            );
            lemma_fxs_bound(
                rec.normal.z * dot_fx(ray_in.direction, rec.normal),
                0x3_0000_0002_000000int,
            );
        }
        let reflected = Vec3::reflect(&ray_in.direction, &rec.normal);
        proof {
            assert(reflected == reflect_of(ray_in.direction, rec.normal));
        }
        if reflected.near_zero() {
            return None;
        }
        proof {
            crate::vec3::lemma_dir_norm_pos(reflected);
        }
        let unit = reflected.unit_vector();
        proof {
            assert(unit == unit_of(reflect_of(ray_in.direction, rec.normal)));
        }
        let u = Vec3::random_unit_vector();
        proof {
            lemma_mul_bound(u.x as int, self.fuzz as int, FX_ONE as int, FX_ONE as int);
            lemma_mul_bound(u.y as int, self.fuzz as int, FX_ONE as int, FX_ONE as int);
            lemma_mul_bound(u.z as int, self.fuzz as int, FX_ONE as int, FX_ONE as int);
        }
        let fz = u.scale(self.fuzz);
        proof {
            lemma_fxs_bound(u.x * self.fuzz, 0x1_0000_0000int);
            lemma_fxs_bound(u.y * self.fuzz, 0x1_0000_0000int);
            lemma_fxs_bound(u.z * self.fuzz, 0x1_0000_0000int);
            if self.fuzz == 0 {
                assert(u.x * self.fuzz == 0 && u.y * self.fuzz == 0 && u.z * self.fuzz == 0)
                    by (nonlinear_arith)
                    requires
                        self.fuzz == 0,
                ;
                lemma_div_unique(0, FX_ONE as int, 0);
            }
        }
        let dir = unit.add(fz);
        proof {
            lemma_dot_bound(dir, rec.normal, 0x3_0000int, 0x200_0000int);
            if self.fuzz == 0 {
                assert(dir == unit);
            }
        }
        let d = dir.dot(rec.normal);
        if d > 0 {
            proof {
                assert(bounded(u, FX_ONE as int));
            }
            Some((self.albedo, Ray::new(rec.p, dir, ray_in.time())))
        } else {
            None
        }
    }
}

/// The refraction ratio a dielectric uses: the inverted index when the
/// ray enters the surface, the index itself when it leaves.
pub open spec fn diel_ratio(d: Dielectric, front_face: bool) -> int {
    if front_face {
        floor_div(FX_ONE * FX_ONE, d.refractive_index as int)
    } else {
        d.refractive_index as int
    }
}

/// The clamped sine of the incidence angle of a unit direction: the floor
/// square root completing the clamped cosine.
pub open spec fn diel_sin(uv: Vec3, n: Vec3) -> int {
    let c = refr_cos(uv, n);
    let st = sqrt_of(FX_ONE * FX_ONE - c * c);
    if st > FX_ONE {
        FX_ONE as int
    } else {
        st
    }
}

/// Total internal reflection: the ratio-scaled sine exceeds one, so Snell
/// refraction has no solution and the ray must mirror.
pub open spec fn diel_cannot_refract(uv: Vec3, n: Vec3, ratio: int) -> bool {
    fxs(ratio * diel_sin(uv, n)) > FX_ONE
}

impl Dielectric {
    /// Refractive scattering: always scatters with white attenuation from
    /// the hit point at the ray's time. The direction is the mirror
    /// reflection of the unit incoming direction or its Snell refraction;
    /// Schlick's reflectance against a uniform draw picks between them,
    /// except under total internal reflection, where the mirror is owed.
    pub fn scatter(&self, ray_in: &Ray, rec: &HitRecord) -> (res: Option<(Colour, Ray)>)
        requires
            FX_ONE / 16 <= self.refractive_index <= 16 * FX_ONE,
            wf_rec(*rec),
            bounded(ray_in.direction, 0x40_0000int),
            !(ray_in.direction.x == 0 && ray_in.direction.y == 0 && ray_in.direction.z == 0),
        ensures
            res is Some,
            res matches Some(p) ==> p.0 == (Vec3 { x: FX_ONE, y: FX_ONE, z: FX_ONE })
                && p.1.origin == rec.p && p.1.time == ray_in.time,
            res matches Some(p) ==> ({
                let ud = unit_of(ray_in.direction);
                let eta = diel_ratio(*self, rec.front_face);
                ||| p.1.direction == reflect_of(ud, rec.normal)
                ||| (p.1.direction.x == refract_x(ud, rec.normal, eta) && p.1.direction.y
                    == refract_y(ud, rec.normal, eta) && p.1.direction.z == refract_z(
                    ud,
                    rec.normal,
                    eta,
                ))
            }),
            diel_cannot_refract(
                unit_of(ray_in.direction),
                rec.normal,
                diel_ratio(*self, rec.front_face),
            ) ==> (res matches Some(p) ==> p.1.direction == reflect_of(
                unit_of(ray_in.direction),
                rec.normal,
            )),
    {
        let attenuation = Vec3::new(FX_ONE, FX_ONE, FX_ONE);
        let refraction_ratio: i64 = if rec.front_face {
            crate::fixed::fdiv(
                FX_ONE as i128 * FX_ONE as i128,
                self.refractive_index as i128,
            ) as i64
        } else {
            self.refractive_index
        };
        proof {
            if rec.front_face {
                lemma_ratio_range(self.refractive_index as int);
            }
            crate::vec3::lemma_dir_norm_pos(ray_in.direction);
        }
        let unit_direction = ray_in.direction.unit_vector();
        proof {
            assert(unit_direction == unit_of(ray_in.direction));
        }
        let nu = unit_direction.neg();
        proof {
            lemma_dot_bound(nu, rec.normal, FX_ONE as int, 0x200_0000int);
            lemma_fxs_bound(dot_raw(nu, rec.normal), 0xC00_0000_0000int);
            assert((-unit_direction.x) * rec.normal.x + (-unit_direction.y) * rec.normal.y + (
            -unit_direction.z) * rec.normal.z == -(unit_direction.x * rec.normal.x
                + unit_direction.y * rec.normal.y + unit_direction.z * rec.normal.z))
                by (nonlinear_arith);
        }
        let md = nu.dot(rec.normal);
        let cos_theta: i64 = if md > FX_ONE {
            FX_ONE
        } else if md < -FX_ONE {
            -FX_ONE
        } else {
            md
        };
        proof {
            lemma_square_nonneg(cos_theta as int);
            assert(cos_theta * cos_theta <= FX_ONE * FX_ONE) by (nonlinear_arith)
                requires
                    -FX_ONE <= cos_theta <= FX_ONE,
            ;
        }
        let s2: i64 = FX_ONE * FX_ONE - cos_theta * cos_theta;
        let st = crate::fixed::isqrt(s2 as u128) as i64;
        proof {
            lemma_sqrt_unique(s2 as int, st as int);
        }
        let sin_theta: i64 = if st > FX_ONE {
            FX_ONE
        } else {
            st
        };
        proof {
            assert(cos_theta == refr_cos(unit_direction, rec.normal));
            assert(sin_theta == diel_sin(unit_direction, rec.normal));
            lemma_mul_bound(refraction_ratio as int, sin_theta as int, 0x10_0000int, 0x1_0000int);
            lemma_fxs_bound(refraction_ratio * sin_theta, 0x10_0000_0000_0000int);
        }
        let rs = crate::fixed::fdiv(
            refraction_ratio as i128 * sin_theta as i128,
            FX_ONE as i128,
        ) as i64;
        let cannot_refract = rs > FX_ONE;
        proof {
            assert(refraction_ratio == diel_ratio(*self, rec.front_face));
            assert(cannot_refract == diel_cannot_refract(
                unit_of(ray_in.direction),
                rec.normal,
                diel_ratio(*self, rec.front_face),
            ));
        }
        let draw = crate::fixed::random_in_range_i64(0, FX_ONE - 1);
        let direction = if cannot_refract || Self::reflectance(cos_theta, refraction_ratio)
            > draw {
            let refl = Vec3::reflect(&unit_direction, &rec.normal);
            proof {
                assert(refl == reflect_of(unit_of(ray_in.direction), rec.normal));
            }
            refl
        } else {
            Vec3::refract(&unit_direction, &rec.normal, refraction_ratio)
        };
        Some((attenuation, Ray::new(rec.p, direction, ray_in.time())))
    }
}

/// Inverting a refractive index within `[1/16, 16]` stays within it.
proof fn lemma_ratio_range(ri: int)
    requires
        (FX_ONE as int) / 16 <= ri <= 16 * FX_ONE,
    ensures
        (FX_ONE as int) / 16 <= floor_div(FX_ONE * FX_ONE, ri) <= 16 * FX_ONE,
{
    let s = FX_ONE as int;
    lemma_div_bound(s * s, ri);
    assert(s / 16 <= (s * s) / ri <= 16 * s) by (nonlinear_arith)
        requires
            s == 65536,
            s / 16 <= ri <= 16 * s,
            ri * ((s * s) / ri) <= s * s < ri * ((s * s) / ri) + ri,
    ;
}

impl Material {
    /// One scattering transition: dispatch to the concrete model. Diffuse
    /// and refractive materials always scatter; the metal owes a scatter
    /// when nothing is random and the mirror leaves the surface, and owes
    /// an absorption when the mirror direction degenerates.
    pub fn scatter(&self, ray_in: &Ray, rec: &HitRecord) -> (res: Option<(Colour, Ray)>)
        requires
            wf_material(*self),
            wf_rec(*rec),
            bounded(ray_in.direction, 0x40_0000int),
            !(ray_in.direction.x == 0 && ray_in.direction.y == 0 && ray_in.direction.z == 0),
        ensures
            res matches Some(p) ==> p.1.origin == rec.p && p.1.time == ray_in.time
                && valid_colour(p.0) && p.0 == material_attenuation(*self),
            self is Lambertian ==> res is Some,
            self is Dielectric ==> res is Some,
            (self is Metal && reflect_of(ray_in.direction, rec.normal) == (Vec3 {
                x: 0i64,
                y: 0i64,
                z: 0i64,
            })) ==> res is None,
            (self matches Material::Metal(m) && m.fuzz == 0 && reflect_of(
                ray_in.direction,
                rec.normal,
            ) != (Vec3 { x: 0i64, y: 0i64, z: 0i64 }) && dot_fx(
                unit_of(reflect_of(ray_in.direction, rec.normal)),
                rec.normal,
            ) > 0) ==> res is Some,
            self is Metal ==> (res matches Some(p) ==> dot_fx(p.1.direction, rec.normal) > 0),
    {
        match self {
            Material::Lambertian(l) => l.scatter(ray_in, rec),
            Material::Metal(m) => m.scatter(ray_in, rec),
            Material::Dielectric(d) => d.scatter(ray_in, rec),
        }
    }
}

} // verus!
