use ray_tracing_in_one_weekend::aabb::AABB;
use ray_tracing_in_one_weekend::fixed::{FX_INF, FX_ONE};
use ray_tracing_in_one_weekend::hittable::HitRecord;
use ray_tracing_in_one_weekend::interval::Interval;
use ray_tracing_in_one_weekend::material::{Lambertian, Material};
use ray_tracing_in_one_weekend::quad::Quad;
use ray_tracing_in_one_weekend::ray::Ray;
use ray_tracing_in_one_weekend::sphere::Sphere;
use ray_tracing_in_one_weekend::vec3::Vec3;

fn grey() -> Material {
    Material::Lambertian(Lambertian::new(Vec3::new(FX_ONE / 2, FX_ONE / 2, FX_ONE / 2)))
}

#[test]
fn box_union_contains_both_boxes() {
    let a = AABB::from_points(&Vec3::new(0, 0, 0), &Vec3::new(FX_ONE, FX_ONE, FX_ONE));
    let b = AABB::from_points(
        &Vec3::new(-FX_ONE, 2 * FX_ONE, 0),
        &Vec3::new(FX_ONE, 3 * FX_ONE, FX_ONE),
    );
    let u = AABB::from_boxes(&a, &b);
    for (outer, inner) in [
        (u.x, a.x),
        (u.y, a.y),
        (u.z, a.z),
        (u.x, b.x),
        (u.y, b.y),
        (u.z, b.z),
    ] {
        assert!(outer.min <= inner.min && inner.max <= outer.max);
    }
}

#[test]
fn slab_test_rejects_a_ray_pointing_away() {
    let b = AABB::from_points(
        &Vec3::new(FX_ONE, FX_ONE, FX_ONE),
        &Vec3::new(2 * FX_ONE, 2 * FX_ONE, 2 * FX_ONE),
    );
    let away = Ray::new(Vec3::new(0, 0, 0), Vec3::new(-FX_ONE, 0, 0), 0);
    assert!(!b.hit(&away, Interval::new(0, FX_INF)));
    let toward = Ray::new(Vec3::new(0, 0, 0), Vec3::new(FX_ONE, FX_ONE, FX_ONE), 0);
    assert!(b.hit(&toward, Interval::new(0, FX_INF)));
}

#[test]
fn slab_test_rejects_an_inverted_axis() {
    // an empty axis means the running slab interval is empty from the start
    let b = AABB::new(
        &Interval::new(FX_ONE, -FX_ONE),
        &Interval::new(-FX_ONE, FX_ONE),
        &Interval::new(-FX_ONE, FX_ONE),
    );
    let r = Ray::new(Vec3::new(0, 0, -3 * FX_ONE), Vec3::new(0, 0, FX_ONE), 0);
    assert!(!b.hit(&r, Interval::new(0, FX_INF)));
}

#[test]
fn longest_axis_prefers_the_larger_extent() {
    let b = AABB::new(
        &Interval::new(0, 3 * FX_ONE),
        &Interval::new(0, FX_ONE),
        &Interval::new(0, 2 * FX_ONE),
    );
    assert_eq!(b.longest_axis(), 0);
    let c = AABB::new(
        &Interval::new(0, FX_ONE),
        &Interval::new(0, 3 * FX_ONE),
        &Interval::new(0, 2 * FX_ONE),
    );
    assert_eq!(c.longest_axis(), 1);
    let d = AABB::new(
        &Interval::new(0, FX_ONE),
        &Interval::new(0, 2 * FX_ONE),
        &Interval::new(0, 3 * FX_ONE),
    );
    assert_eq!(d.longest_axis(), 2);
}

#[test]
fn sphere_head_on_hit_reports_the_near_root() {
    // unit sphere at the origin, ray from z = +3 straight down the axis
    let s = Sphere::new(Vec3::zero(), Vec3::zero(), FX_ONE, grey());
    let r = Ray::new(Vec3::new(0, 0, 3 * FX_ONE), Vec3::new(0, 0, -FX_ONE), 0);
    let rec = s.hit(&r, Interval::new(0, FX_INF)).expect("must hit");
    assert_eq!(rec.t, 2 * FX_ONE);
    assert_eq!((rec.p.x(), rec.p.y(), rec.p.z()), (0, 0, FX_ONE));
    assert_eq!((rec.normal.x(), rec.normal.y(), rec.normal.z()), (0, 0, FX_ONE));
    assert!(rec.front_face);
}

#[test]
fn sphere_tangent_ray_touches_at_one_parameter() {
    // ray grazing the unit sphere at (1, 0, 0): discriminant exactly zero
    let s = Sphere::new(Vec3::zero(), Vec3::zero(), FX_ONE, grey());
    let r = Ray::new(Vec3::new(FX_ONE, 0, 3 * FX_ONE), Vec3::new(0, 0, -FX_ONE), 0);
    let rec = s.hit(&r, Interval::new(0, FX_INF)).expect("tangent ray must report the touch");
    assert_eq!(rec.t, 3 * FX_ONE);
    assert_eq!((rec.p.x(), rec.p.y(), rec.p.z()), (FX_ONE, 0, 0));
}

#[test]
fn sphere_miss_is_reported() {
    let s = Sphere::new(Vec3::zero(), Vec3::zero(), FX_ONE, grey());
    let r = Ray::new(Vec3::new(0, 0, 3 * FX_ONE), Vec3::new(0, 0, FX_ONE), 0);
    assert!(s.hit(&r, Interval::new(0, FX_INF)).is_none());
}

#[test]
fn sphere_interval_excludes_roots_outside() {
    let s = Sphere::new(Vec3::zero(), Vec3::zero(), FX_ONE, grey());
    let r = Ray::new(Vec3::new(0, 0, 3 * FX_ONE), Vec3::new(0, 0, -FX_ONE), 0);
    // both roots (t = 2, t = 4) lie beyond this upper bound
    assert!(s.hit(&r, Interval::new(0, FX_ONE)).is_none());
    // only the far root t = 4 lies inside this window
    let rec = s.hit(&r, Interval::new(3 * FX_ONE, 5 * FX_ONE)).expect("far root");
    assert_eq!(rec.t, 4 * FX_ONE);
    assert!(!rec.front_face);
}

#[test]
fn moving_sphere_follows_its_centre() {
    // the centre moves two units along x between time 0 and time 1
    let s = Sphere::new(
        Vec3::new(0, 0, 0),
        Vec3::new(2 * FX_ONE, 0, 0),
        FX_ONE,
        grey(),
    );
    let at_start = Ray::new(Vec3::new(0, 0, 3 * FX_ONE), Vec3::new(0, 0, -FX_ONE), 0);
    let rec0 = s.hit(&at_start, Interval::new(0, FX_INF)).expect("hit at time 0");
    assert_eq!(rec0.t, 2 * FX_ONE);
    let at_end = Ray::new(
        Vec3::new(2 * FX_ONE, 0, 3 * FX_ONE),
        Vec3::new(0, 0, -FX_ONE),
        FX_ONE,
    );
    let rec1 = s.hit(&at_end, Interval::new(0, FX_INF)).expect("hit at time 1");
    assert_eq!(rec1.t, 2 * FX_ONE);
    // and at time 1 the sphere is no longer at the origin
    let stale = Ray::new(Vec3::new(0, 0, 3 * FX_ONE), Vec3::new(0, 0, -FX_ONE), FX_ONE);
    assert!(s.hit(&stale, Interval::new(0, FX_INF)).is_none());
}

#[test]
fn quad_centre_ray_reports_planar_coordinates_half_half() {
    let q = Quad::new(
        Vec3::new(-FX_ONE, -FX_ONE, 0),
        Vec3::new(2 * FX_ONE, 0, 0),
        Vec3::new(0, 2 * FX_ONE, 0),
        grey(),
    );
    let r = Ray::new(Vec3::new(0, 0, -5 * FX_ONE), Vec3::new(0, 0, FX_ONE), 0);
    let rec = q.hit(&r, Interval::new(0, FX_INF)).expect("centre ray must hit");
    assert_eq!(rec.t, 5 * FX_ONE);
    assert_eq!(rec.u, FX_ONE / 2);
    assert_eq!(rec.v, FX_ONE / 2);
}

#[test]
fn quad_corner_rays_report_planar_coordinates_zero_or_one() {
    let q = Quad::new(
        Vec3::new(-FX_ONE, -FX_ONE, 0),
        Vec3::new(2 * FX_ONE, 0, 0),
        Vec3::new(0, 2 * FX_ONE, 0),
        grey(),
    );
    let low = Ray::new(Vec3::new(-FX_ONE, -FX_ONE, -5 * FX_ONE), Vec3::new(0, 0, FX_ONE), 0);
    let rl = q.hit(&low, Interval::new(0, FX_INF)).expect("corner q");
    assert_eq!((rl.u, rl.v), (0, 0));
    let high = Ray::new(Vec3::new(FX_ONE, FX_ONE, -5 * FX_ONE), Vec3::new(0, 0, FX_ONE), 0);
    let rh = q.hit(&high, Interval::new(0, FX_INF)).expect("corner q+u+v");
    assert_eq!((rh.u, rh.v), (FX_ONE, FX_ONE));
}

#[test]
fn quad_rejects_a_point_outside_the_parallelogram() {
    let q = Quad::new(
        Vec3::new(-FX_ONE, -FX_ONE, 0),
        Vec3::new(2 * FX_ONE, 0, 0),
        Vec3::new(0, 2 * FX_ONE, 0),
        grey(),
    );
    let outside = Ray::new(
        Vec3::new(3 * FX_ONE, 0, -5 * FX_ONE),
        Vec3::new(0, 0, FX_ONE),
        0,
    );
    assert!(q.hit(&outside, Interval::new(0, FX_INF)).is_none());
    let parallel = Ray::new(Vec3::new(0, 0, -5 * FX_ONE), Vec3::new(FX_ONE, 0, 0), 0);
    assert!(q.hit(&parallel, Interval::new(0, FX_INF)).is_none());
}

#[test]
fn is_interior_accepts_the_closed_unit_square_only() {
    let mut rec = HitRecord::new();
    assert!(Quad::is_interior(0, FX_ONE, &mut rec));
    assert_eq!((rec.u, rec.v), (0, FX_ONE));
    assert!(Quad::is_interior(FX_ONE / 2, FX_ONE / 2, &mut rec));
    assert_eq!((rec.u, rec.v), (FX_ONE / 2, FX_ONE / 2));
    assert!(!Quad::is_interior(-1, 0, &mut rec));
    assert!(!Quad::is_interior(0, FX_ONE + 1, &mut rec));
    // a rejection leaves the record untouched
    assert_eq!((rec.u, rec.v), (FX_ONE / 2, FX_ONE / 2));
}

#[test]
fn set_face_normal_orients_against_the_ray() {
    let mut rec = HitRecord::new();
    let down = Ray::new(Vec3::zero(), Vec3::new(0, -FX_ONE, 0), 0);
    rec.set_face_normal(&down, Vec3::new(0, FX_ONE, 0));
    assert!(rec.front_face);
    assert_eq!(rec.normal.y(), FX_ONE);
    let up = Ray::new(Vec3::zero(), Vec3::new(0, FX_ONE, 0), 0);
    rec.set_face_normal(&up, Vec3::new(0, FX_ONE, 0));
    assert!(!rec.front_face);
    assert_eq!(rec.normal.y(), -FX_ONE);
}
