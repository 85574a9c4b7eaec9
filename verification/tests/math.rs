use ray_tracing_in_one_weekend::fixed::{fdiv, isqrt, FX_ONE, FX_INF};
use ray_tracing_in_one_weekend::interval::Interval;
use ray_tracing_in_one_weekend::material::Dielectric;
use ray_tracing_in_one_weekend::random_int_range;
use ray_tracing_in_one_weekend::vec3::Vec3;

#[test]
fn floor_division_rounds_toward_negative_infinity() {
    assert_eq!(fdiv(7, 2), 3);
    assert_eq!(fdiv(-7, 2), -4);
    assert_eq!(fdiv(-8, 2), -4);
    assert_eq!(fdiv(1, 3), 0);
    assert_eq!(fdiv(-1, 3), -1);
}

#[test]
fn integer_square_root_is_the_floor_root() {
    assert_eq!(isqrt(0), 0);
    assert_eq!(isqrt(1), 1);
    assert_eq!(isqrt(3), 1);
    assert_eq!(isqrt(4), 2);
    assert_eq!(isqrt(10), 3);
    assert_eq!(isqrt((1u128 << 32) - 1), 65535);
    assert_eq!(isqrt(1u128 << 32), 65536);
}

#[test]
fn random_int_range_stays_inside() {
    for _ in 0..100 {
        let r = random_int_range(-3, 7);
        assert!((-3..=7).contains(&r));
    }
    assert_eq!(random_int_range(5, 5), 5);
}

#[test]
fn vector_algebra_is_exact() {
    let a = Vec3::new(FX_ONE, 2 * FX_ONE, -FX_ONE);
    let b = Vec3::new(3 * FX_ONE, -FX_ONE, FX_ONE);
    let s = a.add(b);
    assert_eq!((s.x(), s.y(), s.z()), (4 * FX_ONE, FX_ONE, 0));
    let d = a.sub(b);
    assert_eq!((d.x(), d.y(), d.z()), (-2 * FX_ONE, 3 * FX_ONE, -2 * FX_ONE));
    // 1*3 + 2*(-1) + (-1)*1 = 0
    assert_eq!(a.dot(b), 0);
    let c = a.cross(b);
    // (2*1 - (-1)(-1), (-1)*3 - 1*1, 1*(-1) - 2*3) = (1, -4, -7)
    assert_eq!((c.x(), c.y(), c.z()), (FX_ONE, -4 * FX_ONE, -7 * FX_ONE));
}

#[test]
fn cross_is_exactly_anticommutative() {
    // raw unit operands: the products fall below one fixed-point unit,
    // where flooring would break the symmetry but truncation keeps it
    let a = Vec3::new(1, 0, 0);
    let b = Vec3::new(0, 1, 0);
    let ab = a.cross(b);
    let ba = b.cross(a);
    assert_eq!((ab.x(), ab.y(), ab.z()), (-ba.x(), -ba.y(), -ba.z()));
    let c = Vec3::new(12345, -777, 3);
    let d = Vec3::new(-9876, 54321, -2);
    let cd = c.cross(d);
    let dc = d.cross(c);
    assert_eq!((cd.x(), cd.y(), cd.z()), (-dc.x(), -dc.y(), -dc.z()));
    // and the self-cross is exactly zero
    let cc = c.cross(c);
    assert_eq!((cc.x(), cc.y(), cc.z()), (0, 0, 0));
}

#[test]
fn random_unit_vector_squared_norm_is_near_one() {
    for _ in 0..50 {
        let u = Vec3::random_unit_vector();
        let n = u.x() as i128 * u.x() as i128 + u.y() as i128 * u.y() as i128
            + u.z() as i128 * u.z() as i128;
        let lo = (FX_ONE - 800) as i128 * (FX_ONE - 800) as i128;
        let hi = (FX_ONE + 1200) as i128 * (FX_ONE + 1200) as i128;
        assert!(lo <= n && n <= hi);
    }
}

#[test]
fn length_and_unit_vector() {
    let v = Vec3::new(3 * FX_ONE, 4 * FX_ONE, 0);
    assert_eq!(v.length(), 5 * FX_ONE);
    assert_eq!(v.length_squared(), 25 * FX_ONE);
    let u = v.unit_vector();
    // 3/5 and 4/5 are exact in 1/65536 steps
    assert_eq!((u.x(), u.y(), u.z()), (39321, 52428, 0));
}

#[test]
fn near_zero_detects_the_zero_vector_only() {
    assert!(Vec3::zero().near_zero());
    assert!(!Vec3::new(1, 0, 0).near_zero());
    assert!(!Vec3::new(0, 0, -1).near_zero());
}

#[test]
fn reflect_mirrors_about_the_normal() {
    let v = Vec3::new(FX_ONE, -FX_ONE, 0);
    let n = Vec3::new(0, FX_ONE, 0);
    let r = Vec3::reflect(&v, &n);
    assert_eq!((r.x(), r.y(), r.z()), (FX_ONE, FX_ONE, 0));
}

#[test]
fn interval_contains_surrounds_clamp() {
    let i = Interval::new(0, 10);
    assert!(i.contains(0) && i.contains(10) && i.contains(5));
    assert!(!i.surrounds(0) && !i.surrounds(10) && i.surrounds(5));
    assert!(!i.contains(-1) && !i.contains(11));
    assert_eq!(i.clamp(-5), 0);
    assert_eq!(i.clamp(15), 10);
    assert_eq!(i.clamp(7), 7);
}

#[test]
fn interval_empty_universe_enclosing() {
    let e = Interval::empty();
    assert!(e.min > e.max);
    assert!(!e.contains(0));
    let u = Interval::universe();
    assert!(u.contains(0) && u.contains(FX_INF - 1) && u.contains(-FX_INF + 1));
    let a = Interval::new(0, 5);
    let b = Interval::new(3, 9);
    let c = Interval::enclosing(&a, &b);
    assert_eq!((c.min, c.max), (0, 9));
    // the empty interval is neutral for enclosing
    let d = Interval::enclosing(&e, &a);
    assert_eq!((d.min, d.max), (0, 5));
}

#[test]
fn interval_expand_pads_both_sides() {
    let i = Interval::new(0, 10).expand(8);
    assert_eq!((i.min, i.max), (-4, 14));
}

#[test]
fn schlick_reflectance_at_normal_incidence_is_r0() {
    // refractive index 1.5 in fixed point; r0 = ((1-1.5)/(1+1.5))^2 = 0.04
    let ri = 98304;
    let refl = Dielectric::reflectance(FX_ONE, ri);
    assert_eq!(refl, 2621); // 0.04 * 65536, floored
}

#[test]
fn schlick_reflectance_vanishes_at_matched_index_and_normal_incidence() {
    assert_eq!(Dielectric::reflectance(FX_ONE, FX_ONE), 0);
    // but away from normal incidence a matched index does NOT give zero:
    // at grazing incidence the fifth-power term is in full force
    assert_eq!(Dielectric::reflectance(0, FX_ONE), FX_ONE);
}
