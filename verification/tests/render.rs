use ray_tracing_in_one_weekend::bvh::BVHNode;
use ray_tracing_in_one_weekend::camera::ray_colour;
use ray_tracing_in_one_weekend::fixed::{FX_INF, FX_ONE};
use ray_tracing_in_one_weekend::hittable::{Hittable, Primitive};
use ray_tracing_in_one_weekend::hittable_list::HittableList;
use ray_tracing_in_one_weekend::interval::Interval;
use ray_tracing_in_one_weekend::material::{Dielectric, Lambertian, Material, Metal};
use ray_tracing_in_one_weekend::quad::Quad;
use ray_tracing_in_one_weekend::ray::Ray;
use ray_tracing_in_one_weekend::sphere::Sphere;
use ray_tracing_in_one_weekend::vec3::Vec3;

fn sample_scene() -> HittableList {
    let red = Material::Lambertian(Lambertian::new(Vec3::new(FX_ONE, 0, 0)));
    let mirror = Material::Metal(Metal::new(Vec3::new(FX_ONE, FX_ONE, FX_ONE), 0));
    let glass = Material::Dielectric(Dielectric::new(98304));
    let mut world = HittableList::empty();
    world.add(Primitive::Sphere(Sphere::new(
        Vec3::new(0, 0, -5 * FX_ONE),
        Vec3::new(0, 0, -5 * FX_ONE),
        FX_ONE,
        red,
    )));
    world.add(Primitive::Sphere(Sphere::new(
        Vec3::new(3 * FX_ONE, FX_ONE, -8 * FX_ONE),
        Vec3::new(3 * FX_ONE, FX_ONE, -8 * FX_ONE),
        2 * FX_ONE,
        mirror,
    )));
    world.add(Primitive::Sphere(Sphere::new(
        Vec3::new(-2 * FX_ONE, -FX_ONE, -4 * FX_ONE),
        Vec3::new(-2 * FX_ONE, -FX_ONE, -4 * FX_ONE),
        FX_ONE / 2,
        glass,
    )));
    world.add(Primitive::Quad(Quad::new(
        Vec3::new(-4 * FX_ONE, -2 * FX_ONE, -10 * FX_ONE),
        Vec3::new(8 * FX_ONE, 0, 0),
        Vec3::new(0, 4 * FX_ONE, 0),
        red,
    )));
    world.add(Primitive::Sphere(Sphere::new(
        Vec3::new(0, -80 * FX_ONE, -10 * FX_ONE),
        Vec3::new(0, -80 * FX_ONE, -10 * FX_ONE),
        70 * FX_ONE,
        red,
    )));
    world
}

fn sample_rays() -> Vec<Ray> {
    let mut rays = Vec::new();
    for ix in -4i64..=4 {
        for iy in -4i64..=4 {
            rays.push(Ray::new(
                Vec3::new(0, 0, 2 * FX_ONE),
                Vec3::new(ix * FX_ONE / 4, iy * FX_ONE / 4, -FX_ONE),
                0,
            ));
        }
    }
    rays
}

#[test]
fn bvh_reports_the_same_hits_as_the_linear_scan() {
    let world = sample_scene();
    let tree = BVHNode::from_list(sample_scene());
    for ray in sample_rays() {
        let flat = world.hit(&ray, Interval::new(66, FX_INF));
        let fast = tree.hit(&ray, Interval::new(66, FX_INF));
        match (flat, fast) {
            (None, None) => {}
            (Some(a), Some(b)) => {
                assert_eq!(a.t, b.t);
                assert_eq!((a.p, a.normal, a.front_face), (b.p, b.normal, b.front_face));
                assert_eq!((a.u, a.v), (b.u, b.v));
            }
            (a, b) => panic!("disagreement: {:?} vs {:?}", a.is_some(), b.is_some()),
        }
    }
}

#[test]
fn background_is_independent_of_depth() {
    let world = Hittable::List(HittableList::empty());
    let up = Ray::new(Vec3::zero(), Vec3::new(0, FX_ONE, 0), 0);
    let c1 = ray_colour(&up, 1, &world);
    let c5 = ray_colour(&up, 5, &world);
    let c50 = ray_colour(&up, 50, &world);
    assert_eq!(c1, c5);
    assert_eq!(c5, c50);
    // straight up blends fully into the horizon colour (0.5, 0.7, 1.0)
    assert_eq!((c1.x(), c1.y(), c1.z()), (32768, 45875, 65536));
}

#[test]
fn background_gradient_matches_the_blend() {
    let world = Hittable::List(HittableList::empty());
    // straight down: fully white
    let down = Ray::new(Vec3::zero(), Vec3::new(0, -FX_ONE, 0), 0);
    let c = ray_colour(&down, 3, &world);
    assert_eq!((c.x(), c.y(), c.z()), (FX_ONE, FX_ONE, FX_ONE));
    // horizontal: the halfway blend
    let flat = ray_colour(&Ray::new(Vec3::zero(), Vec3::new(FX_ONE, 0, 0), 0), 3, &world);
    assert_eq!((flat.x(), flat.y(), flat.z()), (49152, 55705, 65536));
}

#[test]
fn apex_ray_on_a_lambertian_sphere_at_depth_one_is_black_not_background() {
    // a unit Lambertian sphere at the origin, lit only by the background
    let albedo = Vec3::new(FX_ONE / 2, FX_ONE / 2, FX_ONE / 2);
    let s = Sphere::new(
        Vec3::zero(),
        Vec3::zero(),
        FX_ONE,
        Material::Lambertian(Lambertian::new(albedo)),
    );
    let world = Hittable::Sphere(s);
    // aimed straight at the apex (0, 1, 0) from above
    let ray = Ray::new(Vec3::new(0, 3 * FX_ONE, 0), Vec3::new(0, -FX_ONE, 0), 0);
    let c = ray_colour(&ray, 1, &world);
    // depth 1: the diffuse bounce recurses to depth 0 and returns zero,
    // so the result is exactly black, which no background value is
    assert_eq!((c.x(), c.y(), c.z()), (0, 0, 0));
    let miss_value = ray_colour(&ray, 1, &Hittable::List(HittableList::empty()));
    assert_ne!((c.x(), c.y(), c.z()), (miss_value.x(), miss_value.y(), miss_value.z()));
}

#[test]
fn apex_ray_at_depth_zero_is_exactly_zero_radiance() {
    let s = Sphere::new(
        Vec3::zero(),
        Vec3::zero(),
        FX_ONE,
        Material::Lambertian(Lambertian::new(Vec3::new(FX_ONE / 2, FX_ONE / 2, FX_ONE / 2))),
    );
    let world = Hittable::Sphere(s);
    let ray = Ray::new(Vec3::new(0, 3 * FX_ONE, 0), Vec3::new(0, -FX_ONE, 0), 0);
    let c = ray_colour(&ray, 0, &world);
    assert_eq!((c.x(), c.y(), c.z()), (0, 0, 0));
}

#[test]
fn radiance_channels_stay_in_range_at_depth() {
    let world = Hittable::List(sample_scene());
    for ray in sample_rays() {
        let c = ray_colour(&ray, 8, &world);
        for ch in [c.x(), c.y(), c.z()] {
            assert!((0..=FX_ONE).contains(&ch));
        }
    }
}

#[test]
fn lambertian_scatter_keeps_albedo_origin_and_time() {
    let albedo = Vec3::new(FX_ONE / 4, FX_ONE / 2, FX_ONE);
    let lam = Lambertian::new(albedo);
    let s = Sphere::new(Vec3::zero(), Vec3::zero(), FX_ONE, Material::Lambertian(lam));
    let ray = Ray::new(Vec3::new(0, 0, 3 * FX_ONE), Vec3::new(0, 0, -FX_ONE), 17);
    let rec = s.hit(&ray, Interval::new(0, FX_INF)).unwrap();
    let (att, scattered) = lam.scatter(&ray, &rec).expect("lambertian always scatters");
    assert_eq!(att, albedo);
    assert_eq!(scattered.origin(), rec.p);
    assert_eq!(scattered.time(), 17);
}

#[test]
fn polished_metal_mirrors_a_vertical_ray() {
    let metal = Metal::new(Vec3::new(FX_ONE, FX_ONE, FX_ONE), 0);
    let s = Sphere::new(
        Vec3::new(0, -2 * FX_ONE, 0),
        Vec3::new(0, -2 * FX_ONE, 0),
        FX_ONE,
        Material::Metal(metal),
    );
    // hits the top of the sphere straight down; the mirror sends it back up
    let ray = Ray::new(Vec3::new(0, 3 * FX_ONE, 0), Vec3::new(0, -FX_ONE, 0), 0);
    let rec = s.hit(&ray, Interval::new(0, FX_INF)).unwrap();
    let (att, scattered) = metal.scatter(&ray, &rec).expect("head-on mirror reflects");
    assert_eq!(att, Vec3::new(FX_ONE, FX_ONE, FX_ONE));
    assert_eq!(scattered.direction(), Vec3::new(0, FX_ONE, 0));
}

#[test]
fn dielectric_scatter_is_always_white() {
    let glass = Dielectric::new(98304);
    let s = Sphere::new(Vec3::zero(), Vec3::zero(), FX_ONE, Material::Dielectric(glass));
    let ray = Ray::new(Vec3::new(0, 0, 3 * FX_ONE), Vec3::new(0, 0, -FX_ONE), 0);
    let rec = s.hit(&ray, Interval::new(0, FX_INF)).unwrap();
    for _ in 0..20 {
        let (att, scattered) = glass.scatter(&ray, &rec).expect("glass always scatters");
        assert_eq!(att, Vec3::new(FX_ONE, FX_ONE, FX_ONE));
        assert_eq!(scattered.origin(), rec.p);
    }
}

#[test]
fn list_hit_returns_the_closest_of_overlapping_spheres() {
    let m = Material::Lambertian(Lambertian::new(Vec3::new(FX_ONE, 0, 0)));
    let mut world = HittableList::empty();
    world.add(Primitive::Sphere(Sphere::new(
        Vec3::new(0, 0, -8 * FX_ONE),
        Vec3::new(0, 0, -8 * FX_ONE),
        FX_ONE,
        m,
    )));
    world.add(Primitive::Sphere(Sphere::new(
        Vec3::new(0, 0, -4 * FX_ONE),
        Vec3::new(0, 0, -4 * FX_ONE),
        FX_ONE,
        m,
    )));
    let ray = Ray::new(Vec3::zero(), Vec3::new(0, 0, -FX_ONE), 0);
    let rec = world.hit(&ray, Interval::new(0, FX_INF)).unwrap();
    assert_eq!(rec.t, 3 * FX_ONE);
}

#[test]
fn bvh_over_a_single_primitive_duplicates_its_leaf_harmlessly() {
    let m = Material::Lambertian(Lambertian::new(Vec3::new(FX_ONE, 0, 0)));
    let mut list = HittableList::empty();
    list.add(Primitive::Sphere(Sphere::new(
        Vec3::new(0, 0, -4 * FX_ONE),
        Vec3::new(0, 0, -4 * FX_ONE),
        FX_ONE,
        m,
    )));
    let tree = BVHNode::from_list(list);
    let ray = Ray::new(Vec3::zero(), Vec3::new(0, 0, -FX_ONE), 0);
    let rec = tree.hit(&ray, Interval::new(0, FX_INF)).unwrap();
    assert_eq!(rec.t, 3 * FX_ONE);
}

#[test]
fn random_unit_vector_is_bounded_and_near_unit() {
    for _ in 0..50 {
        let u = Vec3::random_unit_vector();
        for ch in [u.x(), u.y(), u.z()] {
            assert!((-FX_ONE..=FX_ONE).contains(&ch));
        }
        // raw squared norm within 800 raw units of the unit on each side
        let n = u.x() as i128 * u.x() as i128 + u.y() as i128 * u.y() as i128
            + u.z() as i128 * u.z() as i128;
        let lo = (FX_ONE - 800) as i128 * (FX_ONE - 800) as i128;
        assert!(n >= lo);
    }
}

#[test]
fn random_in_unit_disk_is_flat_and_inside() {
    for _ in 0..50 {
        let p = Vec3::random_in_unit_disk();
        assert_eq!(p.z(), 0);
        assert!(p.length_squared() < FX_ONE);
    }
}
