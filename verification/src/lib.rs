//! An offline ray tracer whose geometric core is verified.
//!
//! All scene geometry is expressed in fixed-point arithmetic: a scalar is an
//! `i64` holding a multiple of `1 / 65536`. Every operation of the core
//! (vector algebra, interval tests, the slab test for bounding boxes, the
//! sphere and quad intersection routines, the bounding-volume hierarchy and
//! the recursive shading integrator) is specified exactly over the integers
//! and proved against that specification.

pub mod fixed;
pub mod vec3;
pub mod interval;
pub mod ray;
pub mod aabb;
pub mod material;
pub mod hittable;
pub mod sphere;
pub mod quad;
pub mod hittable_list;
pub mod bvh;
pub mod camera;

use vstd::prelude::*;

verus! {

/// A uniformly random integer in `[min, max]`, both ends included.
///
/// The draw itself comes from the process random number generator; nothing
/// beyond the range can be promised of it.
pub fn random_int_range(min: i32, max: i32) -> (r: i32)
    requires
        min <= max,
    ensures
        min <= r <= max,
{
    fixed::random_in_range_i64(min as i64, max as i64) as i32
}

} // verus!
