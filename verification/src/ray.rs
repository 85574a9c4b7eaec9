//! Parametric rays: origin, direction and a time in `[0, 1]` used to
//! interpolate moving primitives.

use vstd::prelude::*;
use crate::fixed::{FX_ONE, FX_INF, fdiv};
use crate::vec3::{Vec3, Point3, bounded, fxs};

verus! {

#[derive(Clone, Copy, Debug, PartialEq, Eq, Structural)]
pub struct Ray {
    pub origin: Point3,
    pub direction: Vec3,
    pub time: i64,
}

/// A query ray as the integrator casts it: origin within the scene's
/// coordinate range, direction bounded and nonzero, time within `[0, 1]`.
pub open spec fn wf_ray(r: Ray) -> bool {
    &&& bounded(r.origin, 0x8000_0000int)
    &&& bounded(r.direction, 0x40_0000int)
    &&& !(r.direction.x == 0 && r.direction.y == 0 && r.direction.z == 0)
    &&& 0 <= r.time <= FX_ONE
}

/// The x-coordinate of the ray's point at parameter `t`.
pub open spec fn at_x(r: Ray, t: int) -> int {
    r.origin.x + fxs(t * r.direction.x)
}

/// The y-coordinate of the ray's point at parameter `t`.
pub open spec fn at_y(r: Ray, t: int) -> int {
    r.origin.y + fxs(t * r.direction.y)
}

/// The z-coordinate of the ray's point at parameter `t`.
pub open spec fn at_z(r: Ray, t: int) -> int {
    r.origin.z + fxs(t * r.direction.z)
}

impl Ray {
    pub fn new(origin: Point3, direction: Vec3, time: i64) -> (r: Self)
        ensures
            r == (Ray { origin, direction, time }),
    {
        Ray { origin, direction, time }
    }

    pub fn origin(self) -> (r: Point3)
        ensures
            r == self.origin,
    {
        self.origin
    }

    pub fn direction(self) -> (r: Vec3)
        ensures
            r == self.direction,
    {
        self.direction
    }

    pub fn time(self) -> (r: i64)
        ensures
            r == self.time,
    {
        self.time
    }

    /// The point reached after parameter `t`, each component floored.
    pub fn at(self, t: i64) -> (r: Point3)
        requires
            bounded(self.origin, 0x8000_0000_0000int),
            bounded(self.direction, 0x4000_0000int),
            -FX_INF <= t <= FX_INF,
        ensures
            r.x == at_x(self, t as int),
            r.y == at_y(self, t as int),
            r.z == at_z(self, t as int),
    {
        proof {
            crate::vec3::lemma_mul_bound(
                t as int,
                self.direction.x as int,
                FX_INF as int,
                0x4000_0000int,
            );
            crate::vec3::lemma_mul_bound(
                t as int,
                self.direction.y as int,
                FX_INF as int,
                0x4000_0000int,
            );
            crate::vec3::lemma_mul_bound(
                t as int,
                self.direction.z as int,
                FX_INF as int,
                0x4000_0000int,
            );
            crate::vec3::lemma_fxs_bound(t * self.direction.x, 0x4000_0000_0000_0000_0000int);
            crate::vec3::lemma_fxs_bound(t * self.direction.y, 0x4000_0000_0000_0000_0000int);
            crate::vec3::lemma_fxs_bound(t * self.direction.z, 0x4000_0000_0000_0000_0000int);
        }
        Vec3 {
            x: self.origin.x + fdiv(t as i128 * self.direction.x as i128, FX_ONE as i128) as i64,
            y: self.origin.y + fdiv(t as i128 * self.direction.y as i128, FX_ONE as i128) as i64,
            z: self.origin.z + fdiv(t as i128 * self.direction.z as i128, FX_ONE as i128) as i64,
        }
    }
}

impl Ray {
    /// Decide the well-formedness condition `wf_ray` at run time.
    pub fn is_wf(&self) -> (b: bool)
        ensures
            b == wf_ray(*self),
    {
        -0x8000_0000i64 <= self.origin.x && self.origin.x <= 0x8000_0000i64
            && -0x8000_0000i64 <= self.origin.y && self.origin.y <= 0x8000_0000i64
            && -0x8000_0000i64 <= self.origin.z && self.origin.z <= 0x8000_0000i64
            && -0x40_0000i64 <= self.direction.x && self.direction.x <= 0x40_0000i64
            && -0x40_0000i64 <= self.direction.y && self.direction.y <= 0x40_0000i64
            && -0x40_0000i64 <= self.direction.z && self.direction.z <= 0x40_0000i64
            && !(self.direction.x == 0 && self.direction.y == 0 && self.direction.z == 0)
            && 0 <= self.time && self.time <= FX_ONE
    }
}

} // verus!
