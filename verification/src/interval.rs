//! Closed numeric ranges over fixed-point scalars.
//!
//! The empty interval has `min > max` by construction (`+inf, -inf` in the
//! sentinel sense of `FX_INF`) and is the neutral element of `enclosing`.

use vstd::prelude::*;
use crate::fixed::FX_INF;

verus! {

#[derive(Clone, Copy, Debug, PartialEq, Eq, Structural)]
pub struct Interval {
    pub min: i64,
    pub max: i64,
}

/// Interval ends the library works with stay far below the sentinel bound.
pub open spec fn wf_interval(i: Interval) -> bool {
    -FX_INF <= i.min <= FX_INF && -FX_INF <= i.max <= FX_INF
}

impl Interval {
    pub fn new(min: i64, max: i64) -> (r: Self)
        ensures
            r == (Interval { min, max }),
    {
        Interval { min, max }
    }

    /// The canonical empty interval: no scalar is contained in it.
    pub fn empty() -> (r: Self)
        ensures
            r.min == FX_INF && r.max == -FX_INF,
    {
        Interval { min: FX_INF, max: -FX_INF }
    }

    /// The interval containing every representable scalar of the library.
    pub fn universe() -> (r: Self)
        ensures
            r.min == -FX_INF && r.max == FX_INF,
    {
        Interval { min: -FX_INF, max: FX_INF }
    }

    pub fn size(&self) -> (r: i64)
        requires
            -(0x2000_0000_0000_0000int) <= self.min <= 0x2000_0000_0000_0000int,
            -(0x2000_0000_0000_0000int) <= self.max <= 0x2000_0000_0000_0000int,
        ensures
            r == self.max - self.min,
    {
        self.max - self.min
    }

    /// Closed containment.
    pub fn contains(&self, x: i64) -> (r: bool)
        ensures
            r == (self.min <= x <= self.max),
    {
        self.min <= x && x <= self.max
    }

    /// Open containment.
    pub fn surrounds(&self, x: i64) -> (r: bool)
        ensures
            r == (self.min < x < self.max),
    {
        self.min < x && x < self.max
    }

    /// Clamp `x` into the interval, the upper end winning over the lower.
    pub fn clamp(&self, x: i64) -> (r: i64)
        ensures
            r == if x > self.max {
                if self.min > self.max {
                    self.min
                } else {
                    self.max
                }
            } else if x < self.min {
                self.min
            } else {
                x
            },
    {
        let upper = if x > self.max {
            self.max
        } else {
            x
        };
        if upper < self.min {
            self.min
        } else {
            upper
        }
    }

    /// Widen symmetrically by half the given (nonnegative) thickness on
    /// each side, the halves rounded down.
    pub fn expand(&self, delta: i64) -> (r: Self)
        requires
            0 <= delta,
            -(0x2000_0000_0000_0000int) <= self.min <= 0x2000_0000_0000_0000int,
            -(0x2000_0000_0000_0000int) <= self.max <= 0x2000_0000_0000_0000int,
        ensures
            r.min == self.min - delta / 2,
            r.max == self.max + delta / 2,
    {
        let padding = delta / 2;
        Interval { min: self.min - padding, max: self.max + padding }
    }

    /// The smallest interval containing both arguments.
    pub fn enclosing(a: &Self, b: &Self) -> (r: Self)
        ensures
            r.min == if a.min <= b.min {
                a.min
            } else {
                b.min
            },
            r.max == if a.max >= b.max {
                a.max
            } else {
                b.max
            },
    {
        Interval {
            min: if a.min <= b.min {
                a.min
            } else {
                b.min
            },
            max: if a.max >= b.max {
                a.max
            } else {
                b.max
            },
        }
    }
}

impl Default for Interval {
    /// The default interval is the empty one.
    fn default() -> (r: Self)
        ensures
            r.min == FX_INF && r.max == -FX_INF,
    {
        Interval { min: FX_INF, max: -FX_INF }
    }
}

} // verus!
