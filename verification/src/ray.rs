//! Rays: an origin plus a parametrized direction.

use vstd::prelude::*;

use crate::math::{div_t, mul_wide, stdiv, SCALE, T_FAR};
use crate::vector::{bounded_m, Point, Vector, V3};

verus! {

/// The model of the point a ray reaches at fixed-point parameter `t`.
pub open spec fn at_m(origin: V3, direction: V3, t: int) -> V3 {
    V3 {
        x: origin.x + stdiv(direction.x * t, SCALE as int),
        y: origin.y + stdiv(direction.y * t, SCALE as int),
        z: origin.z + stdiv(direction.z * t, SCALE as int),
    }
}

/// A half-line from `origin` along `direction`; the direction need not be
/// normalized.
#[derive(Clone, Copy, PartialEq, Eq, Structural, Debug)]
pub struct Ray {
    pub origin: Point,
    pub direction: Vector,
}

impl Ray {
    pub fn new(origin: Point, direction: Vector) -> (r: Self)
        ensures
            r.origin == origin && r.direction == direction,
    {
        Self { origin, direction }
    }

    /// The point reached at parameter `t` (which may be negative).
    pub fn at(&self, t: i64) -> (r: Point)
        requires
            bounded_m(self.origin.m(), crate::math::COORD_MAX as int),
            bounded_m(self.direction.m(), crate::math::COORD_MAX as int),
            -(T_FAR as int) <= t <= T_FAR as int,
        ensures
            r.m() == at_m(self.origin.m(), self.direction.m(), t as int),
            bounded_m(r.m(), 2305843009213693952),
    {
        let rx = Self::at_comp(self.origin.x, self.direction.x, t);
        let ry = Self::at_comp(self.origin.y, self.direction.y, t);
        let rz = Self::at_comp(self.origin.z, self.direction.z, t);
        Point { x: rx, y: ry, z: rz }
    }

    /// One component of `at`.
    fn at_comp(o: i64, d: i64, t: i64) -> (r: i64)
        requires
            -(crate::math::COORD_MAX as int) <= o as int <= crate::math::COORD_MAX as int,
            -(crate::math::COORD_MAX as int) <= d as int <= crate::math::COORD_MAX as int,
            -(T_FAR as int) <= t <= T_FAR as int,
        ensures
            r == o + stdiv(d * t, SCALE as int),
            -2305843009213693952 <= r <= 2305843009213693952,
    {
        let p: i128 = mul_wide(d, t);
        proof {
            let cm = crate::math::COORD_MAX as int;
            let tf = T_FAR as int;
            assert(-(cm * tf) <= (d as int) * (t as int) <= cm * tf) by (nonlinear_arith)
                requires
                    -cm <= d as int <= cm && -tf <= t as int <= tf && cm > 0 && tf > 0,
            ;
            crate::math::lemma_stdiv_bound((d as int) * (t as int), SCALE as int, 1152921504606846976);
        }
        let q: i128 = div_t(p, SCALE as i128);
        o + (q as i64)
    }
}

} // verus!
