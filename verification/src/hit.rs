//! Intersection records.

use vstd::prelude::*;

use crate::material::Material;
use crate::math::{stdiv, COORD_MAX, SCALE};
use crate::ray::Ray;
use crate::vector::{bounded_m, dot_m, neg_m, Point, Vector};

verus! {

/// The outcome of a successful ray/object intersection: where, when, the
/// surface normal oriented against the incoming ray, which side was
/// struck, and the material found there.
#[derive(Clone, Copy, PartialEq, Eq, Structural, Debug)]
pub struct Hit {
    pub hit_point: Point,
    pub normal: Vector,
    pub time: i64,
    pub front_face: bool,
    pub material: Material,
}

impl Hit {
    /// A record taken at face value: the caller vouches for the normal's
    /// orientation.
    pub fn new(hit_point: Point, normal: Vector, time: i64, material: Material) -> (r: Self)
        ensures
            r.hit_point == hit_point,
            r.normal == normal,
            r.time == time,
            r.front_face == true,
            r.material == material,
    {
        Hit { hit_point, normal, time, front_face: true, material }
    }

    /// A record whose normal is flipped, if needed, to oppose the
    /// incoming ray: the front face was struck exactly when the ray
    /// direction and the outward normal point fixed-point-negatively.
    pub fn with_face_normal(
        hit_point: Point,
        time: i64,
        ray: &Ray,
        material: Material,
        outward_normal: Vector,
    ) -> (r: Self)
        requires
            bounded_m(ray.direction.m(), COORD_MAX as int),
            bounded_m(outward_normal.m(), COORD_MAX as int),
        ensures
            r.hit_point == hit_point,
            r.time == time,
            r.material == material,
            r.front_face == (stdiv(dot_m(ray.direction.m(), outward_normal.m()), SCALE as int)
                < 0),
            r.front_face ==> r.normal == outward_normal,
            !r.front_face ==> r.normal.m() == neg_m(outward_normal.m()),
    {
        let front_face: bool = ray.direction.dot(&outward_normal) < 0;
        let normal = if front_face {
            outward_normal
        } else {
            outward_normal.neg()
        };
        Hit { hit_point, normal, time, front_face, material }
    }
}

} // verus!
