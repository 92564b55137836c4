//! Surface materials and the scattering contract.
//!
//! A material answers one question: given an incoming ray and an
//! intersection record, does the ray scatter, and if so along which ray
//! and with which attenuation?  Diffuse and mirror surfaces always
//! scatter; an absorbing material would answer `None`.

use vstd::prelude::*;

use crate::hit::Hit;
use crate::math::{COORD_MAX, SCALE};
use crate::ray::Ray;
use crate::vector::{add_m, bounded_m, dot_m, len_sq_m, reflect_m, Color, Vector, V3};

verus! {

/// A scattered ray together with its per-channel attenuation.
#[derive(Clone, Copy, PartialEq, Eq, Structural, Debug)]
pub struct ScatterEffect {
    pub scattered_ray: Ray,
    pub attenuation: Color,
}

/// A Lambertian-style diffuse surface: scatters about the surface normal,
/// attenuating by its albedo.
#[derive(Clone, Copy, PartialEq, Eq, Structural, Debug)]
pub struct Diffuse {
    pub albedo: Color,
}

impl Diffuse {
    /// `albedo` is a per-channel reflectance fraction in `[0, SCALE]`.
    pub fn new(albedo: Color) -> (r: Self)
        requires
            0 <= albedo.x <= SCALE,
            0 <= albedo.y <= SCALE,
            0 <= albedo.z <= SCALE,
        ensures
            r.albedo == albedo,
    {
        Diffuse { albedo }
    }

    /// Scatter toward the normal plus a random near-unit vector; diffuse
    /// surfaces always scatter, attenuated by the albedo.  Against a
    /// near-unit normal the scattered direction points into the
    /// surface's own hemisphere, up to one near-unit cap of tolerance.
    pub fn scatter(&self, _incoming: &Ray, hit: &Hit) -> (r: Option<ScatterEffect>)
        requires
            bounded_m(hit.normal.m(), 2 * SCALE as int),
        ensures
            r is Some,
            r->Some_0.attenuation == self.albedo,
            r->Some_0.scattered_ray.origin == hit.hit_point,
            bounded_m(r->Some_0.scattered_ray.direction.m(), 3 * SCALE as int),
            exists|u: Vector|
                #![auto]
                bounded_m(u.m(), SCALE as int) && 4294574077 <= len_sq_m(u.m()) <= 4295229443
                    && r->Some_0.scattered_ray.direction.m() == add_m(hit.normal.m(), u.m()),
            len_sq_m(hit.normal.m()) <= 4295229443 ==> dot_m(
                r->Some_0.scattered_ray.direction.m(),
                hit.normal.m(),
            ) >= len_sq_m(hit.normal.m()) - 4295229443,
    {
        let u = Vector::random_unit();
        let dir = hit.normal.add(&u);
        proof {
            let nm = hit.normal.m();
            let um = u.m();
            assert((nm.x + um.x) * nm.x == nm.x * nm.x + um.x * nm.x && (nm.y + um.y) * nm.y == nm.y
                * nm.y + um.y * nm.y && (nm.z + um.z) * nm.z == nm.z * nm.z + um.z * nm.z)
                by (nonlinear_arith);
            assert(dot_m(add_m(nm, um), nm) == len_sq_m(nm) + dot_m(um, nm));
            if len_sq_m(nm) <= 4295229443 {
                crate::vector::lemma_dot_lower_bound(um, nm);
            }
        }
        Some(ScatterEffect { scattered_ray: Ray::new(hit.hit_point, dir), attenuation: self.albedo })
    }
}

/// A perfect mirror: reflects the incoming direction about the normal
/// with no energy loss.
#[derive(Clone, Copy, PartialEq, Eq, Structural, Debug)]
pub struct Mirror {}

impl Mirror {
    pub fn new() -> (r: Self) {
        Mirror {  }
    }

    /// Scatter by exact fixed-point reflection; mirrors always scatter,
    /// with attenuation exactly one in every channel.
    pub fn scatter(&self, incoming: &Ray, hit: &Hit) -> (r: Option<ScatterEffect>)
        requires
            bounded_m(incoming.direction.m(), COORD_MAX as int),
            bounded_m(hit.normal.m(), 2 * SCALE as int),
        ensures
            r is Some,
            r->Some_0.attenuation == (Color { x: SCALE, y: SCALE, z: SCALE }),
            r->Some_0.scattered_ray.origin == hit.hit_point,
            r->Some_0.scattered_ray.direction.m() == reflect_m(
                incoming.direction.m(),
                hit.normal.m(),
            ),
            bounded_m(r->Some_0.scattered_ray.direction.m(), 35184372088832),
    {
        let dir = incoming.direction.reflect(&hit.normal);
        Some(
            ScatterEffect {
                scattered_ray: Ray::new(hit.hit_point, dir),
                attenuation: Color::new(SCALE, SCALE, SCALE),
            },
        )
    }
}

/// What scattering an incoming ray off the record `h` yields: the
/// scattered ray `sr` leaves the hit point, the attenuation `att` stays
/// within one unit per channel, and the direction is the material's own
/// construction — the normal plus a near-unit draw for a diffuse
/// surface, the exact fixed-point reflection for a mirror.
pub open spec fn scatter_rel(h: Hit, incoming: Ray, sr: Ray, att: V3) -> bool {
    &&& sr.origin == h.hit_point
    &&& 0 <= att.x <= SCALE as int && 0 <= att.y <= SCALE as int && 0 <= att.z <= SCALE as int
    &&& bounded_m(sr.direction.m(), 35184372088832)
    &&& match h.material {
        Material::Diffuse(d) => att == d.albedo.m() && exists|u: Vector|
            #![auto]
            bounded_m(u.m(), SCALE as int) && 4294574077 <= len_sq_m(u.m()) <= 4295229443
                && sr.direction.m() == add_m(h.normal.m(), u.m()),
        Material::Mirror(_) => att == (V3 {
            x: SCALE as int,
            y: SCALE as int,
            z: SCALE as int,
        }) && sr.direction.m() == reflect_m(incoming.direction.m(), h.normal.m()),
    }
}

/// The closed set of materials a surface may carry.
#[derive(Clone, Copy, PartialEq, Eq, Structural, Debug)]
pub enum Material {
    Diffuse(Diffuse),
    Mirror(Mirror),
}

impl Material {
    /// A material is well formed when its parameters are in range.
    pub open spec fn wf(self) -> bool {
        match self {
            Material::Diffuse(d) => 0 <= d.albedo.x <= SCALE && 0 <= d.albedo.y <= SCALE && 0
                <= d.albedo.z <= SCALE,
            Material::Mirror(_) => true,
        }
    }

    /// Dispatch scattering to the concrete material.  Every current
    /// material scatters; the attenuation channels stay within `[0,
    /// SCALE]` for well-formed materials.
    pub fn scatter(&self, incoming: &Ray, hit: &Hit) -> (r: Option<ScatterEffect>)
        requires
            self.wf(),
            bounded_m(incoming.direction.m(), COORD_MAX as int),
            bounded_m(hit.normal.m(), 2 * SCALE as int),
        ensures
            r is Some,
            r->Some_0.scattered_ray.origin == hit.hit_point,
            0 <= r->Some_0.attenuation.x <= SCALE,
            0 <= r->Some_0.attenuation.y <= SCALE,
            0 <= r->Some_0.attenuation.z <= SCALE,
            match *self {
                Material::Diffuse(d) => r->Some_0.attenuation == d.albedo && (exists|u: Vector|
                    #![auto]
                    bounded_m(u.m(), SCALE as int) && 4294574077 <= len_sq_m(u.m()) <= 4295229443
                        && r->Some_0.scattered_ray.direction.m() == add_m(hit.normal.m(), u.m()))
                    && (len_sq_m(hit.normal.m()) <= 4295229443 ==> dot_m(
                    r->Some_0.scattered_ray.direction.m(),
                    hit.normal.m(),
                ) >= len_sq_m(hit.normal.m()) - 4295229443),
                Material::Mirror(_) => r->Some_0.attenuation == (Color {
                    x: SCALE,
                    y: SCALE,
                    z: SCALE,
                }) && r->Some_0.scattered_ray.direction.m() == reflect_m(
                    incoming.direction.m(),
                    hit.normal.m(),
                ),
            },
            bounded_m(r->Some_0.scattered_ray.direction.m(), 35184372088832),
            *self == hit.material ==> scatter_rel(
                *hit,
                *incoming,
                r->Some_0.scattered_ray,
                r->Some_0.attenuation.m(),
            ),
    {
        match self {
            Material::Diffuse(d) => {
                d.scatter(incoming, hit)
            },
            Material::Mirror(mm) => mm.scatter(incoming, hit),
        }
    }
}

} // verus!
