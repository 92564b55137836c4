//! Spheres and their ray-intersection test.

use vstd::prelude::*;

use crate::hit::Hit;
use crate::material::Material;
use crate::math::{div_t, isqrt, mul_wide, sqrt_floor, stdiv, COORD_MAX, SCALE, T_FAR};
use crate::ray::{at_m, Ray};
use crate::vector::{bounded_m, dot_m, len_sq_m, neg_m, sub_m, unit_m, Point, Vector, V3};

verus! {

/// A sphere with a positive radius, carrying the material of its surface.
#[derive(Clone, Copy, PartialEq, Eq, Structural, Debug)]
pub struct Sphere {
    pub center: Point,
    pub radius: i64,
    pub material: Material,
}

/// Fixed-point leading coefficient of the intersection quadratic: the
/// squared length of the ray direction.
pub open spec fn quad_a(ray: Ray) -> int {
    stdiv(len_sq_m(ray.direction.m()), SCALE as int)
}

/// Origin-minus-center, the vector the quadratic is phrased over.
pub open spec fn oc_m(s: Sphere, ray: Ray) -> V3 {
    sub_m(ray.origin.m(), s.center.m())
}

/// Fixed-point half middle coefficient of the intersection quadratic.
pub open spec fn quad_hb(s: Sphere, ray: Ray) -> int {
    stdiv(dot_m(oc_m(s, ray), ray.direction.m()), SCALE as int)
}

/// Fixed-point constant coefficient of the intersection quadratic.
pub open spec fn quad_c(s: Sphere, ray: Ray) -> int {
    stdiv(len_sq_m(oc_m(s, ray)), SCALE as int) - stdiv(
        (s.radius as int) * (s.radius as int),
        SCALE as int,
    )
}

/// Discriminant of the intersection quadratic (in half-coefficient form).
pub open spec fn quad_disc(s: Sphere, ray: Ray) -> int {
    quad_hb(s, ray) * quad_hb(s, ray) - quad_a(ray) * quad_c(s, ray)
}

/// The nearer root of the intersection quadratic, in fixed point.
/// Meaningful when the discriminant is nonnegative and the leading
/// coefficient positive.
pub open spec fn hit_time_m(s: Sphere, ray: Ray) -> int {
    stdiv(
        (-quad_hb(s, ray) - sqrt_floor(quad_disc(s, ray) as nat)) * (SCALE as int),
        quad_a(ray),
    )
}

/// Whether the sphere reports a hit for the open parameter interval
/// `(t_min, t_max)`: the quadratic must be nondegenerate, have real
/// roots, and its nearer root must lie strictly inside the interval.
/// The farther root is never consulted.
pub open spec fn sphere_hits(s: Sphere, ray: Ray, t_min: int, t_max: int) -> bool {
    &&& quad_a(ray) > 0
    &&& quad_disc(s, ray) >= 0
    &&& t_min < hit_time_m(s, ray) < t_max
}

/// The outward surface normal at the hit point: the normalized
/// point-minus-center.  Should truncation collapse that difference to
/// zero (possible only for spheres no larger than the truncation error),
/// an arbitrary fixed unit vector stands in, where unbounded arithmetic
/// would produce undefined components.
pub open spec fn outward_normal_m(s: Sphere, ray: Ray) -> V3 {
    let diff = sub_m(at_m(ray.origin.m(), ray.direction.m(), hit_time_m(s, ray)), s.center.m());
    if len_sq_m(diff) == 0 {
        V3 { x: 0, y: 0, z: SCALE as int }
    } else {
        unit_m(diff)
    }
}

/// What a successful intersection record holds, field by field: the
/// nearer root as its time, the point reached there, the outward normal
/// flipped to oppose the ray, and the sphere's material.  Whenever the
/// point-minus-center difference is at least half a unit long (or
/// collapses entirely, taking the fixed stand-in normal), the normal's
/// raw squared length lies within a few parts in `SCALE` of one.
pub open spec fn matches_hit_record(h: Hit, s: Sphere, ray: Ray) -> bool {
    &&& h.time == hit_time_m(s, ray)
    &&& h.hit_point.m() == at_m(ray.origin.m(), ray.direction.m(), hit_time_m(s, ray))
    &&& h.front_face == (stdiv(dot_m(ray.direction.m(), outward_normal_m(s, ray)), SCALE as int)
        < 0)
    &&& (h.front_face ==> h.normal.m() == outward_normal_m(s, ray))
    &&& (!h.front_face ==> h.normal.m() == neg_m(outward_normal_m(s, ray)))
    &&& h.material == s.material
    &&& bounded_m(h.normal.m(), SCALE as int)
    &&& {
        let diff = sub_m(at_m(ray.origin.m(), ray.direction.m(), hit_time_m(s, ray)), s.center.m());
        (len_sq_m(diff) == 0 || len_sq_m(diff) >= 1073741824) ==> (4294574077 <= len_sq_m(
            h.normal.m(),
        ) <= 4295229443)
    }
}

impl Sphere {
    /// A sphere is well formed when its geometry is in range and its
    /// material is well formed.
    pub open spec fn wf(self) -> bool {
        &&& bounded_m(self.center.m(), COORD_MAX as int)
        &&& 0 < self.radius <= COORD_MAX
        &&& self.material.wf()
    }

    pub fn new(center: Point, radius: i64, material: Material) -> (r: Self)
        requires
            bounded_m(center.m(), COORD_MAX as int),
            0 < radius <= COORD_MAX,
            material.wf(),
        ensures
            r.center == center && r.radius == radius && r.material == material,
            r.wf(),
    {
        Sphere { center, radius, material }
    }

    /// Intersect a ray against this sphere over the open parameter
    /// interval `(t_min, t_max)`, reporting the nearer quadratic root.
    pub fn hit(&self, ray: &Ray, t_min: i64, t_max: i64) -> (res: Option<Hit>)
        requires
            self.wf(),
            bounded_m(ray.origin.m(), COORD_MAX as int),
            bounded_m(ray.direction.m(), COORD_MAX as int),
            -(T_FAR as int) <= t_min as int,
            t_max as int <= T_FAR as int,
        ensures
            res is Some <==> sphere_hits(*self, *ray, t_min as int, t_max as int),
            res is Some ==> matches_hit_record(res->Some_0, *self, *ray) && t_min
                < res->Some_0.time < t_max,
    {
        let oc = ray.origin.sub(&self.center);
        let a = ray.direction.length_squared();
        let half_b = oc.dot(&ray.direction);
        let oc_ls = oc.length_squared();
        let rsq_wide: i128 = mul_wide(self.radius, self.radius);
        proof {
            let rr = self.radius as int;
            assert(0 <= rr * rr <= 4722366482869645213696) by (nonlinear_arith)
                requires
                    0 < rr <= 68719476736,
            ;
            crate::math::lemma_stdiv_bound(rr * rr, SCALE as int, 72057594037927936);
        }
        let rsq: i64 = div_t(rsq_wide, SCALE as i128) as i64;
        let c: i64 = oc_ls - rsq;
        let hb_sq: i128 = mul_wide(half_b, half_b);
        let ac: i128 = mul_wide(a, c);
        proof {
            let hb = half_b as int;
            let ai = a as int;
            let ci = c as int;
            assert(0 <= hb * hb <= 1329227995784915872903807060280344576int && -(
            1329227995784915872903807060280344576int) <= ai * ci
                <= 1329227995784915872903807060280344576int) by (nonlinear_arith)
                requires
                    -864691128455135232 <= hb <= 864691128455135232 && 0 <= ai
                        <= 864691128455135232 && -936748722493063168 <= ci <= 936748722493063168,
            ;
        }
        let disc: i128 = hb_sq - ac;
        if a <= 0 {
            return None;
        }
        if disc < 0 {
            return None;
        }
        let root: u64 = isqrt(disc as u128);
        proof {
            let d = disc as int;
            assert(root as int <= 2305843009213693952) by (nonlinear_arith)
                requires
                    (root as int) * (root as int) <= d && d
                        <= 2658455991569831745807614120560689152int && root as int >= 0,
            ;
        }
        let diffsum: i128 = -(half_b as i128) - (root as i128);
        proof {
            assert(diffsum * (SCALE as int) <= 1329227995784915872903807060280344576int
                && diffsum * (SCALE as int) >= -1329227995784915872903807060280344576int)
                by (nonlinear_arith)
                requires
                    -4611686018427387904 <= diffsum <= 4611686018427387904,
            ;
        }
        let num: i128 = diffsum * (SCALE as i128);
        let t128: i128 = div_t(num, a as i128);
        proof {
            assert(t128 == hit_time_m(*self, *ray));
        }
        if t128 <= t_min as i128 || t128 >= t_max as i128 {
            return None;
        }
        let t: i64 = t128 as i64;
        let p = ray.at(t);
        let diff = p.sub(&self.center);
        let outward: Vector = if diff.x == 0 && diff.y == 0 && diff.z == 0 {
            proof {
                assert(len_sq_m(diff.m()) == 0) by (nonlinear_arith)
                    requires
                        diff.x as int == 0 && diff.y as int == 0 && diff.z as int == 0,
            }
            Vector::new(0, 0, SCALE)
        } else {
            proof {
                lemma_nonzero_len_sq(diff.m());
            }
            diff.unit()
        };
        proof {
            assert(0int * 0int == 0 && 65536int * 65536int == 4294967296) by (nonlinear_arith);
            if len_sq_m(diff.m()) == 0 {
                assert(len_sq_m(outward.m()) == 4294967296);
            } else if len_sq_m(diff.m()) >= 1073741824 {
                crate::vector::lemma_unit_near(diff.m());
            }
            let om = outward.m();
            assert((-om.x) * (-om.x) == om.x * om.x && (-om.y) * (-om.y) == om.y * om.y && (-om.z)
                * (-om.z) == om.z * om.z) by (nonlinear_arith);
            assert(len_sq_m(neg_m(om)) == len_sq_m(om));
        }
        Some(Hit::with_face_normal(p, t, ray, self.material, outward))
    }
}

/// Squaring one component of the cleared hit point, term by term.
proof fn lemma_point_sq_expand(wi: int, td: int, tn: int, a: int, b: int)
    requires
        wi == td * a + tn * b,
    ensures
        wi * wi == (td * td) * (a * a) + 2 * ((tn * td) * (a * b)) + (tn * tn) * (b * b),
{
    let p = td * a;
    let q = tn * b;
    assert(wi * wi == p * p + 2 * (p * q) + q * q) by (nonlinear_arith)
        requires
            wi == p + q,
    ;
    assert(p * p == (td * td) * (a * a)) by (nonlinear_arith)
        requires
            p == td * a,
    ;
    assert(p * q == (tn * td) * (a * b)) by (nonlinear_arith)
        requires
            p == td * a && q == tn * b,
    ;
    assert(q * q == (tn * tn) * (b * b)) by (nonlinear_arith)
        requires
            q == tn * b,
    ;
}

/// A real root of the intersection quadratic names a point whose
/// distance from the sphere's center is exactly the radius.  The root is
/// taken as a rational `tn / td` with its denominator cleared: the
/// hypothesis is the quadratic over raw integer coefficients multiplied
/// through by `td * td`, and both sides of the conclusion carry that
/// same factor.
pub proof fn lemma_quadratic_root_on_sphere(o: V3, cen: V3, d: V3, r: int, tn: int, td: int)
    requires
        dot_m(d, d) * (tn * tn) + 2 * (dot_m(sub_m(o, cen), d) * (tn * td)) + (dot_m(
            sub_m(o, cen),
            sub_m(o, cen),
        ) - r * r) * (td * td) == 0,
    ensures
        len_sq_m(
            V3 {
                x: td * (o.x - cen.x) + tn * d.x,
                y: td * (o.y - cen.y) + tn * d.y,
                z: td * (o.z - cen.z) + tn * d.z,
            },
        ) == (r * r) * (td * td),
{
    let oc = sub_m(o, cen);
    let w = V3 {
        x: td * (o.x - cen.x) + tn * d.x,
        y: td * (o.y - cen.y) + tn * d.y,
        z: td * (o.z - cen.z) + tn * d.z,
    };
    lemma_point_sq_expand(w.x, td, tn, oc.x, d.x);
    lemma_point_sq_expand(w.y, td, tn, oc.y, d.y);
    lemma_point_sq_expand(w.z, td, tn, oc.z, d.z);
    assert((td * td) * (oc.x * oc.x) + (td * td) * (oc.y * oc.y) + (td * td) * (oc.z * oc.z) == (td
        * td) * dot_m(oc, oc)) by (nonlinear_arith)
        requires
            dot_m(oc, oc) == oc.x * oc.x + oc.y * oc.y + oc.z * oc.z,
    ;
    assert((tn * td) * (oc.x * d.x) + (tn * td) * (oc.y * d.y) + (tn * td) * (oc.z * d.z) == (tn
        * td) * dot_m(oc, d)) by (nonlinear_arith)
        requires
            dot_m(oc, d) == oc.x * d.x + oc.y * d.y + oc.z * d.z,
    ;
    assert((tn * tn) * (d.x * d.x) + (tn * tn) * (d.y * d.y) + (tn * tn) * (d.z * d.z) == (tn * tn)
        * dot_m(d, d)) by (nonlinear_arith)
        requires
            dot_m(d, d) == d.x * d.x + d.y * d.y + d.z * d.z,
    ;
    assert(len_sq_m(w) == (td * td) * dot_m(oc, oc) + 2 * ((tn * td) * dot_m(oc, d)) + (tn * tn)
        * dot_m(d, d));
    assert((tn * tn) * dot_m(d, d) == dot_m(d, d) * (tn * tn) && (tn * td) * dot_m(oc, d) == dot_m(
        oc,
        d,
    ) * (tn * td)) by (nonlinear_arith);
    assert((dot_m(oc, oc) - r * r) * (td * td) == (td * td) * dot_m(oc, oc) - (r * r) * (td * td))
        by (nonlinear_arith);
}

/// A vector with a nonzero component has a positive raw squared length.
pub proof fn lemma_nonzero_len_sq(v: V3)
    requires
        v.x != 0 || v.y != 0 || v.z != 0,
    ensures
        len_sq_m(v) >= 1,
{
    assert(v.x * v.x >= 0 && v.y * v.y >= 0 && v.z * v.z >= 0) by (nonlinear_arith);
    if v.x != 0 {
        assert(v.x * v.x >= 1) by (nonlinear_arith)
            requires
                v.x != 0,
        ;
    } else if v.y != 0 {
        assert(v.y * v.y >= 1) by (nonlinear_arith)
            requires
                v.y != 0,
        ;
    } else {
        assert(v.z * v.z >= 1) by (nonlinear_arith)
            requires
                v.z != 0,
        ;
    }
}

} // verus!
