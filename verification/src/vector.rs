//! Three-component fixed-point vectors.
//!
//! Every component is an `i64` carrying its real value times
//! `math::SCALE`.  The mathematical model of a vector is `V3`, the same
//! three components as unbounded integers; each operation's contract says
//! exactly which truncated integer expression it computes.

use vstd::prelude::*;

use crate::math::{div_t, isqrt, mul_wide, scaled_mul, sqrt_floor, stdiv, COORD_MAX, SCALE};
use crate::rng::rand_range;

verus! {

/// Mathematical model of a vector: the components as unbounded integers.
pub ghost struct V3 {
    pub x: int,
    pub y: int,
    pub z: int,
}

/// Componentwise sum.
pub open spec fn add_m(a: V3, b: V3) -> V3 {
    V3 { x: a.x + b.x, y: a.y + b.y, z: a.z + b.z }
}

/// Componentwise difference.
pub open spec fn sub_m(a: V3, b: V3) -> V3 {
    V3 { x: a.x - b.x, y: a.y - b.y, z: a.z - b.z }
}

/// Componentwise negation.
pub open spec fn neg_m(a: V3) -> V3 {
    V3 { x: -a.x, y: -a.y, z: -a.z }
}

/// Raw (unscaled) inner product of the integer components.
pub open spec fn dot_m(a: V3, b: V3) -> int {
    a.x * b.x + a.y * b.y + a.z * b.z
}

/// Raw (unscaled) squared length of the integer components.
pub open spec fn len_sq_m(a: V3) -> int {
    dot_m(a, a)
}

/// Every component lies within `[-b, b]`.
pub open spec fn bounded_m(a: V3, b: int) -> bool {
    &&& -b <= a.x <= b
    &&& -b <= a.y <= b
    &&& -b <= a.z <= b
}

/// Fixed-point scaling by the scalar `k`.
pub open spec fn scale_m(a: V3, k: int) -> V3 {
    V3 {
        x: stdiv(k * a.x, SCALE as int),
        y: stdiv(k * a.y, SCALE as int),
        z: stdiv(k * a.z, SCALE as int),
    }
}

/// Componentwise product with a plain (unscaled) count.
pub open spec fn scale_n_m(a: V3, n: int) -> V3 {
    V3 { x: n * a.x, y: n * a.y, z: n * a.z }
}

/// Fixed-point componentwise product.
pub open spec fn comp_mul_m(a: V3, b: V3) -> V3 {
    V3 {
        x: stdiv(a.x * b.x, SCALE as int),
        y: stdiv(a.y * b.y, SCALE as int),
        z: stdiv(a.z * b.z, SCALE as int),
    }
}

/// Fixed-point division by the scalar `k`.
pub open spec fn div_m(a: V3, k: int) -> V3 {
    V3 {
        x: stdiv(a.x * (SCALE as int), k),
        y: stdiv(a.y * (SCALE as int), k),
        z: stdiv(a.z * (SCALE as int), k),
    }
}

/// Fixed-point cross product, each product truncated on its own.
pub open spec fn cross_m(a: V3, b: V3) -> V3 {
    V3 {
        x: stdiv(a.y * b.z, SCALE as int) - stdiv(a.z * b.y, SCALE as int),
        y: stdiv(a.z * b.x, SCALE as int) - stdiv(a.x * b.z, SCALE as int),
        z: stdiv(a.x * b.y, SCALE as int) - stdiv(a.y * b.x, SCALE as int),
    }
}

/// Fixed-point normalization: each component times `SCALE`, divided by
/// the floor square root of the raw squared length.
pub open spec fn unit_m(a: V3) -> V3 {
    let l = sqrt_floor(len_sq_m(a) as nat) as int;
    V3 {
        x: stdiv(a.x * (SCALE as int), l),
        y: stdiv(a.y * (SCALE as int), l),
        z: stdiv(a.z * (SCALE as int), l),
    }
}

/// Fixed-point reflection of `v` about `n`.
pub open spec fn reflect_m(v: V3, n: V3) -> V3 {
    let d = stdiv(dot_m(v, n), SCALE as int);
    V3 {
        x: v.x - stdiv(2 * d * n.x, SCALE as int),
        y: v.y - stdiv(2 * d * n.y, SCALE as int),
        z: v.z - stdiv(2 * d * n.z, SCALE as int),
    }
}

/// A fixed-point vector; doubles as a point and as a color.
#[derive(Clone, Copy, PartialEq, Eq, Structural, Debug)]
pub struct Vector {
    pub x: i64,
    pub y: i64,
    pub z: i64,
}

/// A position in space.
pub type Point = Vector;

/// An RGB color; each channel nominally spans `[0, SCALE]`.
pub type Color = Vector;

impl Vector {
    /// The mathematical model: this vector's components as integers.
    pub open spec fn m(self) -> V3 {
        V3 { x: self.x as int, y: self.y as int, z: self.z as int }
    }

    pub fn new(x: i64, y: i64, z: i64) -> (r: Self)
        ensures
            r.x == x && r.y == y && r.z == z,
    {
        Vector { x, y, z }
    }

    /// A vector with each component drawn uniformly from `[min, max)`.
    pub fn random(min: i64, max: i64) -> (r: Self)
        requires
            min < max,
        ensures
            min <= r.x < max && min <= r.y < max && min <= r.z < max,
    {
        Vector { x: rand_range(min, max), y: rand_range(min, max), z: rand_range(min, max) }
    }

    /// A vector with each component drawn uniformly from `[0, 1)`.
    pub fn random_unitmax() -> (r: Self)
        ensures
            0 <= r.x < SCALE && 0 <= r.y < SCALE && 0 <= r.z < SCALE,
    {
        Self::random(0, SCALE)
    }

    pub fn neg(&self) -> (r: Self)
        requires
            bounded_m(self.m(), 0x7fff_ffff_ffff_ffff),
        ensures
            r.m() == neg_m(self.m()),
    {
        Vector { x: -self.x, y: -self.y, z: -self.z }
    }

    pub fn add(&self, rhs: &Vector) -> (r: Self)
        requires
            bounded_m(self.m(), 0x3fff_ffff_ffff_ffff),
            bounded_m(rhs.m(), 0x3fff_ffff_ffff_ffff),
        ensures
            r.m() == add_m(self.m(), rhs.m()),
    {
        Vector { x: self.x + rhs.x, y: self.y + rhs.y, z: self.z + rhs.z }
    }

    pub fn sub(&self, rhs: &Vector) -> (r: Self)
        requires
            bounded_m(self.m(), 0x3fff_ffff_ffff_ffff),
            bounded_m(rhs.m(), 0x3fff_ffff_ffff_ffff),
        ensures
            r.m() == sub_m(self.m(), rhs.m()),
    {
        Vector { x: self.x - rhs.x, y: self.y - rhs.y, z: self.z - rhs.z }
    }

    /// Scale by the fixed-point scalar `k`.
    pub fn scale(&self, k: i64) -> (r: Self)
        requires
            -1152921504606846976 <= k * self.x <= 1152921504606846976,
            -1152921504606846976 <= k * self.y <= 1152921504606846976,
            -1152921504606846976 <= k * self.z <= 1152921504606846976,
        ensures
            r.m() == scale_m(self.m(), k as int),
            bounded_m(r.m(), 17592186044416),
    {
        Vector { x: scaled_mul(k, self.x), y: scaled_mul(k, self.y), z: scaled_mul(k, self.z) }
    }

    /// Scale by a plain (unscaled) count, exactly.
    pub fn scale_n(&self, n: i64) -> (r: Self)
        requires
            -4611686018427387904 <= n * self.x <= 4611686018427387904,
            -4611686018427387904 <= n * self.y <= 4611686018427387904,
            -4611686018427387904 <= n * self.z <= 4611686018427387904,
        ensures
            r.m() == scale_n_m(self.m(), n as int),
    {
        Vector { x: n * self.x, y: n * self.y, z: n * self.z }
    }

    /// Componentwise fixed-point product (used for color attenuation).
    pub fn comp_mul(&self, rhs: &Vector) -> (r: Self)
        requires
            -1152921504606846976 <= self.x * rhs.x <= 1152921504606846976,
            -1152921504606846976 <= self.y * rhs.y <= 1152921504606846976,
            -1152921504606846976 <= self.z * rhs.z <= 1152921504606846976,
        ensures
            r.m() == comp_mul_m(self.m(), rhs.m()),
            bounded_m(r.m(), 17592186044416),
    {
        Vector {
            x: scaled_mul(self.x, rhs.x),
            y: scaled_mul(self.y, rhs.y),
            z: scaled_mul(self.z, rhs.z),
        }
    }

    /// Divide by the fixed-point scalar `k`, which must be at least one
    /// whole unit.
    pub fn div(&self, k: i64) -> (r: Self)
        requires
            k >= SCALE,
            bounded_m(self.m(), 0x3fff_ffff_ffff_ffff),
        ensures
            r.m() == div_m(self.m(), k as int),
            self.x >= 0 ==> 0 <= r.x <= self.x,
            self.x < 0 ==> self.x <= r.x <= 0,
            self.y >= 0 ==> 0 <= r.y <= self.y,
            self.y < 0 ==> self.y <= r.y <= 0,
            self.z >= 0 ==> 0 <= r.z <= self.z,
            self.z < 0 ==> self.z <= r.z <= 0,
    {
        let rx = Self::div_comp(self.x, k);
        let ry = Self::div_comp(self.y, k);
        let rz = Self::div_comp(self.z, k);
        Vector { x: rx, y: ry, z: rz }
    }

    /// One component of `div`.
    fn div_comp(c: i64, k: i64) -> (r: i64)
        requires
            k >= SCALE,
            -0x3fff_ffff_ffff_ffff <= c <= 0x3fff_ffff_ffff_ffff,
        ensures
            r == stdiv(c * (SCALE as int), k as int),
            c >= 0 ==> 0 <= r <= c,
            c < 0 ==> c <= r <= 0,
    {
        let p: i128 = mul_wide(c, SCALE);
        let q: i128 = div_t(p, k as i128);
        proof {
            let a = c as int;
            let m = if a >= 0 { a } else { -a };
            assert(-(m * (k as int)) <= a * (SCALE as int) <= m * (k as int)) by (nonlinear_arith)
                requires
                    k as int >= SCALE as int && SCALE as int > 0 && m >= 0 && (a == m || a == -m),
            ;
            crate::math::lemma_stdiv_bound(a * (SCALE as int), k as int, m);
        }
        q as i64
    }

    /// Fixed-point dot product.
    pub fn dot(&self, other: &Self) -> (r: i64)
        requires
            bounded_m(self.m(), 2 * COORD_MAX as int),
            bounded_m(other.m(), 2 * COORD_MAX as int),
        ensures
            r == stdiv(dot_m(self.m(), other.m()), SCALE as int),
            -864691128455135232 <= r <= 864691128455135232,
    {
        let p1: i128 = mul_wide(self.x, other.x);
        let p2: i128 = mul_wide(self.y, other.y);
        let p3: i128 = mul_wide(self.z, other.z);
        proof {
            assert(-(18889465931478580854784int) <= (self.x as int) * (other.x as int)
                <= 18889465931478580854784int && -(18889465931478580854784int) <= (self.y as int)
                * (other.y as int) <= 18889465931478580854784int && -(18889465931478580854784int)
                <= (self.z as int) * (other.z as int) <= 18889465931478580854784int)
                by (nonlinear_arith)
                requires
                    bounded_m(self.m(), 137438953472) && bounded_m(other.m(), 137438953472),
            ;
        }
        let s: i128 = p1 + p2 + p3;
        let q: i128 = div_t(s, SCALE as i128);
        proof {
            crate::math::lemma_stdiv_bound(s as int, SCALE as int, 864691128455135232);
        }
        q as i64
    }

    /// Fixed-point squared length.
    pub fn length_squared(&self) -> (r: i64)
        requires
            bounded_m(self.m(), 2 * COORD_MAX as int),
        ensures
            r == stdiv(len_sq_m(self.m()), SCALE as int),
            0 <= r <= 864691128455135232,
    {
        proof {
            let v = self.m();
            assert(len_sq_m(v) >= 0) by (nonlinear_arith);
            vstd::arithmetic::div_mod::lemma_div_pos_is_pos(len_sq_m(v), SCALE as int);
        }
        self.dot(self)
    }

    /// Floor square root of the raw squared length; this is the length in
    /// fixed-point scale.
    pub fn length(&self) -> (r: i64)
        requires
            bounded_m(self.m(), 0x3fff_ffff_ffff_ffff),
        ensures
            r == sqrt_floor(len_sq_m(self.m()) as nat),
            r >= 0,
    {
        let p1: i128 = mul_wide(self.x, self.x);
        let p2: i128 = mul_wide(self.y, self.y);
        let p3: i128 = mul_wide(self.z, self.z);
        proof {
            let b = 0x3fff_ffff_ffff_ffffi64 as int;
            assert(0 <= (self.x as int) * (self.x as int) <= b * b
                && 0 <= (self.y as int) * (self.y as int) <= b * b
                && 0 <= (self.z as int) * (self.z as int) <= b * b)
                by (nonlinear_arith)
                requires
                    bounded_m(self.m(), b) && b > 0,
            ;
            assert(3 * (b * b) < 85070591730234615865843651857942052864int);
        }
        let s: i128 = p1 + p2 + p3;
        let root: u64 = isqrt(s as u128);
        proof {
            let n = s as int;
            assert(root as int <= 9223372036854775807int) by (nonlinear_arith)
                requires
                    (root as int) * (root as int) <= n
                        && n < 85070591730234615865843651857942052864int
                        && root as int >= 0,
            ;
        }
        root as i64
    }

    /// Fixed-point unit vector; the input must not be the zero vector.
    pub fn unit(&self) -> (r: Vector)
        requires
            bounded_m(self.m(), 0x3fff_ffff_ffff_ffff),
            len_sq_m(self.m()) >= 1,
        ensures
            r.m() == unit_m(self.m()),
            bounded_m(r.m(), SCALE as int),
    {
        let l = self.length();
        proof {
            let n = len_sq_m(self.m()) as nat;
            crate::math::lemma_sqrt_floor(n);
            if l == 0 {
                assert((0nat + 1) * (0nat + 1) == 1) by (nonlinear_arith);
            }
            let v = self.m();
            let li = sqrt_floor(len_sq_m(v) as nat) as int;
            lemma_comp_le_root(v.x, v.y, v.z, li);
        }
        let rx = Self::unit_comp(self.x, l);
        let ry = Self::unit_comp(self.y, l);
        let rz = Self::unit_comp(self.z, l);
        Vector { x: rx, y: ry, z: rz }
    }

    /// One component of `unit`.
    fn unit_comp(c: i64, l: i64) -> (r: i64)
        requires
            l >= 1,
            -l as int <= c as int <= l as int,
        ensures
            r == stdiv(c * (SCALE as int), l as int),
            -(SCALE as int) <= r <= SCALE as int,
    {
        let p: i128 = mul_wide(c, SCALE);
        let q: i128 = div_t(p, l as i128);
        proof {
            assert(-((SCALE as int) * (l as int)) <= (c as int) * (SCALE as int) <= (SCALE as int)
                * (l as int)) by (nonlinear_arith)
                requires
                    -(l as int) <= c as int <= l as int && SCALE as int > 0,
            ;
            crate::math::lemma_stdiv_bound((c as int) * (SCALE as int), l as int, SCALE as int);
        }
        q as i64
    }

    /// Fixed-point cross product.
    pub fn cross(&self, other: &Self) -> (r: Vector)
        requires
            bounded_m(self.m(), 536870912),
            bounded_m(other.m(), 536870912),
        ensures
            r.m() == cross_m(self.m(), other.m()),
    {
        proof {
            lemma_cross_products_bounded(self.m(), other.m());
        }
        Vector {
            x: scaled_mul(self.y, other.z) - scaled_mul(self.z, other.y),
            y: scaled_mul(self.z, other.x) - scaled_mul(self.x, other.z),
            z: scaled_mul(self.x, other.y) - scaled_mul(self.y, other.x),
        }
    }

    /// Reflect about `normal`, which must be close to unit length.
    pub fn reflect(&self, normal: &Self) -> (r: Self)
        requires
            bounded_m(self.m(), COORD_MAX as int),
            bounded_m(normal.m(), 262144),
        ensures
            r.m() == reflect_m(self.m(), normal.m()),
            bounded_m(r.m(), 35184372088832),
    {
        let d = self.dot(normal);
        proof {
            let cm = COORD_MAX as int;
            assert(-(3 * cm * 262144) <= dot_m(self.m(), normal.m()) <= 3 * cm * 262144)
                by (nonlinear_arith)
                requires
                    bounded_m(self.m(), cm) && bounded_m(normal.m(), 262144) && cm > 0,
            ;
            crate::math::lemma_stdiv_bound(
                dot_m(self.m(), normal.m()),
                SCALE as int,
                3 * (COORD_MAX as int) * 4,
            );
        }
        let d2: i64 = 2 * d;
        proof {
            let dd = d2 as int;
            assert(-1152921504606846976 <= dd * (normal.x as int) <= 1152921504606846976
                && -1152921504606846976 <= dd * (normal.y as int) <= 1152921504606846976
                && -1152921504606846976 <= dd * (normal.z as int) <= 1152921504606846976)
                by (nonlinear_arith)
                requires
                    -1649267441664 <= dd <= 1649267441664 && bounded_m(normal.m(), 262144),
            ;
        }
        let sx = scaled_mul(d2, normal.x);
        let sy = scaled_mul(d2, normal.y);
        let sz = scaled_mul(d2, normal.z);
        Vector { x: self.x - sx, y: self.y - sy, z: self.z - sz }
    }

    /// Rejection-sample a vector inside the unit ball.  Draws shorter than
    /// half a unit are also rejected, so normalizing the result is never
    /// degenerate.  The retry loop is bounded; should every draw be
    /// rejected (vanishingly unlikely), a fixed half-unit vector in the
    /// same band is returned.
    pub fn random_in_unit() -> (r: Self)
        ensures
            bounded_m(r.m(), SCALE as int),
            16384 <= stdiv(len_sq_m(r.m()), SCALE as int) < SCALE as int,
            1073741824 <= len_sq_m(r.m()) < 4294967296,
    {
        let mut attempts: u32 = 0;
        while attempts < 1000
            invariant
                attempts <= 1000,
            decreases 1000 - attempts,
        {
            let p = Self::random(-SCALE, SCALE);
            let ls = p.length_squared();
            if 16384 <= ls && ls < SCALE {
                proof {
                    lemma_scaled_band(len_sq_m(p.m()));
                }
                return p;
            }
            attempts += 1;
        }
        let f = Vector { x: 0, y: 0, z: 32768 };
        proof {
            assert(0int * 0 == 0 && 32768int * 32768 == 1073741824) by (nonlinear_arith);
            assert(len_sq_m(f.m()) == 1073741824);
            assert(65536int * 16384 == 1073741824) by (nonlinear_arith);
            vstd::arithmetic::div_mod::lemma_div_multiples_vanish(16384, 65536);
            assert(stdiv(1073741824, SCALE as int) == 16384);
        }
        f
    }

    /// A vector of (very nearly) unit length, uniformly directed.
    pub fn random_unit() -> (r: Self)
        ensures
            bounded_m(r.m(), SCALE as int),
            4294574077 <= len_sq_m(r.m()) <= 4295229443,
    {
        let p = Self::random_in_unit();
        let r = p.unit();
        proof {
            lemma_unit_near(p.m());
        }
        r
    }

    /// A near-unit vector on the same side of the surface as `normal`:
    /// the draw is negated when its fixed-point dot product with `normal`
    /// is not positive.
    pub fn random_on_hemisphere(normal: &Vector) -> (r: Self)
        requires
            bounded_m(normal.m(), COORD_MAX as int),
        ensures
            bounded_m(r.m(), SCALE as int),
            4294574077 <= len_sq_m(r.m()) <= 4295229443,
            stdiv(dot_m(r.m(), normal.m()), SCALE as int) >= 0,
    {
        let runit = Self::random_unit();
        let d = runit.dot(normal);
        if d > 0 {
            runit
        } else {
            let flipped = runit.neg();
            proof {
                assert(dot_m(flipped.m(), normal.m()) == -dot_m(runit.m(), normal.m()))
                    by (nonlinear_arith)
                    requires
                        flipped.m() == neg_m(runit.m()),
                ;
                crate::math::lemma_stdiv_neg(dot_m(runit.m(), normal.m()), SCALE as int);
                assert(len_sq_m(flipped.m()) == len_sq_m(runit.m())) by (nonlinear_arith)
                    requires
                        flipped.m() == neg_m(runit.m()),
                ;
            }
            flipped
        }
    }
}

/// Each product feeding the cross product stays inside the range
/// `scaled_mul` accepts.
proof fn lemma_cross_products_bounded(a: V3, b: V3)
    requires
        bounded_m(a, 536870912),
        bounded_m(b, 536870912),
    ensures
        -1152921504606846976 <= a.y * b.z <= 1152921504606846976,
        -1152921504606846976 <= a.z * b.y <= 1152921504606846976,
        -1152921504606846976 <= a.z * b.x <= 1152921504606846976,
        -1152921504606846976 <= a.x * b.z <= 1152921504606846976,
        -1152921504606846976 <= a.x * b.y <= 1152921504606846976,
        -1152921504606846976 <= a.y * b.x <= 1152921504606846976,
{
    assert forall|p: int, q: int|
        -536870912 <= p <= 536870912 && -536870912 <= q <= 536870912
            implies -1152921504606846976 <= #[trigger] (p * q) <= 1152921504606846976 by {
        assert(-1152921504606846976 <= p * q <= 1152921504606846976) by (nonlinear_arith)
            requires
                -536870912 <= p <= 536870912 && -536870912 <= q <= 536870912,
        ;
    }
}

/// The exact (untruncated) reflection of `v` about `n`, with denominators
/// cleared by `SCALE * SCALE`: where the executable `reflect` truncates
/// twice, this keeps every term as a whole integer.
pub open spec fn reflect_exact(v: V3, n: V3) -> V3 {
    V3 {
        x: (SCALE as int) * (SCALE as int) * v.x - 2 * dot_m(v, n) * n.x,
        y: (SCALE as int) * (SCALE as int) * v.y - 2 * dot_m(v, n) * n.y,
        z: (SCALE as int) * (SCALE as int) * v.z - 2 * dot_m(v, n) * n.z,
    }
}

/// Reflection about an exactly unit-length normal negates the inner
/// product with the normal and preserves squared length, each up to the
/// clearing factor `SCALE * SCALE`.
pub proof fn lemma_reflect_law(v: V3, n: V3)
    requires
        dot_m(n, n) == (SCALE as int) * (SCALE as int),
    ensures
        dot_m(reflect_exact(v, n), n) == -((SCALE as int) * (SCALE as int) * dot_m(v, n)),
        len_sq_m(reflect_exact(v, n)) == ((SCALE as int) * (SCALE as int)) * ((SCALE as int) * (
        SCALE as int)) * len_sq_m(v),
{
    let s2 = (SCALE as int) * (SCALE as int);
    let d = dot_m(v, n);
    let r = reflect_exact(v, n);
    assert(r.x * n.x == s2 * (v.x * n.x) - (2 * d) * (n.x * n.x)) by (nonlinear_arith)
        requires
            r.x == s2 * v.x - 2 * d * n.x,
    ;
    assert(r.y * n.y == s2 * (v.y * n.y) - (2 * d) * (n.y * n.y)) by (nonlinear_arith)
        requires
            r.y == s2 * v.y - 2 * d * n.y,
    ;
    assert(r.z * n.z == s2 * (v.z * n.z) - (2 * d) * (n.z * n.z)) by (nonlinear_arith)
        requires
            r.z == s2 * v.z - 2 * d * n.z,
    ;
    assert(s2 * (v.x * n.x) + s2 * (v.y * n.y) + s2 * (v.z * n.z) == s2 * d) by (nonlinear_arith)
        requires
            d == v.x * n.x + v.y * n.y + v.z * n.z,
    ;
    assert((2 * d) * (n.x * n.x) + (2 * d) * (n.y * n.y) + (2 * d) * (n.z * n.z) == (2 * d) * s2)
        by (nonlinear_arith)
        requires
            s2 == n.x * n.x + n.y * n.y + n.z * n.z,
    ;
    assert(s2 * d - (2 * d) * s2 == -(s2 * d)) by (nonlinear_arith);
    lemma_reflect_sq_expand(r.x, s2, d, v.x, n.x);
    lemma_reflect_sq_expand(r.y, s2, d, v.y, n.y);
    lemma_reflect_sq_expand(r.z, s2, d, v.z, n.z);
    assert((s2 * s2) * (v.x * v.x) + (s2 * s2) * (v.y * v.y) + (s2 * s2) * (v.z * v.z) == (s2 * s2)
        * len_sq_m(v)) by (nonlinear_arith)
        requires
            len_sq_m(v) == v.x * v.x + v.y * v.y + v.z * v.z,
    ;
    assert((4 * s2 * d) * (v.x * n.x) + (4 * s2 * d) * (v.y * n.y) + (4 * s2 * d) * (v.z * n.z) == (
    4 * s2 * d) * d) by (nonlinear_arith)
        requires
            d == v.x * n.x + v.y * n.y + v.z * n.z,
    ;
    assert((4 * d * d) * (n.x * n.x) + (4 * d * d) * (n.y * n.y) + (4 * d * d) * (n.z * n.z) == (4
        * d * d) * s2) by (nonlinear_arith)
        requires
            s2 == n.x * n.x + n.y * n.y + n.z * n.z,
    ;
    assert((s2 * s2) * len_sq_m(v) - (4 * s2 * d) * d + (4 * d * d) * s2 == (s2 * s2) * len_sq_m(v))
        by (nonlinear_arith);
}

impl Default for Vector {
    /// The zero vector, also black as a color.
    fn default() -> (r: Self)
        ensures
            r.x == 0 && r.y == 0 && r.z == 0,
    {
        Vector { x: 0, y: 0, z: 0 }
    }
}

/// Squaring one component of the exact reflection, term by term.
proof fn lemma_reflect_sq_expand(rr: int, s2: int, d: int, vv: int, nn: int)
    requires
        rr == s2 * vv - 2 * d * nn,
    ensures
        rr * rr == (s2 * s2) * (vv * vv) - (4 * s2 * d) * (vv * nn) + (4 * d * d) * (nn * nn),
{
    let aa = s2 * vv;
    let bb = 2 * d * nn;
    assert(rr * rr == aa * aa - 2 * (aa * bb) + bb * bb) by (nonlinear_arith)
        requires
            rr == aa - bb,
    ;
    assert(aa * aa == (s2 * s2) * (vv * vv)) by (nonlinear_arith)
        requires
            aa == s2 * vv,
    ;
    assert(aa * bb == (2 * s2 * d) * (vv * nn)) by (nonlinear_arith)
        requires
            aa == s2 * vv && bb == 2 * d * nn,
    ;
    assert(bb * bb == (4 * d * d) * (nn * nn)) by (nonlinear_arith)
        requires
            bb == 2 * d * nn,
    ;
    assert(2 * ((2 * s2 * d) * (vv * nn)) == (4 * s2 * d) * (vv * nn)) by (nonlinear_arith);
}

/// Lagrange's identity in three dimensions: the product of the squared
/// lengths exceeds the squared inner product by a sum of squares, so the
/// inner product obeys the Cauchy-Schwarz bound.
pub proof fn lemma_cauchy_schwarz(u: V3, n: V3)
    ensures
        dot_m(u, n) * dot_m(u, n) <= len_sq_m(u) * len_sq_m(n),
{
    let cxy = u.x * n.y - u.y * n.x;
    let cxz = u.x * n.z - u.z * n.x;
    let cyz = u.y * n.z - u.z * n.y;
    let a1 = u.x * u.x;
    let a2 = u.y * u.y;
    let a3 = u.z * u.z;
    let b1 = n.x * n.x;
    let b2 = n.y * n.y;
    let b3 = n.z * n.z;
    let d1 = u.x * n.x;
    let d2 = u.y * n.y;
    let d3 = u.z * n.z;
    let p12 = u.x * n.y;
    let p21 = u.y * n.x;
    let p13 = u.x * n.z;
    let p31 = u.z * n.x;
    let p23 = u.y * n.z;
    let p32 = u.z * n.y;
    assert(len_sq_m(u) * len_sq_m(n) == a1 * b1 + a1 * b2 + a1 * b3 + a2 * b1 + a2 * b2 + a2 * b3
        + a3 * b1 + a3 * b2 + a3 * b3) by (nonlinear_arith)
        requires
            len_sq_m(u) == a1 + a2 + a3 && len_sq_m(n) == b1 + b2 + b3,
    ;
    assert(dot_m(u, n) * dot_m(u, n) == d1 * d1 + d2 * d2 + d3 * d3 + 2 * (d1 * d2) + 2 * (d1 * d3)
        + 2 * (d2 * d3)) by (nonlinear_arith)
        requires
            dot_m(u, n) == d1 + d2 + d3,
    ;
    assert(cxy * cxy == p12 * p12 - 2 * (p12 * p21) + p21 * p21) by (nonlinear_arith)
        requires
            cxy == p12 - p21,
    ;
    assert(cxz * cxz == p13 * p13 - 2 * (p13 * p31) + p31 * p31) by (nonlinear_arith)
        requires
            cxz == p13 - p31,
    ;
    assert(cyz * cyz == p23 * p23 - 2 * (p23 * p32) + p32 * p32) by (nonlinear_arith)
        requires
            cyz == p23 - p32,
    ;
    assert(a1 * b1 == d1 * d1 && a2 * b2 == d2 * d2 && a3 * b3 == d3 * d3) by (nonlinear_arith)
        requires
            a1 == u.x * u.x && b1 == n.x * n.x && d1 == u.x * n.x && a2 == u.y * u.y && b2 == n.y
                * n.y && d2 == u.y * n.y && a3 == u.z * u.z && b3 == n.z * n.z && d3 == u.z * n.z,
    ;
    assert(a1 * b2 == p12 * p12 && a2 * b1 == p21 * p21 && a1 * b3 == p13 * p13 && a3 * b1 == p31
        * p31 && a2 * b3 == p23 * p23 && a3 * b2 == p32 * p32) by (nonlinear_arith)
        requires
            a1 == u.x * u.x && a2 == u.y * u.y && a3 == u.z * u.z && b1 == n.x * n.x && b2 == n.y
                * n.y && b3 == n.z * n.z && p12 == u.x * n.y && p21 == u.y * n.x && p13 == u.x * n.z
                && p31 == u.z * n.x && p23 == u.y * n.z && p32 == u.z * n.y,
    ;
    assert(p12 * p21 == d1 * d2 && p13 * p31 == d1 * d3 && p23 * p32 == d2 * d3)
        by (nonlinear_arith)
        requires
            p12 == u.x * n.y && p21 == u.y * n.x && p13 == u.x * n.z && p31 == u.z * n.x && p23
                == u.y * n.z && p32 == u.z * n.y && d1 == u.x * n.x && d2 == u.y * n.y && d3 == u.z
                * n.z,
    ;
    assert(len_sq_m(u) * len_sq_m(n) - dot_m(u, n) * dot_m(u, n) == cxy * cxy + cxz * cxz + cyz
        * cyz);
    assert(cxy * cxy >= 0 && cxz * cxz >= 0 && cyz * cyz >= 0) by (nonlinear_arith);
}

/// Two vectors whose raw squared lengths stay within the near-unit cap
/// have an inner product no more negative than that cap.
pub proof fn lemma_dot_lower_bound(u: V3, n: V3)
    requires
        len_sq_m(u) <= 4295229443,
        len_sq_m(n) <= 4295229443,
    ensures
        -4295229443 <= dot_m(u, n) <= 4295229443,
{
    lemma_cauchy_schwarz(u, n);
    assert(len_sq_m(u) >= 0 && len_sq_m(n) >= 0) by (nonlinear_arith);
    assert(len_sq_m(u) * len_sq_m(n) <= 4295229443 * 4295229443) by (nonlinear_arith)
        requires
            0 <= len_sq_m(u) <= 4295229443 && 0 <= len_sq_m(n) <= 4295229443,
    ;
    let d = dot_m(u, n);
    if d < -4295229443 || d > 4295229443 {
        assert(d * d > 4295229443 * 4295229443) by (nonlinear_arith)
            requires
                d <= -4295229444 || d >= 4295229444,
        ;
    }
}

/// A raw squared length sits in the band its fixed-point image names.
proof fn lemma_scaled_band(n: int)
    requires
        n >= 0,
        16384 <= stdiv(n, SCALE as int) < SCALE as int,
    ensures
        1073741824 <= n < 4294967296,
{
    let s = SCALE as int;
    let q = n / s;
    vstd::arithmetic::div_mod::lemma_fundamental_div_mod(n, s);
    vstd::arithmetic::div_mod::lemma_mod_bound(n, s);
    assert(s * q >= s * 16384 && s * (q + 1) <= s * 65536) by (nonlinear_arith)
        requires
            16384 <= q < 65536 && s == 65536,
    ;
}

/// One component's worth of normalization error: the scaled-and-divided
/// component, multiplied back by the divisor, squares to within
/// `2*l*|a| + l*l` below the exact product's square.
proof fn lemma_unit_comp_err(a: int, l: int)
    requires
        l >= 1,
    ensures
        stdiv(a, l) * l * (stdiv(a, l) * l) <= a * a,
        a * a <= stdiv(a, l) * l * (stdiv(a, l) * l) + 2 * l * (if a >= 0 {
            a
        } else {
            -a
        }) + l * l,
{
    let q = stdiv(a, l) * l;
    let m = if a >= 0 { a } else { -a };
    crate::math::lemma_stdiv_shrink(a, l);
    if a >= 0 {
        assert(q * q <= a * a && a * a <= q * q + 2 * l * m + l * l) by (nonlinear_arith)
            requires
                0 <= q <= a && a - l < q && m == a && l >= 1,
        ;
    } else {
        assert(q * q <= a * a && a * a <= q * q + 2 * l * m + l * l) by (nonlinear_arith)
            requires
                a <= q <= 0 && q < a + l && m == -a && l >= 1,
        ;
    }
}

/// Normalizing a vector whose raw squared length is at least a half
/// unit squared yields a vector whose raw squared length is within a few
/// parts in `SCALE` of exactly `SCALE * SCALE`.
pub proof fn lemma_unit_near(v: V3)
    requires
        1073741824 <= len_sq_m(v),
    ensures
        4294574077 <= len_sq_m(unit_m(v)) <= 4295229443,
{
    let s = SCALE as int;
    let n = len_sq_m(v);
    let l = sqrt_floor(n as nat) as int;
    crate::math::lemma_sqrt_floor(n as nat);
    assert(l * l <= n < (l + 1) * (l + 1));
    if l < 32768 {
        assert((l + 1) * (l + 1) <= 32768 * 32768) by (nonlinear_arith)
            requires
                0 <= l + 1 <= 32768,
        ;
        assert(false);
    }
    lemma_comp_le_root(v.x, v.y, v.z, l);
    let u = unit_m(v);
    let qx = stdiv(v.x * s, l) * l;
    let qy = stdiv(v.y * s, l) * l;
    let qz = stdiv(v.z * s, l) * l;
    lemma_unit_comp_err(v.x * s, l);
    lemma_unit_comp_err(v.y * s, l);
    lemma_unit_comp_err(v.z * s, l);
    let mx = if v.x * s >= 0 { v.x * s } else { -(v.x * s) };
    let my = if v.y * s >= 0 { v.y * s } else { -(v.y * s) };
    let mz = if v.z * s >= 0 { v.z * s } else { -(v.z * s) };
    assert(mx <= l * s && my <= l * s && mz <= l * s) by (nonlinear_arith)
        requires
            -l <= v.x <= l && -l <= v.y <= l && -l <= v.z <= l && s > 0 && (mx == v.x * s || mx
                == -(v.x * s)) && (my == v.y * s || my == -(v.y * s)) && (mz == v.z * s || mz == -(
            v.z * s)) && mx >= 0 && my >= 0 && mz >= 0,
    ;
    let uu = len_sq_m(u);
    assert(qx * qx == (u.x * u.x) * (l * l)) by (nonlinear_arith)
        requires
            qx == u.x * l,
    ;
    assert(qy * qy == (u.y * u.y) * (l * l)) by (nonlinear_arith)
        requires
            qy == u.y * l,
    ;
    assert(qz * qz == (u.z * u.z) * (l * l)) by (nonlinear_arith)
        requires
            qz == u.z * l,
    ;
    assert((u.x * u.x) * (l * l) + (u.y * u.y) * (l * l) + (u.z * u.z) * (l * l) == (u.x * u.x
        + u.y * u.y + u.z * u.z) * (l * l)) by (nonlinear_arith);
    assert(qx * qx + qy * qy + qz * qz == l * l * uu) by (nonlinear_arith)
        requires
            qx * qx + qy * qy + qz * qz == uu * (l * l),
    ;
    assert((v.x * s) * (v.x * s) == (v.x * v.x) * (s * s)) by (nonlinear_arith);
    assert((v.y * s) * (v.y * s) == (v.y * v.y) * (s * s)) by (nonlinear_arith);
    assert((v.z * s) * (v.z * s) == (v.z * v.z) * (s * s)) by (nonlinear_arith);
    assert((v.x * v.x) * (s * s) + (v.y * v.y) * (s * s) + (v.z * v.z) * (s * s) == (v.x * v.x
        + v.y * v.y + v.z * v.z) * (s * s)) by (nonlinear_arith);
    assert((v.x * s) * (v.x * s) + (v.y * s) * (v.y * s) + (v.z * s) * (v.z * s) == s * s * n)
        by (nonlinear_arith)
        requires
            (v.x * s) * (v.x * s) + (v.y * s) * (v.y * s) + (v.z * s) * (v.z * s) == n * (s * s),
    ;
    // Upper bound: l*l*uu <= s*s*n and n <= (l+1)*(l+1) - 1.
    assert(l * l * uu <= s * s * ((l + 1) * (l + 1) - 1)) by (nonlinear_arith)
        requires
            l * l * uu <= s * s * n && n <= (l + 1) * (l + 1) - 1 && s > 0,
    ;
    if uu > 4295229443 {
        assert(262148 * (l * l) <= 8589934592 * l) by (nonlinear_arith)
            requires
                l * l * uu <= s * s * ((l + 1) * (l + 1) - 1) && uu >= 4295229444 && s == 65536
                    && l >= 1,
        ;
        assert(262148 * l <= 8589934592) by (nonlinear_arith)
            requires
                262148 * (l * l) <= 8589934592 * l && l >= 1,
        ;
        assert(false);
    }
    // Lower bound: s*s*n <= l*l*uu + 6*s*l*l + 3*l*l and n >= l*l.
    assert(2 * l * (mx + my + mz) == 2 * l * mx + 2 * l * my + 2 * l * mz) by (nonlinear_arith);
    assert(s * s * n <= l * l * uu + 2 * l * (mx + my + mz) + 3 * (l * l));
    assert(2 * l * (mx + my + mz) <= 6 * s * (l * l)) by (nonlinear_arith)
        requires
            mx <= l * s && my <= l * s && mz <= l * s && l >= 1 && s > 0 && mx >= 0 && my >= 0
                && mz >= 0,
    ;
    assert(s * s * (l * l) <= s * s * n) by (nonlinear_arith)
        requires
            l * l <= n && s > 0,
    ;
    assert(uu >= s * s - 6 * s - 3) by (nonlinear_arith)
        requires
            s * s * (l * l) <= l * l * uu + 6 * s * (l * l) + 3 * (l * l) && l >= 1,
    ;
}

/// No component of a vector exceeds the floor square root of its raw
/// squared length.
proof fn lemma_comp_le_root(x: int, y: int, z: int, l: int)
    requires
        l == sqrt_floor((x * x + y * y + z * z) as nat) as int,
    ensures
        -l <= x <= l,
        -l <= y <= l,
        -l <= z <= l,
        l >= 0,
{
    let n = (x * x + y * y + z * z) as nat;
    crate::math::lemma_sqrt_floor(n);
    assert(x * x >= 0 && y * y >= 0 && z * z >= 0) by (nonlinear_arith);
    assert(x * x <= n && y * y <= n && z * z <= n);
    assert forall|c: int| #[trigger] (c * c) <= n implies -l <= c <= l by {
        if c > l {
            assert(c * c >= (l + 1) * (l + 1)) by (nonlinear_arith)
                requires
                    c >= l + 1 && l >= 0,
            ;
        }
        if c < -l {
            assert(c * c >= (l + 1) * (l + 1)) by (nonlinear_arith)
                requires
                    c <= -(l + 1) && l >= 0,
            ;
        }
    }
}

} // verus!
