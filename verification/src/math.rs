//! Fixed-point scalar arithmetic.
//!
//! A scalar is an `i64` holding its real value times `SCALE`.  Products and
//! quotients are computed in `i128` and divided back down with truncating
//! (round-toward-zero) division, the same rounding hardware floating point
//! uses for conversions to integers.

use vstd::prelude::*;

verus! {

/// One unit of real value, as a fixed-point scalar.
pub const SCALE: i64 = 65536;

/// Largest magnitude a well-formed coordinate may have.
pub const COORD_MAX: i64 = 68719476736;

/// Stand-in for an unbounded parametric distance along a ray.
pub const T_FAR: i64 = 1099511627776;

/// Truncating (round-toward-zero) division, the semantics of `/` on the
/// machine's signed integers.
pub open spec fn stdiv(a: int, b: int) -> int
    recommends
        b > 0,
{
    if a >= 0 {
        a / b
    } else {
        -((-a) / b)
    }
}

/// Floor of the square root of a natural number.
pub open spec fn sqrt_floor(n: nat) -> nat
    decreases n,
{
    if n == 0 {
        0
    } else {
        let s = sqrt_floor((n - 1) as nat);
        if (s + 1) * (s + 1) <= n {
            (s + 1) as nat
        } else {
            s
        }
    }
}

/// `sqrt_floor(n)` really is the floor of the square root.
pub proof fn lemma_sqrt_floor(n: nat)
    ensures
        sqrt_floor(n) * sqrt_floor(n) <= n,
        n < (sqrt_floor(n) + 1) * (sqrt_floor(n) + 1),
    decreases n,
{
    if n == 0 {
        assert(sqrt_floor(0) == 0);
        assert(0nat * 0nat == 0 && (0nat + 1) * (0nat + 1) == 1) by (nonlinear_arith);
    } else {
        lemma_sqrt_floor((n - 1) as nat);
        let s = sqrt_floor((n - 1) as nat);
        assert(s * s <= n - 1 && n - 1 < (s + 1) * (s + 1));
        if (s + 1) * (s + 1) <= n {
            assert(sqrt_floor(n) == s + 1);
            assert(n == (s + 1) * (s + 1));
            assert((s + 2) * (s + 2) > (s + 1) * (s + 1)) by (nonlinear_arith);
            assert(n < (sqrt_floor(n) + 1) * (sqrt_floor(n) + 1));
        } else {
            assert(sqrt_floor(n) == s);
            assert(sqrt_floor(n) * sqrt_floor(n) <= n);
            assert(n < (sqrt_floor(n) + 1) * (sqrt_floor(n) + 1));
        }
    }
}

/// Any integer square-root candidate is the unique floor square root.
pub proof fn lemma_sqrt_unique(n: nat, r: nat)
    requires
        r * r <= n,
        n < (r + 1) * (r + 1),
    ensures
        r == sqrt_floor(n),
{
    let s = sqrt_floor(n);
    lemma_sqrt_floor(n);
    if r < s {
        assert((r + 1) * (r + 1) <= s * s) by (nonlinear_arith)
            requires
                r + 1 <= s,
        ;
    }
    if s < r {
        assert((s + 1) * (s + 1) <= r * r) by (nonlinear_arith)
            requires
                s + 1 <= r,
        ;
    }
}

/// A quotient is no larger in magnitude than a bound on the dividend
/// divided by the divisor.
pub proof fn lemma_stdiv_bound(a: int, b: int, m: int)
    requires
        b > 0,
        m >= 0,
        -(m * b) <= a <= m * b,
    ensures
        -m <= stdiv(a, b) <= m,
{
    vstd::arithmetic::div_mod::lemma_div_basics(b);
    if a >= 0 {
        vstd::arithmetic::div_mod::lemma_div_is_ordered(0, a, b);
        vstd::arithmetic::div_mod::lemma_div_is_ordered(a, m * b, b);
        vstd::arithmetic::div_mod::lemma_div_multiples_vanish(m, b);
        assert(m * b == b * m) by (nonlinear_arith);
    } else {
        vstd::arithmetic::div_mod::lemma_div_is_ordered(0, -a, b);
        vstd::arithmetic::div_mod::lemma_div_is_ordered(-a, m * b, b);
        vstd::arithmetic::div_mod::lemma_div_multiples_vanish(m, b);
        assert(m * b == b * m) by (nonlinear_arith);
    }
}

/// Multiplying a truncated quotient back by the divisor comes back
/// toward zero, never past the dividend.
pub proof fn lemma_stdiv_shrink(a: int, b: int)
    requires
        b > 0,
    ensures
        a >= 0 ==> 0 <= stdiv(a, b) * b <= a,
        a < 0 ==> a <= stdiv(a, b) * b <= 0,
        a >= 0 ==> a - b < stdiv(a, b) * b,
        a < 0 ==> stdiv(a, b) * b < a + b,
{
    if a >= 0 {
        vstd::arithmetic::div_mod::lemma_fundamental_div_mod(a, b);
        vstd::arithmetic::div_mod::lemma_mod_bound(a, b);
        vstd::arithmetic::div_mod::lemma_div_pos_is_pos(a, b);
        assert(b * (a / b) == (a / b) * b) by (nonlinear_arith);
        assert((a / b) * b >= 0) by (nonlinear_arith)
            requires
                a / b >= 0 && b > 0,
        ;
    } else {
        vstd::arithmetic::div_mod::lemma_fundamental_div_mod(-a, b);
        vstd::arithmetic::div_mod::lemma_mod_bound(-a, b);
        vstd::arithmetic::div_mod::lemma_div_pos_is_pos(-a, b);
        assert(b * ((-a) / b) == ((-a) / b) * b) by (nonlinear_arith);
        assert(((-a) / b) * b >= 0) by (nonlinear_arith)
            requires
                (-a) / b >= 0 && b > 0,
        ;
        assert(stdiv(a, b) * b == -(((-a) / b) * b)) by (nonlinear_arith)
            requires
                stdiv(a, b) == -((-a) / b),
        ;
    }
}

/// Dividing a scaled value by a scaled count, then multiplying back by
/// the count, never overshoots the undivided value.
pub proof fn lemma_stdiv_scaled_prod(a: int, n: int)
    requires
        n >= 1,
    ensures
        a >= 0 ==> 0 <= stdiv(a * (SCALE as int), n * (SCALE as int)) * n <= a,
        a < 0 ==> a <= stdiv(a * (SCALE as int), n * (SCALE as int)) * n <= 0,
{
    let s = SCALE as int;
    let q = stdiv(a * s, n * s);
    assert(n * s >= s) by (nonlinear_arith)
        requires
            n >= 1 && s > 0,
    ;
    lemma_stdiv_shrink(a * s, n * s);
    assert(q * (n * s) == (q * n) * s) by (nonlinear_arith);
    if a >= 0 {
        assert(a * s >= 0) by (nonlinear_arith)
            requires
                a >= 0 && s > 0,
        ;
        assert(0 <= q * n && q * n <= a) by (nonlinear_arith)
            requires
                0 <= (q * n) * s <= a * s && s > 0,
        ;
    } else {
        assert(a * s < 0) by (nonlinear_arith)
            requires
                a < 0 && s > 0,
        ;
        assert(a <= q * n && q * n <= 0) by (nonlinear_arith)
            requires
                a * s <= (q * n) * s <= 0 && s > 0,
        ;
    }
}

/// Truncating division is an odd function of the dividend.
pub proof fn lemma_stdiv_neg(a: int, b: int)
    requires
        b > 0,
    ensures
        stdiv(-a, b) == -stdiv(a, b),
{
    vstd::arithmetic::div_mod::lemma_div_basics(b);
    if a == 0 {
        assert(stdiv(0, b) == 0);
    }
}

/// Truncating division of wide intermediates, exactly `stdiv`.
pub fn div_t(a: i128, b: i128) -> (q: i128)
    requires
        b > 0,
        a > i128::MIN,
    ensures
        q == stdiv(a as int, b as int),
{
    if a >= 0 {
        let au: u128 = a as u128;
        let bu: u128 = b as u128;
        let qu: u128 = au / bu;
        proof {
            vstd::arithmetic::div_mod::lemma_div_nonincreasing(au as int, bu as int);
        }
        qu as i128
    } else {
        let au: u128 = (-a) as u128;
        let bu: u128 = b as u128;
        let qu: u128 = au / bu;
        proof {
            vstd::arithmetic::div_mod::lemma_div_nonincreasing(au as int, bu as int);
        }
        -(qu as i128)
    }
}

/// Floor square root of a wide unsigned intermediate, by bisection.
pub fn isqrt(n: u128) -> (r: u64)
    requires
        n < 85070591730234615865843651857942052864u128,
    ensures
        r == sqrt_floor(n as nat),
        (r as int) * (r as int) <= n as int,
        n < (r as int + 1) * (r as int + 1),
{
    if n == 0 {
        proof {
            assert(0nat * 0nat == 0 && (0nat + 1) * (0nat + 1) == 1) by (nonlinear_arith);
            lemma_sqrt_unique(n as nat, 0);
        }
        return 0;
    }
    let mut lo: u64 = 0;
    let mut hi: u64 = 9223372036854775808u64;
    assert((hi as int) * (hi as int) == 85070591730234615865843651857942052864int);
    while hi - lo > 1
        invariant
            lo < hi,
            hi <= 9223372036854775808u64,
            (lo as int) * (lo as int) <= n as int,
            (n as int) < (hi as int) * (hi as int),
        decreases hi - lo,
    {
        let mid: u64 = lo + (hi - lo) / 2;
        assert((mid as int) * (mid as int) <= 85070591730234615865843651857942052864int)
            by (nonlinear_arith)
            requires
                0 <= mid as int <= 9223372036854775808int,
        ;
        let sq: u128 = (mid as u128) * (mid as u128);
        if sq <= n {
            lo = mid;
        } else {
            hi = mid;
        }
    }
    proof {
        lemma_sqrt_unique(n as nat, lo as nat);
    }
    lo
}

/// Division of a nonnegative scalar by a positive count.
pub fn div_count(a: i64, n: i64) -> (q: i64)
    requires
        a >= 0,
        n >= 1,
    ensures
        q == a as int / n as int,
        0 <= q <= a,
{
    proof {
        vstd::arithmetic::div_mod::lemma_div_nonincreasing(a as int, n as int);
        vstd::arithmetic::div_mod::lemma_div_pos_is_pos(a as int, n as int);
    }
    ((a as u64) / (n as u64)) as i64
}

/// Full-width product of two machine scalars.
pub fn mul_wide(a: i64, b: i64) -> (p: i128)
    ensures
        p == a * b,
{
    proof {
        assert((a as int) * (b as int) <= i128::MAX && (a as int) * (b as int) >= i128::MIN)
            by (nonlinear_arith)
            requires
                i64::MIN <= a <= i64::MAX && i64::MIN <= b <= i64::MAX,
        ;
    }
    (a as i128) * (b as i128)
}

/// Fixed-point product: multiply and truncate back down by `SCALE`.
pub fn scaled_mul(a: i64, b: i64) -> (r: i64)
    requires
        -1152921504606846976 <= a * b <= 1152921504606846976,
    ensures
        r == stdiv(a * b, SCALE as int),
        -17592186044416 <= r <= 17592186044416,
{
    let p: i128 = mul_wide(a, b);
    let q: i128 = div_t(p, SCALE as i128);
    proof {
        lemma_stdiv_bound(p as int, SCALE as int, 17592186044416);
    }
    q as i64
}

} // verus!
