use ray_tracer::math::SCALE;
use ray_tracer::vector::Vector;

const S: i64 = SCALE;

#[test]
fn new_and_fields() {
    let v = Vector::new(1, -2, 3);
    assert_eq!(v.x, 1);
    assert_eq!(v.y, -2);
    assert_eq!(v.z, 3);
}

#[test]
fn default_is_the_zero_vector() {
    let v = Vector::default();
    assert_eq!((v.x, v.y, v.z), (0, 0, 0));
}

#[test]
fn add_sub_neg_are_componentwise() {
    let a = Vector::new(S, 2 * S, -S);
    let b = Vector::new(3, -3, 3);
    let sum = a.add(&b);
    assert_eq!((sum.x, sum.y, sum.z), (S + 3, 2 * S - 3, -S + 3));
    let diff = a.sub(&b);
    assert_eq!((diff.x, diff.y, diff.z), (S - 3, 2 * S + 3, -S - 3));
    let n = a.neg();
    assert_eq!((n.x, n.y, n.z), (-S, -2 * S, S));
}

#[test]
fn dot_and_length_squared_fixed_point() {
    // (1, 0, 0) . (1, 0, 0) = 1.0 in fixed point.
    let e = Vector::new(S, 0, 0);
    assert_eq!(e.dot(&e), S);
    assert_eq!(e.length_squared(), S);
    // (1, 2, 3) . (4, 5, 6) = 32.0
    let a = Vector::new(S, 2 * S, 3 * S);
    let b = Vector::new(4 * S, 5 * S, 6 * S);
    assert_eq!(a.dot(&b), 32 * S);
}

#[test]
fn length_of_pythagorean_triple() {
    // |(3, 4, 0)| = 5 exactly.
    let v = Vector::new(3 * S, 4 * S, 0);
    assert_eq!(v.length(), 5 * S);
}

#[test]
fn unit_of_axis_and_triple() {
    let v = Vector::new(0, 0, 7 * S);
    let u = v.unit();
    assert_eq!((u.x, u.y, u.z), (0, 0, S));
    let w = Vector::new(3 * S, 4 * S, 0);
    let uw = w.unit();
    // 3/5 and 4/5 in fixed point, exactly.
    assert_eq!((uw.x, uw.y, uw.z), (3 * S / 5, 4 * S / 5, 0));
}

#[test]
fn cross_of_axes() {
    let x = Vector::new(S, 0, 0);
    let y = Vector::new(0, S, 0);
    let z = x.cross(&y);
    assert_eq!((z.x, z.y, z.z), (0, 0, S));
    let zz = y.cross(&x);
    assert_eq!((zz.x, zz.y, zz.z), (0, 0, -S));
}

#[test]
fn comp_mul_scales_channels() {
    let a = Vector::new(S, S / 2, 0);
    let b = Vector::new(S / 2, S / 2, S);
    let p = a.comp_mul(&b);
    assert_eq!((p.x, p.y, p.z), (S / 2, S / 4, 0));
}

#[test]
fn scale_and_div() {
    let v = Vector::new(2 * S, -4 * S, 6 * S);
    let h = v.scale(S / 2);
    assert_eq!((h.x, h.y, h.z), (S, -2 * S, 3 * S));
    let d = v.div(2 * S);
    assert_eq!((d.x, d.y, d.z), (S, -2 * S, 3 * S));
}

#[test]
fn reflect_preserves_length_at_normal_incidence() {
    // Incoming along -z against the unit +z normal reflects to +z.
    let v = Vector::new(0, 0, -3 * S);
    let n = Vector::new(0, 0, S);
    let r = v.reflect(&n);
    assert_eq!((r.x, r.y, r.z), (0, 0, 3 * S));
    // dot(reflect(v, n), n) == -dot(v, n)
    assert_eq!(r.dot(&n), -v.dot(&n));
}

#[test]
fn reflect_oblique_negates_normal_component() {
    let v = Vector::new(2 * S, -5 * S, 0);
    let n = Vector::new(0, S, 0);
    let r = v.reflect(&n);
    assert_eq!((r.x, r.y, r.z), (2 * S, 5 * S, 0));
    assert_eq!(r.dot(&n), -v.dot(&n));
    assert_eq!(r.length_squared(), v.length_squared());
}

#[test]
fn random_draws_stay_in_range() {
    let mut varied = false;
    let first = Vector::random(-S, S);
    for _ in 0..200 {
        let v = Vector::random(-S, S);
        assert!(v.x >= -S && v.x < S);
        assert!(v.y >= -S && v.y < S);
        assert!(v.z >= -S && v.z < S);
        if (v.x, v.y, v.z) != (first.x, first.y, first.z) {
            varied = true;
        }
    }
    assert!(varied, "two hundred uniform draws never changed");
    for _ in 0..50 {
        let v = Vector::random_unitmax();
        assert!(v.x >= 0 && v.x < S);
        assert!(v.y >= 0 && v.y < S);
        assert!(v.z >= 0 && v.z < S);
    }
}

#[test]
fn random_in_unit_never_reaches_the_sphere() {
    for _ in 0..200 {
        let v = Vector::random_in_unit();
        let ls = v.length_squared();
        assert!(ls < S, "squared length {ls} reached 1.0");
        assert!(ls >= S / 4, "squared length {ls} under the degeneracy guard");
    }
}

#[test]
fn random_unit_length_is_one_within_tolerance() {
    for _ in 0..200 {
        let v = Vector::random_unit();
        let raw = v.x * v.x + v.y * v.y + v.z * v.z;
        assert!(raw >= S * S - 6 * S - 3, "squared length {raw} too short");
        assert!(raw <= (S + 2) * (S + 2) - 1, "squared length {raw} too long");
    }
}

#[test]
fn random_on_hemisphere_points_outward() {
    let n = Vector::new(0, 0, S);
    for _ in 0..100 {
        let v = Vector::random_on_hemisphere(&n);
        assert!(v.dot(&n) >= 0);
    }
    let down = Vector::new(0, -S, 0);
    for _ in 0..100 {
        let v = Vector::random_on_hemisphere(&down);
        assert!(v.dot(&down) >= 0);
    }
}
