use ray_tracer::camera::{pixel_from_sum, Camera, CameraError, MAX_DEPTH};
use ray_tracer::interval::Interval;
use ray_tracer::material::{Diffuse, Material, Mirror};
use ray_tracer::math::{SCALE, T_FAR};
use ray_tracer::ray::Ray;
use ray_tracer::sphere::Sphere;
use ray_tracer::vector::{Color, Point, Vector};
use ray_tracer::world::World;

const S: i64 = SCALE;

fn gray() -> Material {
    Material::Diffuse(Diffuse::new(Color::new(S / 2, S / 2, S / 2)))
}

fn mirror() -> Material {
    Material::Mirror(Mirror::new())
}

fn head_on_scene(material: Material) -> (World, Ray) {
    let mut world = World::new();
    world.push(Sphere::new(Point::new(0, 0, -S), S / 2, material));
    let ray = Ray::new(Point::new(0, 0, 0), Vector::new(0, 0, -S));
    (world, ray)
}

#[test]
fn interval_basics() {
    let i = Interval::new(-5, 5);
    assert!(i.contains(5) && i.contains(-5) && i.contains(0));
    assert!(!i.surrounds(5) && !i.surrounds(-5) && i.surrounds(4));
    assert_eq!(i.clamp(7), 5);
    assert_eq!(i.clamp(-7), -5);
    assert_eq!(i.clamp(3), 3);
    let e = Interval::empty();
    assert!(!e.contains(0));
    let u = Interval::universe();
    assert!(u.contains(0) && u.contains(T_FAR) && u.contains(-T_FAR));
}

#[test]
fn ray_at_walks_the_parameter() {
    let r = Ray::new(Point::new(S, 0, 0), Vector::new(0, 0, -S));
    let p = r.at(S / 2);
    assert_eq!((p.x, p.y, p.z), (S, 0, -S / 2));
    let behind = r.at(-S);
    assert_eq!((behind.x, behind.y, behind.z), (S, 0, S));
}

#[test]
fn sphere_head_on_hit_is_exact() {
    let (world, ray) = head_on_scene(gray());
    let h = world.objects[0].hit(&ray, 65, T_FAR).expect("head-on ray must hit");
    // Quadratic: a = 1, h = -1, c = 0.75 -> near root at exactly 0.5.
    assert_eq!(h.time, S / 2);
    assert_eq!((h.hit_point.x, h.hit_point.y, h.hit_point.z), (0, 0, -S / 2));
    assert_eq!((h.normal.x, h.normal.y, h.normal.z), (0, 0, S));
    assert!(h.front_face);
}

#[test]
fn sphere_point_on_surface_within_tolerance() {
    let (world, ray) = head_on_scene(gray());
    let h = world.objects[0].hit(&ray, 65, T_FAR).unwrap();
    let d = h.hit_point.sub(&world.objects[0].center);
    let radius = world.objects[0].radius;
    // |point - center|^2 == radius^2 exactly for this configuration.
    assert_eq!(d.x * d.x + d.y * d.y + d.z * d.z, radius * radius);
}

#[test]
fn sphere_misses_outside_interval_and_off_axis() {
    let (world, ray) = head_on_scene(gray());
    // The near root 0.5 is outside (0.6, far).
    assert!(world.objects[0].hit(&ray, 6 * S / 10, T_FAR).is_none());
    // A ray pointing away misses entirely.
    let away = Ray::new(Point::new(0, 0, 0), Vector::new(0, 0, S));
    assert!(world.objects[0].hit(&away, 65, T_FAR).is_none());
}

#[test]
fn hit_nearest_picks_the_smaller_time() {
    let m = gray();
    let near = Sphere::new(Point::new(0, 0, -S), S / 2, m);
    let far = Sphere::new(Point::new(0, 0, -3 * S), S / 2, m);
    let ray = Ray::new(Point::new(0, 0, 0), Vector::new(0, 0, -S));
    let mut a = World::new();
    a.push(near);
    a.push(far);
    let mut b = World::new();
    b.push(far);
    b.push(near);
    let ha = a.hit_nearest(&ray, 65, T_FAR).unwrap();
    let hb = b.hit_nearest(&ray, 65, T_FAR).unwrap();
    assert_eq!(ha.time, S / 2);
    // Order independence: both orderings report the same nearest time.
    assert_eq!(ha.time, hb.time);
    assert_eq!(
        (ha.hit_point.x, ha.hit_point.y, ha.hit_point.z),
        (hb.hit_point.x, hb.hit_point.y, hb.hit_point.z)
    );
}

#[test]
fn hit_nearest_empty_world_is_none() {
    let world = World::new();
    let ray = Ray::new(Point::new(0, 0, 0), Vector::new(0, 0, -S));
    assert!(world.hit_nearest(&ray, 65, T_FAR).is_none());
}

#[test]
fn mirror_head_on_reflects_straight_back() {
    let (world, ray) = head_on_scene(mirror());
    let h = world.hit_nearest(&ray, 65, T_FAR).unwrap();
    let se = h.material.scatter(&ray, &h).expect("mirrors always scatter");
    // Normal incidence: the reflected direction is the negated incoming one.
    let d = se.scattered_ray.direction;
    assert_eq!((d.x, d.y, d.z), (-ray.direction.x, -ray.direction.y, -ray.direction.z));
    assert_eq!(
        (se.attenuation.x, se.attenuation.y, se.attenuation.z),
        (S, S, S)
    );
    assert_eq!(
        (se.scattered_ray.origin.x, se.scattered_ray.origin.y, se.scattered_ray.origin.z),
        (h.hit_point.x, h.hit_point.y, h.hit_point.z)
    );
}

#[test]
fn diffuse_scatter_attenuates_by_albedo() {
    let (world, ray) = head_on_scene(gray());
    let h = world.hit_nearest(&ray, 65, T_FAR).unwrap();
    let se = h.material.scatter(&ray, &h).expect("diffuse always scatters");
    assert_eq!(
        (se.attenuation.x, se.attenuation.y, se.attenuation.z),
        (S / 2, S / 2, S / 2)
    );
    // The scattered direction is the normal plus a near-unit vector.
    let u = se.scattered_ray.direction.sub(&h.normal);
    let raw = u.x * u.x + u.y * u.y + u.z * u.z;
    assert!(raw >= S * S - 6 * S - 3 && raw <= (S + 2) * (S + 2) - 1);
}

#[test]
fn depth_cap_returns_black() {
    let (world, ray) = head_on_scene(gray());
    let c = Camera::ray_color(&ray, &world, MAX_DEPTH + 1);
    assert_eq!((c.x, c.y, c.z), (0, 0, 0));
}

#[test]
fn last_allowed_bounce_on_a_sphere_is_black() {
    // A head-on ray entering at the last allowed depth hits the sphere,
    // scatters once, and the recursion cap forces the bounce to black,
    // which the albedo then multiplies to black.
    let (world, ray) = head_on_scene(gray());
    let c = Camera::ray_color(&ray, &world, MAX_DEPTH);
    assert_eq!((c.x, c.y, c.z), (0, 0, 0));
}

#[test]
fn background_up_is_sky_blue() {
    let world = World::new();
    let ray = Ray::new(Point::new(0, 0, 0), Vector::new(0, S, 0));
    let c = Camera::ray_color(&ray, &world, 0);
    assert_eq!((c.x, c.y, c.z), (S / 2, 45875, S));
}

#[test]
fn background_down_is_white() {
    let world = World::new();
    let ray = Ray::new(Point::new(0, 0, 0), Vector::new(0, -S, 0));
    let c = Camera::ray_color(&ray, &world, 0);
    assert_eq!((c.x, c.y, c.z), (S, S, S));
}

#[test]
fn background_level_is_the_midpoint() {
    let world = World::new();
    let ray = Ray::new(Point::new(0, 0, 0), Vector::new(S, 0, 0));
    let c = Camera::ray_color(&ray, &world, 0);
    assert_eq!((c.x, c.y, c.z), ((S + S / 2) / 2, (S + 45875) / 2, S));
}

fn floor_sqrt(n: i64) -> i64 {
    let mut r: i64 = 0;
    while (r + 1) * (r + 1) <= n {
        r += 1;
    }
    r
}

#[test]
fn empty_scene_matches_the_gradient_formula() {
    let world = World::new();
    for dir in [
        Vector::new(3 * S, 4 * S, 0),
        Vector::new(-S, S, S),
        Vector::new(7, -13, 100000),
    ] {
        let ray = Ray::new(Point::new(0, 0, 0), dir);
        let c = Camera::ray_color(&ray, &world, 0);
        // The gradient formula, evaluated directly in fixed point.
        let raw = dir.x * dir.x + dir.y * dir.y + dir.z * dir.z;
        let l = floor_sqrt(raw);
        let uy = dir.y * S / l;
        let a = (uy + S) / 2;
        assert_eq!(c.x, S - a + a * 32768 / S);
        assert_eq!(c.y, S - a + a * 45875 / S);
        assert_eq!(c.z, S - a + a * 65536 / S);
    }
}

#[test]
fn radiance_channels_stay_in_range() {
    let (world, ray) = head_on_scene(gray());
    for _ in 0..20 {
        let c = Camera::ray_color(&ray, &world, 0);
        assert!(c.x >= 0 && c.x <= S);
        assert!(c.y >= 0 && c.y <= S);
        assert!(c.z >= 0 && c.z <= S);
    }
}

#[test]
fn pixel_bytes_are_exact() {
    // One sample, mid gray: 0.5 * 256 = 128.
    let p = pixel_from_sum(&Color::new(S / 2, 0, S), 1);
    assert_eq!((p.r, p.g, p.b), (128, 0, 255));
    // Averaging: four samples summing to two units averages to 0.5.
    let p = pixel_from_sum(&Color::new(2 * S, 4 * S, 0), 4);
    assert_eq!((p.r, p.g, p.b), (128, 255, 0));
}

#[test]
fn byte_conversion_is_monotone_and_lossy() {
    let mut prev: u8 = 0;
    let mut c: i64 = -100;
    while c <= 70000 {
        let p = pixel_from_sum(&Color::new(if c < 0 { 0 } else { c }, 0, 0), 1);
        assert!(p.r >= prev, "byte value decreased at channel {c}");
        prev = p.r;
        c += 97;
    }
    // Quantization is lossy: two distinct channels share a byte.
    let a = pixel_from_sum(&Color::new(S / 2, 0, 0), 1);
    let b = pixel_from_sum(&Color::new(S / 2 + 1, 0, 0), 1);
    assert_eq!(a.r, b.r);
}

#[test]
fn camera_rejects_bad_configurations() {
    let world = World::new();
    let center = Point::new(0, 0, 0);
    let mut c = Camera::new(0, 100, center, 10);
    assert_eq!(c.render(&world), Err(CameraError::NonPositiveAspectRatio));
    let mut c = Camera::new(S, 0, center, 10);
    assert_eq!(c.render(&world), Err(CameraError::ZeroImageWidth));
    let mut c = Camera::new(S, 100, center, 0);
    assert_eq!(c.render(&world), Err(CameraError::ZeroSamplesPerPixel));
    let mut c = Camera::new(S, 2_000_000, center, 1);
    assert_eq!(c.render(&world), Err(CameraError::UnsupportedDimensions));
}

#[test]
fn image_height_rounds_to_the_nearest_row() {
    // Aspect just under 0.7: 100 / 0.69999... = 142.86..., which rounds
    // up to 143 (truncation would give 142).
    let world = World::new();
    let mut cam = Camera::new(45875, 100, Point::new(0, 0, 0), 1);
    let img = cam.render(&world).expect("the configuration is valid");
    assert_eq!(cam.imh, 143);
    assert_eq!(img.len(), 143 * 100);
    // An exact ratio stays exact: 4 / 1 = 4 rows.
    let mut square = Camera::new(S, 4, Point::new(0, 0, 0), 1);
    let img = square.render(&world).expect("the configuration is valid");
    assert_eq!(square.imh, 4);
    assert_eq!(img.len(), 16);
}

#[test]
fn render_produces_row_major_dimensions() {
    let world = World::new();
    let mut cam = Camera::new(S, 4, Point::new(0, 0, 0), 1);
    let img = cam.render(&world).expect("a square four-pixel-wide image renders");
    // Square aspect: height equals width.
    assert_eq!(img.len(), 16);
}

#[test]
fn render_of_single_sphere_scene() {
    let mut world = World::new();
    world.push(Sphere::new(Point::new(0, 0, -S), S / 2, gray()));
    let mut cam = Camera::new(2 * S, 8, Point::new(0, 0, 0), 2);
    let img = cam.render(&world).expect("the scene renders");
    assert_eq!(img.len(), 8 * 4);
}
