//! The camera and the recursive radiance computation.
//!
//! The camera owns the viewport geometry derived from its configuration,
//! generates one jittered sample ray per call, and drives the recursive
//! radiance function over the scene.  Configuration errors are reported
//! at initialization instead of producing a degenerate image.

use vstd::prelude::*;

use crate::hit::Hit;
use crate::interval::{clamp_m, Interval};
use crate::material::scatter_rel;
use crate::math::{div_count, scaled_mul, stdiv, COORD_MAX, SCALE, T_FAR};
use crate::ray::Ray;
use crate::rng::rand_range;
use crate::sphere::Sphere;
use crate::vector::{
    add_m, bounded_m, comp_mul_m, div_m, len_sq_m, scale_m, scale_n_m, sub_m, unit_m, Color, Point,
    Vector, V3,
};
use crate::world::{nearest_record, some_hit, World};

verus! {

/// Recursion budget for the radiance function.
pub const MAX_DEPTH: u32 = 50;

/// Lower intersection-parameter cutoff, excluding near-zero
/// self-intersections of a scattered ray with its own surface.
pub const T_MIN_EPS: i64 = 65;

/// Top of the clamp range applied to an averaged channel before byte
/// conversion: just under one whole unit.
pub const CLAMP_TOP: i64 = 65529;

/// One finished 8-bit-per-channel pixel.
#[derive(Clone, Copy, PartialEq, Eq, Structural, Debug)]
pub struct Pixel {
    pub r: u8,
    pub g: u8,
    pub b: u8,
}

/// Why a camera configuration was rejected.
#[derive(Clone, Copy, PartialEq, Eq, Structural, Debug)]
pub enum CameraError {
    NonPositiveAspectRatio,
    ZeroImageWidth,
    ZeroSamplesPerPixel,
    UnsupportedDimensions,
}

/// Image height derived from width and aspect ratio: the width over the
/// aspect ratio, rounded to the nearest row (half rounds up), and at
/// least one row.
pub open spec fn imh_m(aspect: int, imw: int) -> int {
    let q = stdiv(imw * (SCALE as int) + stdiv(aspect, 2), aspect);
    if q < 1 {
        1
    } else {
        q
    }
}

/// Width-to-height ratio of the image, in fixed point.
pub open spec fn ratio_m(aspect: int, imw: int) -> int {
    stdiv(imw * (SCALE as int), imh_m(aspect, imw))
}

/// Viewport width: viewport height (two units) times the image ratio.
pub open spec fn vw_m(aspect: int, imw: int) -> int {
    stdiv(131072 * ratio_m(aspect, imw), SCALE as int)
}

/// The per-pixel horizontal delta vector.
pub open spec fn pdu_m(aspect: int, imw: int) -> V3 {
    div_m(V3 { x: vw_m(aspect, imw), y: 0, z: 0 }, imw * (SCALE as int))
}

/// The per-pixel vertical delta vector (pointing down the image).
pub open spec fn pdv_m(aspect: int, imw: int) -> V3 {
    div_m(V3 { x: 0, y: -131072, z: 0 }, imh_m(aspect, imw) * (SCALE as int))
}

/// The viewport's upper-left corner: the camera center pushed one focal
/// length forward and half a viewport left and up.
pub open spec fn vul_m(aspect: int, imw: int, center: V3) -> V3 {
    sub_m(
        sub_m(
            sub_m(center, V3 { x: 0, y: 0, z: SCALE as int }),
            div_m(V3 { x: vw_m(aspect, imw), y: 0, z: 0 }, 131072),
        ),
        div_m(V3 { x: 0, y: -131072, z: 0 }, 131072),
    )
}

/// The center of the upper-left pixel: the viewport corner plus half a
/// pixel delta each way.
pub open spec fn pul_m(aspect: int, imw: int, center: V3) -> V3 {
    add_m(vul_m(aspect, imw, center), scale_m(add_m(pdu_m(aspect, imw), pdv_m(aspect, imw)), 32768))
}

/// The user-settable configuration is acceptable.
pub open spec fn config_ok(aspect: int, imw: int, samples: int) -> bool {
    aspect > 0 && imw >= 1 && samples >= 1
}

/// The derived geometry stays inside the coordinate budget the verified
/// arithmetic supports.
pub open spec fn config_supported(aspect: int, imw: int, center: V3) -> bool {
    &&& imw <= 1048576
    &&& imh_m(aspect, imw) <= 1048576
    &&& vw_m(aspect, imw) <= 1073741824
    &&& bounded_m(center, 17179869184)
}

/// The background gradient: white at the bottom of the unit sphere of
/// directions, sky blue at the top, linearly interpolated in the
/// normalized direction's vertical component.
pub open spec fn background_m(d: V3) -> V3 {
    let u = unit_m(d);
    let a = (u.y + SCALE as int) / 2;
    V3 {
        x: SCALE as int - a + stdiv(a * 32768, SCALE as int),
        y: SCALE as int - a + stdiv(a * 45875, SCALE as int),
        z: SCALE as int - a + stdiv(a * 65536, SCALE as int),
    }
}

/// An averaged channel, clamped to just under one unit and quantized to
/// a byte.
pub open spec fn byte_m(c: int) -> int {
    (clamp_m(0, 65529, c) * 256) / (SCALE as int)
}

/// What the recursive radiance computation can return, stripped of the
/// random draws: black past the depth budget or for a degenerate
/// direction; the exact background gradient on a miss; and on a hit, the
/// nearest record's material scattering, with the recursive color
/// attenuated per channel — or black where the scattered ray leaves the
/// supported coordinate range and is treated as absorbed.
pub open spec fn radiance_rel(r: Ray, objs: Seq<Sphere>, depth: int, c: V3) -> bool
    decreases MAX_DEPTH as int + 1 - depth,
{
    if depth > MAX_DEPTH as int {
        c == (V3 { x: 0, y: 0, z: 0 })
    } else if len_sq_m(r.direction.m()) == 0 {
        c == (V3 { x: 0, y: 0, z: 0 })
    } else if !some_hit(objs, r, T_MIN_EPS as int, T_FAR as int) {
        c == background_m(r.direction.m())
    } else {
        exists|h: Hit, sr: Ray, att: V3|
            #![auto]
            {
                &&& nearest_record(objs, r, T_MIN_EPS as int, T_FAR as int, h)
                &&& scatter_rel(h, r, sr, att)
                &&& if bounded_m(sr.origin.m(), COORD_MAX as int) && bounded_m(
                    sr.direction.m(),
                    COORD_MAX as int,
                ) {
                    exists|rec: V3|
                        #![auto]
                        radiance_rel(sr, objs, depth + 1, rec) && c == comp_mul_m(att, rec)
                } else {
                    c == (V3 { x: 0, y: 0, z: 0 })
                }
            }
    }
}

/// What one radiance sample of pixel `(x, y)` can be: the outcome of
/// the radiance recursion at depth zero for some ray fired from the
/// camera center through the jittered pixel position.
pub open spec fn sample_outcome(cam: Camera, objs: Seq<Sphere>, x: int, y: int, c: V3) -> bool {
    exists|r: Ray|
        #![auto]
        {
            &&& r.origin == cam.camera_center
            &&& (exists|jx: int, jy: int|
                -32768 <= jx < 32768 && -32768 <= jy < 32768 && r.direction.m()
                    == cam.jittered_dir_m(x, y, jx, jy))
            &&& radiance_rel(r, objs, 0, c)
        }
}

/// `s` is a sum of `n` radiance samples of pixel `(x, y)`.
pub open spec fn sample_sum(cam: Camera, objs: Seq<Sphere>, x: int, y: int, n: int, s: V3) -> bool
    decreases n,
{
    if n <= 0 {
        s == (V3 { x: 0, y: 0, z: 0 })
    } else {
        exists|prev: V3, c: V3|
            #![auto]
            {
                &&& sample_sum(cam, objs, x, y, n - 1, prev)
                &&& sample_outcome(cam, objs, x, y, c)
                &&& s == add_m(prev, c)
            }
    }
}

/// What one finished pixel holds: the average of some sum of
/// `spp` radiance samples of its own pixel coordinates (position `p` in
/// row-major order for width `w`), each channel clamped and quantized.
pub open spec fn pixel_entry(
    cam: Camera,
    objs: Seq<Sphere>,
    spp: int,
    w: int,
    p: int,
    px: Pixel,
) -> bool {
    exists|s: V3|
        #![auto]
        {
            &&& 0 <= s.x <= spp * (SCALE as int)
            &&& 0 <= s.y <= spp * (SCALE as int)
            &&& 0 <= s.z <= spp * (SCALE as int)
            &&& sample_sum(cam, objs, p % w, p / w, spp, s)
            &&& px.r as int == byte_m(s.x / spp)
            &&& px.g as int == byte_m(s.y / spp)
            &&& px.b as int == byte_m(s.z / spp)
        }
}

/// The camera: user-set fields, and viewport geometry derived from them
/// once at initialization.
pub struct Camera {
    pub aspect_ratio: i64,
    pub imw: u32,
    pub camera_center: Point,
    pub samples_pp: u32,
    pub imh: u32,
    pub focal_length: i64,
    pub vh: i64,
    pub vw: i64,
    pub vu: Vector,
    pub vv: Vector,
    pub pdu: Vector,
    pub pdv: Vector,
    pub viewport_upper_left: Vector,
    pub pixel_upper_left: Vector,
}

impl Camera {
    /// Initialized and inside every bound the sampling math relies on.
    pub open spec fn wf(self) -> bool {
        &&& 1 <= self.imw <= 1048576
        &&& 1 <= self.imh <= 1048576
        &&& self.samples_pp >= 1
        &&& bounded_m(self.camera_center.m(), 17179869184)
        &&& bounded_m(self.pdu.m(), 1073741824)
        &&& bounded_m(self.pdv.m(), 1073741824)
        &&& bounded_m(self.pixel_upper_left.m(), 21474836480)
        &&& -1073741824 <= self.pdu.m().x * (self.imw as int) <= 1073741824
        &&& -1073741824 <= self.pdu.m().y * (self.imw as int) <= 1073741824
        &&& -1073741824 <= self.pdu.m().z * (self.imw as int) <= 1073741824
        &&& -1073741824 <= self.pdv.m().x * (self.imh as int) <= 1073741824
        &&& -1073741824 <= self.pdv.m().y * (self.imh as int) <= 1073741824
        &&& -1073741824 <= self.pdv.m().z * (self.imh as int) <= 1073741824
    }

    /// The direction of the sample ray for pixel `(x, y)` under jitter
    /// `(jx, jy)`: the pixel center offset by the jittered pixel deltas,
    /// relative to the camera center.
    pub open spec fn jittered_dir_m(self, x: int, y: int, jx: int, jy: int) -> V3 {
        sub_m(
            add_m(
                add_m(
                    add_m(self.pixel_upper_left.m(), scale_n_m(self.pdu.m(), x)),
                    scale_n_m(self.pdv.m(), y),
                ),
                add_m(scale_m(self.pdu.m(), jx), scale_m(self.pdv.m(), jy)),
            ),
            self.camera_center.m(),
        )
    }

    /// A camera with the given configuration; the derived fields are
    /// computed by `render`.
    pub fn new(aspect_ratio: i64, imw: u32, camera_center: Point, samples_pp: u32) -> (r: Self)
        ensures
            r.aspect_ratio == aspect_ratio,
            r.imw == imw,
            r.camera_center == camera_center,
            r.samples_pp == samples_pp,
    {
        Camera {
            aspect_ratio,
            imw,
            camera_center,
            samples_pp,
            imh: 0,
            focal_length: 0,
            vh: 0,
            vw: 0,
            vu: Vector::new(0, 0, 0),
            vv: Vector::new(0, 0, 0),
            pdu: Vector::new(0, 0, 0),
            pdv: Vector::new(0, 0, 0),
            viewport_upper_left: Vector::new(0, 0, 0),
            pixel_upper_left: Vector::new(0, 0, 0),
        }
    }

    /// Validate the configuration and compute the derived viewport
    /// geometry.  On any rejection the camera is left untouched.
    fn initialize(&mut self) -> (res: Result<(), CameraError>)
        ensures
            final(self).aspect_ratio == old(self).aspect_ratio,
            final(self).imw == old(self).imw,
            final(self).camera_center == old(self).camera_center,
            final(self).samples_pp == old(self).samples_pp,
            res is Err ==> *final(self) == *old(self),
            old(self).aspect_ratio <= 0 ==> res == Err::<(), CameraError>(
                CameraError::NonPositiveAspectRatio,
            ),
            old(self).aspect_ratio > 0 && old(self).imw == 0 ==> res == Err::<(), CameraError>(
                CameraError::ZeroImageWidth,
            ),
            old(self).aspect_ratio > 0 && old(self).imw >= 1 && old(self).samples_pp == 0 ==> res
                == Err::<(), CameraError>(CameraError::ZeroSamplesPerPixel),
            config_ok(
                old(self).aspect_ratio as int,
                old(self).imw as int,
                old(self).samples_pp as int,
            ) && !config_supported(
                old(self).aspect_ratio as int,
                old(self).imw as int,
                old(self).camera_center.m(),
            ) ==> res == Err::<(), CameraError>(CameraError::UnsupportedDimensions),
            (config_ok(
                old(self).aspect_ratio as int,
                old(self).imw as int,
                old(self).samples_pp as int,
            ) && config_supported(
                old(self).aspect_ratio as int,
                old(self).imw as int,
                old(self).camera_center.m(),
            )) <==> res is Ok,
            res is Ok ==> {
                let aspect = old(self).aspect_ratio as int;
                let w = old(self).imw as int;
                let c = old(self).camera_center.m();
                &&& final(self).wf()
                &&& final(self).imh as int == imh_m(aspect, w)
                &&& final(self).pdu.m() == pdu_m(aspect, w)
                &&& final(self).pdv.m() == pdv_m(aspect, w)
                &&& final(self).pixel_upper_left.m() == pul_m(aspect, w, c)
            },
    {
        if self.aspect_ratio <= 0 {
            return Err(CameraError::NonPositiveAspectRatio);
        }
        if self.imw == 0 {
            return Err(CameraError::ZeroImageWidth);
        }
        if self.samples_pp == 0 {
            return Err(CameraError::ZeroSamplesPerPixel);
        }
        if self.imw > 1048576 {
            return Err(CameraError::UnsupportedDimensions);
        }
        if self.camera_center.x < -17179869184 || self.camera_center.x > 17179869184
            || self.camera_center.y < -17179869184 || self.camera_center.y > 17179869184
            || self.camera_center.z < -17179869184 || self.camera_center.z > 17179869184 {
            return Err(CameraError::UnsupportedDimensions);
        }
        let w_scaled: i64 = (self.imw as i64) * SCALE;
        let half_aspect: i64 = div_count(self.aspect_ratio, 2);
        let q: i64 = div_count(w_scaled + half_aspect, self.aspect_ratio);
        let imh64: i64 = if q < 1 {
            1
        } else {
            q
        };
        if imh64 > 1048576 {
            return Err(CameraError::UnsupportedDimensions);
        }
        let imh: u32 = imh64 as u32;
        let ratio: i64 = div_count(w_scaled, imh64);
        let vw: i64 = scaled_mul(131072, ratio);
        proof {
            assert(131072 * (ratio as int) >= 0) by (nonlinear_arith)
                requires
                    ratio as int >= 0,
            ;
            vstd::arithmetic::div_mod::lemma_div_pos_is_pos(131072 * (ratio as int), SCALE as int);
        }
        if vw > 1073741824 {
            return Err(CameraError::UnsupportedDimensions);
        }
        let vu = Vector::new(vw, 0, 0);
        let vv = Vector::new(0, -131072, 0);
        let h_scaled: i64 = (imh as i64) * SCALE;
        let pdu = vu.div(w_scaled);
        let pdv = vv.div(h_scaled);
        let vul = self.camera_center.sub(&Vector::new(0, 0, SCALE)).sub(&vu.div(131072)).sub(
            &vv.div(131072),
        );
        let half_delta = pdu.add(&pdv).scale(32768);
        proof {
            crate::math::lemma_stdiv_bound(
                32768 * (pdu.m().x + pdv.m().x),
                SCALE as int,
                1073741824,
            );
            crate::math::lemma_stdiv_bound(
                32768 * (pdu.m().y + pdv.m().y),
                SCALE as int,
                1073741824,
            );
            crate::math::lemma_stdiv_bound(
                32768 * (pdu.m().z + pdv.m().z),
                SCALE as int,
                1073741824,
            );
            crate::math::lemma_stdiv_scaled_prod(vw as int, self.imw as int);
            crate::math::lemma_stdiv_scaled_prod(0, self.imw as int);
            crate::math::lemma_stdiv_scaled_prod(-131072, imh as int);
            crate::math::lemma_stdiv_scaled_prod(0, imh as int);
        }
        let pul = vul.add(&half_delta);
        self.imh = imh;
        self.focal_length = SCALE;
        self.vh = 131072;
        self.vw = vw;
        self.vu = vu;
        self.vv = vv;
        self.pdu = pdu;
        self.pdv = pdv;
        self.viewport_upper_left = vul;
        self.pixel_upper_left = pul;
        Ok(())
    }

    /// One anti-aliasing sample ray for pixel `(x, y)`: the pixel center
    /// jittered by up to half a pixel delta each way, fired from the
    /// camera center.
    pub fn generate_ray(&self, x: u32, y: u32) -> (r: Ray)
        requires
            self.wf(),
            x < self.imw,
            y < self.imh,
        ensures
            r.origin == self.camera_center,
            bounded_m(r.direction.m(), COORD_MAX as int),
            exists|jx: int, jy: int|
                -32768 <= jx < 32768 && -32768 <= jy < 32768 && r.direction.m()
                    == self.jittered_dir_m(x as int, y as int, jx, jy),
    {
        proof {
            lemma_count_step_bounded(self.pdu.m().x, self.imw as int, x as int);
            lemma_count_step_bounded(self.pdu.m().y, self.imw as int, x as int);
            lemma_count_step_bounded(self.pdu.m().z, self.imw as int, x as int);
            lemma_count_step_bounded(self.pdv.m().x, self.imh as int, y as int);
            lemma_count_step_bounded(self.pdv.m().y, self.imh as int, y as int);
            lemma_count_step_bounded(self.pdv.m().z, self.imh as int, y as int);
        }
        let xs = self.pdu.scale_n(x as i64);
        let ys = self.pdv.scale_n(y as i64);
        let p_center = self.pixel_upper_left.add(&xs).add(&ys);
        let jx = rand_range(-32768, 32768);
        let jy = rand_range(-32768, 32768);
        proof {
            lemma_jitter_bounded(self.pdu.m().x, jx as int);
            lemma_jitter_bounded(self.pdu.m().y, jx as int);
            lemma_jitter_bounded(self.pdu.m().z, jx as int);
            lemma_jitter_bounded(self.pdv.m().x, jy as int);
            lemma_jitter_bounded(self.pdv.m().y, jy as int);
            lemma_jitter_bounded(self.pdv.m().z, jy as int);
        }
        let jxs = self.pdu.scale(jx);
        let jys = self.pdv.scale(jy);
        proof {
            crate::math::lemma_stdiv_bound(jx as int * self.pdu.m().x, SCALE as int, 536870912);
            crate::math::lemma_stdiv_bound(jx as int * self.pdu.m().y, SCALE as int, 536870912);
            crate::math::lemma_stdiv_bound(jx as int * self.pdu.m().z, SCALE as int, 536870912);
            crate::math::lemma_stdiv_bound(jy as int * self.pdv.m().x, SCALE as int, 536870912);
            crate::math::lemma_stdiv_bound(jy as int * self.pdv.m().y, SCALE as int, 536870912);
            crate::math::lemma_stdiv_bound(jy as int * self.pdv.m().z, SCALE as int, 536870912);
        }
        let sample = p_center.add(&jxs.add(&jys));
        let direction = sample.sub(&self.camera_center);
        let r = Ray::new(self.camera_center, direction);
        proof {
            assert(r.direction.m() == self.jittered_dir_m(x as int, y as int, jx as int, jy as int));
        }
        r
    }

    /// The recursive radiance of a ray: black once the depth budget is
    /// spent or the direction degenerates to zero; otherwise the nearest
    /// hit's scattered radiance attenuated per channel, or the background
    /// gradient on a miss.  A scattered ray that escapes the supported
    /// coordinate range is treated as absorbed, the fixed-point analogue
    /// of discarding a non-finite sample.  Every channel of the result
    /// lies in `[0, SCALE]`.
    pub fn ray_color(ray: &Ray, world: &World, depth: u32) -> (c: Color)
        requires
            world.wf(),
            bounded_m(ray.origin.m(), COORD_MAX as int),
            bounded_m(ray.direction.m(), COORD_MAX as int),
        ensures
            0 <= c.x <= SCALE && 0 <= c.y <= SCALE && 0 <= c.z <= SCALE,
            depth > MAX_DEPTH ==> c == (Color { x: 0, y: 0, z: 0 }),
            len_sq_m(ray.direction.m()) == 0 && depth <= MAX_DEPTH ==> c == (Color {
                x: 0,
                y: 0,
                z: 0,
            }),
            depth <= MAX_DEPTH && len_sq_m(ray.direction.m()) >= 1 && !some_hit(
                world.objects@,
                *ray,
                T_MIN_EPS as int,
                T_FAR as int,
            ) ==> c.m() == background_m(ray.direction.m()),
            depth <= MAX_DEPTH && len_sq_m(ray.direction.m()) >= 1 && world.objects@.len() == 0
                ==> c.m() == background_m(ray.direction.m()),
            radiance_rel(*ray, world.objects@, depth as int, c.m()),
        decreases MAX_DEPTH as int + 1 - depth as int,
    {
        if depth > MAX_DEPTH {
            return Color::new(0, 0, 0);
        }
        if ray.direction.x == 0 && ray.direction.y == 0 && ray.direction.z == 0 {
            proof {
                assert(len_sq_m(ray.direction.m()) == 0) by (nonlinear_arith)
                    requires
                        ray.direction.m().x == 0 && ray.direction.m().y == 0 && ray.direction.m().z
                            == 0,
                ;
            }
            return Color::new(0, 0, 0);
        }
        proof {
            crate::sphere::lemma_nonzero_len_sq(ray.direction.m());
        }
        match world.hit_nearest(ray, T_MIN_EPS, T_FAR) {
            Some(h) => {
                match h.material.scatter(ray, &h) {
                    Some(se) => {
                        let o = &se.scattered_ray.origin;
                        let d = &se.scattered_ray.direction;
                        if o.x >= -COORD_MAX && o.x <= COORD_MAX && o.y >= -COORD_MAX && o.y
                            <= COORD_MAX && o.z >= -COORD_MAX && o.z <= COORD_MAX && d.x
                            >= -COORD_MAX && d.x <= COORD_MAX && d.y >= -COORD_MAX && d.y
                            <= COORD_MAX && d.z >= -COORD_MAX && d.z <= COORD_MAX {
                            let rec = Self::ray_color(&se.scattered_ray, world, depth + 1);
                            let att = se.attenuation;
                            proof {
                                lemma_channel_product(att.m().x, rec.m().x);
                                lemma_channel_product(att.m().y, rec.m().y);
                                lemma_channel_product(att.m().z, rec.m().z);
                            }
                            let out = att.comp_mul(&rec);
                            proof {
                                let objs = world.objects@;
                                assert(radiance_rel(
                                    se.scattered_ray,
                                    objs,
                                    depth as int + 1,
                                    rec.m(),
                                ) && out.m() == comp_mul_m(att.m(), rec.m()));
                                assert(radiance_rel(*ray, objs, depth as int, out.m()));
                            }
                            out
                        } else {
                            let out = Color::new(0, 0, 0);
                            proof {
                                let objs = world.objects@;
                                assert(!(bounded_m(se.scattered_ray.origin.m(), COORD_MAX as int)
                                    && bounded_m(
                                    se.scattered_ray.direction.m(),
                                    COORD_MAX as int,
                                )));
                                assert(radiance_rel(*ray, objs, depth as int, out.m()));
                            }
                            out
                        }
                    },
                    None => Color::new(0, 0, 0),
                }
            },
            None => {
                let unit = ray.direction.unit();
                let a: i64 = div_count(unit.y + SCALE, 2);
                proof {
                    lemma_half_range(unit.m().y);
                    lemma_sky_term_range(a as int, 32768);
                    lemma_sky_term_range(a as int, 45875);
                    lemma_sky_term_range(a as int, 65536);
                }
                let cx: i64 = (SCALE - a) + scaled_mul(a, 32768);
                let cy: i64 = (SCALE - a) + scaled_mul(a, 45875);
                let cz: i64 = (SCALE - a) + scaled_mul(a, 65536);
                Color::new(cx, cy, cz)
            },
        }
    }

    /// Render the scene: validate the configuration, then for every
    /// pixel in row-major order accumulate `samples_pp` jittered
    /// radiance samples and write their averaged, quantized color.
    pub fn render(&mut self, world: &World) -> (res: Result<Vec<Pixel>, CameraError>)
        requires
            world.wf(),
        ensures
            final(self).aspect_ratio == old(self).aspect_ratio,
            final(self).imw == old(self).imw,
            final(self).camera_center == old(self).camera_center,
            final(self).samples_pp == old(self).samples_pp,
            old(self).aspect_ratio <= 0 ==> res == Err::<Vec<Pixel>, CameraError>(
                CameraError::NonPositiveAspectRatio,
            ),
            old(self).aspect_ratio > 0 && old(self).imw == 0 ==> res == Err::<
                Vec<Pixel>,
                CameraError,
            >(CameraError::ZeroImageWidth),
            old(self).aspect_ratio > 0 && old(self).imw >= 1 && old(self).samples_pp == 0 ==> res
                == Err::<Vec<Pixel>, CameraError>(CameraError::ZeroSamplesPerPixel),
            config_ok(
                old(self).aspect_ratio as int,
                old(self).imw as int,
                old(self).samples_pp as int,
            ) && !config_supported(
                old(self).aspect_ratio as int,
                old(self).imw as int,
                old(self).camera_center.m(),
            ) ==> res == Err::<Vec<Pixel>, CameraError>(CameraError::UnsupportedDimensions),
            (config_ok(
                old(self).aspect_ratio as int,
                old(self).imw as int,
                old(self).samples_pp as int,
            ) && config_supported(
                old(self).aspect_ratio as int,
                old(self).imw as int,
                old(self).camera_center.m(),
            )) <==> res is Ok,
            res is Ok ==> res->Ok_0@.len() == imh_m(
                old(self).aspect_ratio as int,
                old(self).imw as int,
            ) * (old(self).imw as int),
            res is Ok ==> forall|p: int|
                0 <= p < res->Ok_0@.len() ==> pixel_entry(
                    *final(self),
                    world.objects@,
                    old(self).samples_pp as int,
                    old(self).imw as int,
                    p,
                    #[trigger] res->Ok_0@[p],
                ),
    {
        match self.initialize() {
            Err(e) => {
                return Err(e);
            },
            Ok(()) => {},
        }
        let ghost cam = *self;
        let imh = self.imh;
        let imw = self.imw;
        let spp = self.samples_pp;
        let mut img: Vec<Pixel> = Vec::new();
        let mut i: u32 = 0;
        while i < imh
            invariant
                *self == cam,
                cam.wf(),
                world.wf(),
                imh == cam.imh && imw == cam.imw && spp == cam.samples_pp,
                i <= imh,
                img@.len() == (i as int) * (imw as int),
                forall|p: int|
                    0 <= p < img@.len() ==> pixel_entry(
                        cam,
                        world.objects@,
                        spp as int,
                        imw as int,
                        p,
                        #[trigger] img@[p],
                    ),
            decreases imh as int - i as int,
        {
            let mut j: u32 = 0;
            while j < imw
                invariant
                    *self == cam,
                    cam.wf(),
                    world.wf(),
                    imh == cam.imh && imw == cam.imw && spp == cam.samples_pp,
                    i < imh,
                    j <= imw,
                    img@.len() == (i as int) * (imw as int) + (j as int),
                    forall|p: int|
                        0 <= p < img@.len() ==> pixel_entry(
                            cam,
                            world.objects@,
                            spp as int,
                            imw as int,
                            p,
                            #[trigger] img@[p],
                        ),
                decreases imw as int - j as int,
            {
                let mut sum = Color::new(0, 0, 0);
                let mut k: u32 = 0;
                proof {
                    assert(sample_sum(cam, world.objects@, j as int, i as int, 0, sum.m()));
                }
                while k < spp
                    invariant
                        *self == cam,
                        cam.wf(),
                        world.wf(),
                        imh == cam.imh && imw == cam.imw && spp == cam.samples_pp,
                        i < imh && j < imw,
                        k <= spp,
                        0 <= sum.x <= (k as int) * (SCALE as int),
                        0 <= sum.y <= (k as int) * (SCALE as int),
                        0 <= sum.z <= (k as int) * (SCALE as int),
                        sample_sum(cam, world.objects@, j as int, i as int, k as int, sum.m()),
                    decreases spp as int - k as int,
                {
                    let r = self.generate_ray(j, i);
                    let c = Self::ray_color(&r, world, 0);
                    proof {
                        assert((k as int) * (SCALE as int) + SCALE as int == (k as int + 1) * (
                        SCALE as int)) by (nonlinear_arith);
                        assert((k as int) * (SCALE as int) <= 4294967296 * 65536)
                            by (nonlinear_arith)
                            requires
                                0 <= k as int <= 4294967296,
                        ;
                        assert(sample_outcome(cam, world.objects@, j as int, i as int, c.m()));
                        assert(sample_sum(
                            cam,
                            world.objects@,
                            j as int,
                            i as int,
                            k as int + 1,
                            add_m(sum.m(), c.m()),
                        ));
                    }
                    sum = sum.add(&c);
                    k += 1;
                }
                let px = pixel_from_sum(&sum, spp);
                let ghost prev_img = img@;
                img.push(px);
                proof {
                    let objs = world.objects@;
                    let w = imw as int;
                    let pnew = (i as int) * w + (j as int);
                    vstd::arithmetic::div_mod::lemma_fundamental_div_mod_converse(
                        pnew,
                        w,
                        i as int,
                        j as int,
                    );
                    assert(pnew % w == j as int && pnew / w == i as int);
                    assert(sample_sum(cam, objs, pnew % w, pnew / w, spp as int, sum.m()));
                    assert(0 <= sum.m().x <= (spp as int) * (SCALE as int));
                    assert(px.r as int == byte_m(sum.m().x / (spp as int)));
                    assert(px.g as int == byte_m(sum.m().y / (spp as int)));
                    assert(px.b as int == byte_m(sum.m().z / (spp as int)));
                    assert(pixel_entry(cam, objs, spp as int, w, pnew, px));
                    assert forall|p: int|
                        0 <= p < img@.len() implies pixel_entry(
                        cam,
                        objs,
                        spp as int,
                        w,
                        p,
                        #[trigger] img@[p],
                    ) by {
                        assert(img@ == prev_img.push(px));
                        if p < prev_img.len() {
                            assert(img@[p] == prev_img[p]);
                        } else {
                            assert(img@[p] == px);
                        }
                    }
                }
                j += 1;
            }
            proof {
                assert((i as int) * (imw as int) + (imw as int) == (i as int + 1) * (imw as int))
                    by (nonlinear_arith);
            }
            i += 1;
        }
        proof {
            assert(img@.len() == (imh as int) * (imw as int));
        }
        Ok(img)
    }
}

/// Average an accumulated color over its sample count and quantize each
/// channel to a byte: clamp to just under one unit, scale by 256, and
/// truncate.
pub fn pixel_from_sum(sum: &Color, samples_pp: u32) -> (p: Pixel)
    requires
        samples_pp >= 1,
        0 <= sum.x <= (samples_pp as int) * (SCALE as int),
        0 <= sum.y <= (samples_pp as int) * (SCALE as int),
        0 <= sum.z <= (samples_pp as int) * (SCALE as int),
    ensures
        p.r == byte_m(sum.x as int / samples_pp as int),
        p.g == byte_m(sum.y as int / samples_pp as int),
        p.b == byte_m(sum.z as int / samples_pp as int),
{
    let intensity = Interval::new(0, CLAMP_TOP);
    let ax = crate::math::div_count(sum.x, samples_pp as i64);
    let ay = crate::math::div_count(sum.y, samples_pp as i64);
    let az = crate::math::div_count(sum.z, samples_pp as i64);
    let r = byte_channel(intensity.clamp(ax));
    let g = byte_channel(intensity.clamp(ay));
    let b = byte_channel(intensity.clamp(az));
    Pixel { r, g, b }
}

/// One clamped channel scaled to a byte.
fn byte_channel(cl: i64) -> (b: u8)
    requires
        0 <= cl <= 65529,
    ensures
        b == (cl as int * 256) / (SCALE as int),
{
    proof {
        vstd::arithmetic::div_mod::lemma_div_pos_is_pos(cl as int * 256, SCALE as int);
        vstd::arithmetic::div_mod::lemma_div_is_ordered(cl as int * 256, 16775424, SCALE as int);
        vstd::arithmetic::div_mod::lemma_fundamental_div_mod_converse(16775424, 65536, 255, 63744);
    }
    (((cl as u64) * 256) / 65536) as u8
}

/// Quantization to a byte is monotone: a channel that only grows can
/// never map to a smaller byte, and every byte lies in `[0, 255]`.
pub proof fn lemma_byte_monotone(c1: int, c2: int)
    requires
        c1 <= c2,
    ensures
        byte_m(c1) <= byte_m(c2),
        0 <= byte_m(c1) <= 255,
{
    let l1 = clamp_m(0, 65529, c1);
    let l2 = clamp_m(0, 65529, c2);
    assert(0 <= l1 <= l2 <= 65529);
    vstd::arithmetic::div_mod::lemma_div_is_ordered(l1 * 256, l2 * 256, SCALE as int);
    vstd::arithmetic::div_mod::lemma_div_pos_is_pos(l1 * 256, SCALE as int);
    vstd::arithmetic::div_mod::lemma_div_is_ordered(l1 * 256, 16775424, SCALE as int);
    vstd::arithmetic::div_mod::lemma_fundamental_div_mod_converse(16775424, 65536, 255, 63744);
}

/// Straight up, the background is exactly the sky-blue endpoint.
pub proof fn lemma_background_up()
    ensures
        background_m(V3 { x: 0, y: 65536, z: 0 }) == (V3 { x: 32768, y: 45875, z: 65536 }),
{
    let d = V3 { x: 0, y: 65536, z: 0 };
    assert(0int * 0 == 0 && 65536int * 65536 == 4294967296) by (nonlinear_arith);
    assert(len_sq_m(d) == 4294967296);
    assert(65536nat * 65536nat == 4294967296 && 65537nat * 65537nat == 4295098369)
        by (nonlinear_arith);
    crate::math::lemma_sqrt_unique(4294967296nat, 65536nat);
    vstd::arithmetic::div_mod::lemma_fundamental_div_mod_converse(0, 65536, 0, 0);
    vstd::arithmetic::div_mod::lemma_fundamental_div_mod_converse(4294967296, 65536, 65536, 0);
    assert(unit_m(d) == (V3 { x: 0, y: 65536, z: 0 }));
    vstd::arithmetic::div_mod::lemma_fundamental_div_mod_converse(131072, 2, 65536, 0);
    vstd::arithmetic::div_mod::lemma_fundamental_div_mod_converse(2147483648, 65536, 32768, 0);
    vstd::arithmetic::div_mod::lemma_fundamental_div_mod_converse(3006464000, 65536, 45875, 0);
}

/// Straight down, the background is exactly the white endpoint.
pub proof fn lemma_background_down()
    ensures
        background_m(V3 { x: 0, y: -65536, z: 0 }) == (V3 { x: 65536, y: 65536, z: 65536 }),
{
    let d = V3 { x: 0, y: -65536, z: 0 };
    assert(0int * 0 == 0 && (-65536int) * (-65536int) == 4294967296) by (nonlinear_arith);
    assert(len_sq_m(d) == 4294967296);
    assert(65536nat * 65536nat == 4294967296 && 65537nat * 65537nat == 4295098369)
        by (nonlinear_arith);
    crate::math::lemma_sqrt_unique(4294967296nat, 65536nat);
    vstd::arithmetic::div_mod::lemma_fundamental_div_mod_converse(0, 65536, 0, 0);
    vstd::arithmetic::div_mod::lemma_fundamental_div_mod_converse(4294967296, 65536, 65536, 0);
    assert(unit_m(d) == (V3 { x: 0, y: -65536, z: 0 }));
    vstd::arithmetic::div_mod::lemma_fundamental_div_mod_converse(0, 2, 0, 0);
}

/// At the gradient's halfway point (a level viewing direction), each
/// background channel is the integer midpoint of the white and sky-blue
/// endpoints.
pub proof fn lemma_background_midpoint(d: V3)
    requires
        unit_m(d).y == 0,
    ensures
        background_m(d) == (V3 { x: 49152, y: 55705, z: 65536 }),
        background_m(d).x == (65536 + 32768) / 2,
        background_m(d).y == (65536 + 45875) / 2,
        background_m(d).z == (65536 + 65536) / 2,
{
    vstd::arithmetic::div_mod::lemma_fundamental_div_mod_converse(65536, 2, 32768, 0);
    vstd::arithmetic::div_mod::lemma_fundamental_div_mod_converse(1073741824, 65536, 16384, 0);
    vstd::arithmetic::div_mod::lemma_fundamental_div_mod_converse(1503232000, 65536, 22937, 32768);
    vstd::arithmetic::div_mod::lemma_fundamental_div_mod_converse(2147483648, 65536, 32768, 0);
    vstd::arithmetic::div_mod::lemma_fundamental_div_mod_converse(98304, 2, 49152, 0);
    vstd::arithmetic::div_mod::lemma_fundamental_div_mod_converse(111411, 2, 55705, 1);
    vstd::arithmetic::div_mod::lemma_fundamental_div_mod_converse(131072, 2, 65536, 0);
}

/// Stepping a per-pixel delta by any pixel index stays within the
/// viewport's span.
proof fn lemma_count_step_bounded(p: int, n: int, x: int)
    requires
        0 <= x < n,
        -1073741824 <= p * n <= 1073741824,
    ensures
        -1073741824 <= x * p <= 1073741824,
        -4611686018427387904 <= x * p <= 4611686018427387904,
{
    if p >= 0 {
        assert(0 <= x * p <= p * n) by (nonlinear_arith)
            requires
                0 <= x < n && p >= 0,
        ;
    } else {
        assert(p * n <= x * p <= 0) by (nonlinear_arith)
            requires
                0 <= x < n && p < 0,
        ;
    }
}

/// A jitter in `[-32768, 32768)` keeps the scaled product small.
proof fn lemma_jitter_bounded(p: int, j: int)
    requires
        -1073741824 <= p <= 1073741824,
        -32768 <= j < 32768,
    ensures
        -35184372088832 <= j * p <= 35184372088832,
        -1152921504606846976 <= j * p <= 1152921504606846976,
{
    assert(-35184372088832 <= j * p <= 35184372088832) by (nonlinear_arith)
        requires
            -1073741824 <= p <= 1073741824 && -32768 <= j <= 32768,
    ;
}

/// A channel product of two in-range channels divides back into range.
proof fn lemma_channel_product(a: int, b: int)
    requires
        0 <= a <= SCALE as int,
        0 <= b <= SCALE as int,
    ensures
        0 <= a * b <= 4294967296,
        0 <= stdiv(a * b, SCALE as int) <= SCALE as int,
{
    assert(0 <= a * b <= 4294967296) by (nonlinear_arith)
        requires
            0 <= a <= 65536 && 0 <= b <= 65536,
    ;
    crate::math::lemma_stdiv_bound(a * b, SCALE as int, SCALE as int);
    vstd::arithmetic::div_mod::lemma_div_pos_is_pos(a * b, SCALE as int);
}

/// The gradient parameter derived from a unit-bounded vertical component
/// lies in `[0, SCALE]`.
proof fn lemma_half_range(uy: int)
    requires
        -(SCALE as int) <= uy <= SCALE as int,
    ensures
        0 <= (uy + SCALE as int) / 2 <= SCALE as int,
{
    vstd::arithmetic::div_mod::lemma_div_pos_is_pos(uy + SCALE as int, 2);
    vstd::arithmetic::div_mod::lemma_div_is_ordered(uy + SCALE as int, 131072, 2);
    vstd::arithmetic::div_mod::lemma_fundamental_div_mod_converse(131072, 2, 65536, 0);
}

/// The sky contribution of one channel never exceeds the gradient
/// parameter itself.
proof fn lemma_sky_term_range(a: int, k: int)
    requires
        0 <= a <= SCALE as int,
        0 <= k <= SCALE as int,
    ensures
        0 <= a * k <= 1152921504606846976,
        0 <= stdiv(a * k, SCALE as int) <= a,
{
    assert(0 <= a * k && a * k <= a * (SCALE as int) && a * (SCALE as int) == (SCALE as int) * a
        && a * k <= 1152921504606846976) by (nonlinear_arith)
        requires
            0 <= a <= 65536 && 0 <= k <= 65536,
    ;
    vstd::arithmetic::div_mod::lemma_div_pos_is_pos(a * k, SCALE as int);
    vstd::arithmetic::div_mod::lemma_div_is_ordered(a * k, (SCALE as int) * a, SCALE as int);
    vstd::arithmetic::div_mod::lemma_div_multiples_vanish(a, SCALE as int);
}

} // verus!
