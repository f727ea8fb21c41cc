//! The camera: turns a position on the image into a ray, with a thin-lens
//! blur.
use vstd::prelude::*;
use rand::rngs::StdRng;
use crate::aabb::ray_wf;
use crate::vector::{Vec3, Ray, Triple, add3, sub3, scale3, dot3, cross3, cross_fx, unit3, fx_mul, within3, lemma_scale_within, SCALE};

verus! {

/// The bound on the camera's points and vectors.
pub const CAMERA_LIMIT: i64 = 0x100_0000;

/// A camera with its image plane spanned by `horizontal` and `vertical`
/// from `lower_left_corner`, lens axes `u` and `v`, and a lens radius.
#[derive(Clone, Copy, Debug, PartialEq, Eq, Structural)]
pub struct Camera {
    pub origin: Vec3,
    pub lower_left_corner: Vec3,
    pub horizontal: Vec3,
    pub vertical: Vec3,
    pub u: Vec3,
    pub v: Vec3,
    pub w: Vec3,
    pub lens_radius: i64,
}

pub open spec fn camera_wf(c: Camera) -> bool {
    &&& within3(c.origin@, CAMERA_LIMIT as int)
    &&& within3(c.lower_left_corner@, CAMERA_LIMIT as int)
    &&& within3(c.horizontal@, CAMERA_LIMIT as int)
    &&& within3(c.vertical@, CAMERA_LIMIT as int)
    &&& within3(c.u@, 2 * SCALE)
    &&& within3(c.v@, 2 * SCALE)
    &&& 0 <= c.lens_radius <= CAMERA_LIMIT
}

/// The lens offset for the point `disk` of the unit disk.
pub open spec fn lens_offset(c: Camera, disk: Triple) -> Triple {
    let rd = scale3(c.lens_radius as int, disk);
    add3(scale3(rd.0, c.u@), scale3(rd.1, c.v@))
}

/// The ray through the image position `(s, t)` (fixed point, `0` to `1`
/// across the image) leaving the lens at `disk`.
pub open spec fn camera_origin(c: Camera, disk: Triple) -> Triple {
    add3(c.origin@, lens_offset(c, disk))
}

pub open spec fn camera_direction(c: Camera, s: int, t: int, disk: Triple) -> Triple {
    sub3(
        sub3(add3(add3(c.lower_left_corner@, scale3(s, c.horizontal@)), scale3(t, c.vertical@)), c.origin@),
        lens_offset(c, disk),
    )
}

/// The largest tangent of half the field of view, aspect ratio and focus
/// distance `Camera::new` accepts (`4`, `4` and `64`).
pub const MAX_HALF_HEIGHT: i64 = 0x4000;

pub const MAX_ASPECT: i64 = 0x4000;

pub const MAX_FOCUS: i64 = 0x4_0000;

/// The camera's backward axis: from the target to the eye.
pub open spec fn view_w(look_from: Triple, look_at: Triple) -> Triple {
    unit3(sub3(look_from, look_at))
}

/// The camera's unnormalized right axis: `up x w`.
pub open spec fn view_right(look_from: Triple, look_at: Triple, v_up: Triple) -> Triple {
    cross_fx(v_up, view_w(look_from, look_at))
}

/// `c` is the camera that `Camera::new` builds from these parameters.
pub open spec fn is_camera_for(
    c: Camera,
    look_from: Vec3,
    look_at: Triple,
    v_up: Triple,
    half_height: int,
    aspect_ratio: int,
    aperture: int,
    focus_distance: int,
) -> bool {
    &&& c.origin == look_from
    &&& c.w@ == view_w(look_from@, look_at)
    &&& c.u@ == unit3(view_right(look_from@, look_at, v_up))
    &&& c.v@ == cross_fx(c.w@, c.u@)
    &&& c.horizontal@ == scale3(fx_mul(focus_distance, fx_mul(aspect_ratio, 2 * half_height)), c.u@)
    &&& c.vertical@ == scale3(fx_mul(focus_distance, 2 * half_height), c.v@)
    &&& c.lower_left_corner@ == sub3(
        sub3(sub3(look_from@, scale3(SCALE / 2, c.horizontal@)), scale3(SCALE / 2, c.vertical@)),
        scale3(focus_distance, c.w@),
    )
    &&& c.lens_radius == aperture / 2
}

impl Camera {
    /// A camera at `look_from` facing `look_at`, with `v_up` giving the
    /// upward direction. `half_height` is the tangent of half the vertical
    /// field of view; the image plane sits at `focus_distance` and the lens
    /// has diameter `aperture`. All values are fixed point.
    pub fn new(
        look_from: Vec3,
        look_at: Vec3,
        v_up: Vec3,
        half_height: i64,
        aspect_ratio: i64,
        aperture: i64,
        focus_distance: i64,
    ) -> (c: Camera)
        requires
            within3(look_from@, CAMERA_LIMIT / 2),
            within3(look_at@, CAMERA_LIMIT / 2),
            within3(v_up@, 4 * SCALE),
            dot3(sub3(look_from@, look_at@), sub3(look_from@, look_at@)) > 0,
            dot3(view_right(look_from@, look_at@, v_up@), view_right(look_from@, look_at@, v_up@)) > 0,
            0 <= half_height <= MAX_HALF_HEIGHT,
            0 <= aspect_ratio <= MAX_ASPECT,
            0 <= aperture <= CAMERA_LIMIT,
            0 <= focus_distance <= MAX_FOCUS,
        ensures
            camera_wf(c),
            is_camera_for(c, look_from, look_at@, v_up@, half_height as int, aspect_ratio as int, aperture as int, focus_distance as int),
    {
        let view_height: i64 = 2 * half_height;
        proof {
            crate::vector::lemma_fx_mul_bound(aspect_ratio as int, view_height as int, MAX_ASPECT as int, 2 * MAX_HALF_HEIGHT, 0x2_0000);
        }
        let view_width: i64 = crate::vector::mul_fixed(aspect_ratio, view_height);
        proof {
            assert(aspect_ratio * view_height >= 0) by (nonlinear_arith)
                requires
                    aspect_ratio >= 0,
                    view_height >= 0,
            ;
            vstd::arithmetic::div_mod::lemma_div_pos_is_pos(view_height * aspect_ratio, SCALE as int);
            assert(view_height * aspect_ratio == aspect_ratio * view_height) by (nonlinear_arith);
        }
        let w = look_from.sub(look_at).unit();
        let right = Vec3::cross(v_up, w);
        proof {
            lemma_cross_bound(v_up@, w@, 4 * SCALE, SCALE as int);
        }
        let u = right.unit();
        proof {
            lemma_cross_bound(w@, u@, SCALE as int, SCALE as int);
        }
        let v = Vec3::cross(w, u);
        proof {
            crate::vector::lemma_fx_mul_bound(focus_distance as int, view_width as int, MAX_FOCUS as int, 0x2_0000, 0x80_0000);
            crate::vector::lemma_fx_mul_bound(focus_distance as int, view_height as int, MAX_FOCUS as int, 2 * MAX_HALF_HEIGHT, 0x20_0000);
        }
        let hs: i64 = crate::vector::mul_fixed(focus_distance, view_width);
        let vs: i64 = crate::vector::mul_fixed(focus_distance, view_height);
        proof {
            lemma_scale_within(hs as int, u@, 0x80_0000, SCALE as int, 0x80_0000);
            lemma_scale_within(vs as int, v@, 0x20_0000, 2 * SCALE, 0x40_0000);
        }
        let horizontal = u.scale(hs);
        let vertical = v.scale(vs);
        proof {
            lemma_scale_within(SCALE / 2, horizontal@, SCALE / 2, 0x80_0000, 0x40_0000);
            lemma_scale_within(SCALE / 2, vertical@, SCALE / 2, 0x40_0000, 0x20_0000);
            lemma_scale_within(focus_distance as int, w@, MAX_FOCUS as int, SCALE as int, MAX_FOCUS as int);
        }
        let lower_left_corner = look_from.sub(horizontal.scale(SCALE / 2)).sub(vertical.scale(SCALE / 2)).sub(
            w.scale(focus_distance),
        );
        Camera {
            origin: look_from,
            lower_left_corner,
            horizontal,
            vertical,
            u,
            v,
            w,
            lens_radius: aperture / 2,
        }
    }

    /// `Camera::new` where its conditions hold, `None` where they do not.
    pub fn try_new(
        look_from: Vec3,
        look_at: Vec3,
        v_up: Vec3,
        half_height: i64,
        aspect_ratio: i64,
        aperture: i64,
        focus_distance: i64,
    ) -> (c: Option<Camera>)
        ensures
            c is Some <==> {
                &&& within3(look_from@, CAMERA_LIMIT / 2)
                &&& within3(look_at@, CAMERA_LIMIT / 2)
                &&& within3(v_up@, 4 * SCALE)
                &&& dot3(sub3(look_from@, look_at@), sub3(look_from@, look_at@)) > 0
                &&& dot3(view_right(look_from@, look_at@, v_up@), view_right(look_from@, look_at@, v_up@)) > 0
                &&& 0 <= half_height <= MAX_HALF_HEIGHT
                &&& 0 <= aspect_ratio <= MAX_ASPECT
                &&& 0 <= aperture <= CAMERA_LIMIT
                &&& 0 <= focus_distance <= MAX_FOCUS
            },
            c matches Some(cam) ==> camera_wf(cam) && is_camera_for(
                cam,
                look_from,
                look_at@,
                v_up@,
                half_height as int,
                aspect_ratio as int,
                aperture as int,
                focus_distance as int,
            ),
    {
        let lim = CAMERA_LIMIT / 2;
        if !(in_cube(look_from, lim) && in_cube(look_at, lim) && in_cube(v_up, 4 * SCALE)) {
            return None;
        }
        if !(0 <= half_height && half_height <= MAX_HALF_HEIGHT && 0 <= aspect_ratio && aspect_ratio
            <= MAX_ASPECT && 0 <= aperture && aperture <= CAMERA_LIMIT && 0 <= focus_distance
            && focus_distance <= MAX_FOCUS) {
            return None;
        }
        let back = look_from.sub(look_at);
        if back.len_sqr() == 0 {
            return None;
        }
        let w = back.unit();
        let right = Vec3::cross(v_up, w);
        proof {
            lemma_cross_bound(v_up@, w@, 4 * SCALE, SCALE as int);
        }
        if right.len_sqr() == 0 {
            return None;
        }
        Some(Camera::new(look_from, look_at, v_up, half_height, aspect_ratio, aperture, focus_distance))
    }

    /// The ray through image position `(s, t)` that leaves the lens at the
    /// point `disk` of the unit disk.
    pub fn get_ray_with(&self, s: i64, t: i64, disk: Vec3) -> (r: Ray)
        requires
            camera_wf(*self),
            0 <= s <= 2 * SCALE,
            0 <= t <= 2 * SCALE,
            within3(disk@, SCALE as int),
        ensures
            r.origin@ == camera_origin(*self, disk@),
            r.direction@ == camera_direction(*self, s as int, t as int, disk@),
            ray_wf(r),
    {
        proof {
            lemma_scale_within(self.lens_radius as int, disk@, CAMERA_LIMIT as int, SCALE as int, CAMERA_LIMIT as int);
        }
        let rd = disk.scale(self.lens_radius);
        proof {
            lemma_scale_within(rd.0 as int, self.u@, CAMERA_LIMIT as int, 2 * SCALE, 2 * CAMERA_LIMIT);
            lemma_scale_within(rd.1 as int, self.v@, CAMERA_LIMIT as int, 2 * SCALE, 2 * CAMERA_LIMIT);
            lemma_scale_within(s as int, self.horizontal@, 2 * SCALE, CAMERA_LIMIT as int, 2 * CAMERA_LIMIT);
            lemma_scale_within(t as int, self.vertical@, 2 * SCALE, CAMERA_LIMIT as int, 2 * CAMERA_LIMIT);
        }
        let offset = self.u.scale(rd.0).add(self.v.scale(rd.1));
        let origin = self.origin.add(offset);
        let direction = self.lower_left_corner.add(self.horizontal.scale(s)).add(self.vertical.scale(t)).sub(
            self.origin,
        ).sub(offset);
        Ray { origin, direction }
    }

    /// The ray through image position `(s, t)` from a random point of the lens.
    pub fn get_ray(&self, s: i64, t: i64, rng: &mut StdRng) -> (r: Ray)
        requires
            camera_wf(*self),
            0 <= s <= 2 * SCALE,
            0 <= t <= 2 * SCALE,
        ensures
            ray_wf(r),
            exists|disk: Triple|
                disk.2 == 0 && dot3(disk, disk) <= SCALE * SCALE && within3(disk, SCALE as int)
                    && r.origin@ == camera_origin(*self, disk) && r.direction@ == #[trigger] camera_direction(
                    *self,
                    s as int,
                    t as int,
                    disk,
                ),
    {
        let disk = Vec3::random_unit_disk(rng);
        self.get_ray_with(s, t, disk)
    }
}

/// Whether every component of `p` lies in `[-b, b]`.
fn in_cube(p: Vec3, b: i64) -> (ok: bool)
    requires
        b >= 0,
    ensures
        ok == within3(p@, b as int),
{
    -b <= p.0 && p.0 <= b && -b <= p.1 && p.1 <= b && -b <= p.2 && p.2 <= b
}

/// Dividing by `SCALE` towards zero shrinks a bound by `SCALE`.
proof fn lemma_trunc_bound(x: int, b: int)
    requires
        -b <= x <= b,
    ensures
        b <= SCALE * SCALE ==> -SCALE <= crate::vector::div_trunc(x) <= SCALE,
        b <= 2 * SCALE * SCALE ==> -2 * SCALE <= crate::vector::div_trunc(x) <= 2 * SCALE,
        b <= 8 * SCALE * SCALE ==> -8 * SCALE <= crate::vector::div_trunc(x) <= 8 * SCALE,
{
    let s = SCALE as int;
    let m = if x >= 0 { x } else { -x };
    vstd::arithmetic::div_mod::lemma_div_pos_is_pos(m, s);
    if b <= 8 * s * s {
        vstd::arithmetic::div_mod::lemma_div_is_ordered(m, 8 * s * s, s);
        vstd::arithmetic::div_mod::lemma_div_multiples_vanish(8 * s, s);
        assert(8 * s * s == s * (8 * s)) by (nonlinear_arith);
    }
    if b <= 2 * s * s {
        vstd::arithmetic::div_mod::lemma_div_is_ordered(m, 2 * s * s, s);
        vstd::arithmetic::div_mod::lemma_div_multiples_vanish(2 * s, s);
        assert(2 * s * s == s * (2 * s)) by (nonlinear_arith);
    }
    if b <= s * s {
        vstd::arithmetic::div_mod::lemma_div_is_ordered(m, s * s, s);
        vstd::arithmetic::div_mod::lemma_div_multiples_vanish(s, s);
    }
}

/// The components of a cross product of bounded vectors are bounded.
proof fn lemma_cross_bound(a: Triple, b: Triple, x: int, y: int)
    requires
        within3(a, x),
        within3(b, y),
        x >= 0,
        y >= 0,
    ensures
        within3(cross3(a, b), 2 * (x * y)),
        x * y <= SCALE * SCALE ==> within3(cross_fx(a, b), 2 * SCALE),
        x * y <= 4 * SCALE * SCALE ==> within3(cross_fx(a, b), 8 * SCALE),
{
    crate::vector::lemma_mixed_product_bound(a.1, b.2, x, y);
    crate::vector::lemma_mixed_product_bound(a.2, b.1, x, y);
    crate::vector::lemma_mixed_product_bound(a.2, b.0, x, y);
    crate::vector::lemma_mixed_product_bound(a.0, b.2, x, y);
    crate::vector::lemma_mixed_product_bound(a.0, b.1, x, y);
    crate::vector::lemma_mixed_product_bound(a.1, b.0, x, y);
    lemma_trunc_bound(cross3(a, b).0, 2 * (x * y));
    lemma_trunc_bound(cross3(a, b).1, 2 * (x * y));
    lemma_trunc_bound(cross3(a, b).2, 2 * (x * y));
}

} // verus!
