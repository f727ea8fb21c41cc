//! Spheres, hit records and the nearest hit over a list of spheres.
use vstd::prelude::*;
use crate::arith::{div_floor, isqrt, sqrt_floor};
use crate::aabb::{AABB, strictly_inside, ray_wf, grow, ray_pad, ray_pad_of, geometry_box, RAY_MARGIN};
use crate::vector::{
    Vec3, Ray, Triple, sub3, neg3, dot3, at3, unit3, within3,
    lemma_dot_bound, lemma_mixed_product_bound, lemma_square_sum_nonneg, SCALE, WORLD};

verus! {

/// The smallest accepted ray parameter (fixed point), against self-intersection.
pub const T_MIN: i64 = 1;

/// Padding added around a sphere's bounding box, so that the box encloses
/// every grid point within one unit of the sphere.
pub const BOX_PAD: i64 = 2;

/// The result of a ray meeting a surface.
#[derive(Clone, Copy, Debug, PartialEq, Eq, Structural)]
pub struct Hit {
    pub point: Vec3,
    pub normal: Vec3,
    pub t: i64,
    pub front_face: bool,
    /// Index of the surface's material in the scene's material list.
    pub material: usize,
}

/// A sphere with a material from the scene's material list.
#[derive(Clone, Copy, Debug, PartialEq, Eq, Structural)]
pub struct Sphere {
    pub center: Vec3,
    pub radius: i64,
    pub material: usize,
}

/// The radius is positive and the padded bounding box lies inside the
/// coordinate range with room to be widened by `RAY_MARGIN`.
pub open spec fn sphere_wf(s: Sphere) -> bool {
    &&& s.radius > 0
    &&& within3(s.center@, WORLD - RAY_MARGIN - s.radius - BOX_PAD)
}

/// The sphere's bounding box, padded by `BOX_PAD` on every side.
pub open spec fn sphere_box(s: Sphere) -> AABB {
    let e = s.radius + BOX_PAD;
    AABB {
        min: Vec3((s.center.0 - e) as i64, (s.center.1 - e) as i64, (s.center.2 - e) as i64),
        max: Vec3((s.center.0 + e) as i64, (s.center.1 + e) as i64, (s.center.2 + e) as i64),
    }
}

pub open spec fn sphere_oc(s: Sphere, r: Ray) -> Triple {
    sub3(r.origin@, s.center@)
}

/// `|oc|^2 - radius^2`: the constant term of the quadratic.
pub open spec fn sphere_c(s: Sphere, r: Ray) -> int {
    dot3(sphere_oc(s, r), sphere_oc(s, r)) - s.radius * s.radius
}

/// The discriminant `(oc . d)^2 - |d|^2 (|oc|^2 - radius^2)`.
pub open spec fn discriminant(s: Sphere, r: Ray) -> int {
    let hb = dot3(sphere_oc(s, r), r.direction@);
    hb * hb - dot3(r.direction@, r.direction@) * sphere_c(s, r)
}

/// The smaller (`far == false`) or larger root of the quadratic, in fixed
/// point, rounded down.
pub open spec fn sphere_root(s: Sphere, r: Ray, far: bool) -> int {
    let hb = dot3(sphere_oc(s, r), r.direction@);
    let root = sqrt_floor(discriminant(s, r));
    let num = if far { -hb + root } else { -hb - root };
    (num * SCALE) / dot3(r.direction@, r.direction@)
}

/// The box that a hit point of the sphere along `r` lies in: the padded
/// box widened by how far rounding the parameter can move a point.
pub open spec fn hit_box(s: Sphere, r: Ray) -> AABB {
    grow(sphere_box(s), ray_pad(r))
}

/// A root counts when it lies in `(t_min, t_max)` and its point lies
/// strictly inside `hit_box`. The exact roots' points lie on the sphere, so
/// this only rejects roots that rounding has moved off it.
pub open spec fn root_ok(s: Sphere, r: Ray, t_min: int, t_max: int, t: int) -> bool {
    t_min < t < t_max && strictly_inside(hit_box(s, r), at3(r, t))
}

/// The parameter of the sphere's hit: the smaller root that counts, if any.
/// A ray with a zero direction, or one that misses or only touches the
/// sphere (discriminant not positive), has none.
pub open spec fn sphere_hit_t(s: Sphere, r: Ray, t_min: int, t_max: int) -> Option<int> {
    if dot3(r.direction@, r.direction@) == 0 || discriminant(s, r) <= 0 {
        None
    } else if root_ok(s, r, t_min, t_max, sphere_root(s, r, false)) {
        Some(sphere_root(s, r, false))
    } else if root_ok(s, r, t_min, t_max, sphere_root(s, r, true)) {
        Some(sphere_root(s, r, true))
    } else {
        None
    }
}

/// The outward normal at `p`: the unit vector from the center to `p`
/// (zero if `p` is the center).
pub open spec fn outward_normal(s: Sphere, p: Triple) -> Triple {
    let rel = sub3(p, s.center@);
    if rel == (0int, 0int, 0int) { rel } else { unit3(rel) }
}

pub open spec fn to_vec(u: Triple) -> Vec3 {
    Vec3(u.0 as i64, u.1 as i64, u.2 as i64)
}

/// The ray hits the front of a surface when it runs against the normal.
pub open spec fn faces_front(r: Ray, outward: Triple) -> bool {
    dot3(r.direction@, outward) < 0
}

/// The hit record of the sphere at parameter `t`: the point, the normal
/// turned against the ray, and which side was hit.
pub open spec fn hit_record(s: Sphere, r: Ray, t: int) -> Hit {
    let p = at3(r, t);
    let n = outward_normal(s, p);
    let front = faces_front(r, n);
    Hit {
        point: to_vec(p),
        normal: if front { to_vec(n) } else { to_vec(neg3(n)) },
        t: t as i64,
        front_face: front,
        material: s.material,
    }
}

/// The parameter of an optional hit.
pub open spec fn hit_t(h: Option<Hit>) -> Option<int> {
    match h {
        Some(h) => Some(h.t as int),
        None => None,
    }
}

/// The smaller of two optional parameters.
pub open spec fn opt_min(a: Option<int>, b: Option<int>) -> Option<int> {
    match (a, b) {
        (Some(x), Some(y)) => Some(if y < x { y } else { x }),
        (Some(x), None) => Some(x),
        (None, Some(y)) => Some(y),
        (None, None) => None,
    }
}

/// The parameter of the nearest hit over a list of spheres.
pub open spec fn nearest_t(objs: Seq<Sphere>, r: Ray, t_min: int, t_max: int) -> Option<int>
    decreases objs.len(),
{
    if objs.len() == 0 {
        None
    } else {
        opt_min(
            nearest_t(objs.drop_last(), r, t_min, t_max),
            sphere_hit_t(objs.last(), r, t_min, t_max),
        )
    }
}

/// `h` is the record of the first sphere of the list hit at `h.t`: no
/// earlier sphere is hit at `h.t` or closer.
pub open spec fn is_first_hit_of(objs: Seq<Sphere>, r: Ray, t_min: int, t_max: int, h: Hit) -> bool {
    exists|j: int|
        0 <= j < objs.len() && sphere_hit_t(#[trigger] objs[j], r, t_min, t_max) == Some(h.t as int)
            && h == hit_record(objs[j], r, h.t as int) && forall|k: int|
            0 <= k < j ==> !(sphere_hit_t(#[trigger] objs[k], r, t_min, t_max) matches Some(x) && x <= h.t)
}

/// `h` is the record of a hit, at its own parameter, of one of the spheres.
pub open spec fn is_hit_of(objs: Seq<Sphere>, r: Ray, t_min: int, t_max: int, h: Hit) -> bool {
    exists|j: int|
        0 <= j < objs.len() && sphere_hit_t(#[trigger] objs[j], r, t_min, t_max) == Some(h.t as int)
            && h == hit_record(objs[j], r, h.t as int)
}

pub open spec fn all_spheres_wf(objs: Seq<Sphere>) -> bool {
    forall|i: int| 0 <= i < objs.len() ==> #[trigger] sphere_wf(objs[i])
}

/// Which side of the surface the ray meets, and the normal turned against it.
pub fn get_face_normal(r: &Ray, outward_normal: Vec3) -> (res: (bool, Vec3))
    requires
        within3(r.direction@, WORLD as int),
        within3(outward_normal@, 2 * SCALE),
    ensures
        res.0 == faces_front(*r, outward_normal@),
        res.1@ == if res.0 { outward_normal@ } else { neg3(outward_normal@) },
{
    let front_face = Vec3::dot(r.direction, outward_normal) < 0;
    let normal = if front_face {
        outward_normal
    } else {
        outward_normal.neg()
    };
    (front_face, normal)
}

/// The point at `t` without the `i64` bound, for testing against a box first.
fn point_at(r: &Ray, t: i64) -> (p: (i128, i128, i128))
    requires
        ray_wf(*r),
    ensures
        (p.0 as int, p.1 as int, p.2 as int) == at3(*r, t as int),
{
    proof {
        lemma_mixed_product_bound(t as int, r.direction.0 as int, 0x8000_0000_0000_0000, WORLD as int);
        lemma_mixed_product_bound(t as int, r.direction.1 as int, 0x8000_0000_0000_0000, WORLD as int);
        lemma_mixed_product_bound(t as int, r.direction.2 as int, 0x8000_0000_0000_0000, WORLD as int);
    }
    let dx = div_floor(t as i128 * r.direction.0 as i128, SCALE as i128);
    let dy = div_floor(t as i128 * r.direction.1 as i128, SCALE as i128);
    let dz = div_floor(t as i128 * r.direction.2 as i128, SCALE as i128);
    proof {
        vstd::arithmetic::div_mod::lemma_div_is_ordered(t as int * r.direction.0 as int, 0x8000_0000_0000_0000 * WORLD as int, SCALE as int);
        vstd::arithmetic::div_mod::lemma_div_is_ordered(-(0x8000_0000_0000_0000 * WORLD as int), t as int * r.direction.0 as int, SCALE as int);
        vstd::arithmetic::div_mod::lemma_div_is_ordered(t as int * r.direction.1 as int, 0x8000_0000_0000_0000 * WORLD as int, SCALE as int);
        vstd::arithmetic::div_mod::lemma_div_is_ordered(-(0x8000_0000_0000_0000 * WORLD as int), t as int * r.direction.1 as int, SCALE as int);
        vstd::arithmetic::div_mod::lemma_div_is_ordered(t as int * r.direction.2 as int, 0x8000_0000_0000_0000 * WORLD as int, SCALE as int);
        vstd::arithmetic::div_mod::lemma_div_is_ordered(-(0x8000_0000_0000_0000 * WORLD as int), t as int * r.direction.2 as int, SCALE as int);
    }
    (r.origin.0 as i128 + dx, r.origin.1 as i128 + dy, r.origin.2 as i128 + dz)
}

impl Sphere {
    /// The sphere's padded bounding box.
    pub fn bounding_box(&self) -> (b: AABB)
        requires
            sphere_wf(*self),
        ensures
            b == sphere_box(*self),
            geometry_box(b),
    {
        let e = self.radius + BOX_PAD;
        AABB {
            min: Vec3(self.center.0 - e, self.center.1 - e, self.center.2 - e),
            max: Vec3(self.center.0 + e, self.center.1 + e, self.center.2 + e),
        }
    }

    /// Whether the root `t` counts (see `root_ok`).
    fn root_counts(&self, r: &Ray, t_min: i64, t_max: i64, t: i128) -> (ok: bool)
        requires
            sphere_wf(*self),
            ray_wf(*r),
        ensures
            ok == root_ok(*self, *r, t_min as int, t_max as int, t as int),
    {
        if !((t_min as i128) < t && t < (t_max as i128)) {
            return false;
        }
        let p = point_at(r, t as i64);
        let b = self.bounding_box().grow(ray_pad_of(r));
        (b.min.0 as i128) < p.0 && p.0 < (b.max.0 as i128) && (b.min.1 as i128) < p.1 && p.1 < (
            b.max.1 as i128) && (b.min.2 as i128) < p.2 && p.2 < (b.max.2 as i128)
    }

    /// The record of the hit at a root that counts.
    fn record_at(&self, r: &Ray, t: i64) -> (h: Hit)
        requires
            sphere_wf(*self),
            ray_wf(*r),
            strictly_inside(hit_box(*self, *r), at3(*r, t as int)),
        ensures
            h == hit_record(*self, *r, t as int),
            within3(h.normal@, 2 * SCALE),
            within3(h.point@, WORLD as int),
    {
        let p = point_at(r, t);
        let point = Vec3(p.0 as i64, p.1 as i64, p.2 as i64);
        let rel = point.sub(self.center);
        let outward = if rel.0 == 0 && rel.1 == 0 && rel.2 == 0 {
            rel
        } else {
            proof {
                crate::vector::lemma_square_sum_nonneg(rel@);
                assert(rel.0 * rel.0 > 0 || rel.1 * rel.1 > 0 || rel.2 * rel.2 > 0) by (nonlinear_arith)
                    requires
                        rel.0 != 0 || rel.1 != 0 || rel.2 != 0,
                ;
            }
            rel.unit()
        };
        let (front_face, normal) = get_face_normal(r, outward);
        Hit { point, normal, t, front_face, material: self.material }
    }

    /// The nearest hit of the ray with the sphere in `(t_min, t_max)`.
    pub fn hit(&self, r: &Ray, t_min: i64, t_max: i64) -> (res: Option<Hit>)
        requires
            sphere_wf(*self),
            ray_wf(*r),
        ensures
            hit_t(res) == sphere_hit_t(*self, *r, t_min as int, t_max as int),
            res matches Some(h) ==> h == hit_record(*self, *r, h.t as int),
            res matches Some(h) ==> within3(h.normal@, 2 * SCALE) && within3(h.point@, WORLD as int),
    {
        let oc = r.origin.sub(self.center);
        let d = r.direction;
        proof {
            lemma_square_sum_nonneg(d@);
            lemma_dot_bound(d@, d@, WORLD as int, WORLD as int);
            lemma_dot_bound(oc@, d@, 2 * WORLD, WORLD as int);
            lemma_dot_bound(oc@, oc@, 2 * WORLD, 2 * WORLD);
            lemma_mixed_product_bound(self.radius as int, self.radius as int, WORLD as int, WORLD as int);
        }
        let a: i128 = Vec3::dot(d, d);
        let hf_b: i128 = Vec3::dot(oc, d);
        let c: i128 = Vec3::dot(oc, oc) - self.radius as i128 * self.radius as i128;
        proof {
            lemma_mixed_product_bound(hf_b as int, hf_b as int, 0x1000_0000_0000_0000, 0x1000_0000_0000_0000);
            lemma_mixed_product_bound(a as int, c as int, 0x1000_0000_0000_0000, 0x1000_0000_0000_0000);
        }
        let discriminant: i128 = hf_b * hf_b - a * c;
        if a == 0 || discriminant <= 0 {
            return None;
        }
        let rt: u128 = isqrt(discriminant as u128);
        proof {
            assert(rt * rt <= discriminant);
            if rt > 0x2000_0000_0000_0000 {
                assert(rt * rt > 0x2000_0000_0000_0000 * 0x2000_0000_0000_0000) by (nonlinear_arith)
                    requires
                        rt > 0x2000_0000_0000_0000,
                ;
            }
        }
        let root = rt as i128;
        proof {
            lemma_mixed_product_bound(-hf_b - root, SCALE as int, 0x8000_0000_0000_0000, SCALE as int);
            lemma_mixed_product_bound(-hf_b + root, SCALE as int, 0x8000_0000_0000_0000, SCALE as int);
        }
        let near = div_floor((-hf_b - root) * SCALE as i128, a);
        if self.root_counts(r, t_min, t_max, near) {
            return Some(self.record_at(r, near as i64));
        }
        let far = div_floor((-hf_b + root) * SCALE as i128, a);
        if self.root_counts(r, t_min, t_max, far) {
            return Some(self.record_at(r, far as i64));
        }
        None
    }
}

/// Of the two roots, the smaller one comes first.
pub proof fn lemma_roots_ordered(s: Sphere, r: Ray)
    requires
        dot3(r.direction@, r.direction@) > 0,
        discriminant(s, r) > 0,
    ensures
        sphere_root(s, r, false) <= sphere_root(s, r, true),
{
    let hb = dot3(sphere_oc(s, r), r.direction@);
    let root = sqrt_floor(discriminant(s, r));
    crate::arith::lemma_sqrt_floor_exists(discriminant(s, r));
    assert((-hb - root) * SCALE <= (-hb + root) * SCALE) by (nonlinear_arith)
        requires
            root >= 0,
    ;
    vstd::arithmetic::div_mod::lemma_div_is_ordered(
        (-hb - root) * SCALE,
        (-hb + root) * SCALE,
        dot3(r.direction@, r.direction@),
    );
}

/// A ray from outside a sphere aimed at its center (`direction = center -
/// origin`) meets the sphere twice: the discriminant is positive, and the
/// first root lies ahead of the origin and no later than the center, which
/// the ray reaches at `t = 1`.
pub proof fn lemma_aimed_ray_roots(s: Sphere, r: Ray)
    requires
        r.direction@ == sub3(s.center@, r.origin@),
        dot3(r.direction@, r.direction@) > s.radius * s.radius,
        s.radius > 0,
    ensures
        discriminant(s, r) > 0,
        0 <= sphere_root(s, r, false) <= SCALE,
        sphere_root(s, r, false) <= sphere_root(s, r, true),
{
    let d = r.direction@;
    let a = dot3(d, d);
    let oc = sphere_oc(s, r);
    let rr = s.radius * s.radius;
    assert(oc == neg3(d));
    assert(dot3(oc, d) == -a) by (nonlinear_arith)
        requires
            oc == neg3(d),
            a == dot3(d, d),
    ;
    assert(dot3(oc, oc) == a) by (nonlinear_arith)
        requires
            oc == neg3(d),
            a == dot3(d, d),
    ;
    assert(rr > 0) by (nonlinear_arith)
        requires
            s.radius > 0,
            rr == s.radius * s.radius,
    ;
    assert(discriminant(s, r) == a * rr) by (nonlinear_arith)
        requires
            discriminant(s, r) == (-a) * (-a) - a * (a - rr),
    ;
    assert(a * rr > 0) by (nonlinear_arith)
        requires
            a > rr,
            rr > 0,
    ;
    let q = sqrt_floor(a * rr);
    crate::arith::lemma_sqrt_floor_exists(a * rr);
    assert(q < a) by (nonlinear_arith)
        requires
            q * q <= a * rr,
            a > rr,
            rr > 0,
            q >= 0,
    ;
    assert(0 <= (a - q) * SCALE <= a * SCALE) by (nonlinear_arith)
        requires
            0 <= q < a,
    ;
    vstd::arithmetic::div_mod::lemma_div_pos_is_pos((a - q) * SCALE, a);
    vstd::arithmetic::div_mod::lemma_div_is_ordered((a - q) * SCALE, a * SCALE, a);
    vstd::arithmetic::div_mod::lemma_div_multiples_vanish(SCALE as int, a);
    assert(a * SCALE == SCALE * a) by (nonlinear_arith);
    assert(-dot3(oc, d) - q == a - q);
    lemma_roots_ordered(s, r);
}

/// A ray from outside a sphere aimed at its center hits it at the first
/// root, as long as that root lies in `(t_min, t_max)`.
pub proof fn lemma_aimed_ray_hits(s: Sphere, r: Ray, t_min: int, t_max: int)
    requires
        r.direction@ == sub3(s.center@, r.origin@),
        dot3(r.direction@, r.direction@) > s.radius * s.radius,
        s.radius > 0,
        ray_wf(r),
        sphere_wf(s),
        t_min < sphere_root(s, r, false) < t_max,
    ensures
        sphere_hit_t(s, r, t_min, t_max) == Some(sphere_root(s, r, false)),
{
    lemma_aimed_ray_roots(s, r);
    let d = r.direction@;
    let a = dot3(d, d);
    let rr = s.radius * s.radius;
    let oc = sphere_oc(s, r);
    assert(dot3(oc, d) == -a) by (nonlinear_arith)
        requires
            oc == neg3(d),
            a == dot3(d, d),
    ;
    assert(dot3(oc, oc) == a) by (nonlinear_arith)
        requires
            oc == neg3(d),
            a == dot3(d, d),
    ;
    assert(discriminant(s, r) == a * rr) by (nonlinear_arith)
        requires
            discriminant(s, r) == (-a) * (-a) - a * (a - rr),
    ;
    let q = sqrt_floor(a * rr);
    crate::arith::lemma_sqrt_floor_exists(a * rr);
    let t1 = sphere_root(s, r, false);
    assert(t1 == ((a - q) * SCALE) / a);
    lemma_square_sum_nonneg(d);
    assert(rr > 0) by (nonlinear_arith)
        requires
            s.radius > 0,
            rr == s.radius * s.radius,
    ;
    assert(q < a) by (nonlinear_arith)
        requires
            q * q <= a * rr,
            a > rr,
            rr > 0,
            q >= 0,
    ;
    lemma_aimed_axis(d.0, a, q, s.radius as int, t1);
    lemma_aimed_axis(d.1, a, q, s.radius as int, t1);
    lemma_aimed_axis(d.2, a, q, s.radius as int, t1);
    assert(strictly_inside(hit_box(s, r), at3(r, t1)));
}

/// On one axis, the point at the first root of an aimed ray lies within the
/// radius plus the padding of `hit_box` of the center.
proof fn lemma_aimed_axis(di: int, a: int, q: int, rad: int, t1: int)
    requires
        di * di <= a,
        0 <= q < a,
        q * q <= a * (rad * rad),
        rad > 0,
        t1 == ((a - q) * SCALE) / a,
    ensures
        -rad - BOX_PAD - (crate::aabb::abs_i(di) / (SCALE as int) + 2) < (t1 * di) / (SCALE as int) - di,
        (t1 * di) / (SCALE as int) - di < rad + BOX_PAD + (crate::aabb::abs_i(di) / (SCALE as int) + 2),
{
    let s = SCALE as int;
    let num = (a - q) * s;
    vstd::arithmetic::div_mod::lemma_fundamental_div_mod(num, a);
    let rem = num % a;
    assert(num == a * t1 + rem && 0 <= rem < a);
    assert(a * t1 <= a * s) by (nonlinear_arith)
        requires
            a * t1 + rem == (a - q) * s,
            rem >= 0,
            q >= 0,
            s > 0,
    ;
    assert(t1 <= s) by (nonlinear_arith)
        requires
            a * t1 <= a * s,
            a > 0,
    ;
    assert((a - q) * s >= 0) by (nonlinear_arith)
        requires
            q < a,
            s > 0,
    ;
    assert(a * t1 > -a);
    assert(t1 >= 0) by (nonlinear_arith)
        requires
            a * t1 > -a,
            a > 0,
    ;
    let e = crate::aabb::abs_i(di);
    assert(e * e <= a) by (nonlinear_arith)
        requires
            di * di <= a,
            e == di || e == -di,
    ;
    assert((q * e) * (q * e) <= (a * rad) * (a * rad)) by (nonlinear_arith)
        requires
            q * q <= a * (rad * rad),
            e * e <= a,
            q >= 0,
            e >= 0,
            a > 0,
    ;
    assert(q * e <= a * rad) by (nonlinear_arith)
        requires
            (q * e) * (q * e) <= (a * rad) * (a * rad),
            q >= 0,
            e >= 0,
            a > 0,
            rad > 0,
    ;
    let g = e / s;
    vstd::arithmetic::div_mod::lemma_fundamental_div_mod(e, s);
    assert(e < (g + 1) * s) by (nonlinear_arith)
        requires
            e == s * g + e % s,
            e % s < s,
    ;
    let f = (t1 * di) / s;
    vstd::arithmetic::div_mod::lemma_fundamental_div_mod(t1 * di, s);
    let fr = (t1 * di) % s;
    assert(t1 * di == s * f + fr && 0 <= fr < s);
    assert(a * t1 > (a - q) * s - a);
    if di >= 0 {
        assert(t1 * di <= s * di) by (nonlinear_arith)
            requires
                t1 <= s,
                di >= 0,
        ;
        assert(a * (t1 * e) >= a * (s * e - rad * s - e)) by (nonlinear_arith)
            requires
                a * t1 > (a - q) * s - a,
                e >= 0,
                q * e <= a * rad,
                s > 0,
        ;
        assert(t1 * e >= s * e - rad * s - e) by (nonlinear_arith)
            requires
                a * (t1 * e) >= a * (s * e - rad * s - e),
                a > 0,
        ;
        assert(f <= di) by (nonlinear_arith)
            requires
                t1 * di <= s * di,
                t1 * di == s * f + fr,
                fr >= 0,
                s > 0,
        ;
        assert(f > di - rad - g - 2) by (nonlinear_arith)
            requires
                t1 * di >= s * di - rad * s - di,
                e == di,
                e < (g + 1) * s,
                t1 * di == s * f + fr,
                fr < s,
                s > 0,
        ;
    } else {
        assert(t1 * di >= s * di) by (nonlinear_arith)
            requires
                t1 <= s,
                di < 0,
        ;
        assert(a * (t1 * e) > a * (s * e - rad * s - e)) by (nonlinear_arith)
            requires
                a * t1 > (a - q) * s - a,
                e > 0,
                q * e <= a * rad,
                s > 0,
        ;
        assert(t1 * e > s * e - rad * s - e) by (nonlinear_arith)
            requires
                a * (t1 * e) > a * (s * e - rad * s - e),
                a > 0,
        ;
        assert(f >= di) by (nonlinear_arith)
            requires
                t1 * di >= s * di,
                t1 * di == s * f + fr,
                fr < s,
                s > 0,
        ;
        assert(f < di + rad + g + 1) by (nonlinear_arith)
            requires
                t1 * e > s * e - rad * s - e,
                e == -di,
                e < (g + 1) * s,
                t1 * di == s * f + fr,
                fr >= 0,
                s > 0,
        ;
    }
}

/// When both roots count, the sphere reports the smaller one.
pub proof fn lemma_smaller_root_wins(s: Sphere, r: Ray, t_min: int, t_max: int)
    requires
        dot3(r.direction@, r.direction@) > 0,
        discriminant(s, r) > 0,
        root_ok(s, r, t_min, t_max, sphere_root(s, r, false)),
        root_ok(s, r, t_min, t_max, sphere_root(s, r, true)),
    ensures
        sphere_hit_t(s, r, t_min, t_max) == Some(sphere_root(s, r, false)),
        sphere_root(s, r, false) <= sphere_root(s, r, true),
{
    lemma_roots_ordered(s, r);
}

/// A ray whose line passes farther from the center than the radius misses:
/// with `a = |d|^2`, the squared distance of the line from the center times
/// `a` is `a |oc|^2 - (oc . d)^2`.
pub proof fn lemma_offset_miss(s: Sphere, r: Ray, t_min: int, t_max: int)
    requires
        ({
            let oc = sphere_oc(s, r);
            let a = dot3(r.direction@, r.direction@);
            let hb = dot3(oc, r.direction@);
            a * dot3(oc, oc) - hb * hb > a * (s.radius * s.radius)
        }),
    ensures
        sphere_hit_t(s, r, t_min, t_max) == None::<int>,
{
    let oc = sphere_oc(s, r);
    let a = dot3(r.direction@, r.direction@);
    let hb = dot3(oc, r.direction@);
    let rr = s.radius * s.radius;
    assert(a * (dot3(oc, oc) - rr) == a * dot3(oc, oc) - a * rr) by (nonlinear_arith);
}

/// Narrowing `t_max` keeps the sphere's hit if it lies below the new bound
/// and loses it otherwise.
pub proof fn lemma_sphere_narrow(s: Sphere, r: Ray, t_min: int, t_max: int, t_new: int)
    requires
        t_new <= t_max,
    ensures
        (sphere_hit_t(s, r, t_min, t_max) matches Some(x) && x < t_new) ==> sphere_hit_t(
            s,
            r,
            t_min,
            t_new,
        ) == sphere_hit_t(s, r, t_min, t_max),
        !(sphere_hit_t(s, r, t_min, t_max) matches Some(x) && x < t_new) ==> sphere_hit_t(
            s,
            r,
            t_min,
            t_new,
        ) == None::<int>,
{
    if dot3(r.direction@, r.direction@) != 0 && discriminant(s, r) > 0 {
        lemma_square_sum_nonneg(r.direction@);
        lemma_roots_ordered(s, r);
    }
}

/// The nearest hit of a prefix grows by one sphere at a time.
proof fn lemma_nearest_step(objs: Seq<Sphere>, k: int, r: Ray, t_min: int, t_max: int)
    requires
        0 <= k < objs.len(),
    ensures
        nearest_t(objs.subrange(0, k + 1), r, t_min, t_max) == opt_min(
            nearest_t(objs.subrange(0, k), r, t_min, t_max),
            sphere_hit_t(objs[k], r, t_min, t_max),
        ),
{
    assert(objs.subrange(0, k + 1).drop_last() =~= objs.subrange(0, k));
}

/// `o` is the nearest hit parameter over `objs`: none of them is hit, or
/// one is hit at `o` and none closer.
pub open spec fn nearest_char(objs: Seq<Sphere>, r: Ray, t_min: int, t_max: int, o: Option<int>) -> bool {
    match o {
        None => forall|i: int|
            0 <= i < objs.len() ==> sphere_hit_t(#[trigger] objs[i], r, t_min, t_max) == None::<int>,
        Some(m) => {
            &&& exists|i: int|
                0 <= i < objs.len() && sphere_hit_t(#[trigger] objs[i], r, t_min, t_max) == Some(m)
            &&& forall|i: int|
                0 <= i < objs.len() ==> (sphere_hit_t(#[trigger] objs[i], r, t_min, t_max) matches Some(
                    x,
                ) ==> m <= x)
        },
    }
}

/// Two lists hold the same spheres (in any order, any number of times).
pub open spec fn same_elems(a: Seq<Sphere>, b: Seq<Sphere>) -> bool {
    forall|x: Sphere| a.contains(x) <==> b.contains(x)
}

/// `nearest_t` is the nearest hit parameter.
pub proof fn lemma_nearest_char(objs: Seq<Sphere>, r: Ray, t_min: int, t_max: int)
    ensures
        nearest_char(objs, r, t_min, t_max, nearest_t(objs, r, t_min, t_max)),
    decreases objs.len(),
{
    if objs.len() > 0 {
        let init = objs.drop_last();
        lemma_nearest_char(init, r, t_min, t_max);
        let last = objs.len() - 1;
        assert forall|i: int| 0 <= i < init.len() implies #[trigger] objs[i] == init[i] by {}
        match nearest_t(init, r, t_min, t_max) {
            Some(m) => {
                let w = choose|i: int|
                    0 <= i < init.len() && sphere_hit_t(#[trigger] init[i], r, t_min, t_max) == Some(m);
                assert(objs[w] == init[w]);
            },
            None => {},
        }
        match nearest_t(objs, r, t_min, t_max) {
            Some(m) => {
                if sphere_hit_t(objs[last], r, t_min, t_max) == Some(m) {
                    assert(0 <= last < objs.len());
                } else {
                    let w = choose|i: int|
                        0 <= i < init.len() && sphere_hit_t(#[trigger] init[i], r, t_min, t_max) == Some(m);
                    assert(objs[w] == init[w]);
                }
                assert forall|i: int| 0 <= i < objs.len() implies (sphere_hit_t(
                    #[trigger] objs[i],
                    r,
                    t_min,
                    t_max,
                ) matches Some(x) ==> m <= x) by {
                    if i < last {
                        assert(objs[i] == init[i]);
                    }
                }
            },
            None => {
                assert forall|i: int| 0 <= i < objs.len() implies sphere_hit_t(
                    #[trigger] objs[i],
                    r,
                    t_min,
                    t_max,
                ) == None::<int> by {
                    if i < last {
                        assert(objs[i] == init[i]);
                    }
                }
            },
        }
    }
}

/// The characterization has one solution.
pub proof fn lemma_char_unique(objs: Seq<Sphere>, r: Ray, t_min: int, t_max: int, o1: Option<int>, o2: Option<int>)
    requires
        nearest_char(objs, r, t_min, t_max, o1),
        nearest_char(objs, r, t_min, t_max, o2),
    ensures
        o1 == o2,
{
    match o1 {
        Some(m1) => {
            let w1 = choose|i: int|
                0 <= i < objs.len() && sphere_hit_t(#[trigger] objs[i], r, t_min, t_max) == Some(m1);
            match o2 {
                Some(m2) => {
                    let w2 = choose|i: int|
                        0 <= i < objs.len() && sphere_hit_t(#[trigger] objs[i], r, t_min, t_max) == Some(m2);
                    assert(sphere_hit_t(objs[w1], r, t_min, t_max) == Some(m1));
                    assert(sphere_hit_t(objs[w2], r, t_min, t_max) == Some(m2));
                },
                None => {
                    assert(sphere_hit_t(objs[w1], r, t_min, t_max) == None::<int>);
                },
            }
        },
        None => {
            match o2 {
                Some(m2) => {
                    let w2 = choose|i: int|
                        0 <= i < objs.len() && sphere_hit_t(#[trigger] objs[i], r, t_min, t_max) == Some(m2);
                    assert(sphere_hit_t(objs[w2], r, t_min, t_max) == None::<int>);
                },
                None => {},
            }
        },
    }
}

/// Lists with the same spheres have the same nearest hit and the same hit
/// records.
pub proof fn lemma_same_elems_nearest(a: Seq<Sphere>, b: Seq<Sphere>, r: Ray, t_min: int, t_max: int)
    requires
        same_elems(a, b),
    ensures
        nearest_t(a, r, t_min, t_max) == nearest_t(b, r, t_min, t_max),
        forall|h: Hit| is_hit_of(a, r, t_min, t_max, h) <==> is_hit_of(b, r, t_min, t_max, h),
{
    lemma_nearest_char(a, r, t_min, t_max);
    lemma_nearest_char(b, r, t_min, t_max);
    lemma_char_transfer(a, b, r, t_min, t_max, nearest_t(a, r, t_min, t_max));
    lemma_char_unique(b, r, t_min, t_max, nearest_t(a, r, t_min, t_max), nearest_t(b, r, t_min, t_max));
    assert forall|h: Hit| is_hit_of(a, r, t_min, t_max, h) implies is_hit_of(b, r, t_min, t_max, h) by {
        let j = choose|j: int|
            0 <= j < a.len() && sphere_hit_t(#[trigger] a[j], r, t_min, t_max) == Some(h.t as int) && h
                == hit_record(a[j], r, h.t as int);
        assert(a.contains(a[j]));
        let k = choose|k: int| 0 <= k < b.len() && b[k] == a[j];
        assert(b[k] == a[j]);
    }
    assert forall|h: Hit| is_hit_of(b, r, t_min, t_max, h) implies is_hit_of(a, r, t_min, t_max, h) by {
        let j = choose|j: int|
            0 <= j < b.len() && sphere_hit_t(#[trigger] b[j], r, t_min, t_max) == Some(h.t as int) && h
                == hit_record(b[j], r, h.t as int);
        assert(b.contains(b[j]));
        let k = choose|k: int| 0 <= k < a.len() && a[k] == b[j];
        assert(a[k] == b[j]);
    }
}

proof fn lemma_char_transfer(a: Seq<Sphere>, b: Seq<Sphere>, r: Ray, t_min: int, t_max: int, o: Option<int>)
    requires
        same_elems(a, b),
        nearest_char(a, r, t_min, t_max, o),
    ensures
        nearest_char(b, r, t_min, t_max, o),
{
    assert forall|i: int| 0 <= i < b.len() implies exists|k: int| 0 <= k < a.len() && a[k] == #[trigger] b[i] by {
        assert(b.contains(b[i]));
    }
    match o {
        Some(m) => {
            let w = choose|i: int|
                0 <= i < a.len() && sphere_hit_t(#[trigger] a[i], r, t_min, t_max) == Some(m);
            assert(a.contains(a[w]));
            let k = choose|k: int| 0 <= k < b.len() && b[k] == a[w];
            assert(sphere_hit_t(b[k], r, t_min, t_max) == Some(m));
            assert forall|i: int| 0 <= i < b.len() implies (sphere_hit_t(
                #[trigger] b[i],
                r,
                t_min,
                t_max,
            ) matches Some(x) ==> m <= x) by {
                let k2 = choose|k: int| 0 <= k < a.len() && a[k] == b[i];
                assert(sphere_hit_t(a[k2], r, t_min, t_max) == sphere_hit_t(b[i], r, t_min, t_max));
            }
        },
        None => {
            assert forall|i: int| 0 <= i < b.len() implies sphere_hit_t(
                #[trigger] b[i],
                r,
                t_min,
                t_max,
            ) == None::<int> by {
                let k2 = choose|k: int| 0 <= k < a.len() && a[k] == b[i];
                assert(sphere_hit_t(a[k2], r, t_min, t_max) == sphere_hit_t(b[i], r, t_min, t_max));
            }
        },
    }
}

/// The nearest hit over a list of spheres: each sphere is tested with `t_max`
/// narrowed to the closest hit found so far.
pub fn hit_list(objects: &Vec<Sphere>, r: &Ray, t_min: i64, t_max: i64) -> (res: Option<Hit>)
    requires
        all_spheres_wf(objects@),
        ray_wf(*r),
    ensures
        hit_t(res) == nearest_t(objects@, *r, t_min as int, t_max as int),
        res matches Some(h) ==> is_first_hit_of(objects@, *r, t_min as int, t_max as int, h),
        res matches Some(h) ==> is_hit_of(objects@, *r, t_min as int, t_max as int, h),
        res matches Some(h) ==> within3(h.normal@, 2 * SCALE) && within3(h.point@, WORLD as int),
{
    let mut closest: Option<Hit> = None;
    let mut i: usize = 0;
    let ghost mut jj: int = 0;
    while i < objects.len()
        invariant
            all_spheres_wf(objects@),
            ray_wf(*r),
            0 <= i <= objects.len(),
            hit_t(closest) == nearest_t(objects@.subrange(0, i as int), *r, t_min as int, t_max as int),
            closest matches Some(h) ==> {
                &&& 0 <= jj < i
                &&& sphere_hit_t(objects@[jj], *r, t_min as int, t_max as int) == Some(h.t as int)
                &&& h == hit_record(objects@[jj], *r, h.t as int)
                &&& forall|k: int|
                    0 <= k < jj ==> !(sphere_hit_t(#[trigger] objects@[k], *r, t_min as int, t_max as int) matches Some(
                        x,
                    ) && x <= h.t)
            },
            closest matches Some(h) ==> within3(h.normal@, 2 * SCALE) && within3(h.point@, WORLD as int),
            closest matches Some(h) ==> t_min < h.t < t_max,
        decreases objects.len() - i,
    {
        let s = objects[i];
        assert(sphere_wf(s));
        let bound = match closest {
            Some(h) => h.t,
            None => t_max,
        };
        let found = s.hit(r, t_min, bound);
        proof {
            lemma_sphere_narrow(s, *r, t_min as int, t_max as int, bound as int);
            lemma_nearest_step(objects@, i as int, *r, t_min as int, t_max as int);
            lemma_nearest_char(objects@.subrange(0, i as int), *r, t_min as int, t_max as int);
        }
        match found {
            Some(h) => {
                proof {
                    assert(sphere_hit_t(objects@[i as int], *r, t_min as int, t_max as int) == Some(h.t as int));
                    let pre = objects@.subrange(0, i as int);
                    assert forall|k: int| 0 <= k < i implies !(sphere_hit_t(
                        #[trigger] objects@[k],
                        *r,
                        t_min as int,
                        t_max as int,
                    ) matches Some(x) && x <= h.t) by {
                        assert(pre[k] == objects@[k]);
                    }
                    jj = i as int;
                }
                closest = Some(h);
            },
            None => {},
        }
        i = i + 1;
    }
    assert(objects@.subrange(0, objects@.len() as int) =~= objects@);
    closest
}

} // verus!
