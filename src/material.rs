//! Materials: how a ray that hits a surface is absorbed or scattered.
use vstd::prelude::*;
use rand::rngs::StdRng;
use crate::arith::{isqrt, sqrt_floor};
use crate::models::Hit;
use crate::random::draw;
use crate::vector::{
    Vec3, Ray, Triple, add3, sub3, neg3, dot3, scale3, unit3, fx_mul, fx_div, within3,
    lemma_dot_bound, lemma_scale_within, lemma_fx_mul_bound, SCALE, WORLD};

verus! {

/// A color channel lies in `[0, SCALE]`, that is in `[0, 1]`.
pub open spec fn color_wf(c: Triple) -> bool {
    0 <= c.0 <= SCALE && 0 <= c.1 <= SCALE && 0 <= c.2 <= SCALE
}

/// A hit as the materials receive it: a bounded normal and point.
pub open spec fn hit_wf(h: Hit) -> bool {
    within3(h.normal@, 2 * SCALE) && within3(h.point@, WORLD as int)
}

/// The largest refractive index, and ratio of indices, in fixed point
/// (`2^28`): up to it the refraction formulas stay within `i128`.
pub const MAX_INDEX: i64 = 0x100_0000_0000;

/// The bound on the components of a scattered direction.
pub const DIR_LIMIT: i64 = 0x2000_0000_0000;

/// What a scattering surface hands back: the color it keeps and the ray it
/// sends on.
#[derive(Clone, Copy, Debug, PartialEq, Eq, Structural)]
pub struct Scatter {
    pub attenuation: Vec3,
    pub ray: Ray,
}

/// A diffuse surface.
#[derive(Clone, Copy, Debug, PartialEq, Eq, Structural)]
pub struct Lambertian {
    pub albedo: Vec3,
}

/// A mirror whose reflection is blurred by `fuzz` (from 0 to `SCALE`).
#[derive(Clone, Copy, Debug, PartialEq, Eq, Structural)]
pub struct Metal {
    pub albedo: Vec3,
    pub fuzz: i64,
}

/// A clear refracting material such as glass.
#[derive(Clone, Copy, Debug, PartialEq, Eq, Structural)]
pub struct Dielectric {
    pub refractive_index: i64,
}

#[derive(Clone, Copy, Debug, PartialEq, Eq, Structural)]
pub enum Material {
    Lambertian(Lambertian),
    Metal(Metal),
    Dielectric(Dielectric),
}

pub open spec fn material_wf(m: Material) -> bool {
    match m {
        Material::Lambertian(l) => color_wf(l.albedo@),
        Material::Metal(mt) => color_wf(mt.albedo@) && 0 <= mt.fuzz <= SCALE,
        Material::Dielectric(d) => 0 < d.refractive_index <= MAX_INDEX,
    }
}

/// `v` mirrored about the plane with normal `n`: `v - 2 (v . n) n`, with
/// `v . n` rounded to fixed point first.
pub open spec fn reflect3(v: Triple, n: Triple) -> Triple {
    sub3(v, scale3(2 * (dot3(v, n) / (SCALE as int)), n))
}

pub open spec fn clamp_i(x: int, lo: int, hi: int) -> int {
    if x < lo {
        lo
    } else if x > hi {
        hi
    } else {
        x
    }
}

/// The cosine between the reversed unit direction `uv` and the normal,
/// clamped to `[0, 1]`.
pub open spec fn cos_theta(uv: Triple, n: Triple) -> int {
    clamp_i(dot3(neg3(uv), n) / (SCALE as int), 0, SCALE as int)
}

/// Snell's law: the refracted direction of the unit direction `uv` through
/// the surface with normal `n`, for the ratio of indices `eta`.
pub open spec fn refract3(uv: Triple, n: Triple, eta: int) -> Triple {
    let perp = scale3(eta, add3(uv, scale3(cos_theta(uv, n), n)));
    let rest = (SCALE * SCALE) - dot3(perp, perp);
    let k = sqrt_floor(if rest >= 0 { rest } else { -rest });
    add3(perp, scale3(-k, n))
}

/// Schlick's approximation of the reflectance for the cosine `c` and the
/// ratio of indices `eta`: `r0 + (1 - r0) (1 - c)^5` with
/// `r0 = ((1 - eta) / (1 + eta))^2`.
pub open spec fn schlick_spec(c: int, eta: int) -> int {
    let s = SCALE as int;
    let r0 = fx_mul(fx_div(s - eta, s + eta), fx_div(s - eta, s + eta));
    let m = s - c;
    let m5 = (m * m * m * m * m) / (s * s * s * s);
    r0 + ((s - r0) * m5) / s
}

/// The ratio of refractive indices on the way through the surface.
pub open spec fn eta_of(ri: int, front_face: bool) -> int {
    if front_face { fx_div(SCALE as int, ri) } else { ri }
}

/// The dielectric reflects when refraction is impossible, or when the draw
/// `u` from `[0, SCALE)` falls below the Schlick reflectance.
pub open spec fn dielectric_reflects(uv: Triple, n: Triple, eta: int, u: int) -> bool {
    let c = cos_theta(uv, n);
    let sin = sqrt_floor(SCALE * SCALE - c * c);
    eta * sin > SCALE * SCALE || u < schlick_spec(c, eta)
}

/// The direction a dielectric sends a ray in, for the draw `u`.
pub open spec fn dielectric_dir(d: Triple, n: Triple, ri: int, front_face: bool, u: int) -> Triple {
    let uv = unit3(d);
    let eta = eta_of(ri, front_face);
    if dielectric_reflects(uv, n, eta, u) {
        reflect3(uv, n)
    } else {
        refract3(uv, n, eta)
    }
}

/// The direction a metal sends a ray in, for the point `p` of the unit ball:
/// the incoming direction mirrored, moved by `fuzz * p`.
pub open spec fn metal_dir(d: Triple, n: Triple, fuzz: int, p: Triple) -> Triple {
    add3(reflect3(d, n), scale3(fuzz, p))
}

/// A point of the unit ball.
pub open spec fn in_ball(p: Triple) -> bool {
    dot3(p, p) <= SCALE * SCALE && within3(p, SCALE as int)
}

/// A vector of length `SCALE` up to rounding.
pub open spec fn unit_ish(p: Triple) -> bool {
    SCALE * SCALE - 6 * SCALE - 3 < dot3(p, p) <= SCALE * SCALE && within3(p, SCALE as int)
}

/// What a metal does for the point `p` of the unit ball: scatters along
/// `metal_dir` with its albedo when that leaves the surface, else absorbs.
pub open spec fn metal_outcome(m: Metal, r: Ray, h: Hit, p: Triple, res: Option<Scatter>) -> bool {
    let dir = metal_dir(r.direction@, h.normal@, m.fuzz as int, p);
    if dot3(dir, h.normal@) > 0 {
        res matches Some(s) && s.attenuation == m.albedo && s.ray.origin == h.point && s.ray.direction@ == dir
    } else {
        res is None
    }
}

/// What a diffuse surface does for the unit vector `p`.
pub open spec fn lambertian_outcome(l: Lambertian, h: Hit, p: Triple, res: Option<Scatter>) -> bool {
    res matches Some(s) && s.attenuation == l.albedo && s.ray.origin == h.point && s.ray.direction@
        == lambertian_dir(h.normal@, p)
}

/// What a dielectric does for the draw `u` from `[0, SCALE)`.
pub open spec fn dielectric_outcome(d: Dielectric, r: Ray, h: Hit, u: int, res: Option<Scatter>) -> bool {
    res matches Some(s) && s.attenuation == Vec3(SCALE, SCALE, SCALE) && s.ray.origin == h.point
        && s.ray.direction@ == dielectric_dir(r.direction@, h.normal@, d.refractive_index as int, h.front_face, u)
}

/// `res` is a possible result of scattering `r` at `h` on `m`, for some
/// random draw.
pub open spec fn scatter_outcome(m: Material, r: Ray, h: Hit, res: Option<Scatter>) -> bool {
    match m {
        Material::Lambertian(l) => exists|p: Triple| unit_ish(p) && #[trigger] lambertian_outcome(l, h, p, res),
        Material::Metal(mt) => exists|p: Triple| in_ball(p) && #[trigger] metal_outcome(mt, r, h, p, res),
        Material::Dielectric(d) => exists|u: int| 0 <= u < SCALE && #[trigger] dielectric_outcome(d, r, h, u, res),
    }
}

/// The direction a diffuse surface sends a ray in, for the unit vector `p`:
/// `n + p`, or `n` where that sum vanishes.
pub open spec fn lambertian_dir(n: Triple, p: Triple) -> Triple {
    if add3(n, p) == (0int, 0int, 0int) { n } else { add3(n, p) }
}

/// Mirror `incident` about the plane with normal `normal`.
pub fn reflect(incident: Vec3, normal: Vec3) -> (r: Vec3)
    requires
        within3(incident@, WORLD as int),
        within3(normal@, 2 * SCALE),
    ensures
        r@ == reflect3(incident@, normal@),
        within3(r@, 0x4_0000_0000),
{
    proof {
        lemma_dot_bound(incident@, normal@, WORLD as int, 2 * SCALE);
        assert(3 * ((WORLD as int) * (2 * SCALE)) == 0x600_0000_0000) by (nonlinear_arith);
    }
    let k: i128 = crate::arith::div_floor(Vec3::dot(incident, normal), SCALE as i128);
    proof {
        let dn = dot3(incident@, normal@);
        vstd::arithmetic::div_mod::lemma_div_is_ordered(dn, 0x600_0000_0000, SCALE as int);
        vstd::arithmetic::div_mod::lemma_div_is_ordered(-0x600_0000_0000, dn, SCALE as int);
        assert(0x600_0000_0000int / (SCALE as int) == 0x6000_0000);
        assert(-0x600_0000_0000int / (SCALE as int) == -0x6000_0000);
        lemma_scale_within(2 * k, normal@, 0x1_0000_0000, 2 * SCALE, 0x2_0000_0000);
    }
    let twice = (2 * k) as i64;
    incident.sub(normal.scale(twice))
}

/// The clamped cosine between `-uv` and `n` (see `cos_theta`).
fn cos_of(uv: Vec3, n: Vec3) -> (c: i64)
    requires
        within3(uv@, SCALE as int),
        within3(n@, 2 * SCALE),
    ensures
        c == cos_theta(uv@, n@),
        0 <= c <= SCALE,
{
    proof {
        lemma_dot_bound(neg3(uv@), n@, SCALE as int, 2 * SCALE);
    }
    let d = Vec3::dot(uv.neg(), n);
    let q = crate::arith::div_floor(d, SCALE as i128);
    if q < 0 {
        0
    } else if q > SCALE as i128 {
        SCALE
    } else {
        q as i64
    }
}

/// Bends the unit direction `uv` through the surface with normal `normal`
/// by Snell's law, for the ratio of refractive indices `eta_over_etaprime`.
pub fn refract(uv: Vec3, normal: Vec3, eta_over_etaprime: i64) -> (r: Vec3)
    requires
        within3(uv@, SCALE as int),
        within3(normal@, 2 * SCALE),
        0 <= eta_over_etaprime <= MAX_INDEX,
    ensures
        r@ == refract3(uv@, normal@, eta_over_etaprime as int),
        within3(r@, DIR_LIMIT as int),
{
    let eta = eta_over_etaprime;
    let c = cos_of(uv, normal);
    proof {
        lemma_scale_within(c as int, normal@, SCALE as int, 2 * SCALE, 2 * SCALE);
    }
    let inner = uv.add(normal.scale(c));
    proof {
        lemma_scale_within(eta as int, inner@, MAX_INDEX as int, 3 * SCALE, 3 * MAX_INDEX);
    }
    let perp = inner.scale(eta);
    proof {
        lemma_dot_bound(perp@, perp@, 3 * MAX_INDEX, 3 * MAX_INDEX);
        assert(3 * ((3 * MAX_INDEX) * (3 * MAX_INDEX)) < 0x20_0000_0000_0000_0000_0000) by (nonlinear_arith);
        assert(SCALE * SCALE == 0x100_0000) by (nonlinear_arith);
    }
    let ls = perp.len_sqr();
    let rest: i128 = SCALE as i128 * SCALE as i128 - ls;
    let mag: i128 = if rest >= 0 { rest } else { -rest };
    let k = isqrt(mag as u128);
    proof {
        assert(k * k <= mag);
        if k > 0x800_0000_0000 {
            assert(k * k > 0x800_0000_0000 * 0x800_0000_0000) by (nonlinear_arith)
                requires
                    k > 0x800_0000_0000,
            ;
        }
        lemma_scale_within(-(k as int), normal@, 0x800_0000_0000, 2 * SCALE, 0x1000_0000_0000);
    }
    let par = normal.scale(-(k as i64));
    perp.add(par)
}

impl Lambertian {
    /// Diffuse scattering towards `normal + p` for a unit vector `p`.
    pub fn scatter_with(&self, hit: &Hit, p: Vec3) -> (s: Scatter)
        requires
            hit_wf(*hit),
            within3(p@, SCALE as int),
        ensures
            s.attenuation == self.albedo,
            s.ray.origin == hit.point,
            s.ray.direction@ == lambertian_dir(hit.normal@, p@),
            within3(s.ray.direction@, 3 * SCALE),
    {
        let sum = hit.normal.add(p);
        let direction = if sum.0 == 0 && sum.1 == 0 && sum.2 == 0 {
            hit.normal
        } else {
            sum
        };
        Scatter { attenuation: self.albedo, ray: Ray { origin: hit.point, direction } }
    }

    /// Always scatters, towards the normal plus a random unit vector.
    pub fn scatter(&self, _r_in: &Ray, hit: &Hit, rng: &mut StdRng) -> (res: Option<Scatter>)
        requires
            hit_wf(*hit),
        ensures
            exists|p: Triple| unit_ish(p) && #[trigger] lambertian_outcome(*self, *hit, p, res),
            res matches Some(s) && within3(s.ray.direction@, 3 * SCALE),
    {
        let p = Vec3::random_unit_vector(rng);
        let s = self.scatter_with(hit, p);
        assert(unit_ish(p@) && lambertian_outcome(*self, *hit, p@, Some(s)));
        Some(s)
    }
}

impl Metal {
    /// The incoming direction mirrored and moved by `fuzz * p`; absorbed when
    /// the result does not leave the surface.
    pub fn scatter_with(&self, r_in: &Ray, hit: &Hit, p: Vec3) -> (res: Option<Scatter>)
        requires
            within3(r_in.direction@, WORLD as int),
            hit_wf(*hit),
            0 <= self.fuzz <= SCALE,
            within3(p@, SCALE as int),
        ensures
            metal_outcome(*self, *r_in, *hit, p@, res),
            res matches Some(s) ==> within3(s.ray.direction@, DIR_LIMIT as int),
    {
        let reflected = reflect(r_in.direction, hit.normal);
        proof {
            lemma_scale_within(self.fuzz as int, p@, SCALE as int, SCALE as int, SCALE as int);
        }
        let direction = reflected.add(p.scale(self.fuzz));
        proof {
            lemma_dot_bound(direction@, hit.normal@, DIR_LIMIT as int, 2 * SCALE);
        }
        if Vec3::dot(direction, hit.normal) > 0 {
            Some(Scatter { attenuation: self.albedo, ray: Ray { origin: hit.point, direction } })
        } else {
            None
        }
    }

    /// Fuzzed mirror reflection for a random point of the unit ball; never
    /// scatters into the surface.
    pub fn scatter(&self, r_in: &Ray, hit: &Hit, rng: &mut StdRng) -> (res: Option<Scatter>)
        requires
            within3(r_in.direction@, WORLD as int),
            hit_wf(*hit),
            0 <= self.fuzz <= SCALE,
        ensures
            exists|p: Triple| in_ball(p) && #[trigger] metal_outcome(*self, *r_in, *hit, p, res),
            res matches Some(s) ==> dot3(s.ray.direction@, hit.normal@) > 0,
            res matches Some(s) ==> within3(s.ray.direction@, DIR_LIMIT as int),
    {
        let p = Vec3::random_unit_sphere(rng);
        let res = self.scatter_with(r_in, hit, p);
        assert(in_ball(p@) && metal_outcome(*self, *r_in, *hit, p@, res));
        res
    }
}

impl Dielectric {
    /// Schlick's approximation of the reflectance, in `[0, SCALE]`.
    pub fn schlick(cosine: i64, eta: i64) -> (r: i64)
        requires
            0 <= cosine <= SCALE,
            0 <= eta <= MAX_INDEX,
        ensures
            r == schlick_spec(cosine as int, eta as int),
            0 <= r <= SCALE,
    {
        proof {
            lemma_schlick_bounds(cosine as int, eta as int);
        }
        let s: i128 = SCALE as i128;
        let q: i128 = crate::arith::div_floor((s - eta as i128) * s, s + eta as i128);
        proof {
            lemma_ratio_bound(SCALE as int - eta, SCALE as int + eta);
            assert(q == ((SCALE as int - eta) * SCALE) / (SCALE as int + eta));
            assert(0 <= q * q <= s * s) by (nonlinear_arith)
                requires
                    -s <= q <= s,
            ;
        }
        let r0: i128 = crate::arith::div_floor(q * q, s);
        let m: i128 = s - cosine as i128;
        proof {
            assert(0 <= m * m <= s * s) by (nonlinear_arith)
                requires
                    0 <= m <= s,
            ;
            assert(0 <= (m * m) * (m * m) <= (s * s) * (s * s)) by (nonlinear_arith)
                requires
                    0 <= m * m <= s * s,
            ;
            assert(0 <= (m * m) * (m * m) * m <= (s * s) * (s * s) * s) by (nonlinear_arith)
                requires
                    0 <= (m * m) * (m * m) <= (s * s) * (s * s),
                    0 <= m <= s,
            ;
        }
        let m2: i128 = m * m;
        let m4: i128 = m2 * m2;
        let m5: i128 = (m4 * m) / (s * s * s * s);
        proof {
            assert(m4 * m == m * m * m * m * m) by (nonlinear_arith)
                requires
                    m4 == (m * m) * (m * m),
            ;
            lemma_pow5_bound(m as int);
            vstd::arithmetic::div_mod::lemma_div_pos_is_pos(q * q, s as int);
            vstd::arithmetic::div_mod::lemma_div_is_ordered(q * q, s * s, s as int);
            vstd::arithmetic::div_mod::lemma_div_multiples_vanish(s as int, s as int);
            assert(0 <= (s - r0) * m5 <= s * s) by (nonlinear_arith)
                requires
                    0 <= s - r0 <= s,
                    0 <= m5 <= s,
            ;
        }
        (r0 + ((s - r0) * m5) / s) as i64
    }

    /// Reflection or refraction of the unit direction, chosen by the draw
    /// `u` from `[0, SCALE)`.
    pub fn scatter_with(&self, r_in: &Ray, hit: &Hit, u: i64) -> (s: Scatter)
        requires
            within3(r_in.direction@, WORLD as int),
            dot3(r_in.direction@, r_in.direction@) > 0,
            hit_wf(*hit),
            0 < self.refractive_index <= MAX_INDEX,
            0 <= u < SCALE,
        ensures
            s.attenuation == Vec3(SCALE, SCALE, SCALE),
            s.ray.origin == hit.point,
            s.ray.direction@ == dielectric_dir(r_in.direction@, hit.normal@, self.refractive_index as int, hit.front_face, u as int),
            within3(s.ray.direction@, DIR_LIMIT as int),
    {
        let ri = self.refractive_index;
        let eta: i64 = if hit.front_face {
            proof {
                assert(SCALE * SCALE == 0x100_0000) by (nonlinear_arith);
                vstd::arithmetic::div_mod::lemma_div_is_ordered_by_denominator(SCALE * SCALE, 1, ri as int);
                vstd::arithmetic::div_mod::lemma_div_pos_is_pos(SCALE * SCALE, ri as int);
            }
            crate::arith::div_floor(SCALE as i128 * SCALE as i128, ri as i128) as i64
        } else {
            ri
        };
        assert(eta == eta_of(ri as int, hit.front_face));
        let unit = r_in.direction.unit();
        let c = cos_of(unit, hit.normal);
        proof {
            assert(0 <= c * c <= SCALE * SCALE) by (nonlinear_arith)
                requires
                    0 <= c <= SCALE,
            ;
        }
        let sin = isqrt((SCALE as i128 * SCALE as i128 - c as i128 * c as i128) as u128);
        proof {
            if sin > SCALE {
                assert(sin * sin > SCALE * SCALE) by (nonlinear_arith)
                    requires
                        sin > SCALE,
                ;
            }
            assert(0 <= eta * sin <= MAX_INDEX * SCALE) by (nonlinear_arith)
                requires
                    0 <= eta <= MAX_INDEX,
                    0 <= sin <= SCALE,
            ;
        }
        let reflects = eta as i128 * sin as i128 > SCALE as i128 * SCALE as i128 || u < Dielectric::schlick(c, eta);
        let direction = if reflects {
            reflect(unit, hit.normal)
        } else {
            refract(unit, hit.normal, eta)
        };
        Scatter { attenuation: Vec3(SCALE, SCALE, SCALE), ray: Ray { origin: hit.point, direction } }
    }

    /// Always scatters: reflects or refracts at random by Schlick's
    /// reflectance, keeping the full color.
    pub fn scatter(&self, r_in: &Ray, hit: &Hit, rng: &mut StdRng) -> (res: Option<Scatter>)
        requires
            within3(r_in.direction@, WORLD as int),
            dot3(r_in.direction@, r_in.direction@) > 0,
            hit_wf(*hit),
            0 < self.refractive_index <= MAX_INDEX,
        ensures
            exists|u: int| 0 <= u < SCALE && #[trigger] dielectric_outcome(*self, *r_in, *hit, u, res),
            res matches Some(s) && within3(s.ray.direction@, DIR_LIMIT as int),
    {
        let u = draw(rng, 0, SCALE);
        let s = self.scatter_with(r_in, hit, u);
        assert(dielectric_outcome(*self, *r_in, *hit, u as int, Some(s)));
        Some(s)
    }
}

impl Material {
    /// Scatters by the variant's rule. A scattered ray keeps a color in
    /// `[0, 1]` and stays in the coordinate range; only a metal absorbs.
    pub fn scatter(&self, r_in: &Ray, hit: &Hit, rng: &mut StdRng) -> (res: Option<Scatter>)
        requires
            material_wf(*self),
            within3(r_in.direction@, WORLD as int),
            dot3(r_in.direction@, r_in.direction@) > 0,
            hit_wf(*hit),
        ensures
            scatter_outcome(*self, *r_in, *hit, res),
            res matches Some(s) ==> color_wf(s.attenuation@) && within3(s.ray.origin@, WORLD as int)
                && within3(s.ray.direction@, DIR_LIMIT as int),
            !(self is Metal) ==> res is Some,
            (self is Metal && res is Some) ==> dot3(res->Some_0.ray.direction@, hit.normal@) > 0,
    {
        match self {
            Material::Lambertian(l) => l.scatter(r_in, hit, rng),
            Material::Metal(m) => m.scatter(r_in, hit, rng),
            Material::Dielectric(d) => d.scatter(r_in, hit, rng),
        }
    }
}

/// `(a * SCALE) / b` lies in `[-SCALE, SCALE]` when `|a| <= b`.
proof fn lemma_ratio_bound(a: int, b: int)
    requires
        b > 0,
        -b <= a <= b,
    ensures
        -SCALE <= (a * SCALE) / b <= SCALE,
{
    let s = SCALE as int;
    assert(-(b * s) <= a * s <= b * s) by (nonlinear_arith)
        requires
            -b <= a <= b,
            s > 0,
    ;
    vstd::arithmetic::div_mod::lemma_div_is_ordered(a * s, s * b, b);
    vstd::arithmetic::div_mod::lemma_div_is_ordered((-s) * b, a * s, b);
    vstd::arithmetic::div_mod::lemma_div_multiples_vanish(s, b);
    vstd::arithmetic::div_mod::lemma_div_multiples_vanish(-s, b);
}

/// `m^5 / SCALE^4` lies in `[0, SCALE]` for `m` in `[0, SCALE]`.
proof fn lemma_pow5_bound(m: int)
    requires
        0 <= m <= SCALE,
    ensures
        0 <= (m * m * m * m * m) / (SCALE * SCALE * SCALE * SCALE) <= SCALE,
{
    let s = SCALE as int;
    let d = s * s * s * s;
    assert(0 <= m * m * m * m * m <= s * d) by (nonlinear_arith)
        requires
            0 <= m <= s,
            d == s * s * s * s,
    ;
    vstd::arithmetic::div_mod::lemma_div_is_ordered(m * m * m * m * m, s * d, d);
    vstd::arithmetic::div_mod::lemma_div_multiples_vanish(s, d);
    vstd::arithmetic::div_mod::lemma_div_pos_is_pos(m * m * m * m * m, d);
    assert(s * d == d * s);
}

/// Schlick's reflectance lies in `[0, 1]` for every cosine in `[0, 1]` and
/// every non-negative ratio of indices.
pub proof fn lemma_schlick_bounds(c: int, eta: int)
    requires
        0 <= c <= SCALE,
        0 <= eta,
    ensures
        0 <= schlick_spec(c, eta) <= SCALE,
{
    let s = SCALE as int;
    lemma_ratio_bound(s - eta, s + eta);
    let q = fx_div(s - eta, s + eta);
    assert(0 <= q * q <= s * s) by (nonlinear_arith)
        requires
            -s <= q <= s,
    ;
    lemma_fx_mul_bound(q, q, s, s, s);
    assert(q * q >= 0) by (nonlinear_arith);
    vstd::arithmetic::div_mod::lemma_div_pos_is_pos(q * q, s);
    let r0 = fx_mul(q, q);
    let m = s - c;
    lemma_pow5_bound(m);
    let m5 = (m * m * m * m * m) / (s * s * s * s);
    assert(0 <= (s - r0) * m5 <= (s - r0) * s) by (nonlinear_arith)
        requires
            0 <= s - r0,
            0 <= m5 <= s,
    ;
    vstd::arithmetic::div_mod::lemma_div_is_ordered((s - r0) * m5, (s - r0) * s, s);
    vstd::arithmetic::div_mod::lemma_div_multiples_vanish(s - r0, s);
    vstd::arithmetic::div_mod::lemma_div_pos_is_pos((s - r0) * m5, s);
    assert((s - r0) * s == s * (s - r0)) by (nonlinear_arith);
}

/// Schlick's reflectance takes its end values: the base reflectance `r0`
/// head-on (`c = 1`), and full reflection at grazing incidence (`c = 0`).
pub proof fn lemma_schlick_ends(eta: int)
    requires
        0 <= eta,
    ensures
        schlick_spec(SCALE as int, eta) == fx_mul(
            fx_div(SCALE - eta, SCALE + eta),
            fx_div(SCALE - eta, SCALE + eta),
        ),
        schlick_spec(0, eta) == SCALE,
{
    let s = SCALE as int;
    lemma_schlick_bounds(0, eta);
    assert(0int * 0 * 0 * 0 * 0 == 0);
    vstd::arithmetic::div_mod::lemma_div_of0(s * s * s * s);
    assert(s * s * s * s * s == s * (s * s * s * s)) by (nonlinear_arith);
    vstd::arithmetic::div_mod::lemma_div_multiples_vanish(s, s * s * s * s);
    let r0 = fx_mul(fx_div(s - eta, s + eta), fx_div(s - eta, s + eta));
    let z = s - s;
    assert(z * z * z * z * z == 0) by (nonlinear_arith)
        requires
            z == 0,
    ;
    assert((s - r0) * 0 == 0);
    vstd::arithmetic::div_mod::lemma_div_of0(s);
    assert((s - r0) * s == s * (s - r0)) by (nonlinear_arith);
    vstd::arithmetic::div_mod::lemma_div_multiples_vanish(s - r0, s);
}

/// Schlick's reflectance does not grow with the cosine.
pub proof fn lemma_schlick_monotone(c1: int, c2: int, eta: int)
    requires
        0 <= c1 <= c2 <= SCALE,
        0 <= eta,
    ensures
        schlick_spec(c2, eta) <= schlick_spec(c1, eta),
{
    let s = SCALE as int;
    lemma_schlick_bounds(c1, eta);
    let q = fx_div(s - eta, s + eta);
    lemma_ratio_bound(s - eta, s + eta);
    lemma_fx_mul_bound(q, q, s, s, s);
    let r0 = fx_mul(q, q);
    let m1 = s - c1;
    let m2 = s - c2;
    assert(0 <= m2 * m2 * m2 * m2 * m2 <= m1 * m1 * m1 * m1 * m1) by (nonlinear_arith)
        requires
            0 <= m2 <= m1,
    ;
    let d = s * s * s * s;
    vstd::arithmetic::div_mod::lemma_div_is_ordered(m2 * m2 * m2 * m2 * m2, m1 * m1 * m1 * m1 * m1, d);
    let a2 = (m2 * m2 * m2 * m2 * m2) / d;
    let a1 = (m1 * m1 * m1 * m1 * m1) / d;
    assert((s - r0) * a2 <= (s - r0) * a1) by (nonlinear_arith)
        requires
            s - r0 >= 0,
            a2 <= a1,
    ;
    vstd::arithmetic::div_mod::lemma_div_is_ordered((s - r0) * a2, (s - r0) * a1, s);
}

/// The unit normal along axis `i`.
pub open spec fn axis_normal(i: int) -> Triple {
    (if i == 0 { SCALE as int } else { 0 }, if i == 1 { SCALE as int } else { 0 }, if i == 2 {
        SCALE as int
    } else {
        0
    })
}

/// About an axis-aligned unit normal the mirror image is exact: the
/// component along the normal changes sign, so the dot product with the
/// normal is negated, the length is kept, and mirroring twice gives the
/// vector back.
pub proof fn lemma_reflect_axis(v: Triple, i: int)
    requires
        0 <= i < 3,
    ensures
        dot3(reflect3(v, axis_normal(i)), axis_normal(i)) == -dot3(v, axis_normal(i)),
        dot3(reflect3(v, axis_normal(i)), reflect3(v, axis_normal(i))) == dot3(v, v),
        reflect3(reflect3(v, axis_normal(i)), axis_normal(i)) == v,
{
    let s = SCALE as int;
    let n = axis_normal(i);
    let vi = if i == 0 { v.0 } else if i == 1 { v.1 } else { v.2 };
    assert(dot3(v, n) == vi * s) by (nonlinear_arith)
        requires
            n == axis_normal(i),
            vi == (if i == 0 { v.0 } else if i == 1 { v.1 } else { v.2 }),
            0 <= i < 3,
            s == SCALE,
    ;
    vstd::arithmetic::div_mod::lemma_div_multiples_vanish(vi, s);
    assert(vi * s == s * vi) by (nonlinear_arith);
    assert((2 * vi) * s == s * (2 * vi)) by (nonlinear_arith);
    vstd::arithmetic::div_mod::lemma_div_multiples_vanish(2 * vi, s);
    assert((2 * vi) * 0 == 0);
    vstd::arithmetic::div_mod::lemma_div_of0(s);
    let w = reflect3(v, n);
    let wi = if i == 0 { w.0 } else if i == 1 { w.1 } else { w.2 };
    assert(wi == -vi);
    assert(dot3(w, n) == wi * s) by (nonlinear_arith)
        requires
            n == axis_normal(i),
            wi == (if i == 0 { w.0 } else if i == 1 { w.1 } else { w.2 }),
            0 <= i < 3,
            s == SCALE,
    ;
    assert(wi * s == -(vi * s)) by (nonlinear_arith)
        requires
            wi == -vi,
    ;
    assert(wi * wi == vi * vi) by (nonlinear_arith)
        requires
            wi == -vi,
    ;
    vstd::arithmetic::div_mod::lemma_div_multiples_vanish(wi, s);
    assert(wi * s == s * wi) by (nonlinear_arith);
    assert((2 * wi) * s == s * (2 * wi)) by (nonlinear_arith);
    vstd::arithmetic::div_mod::lemma_div_multiples_vanish(2 * wi, s);
    assert((2 * wi) * 0 == 0);
}

} // verus!
