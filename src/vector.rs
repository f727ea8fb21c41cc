//! Three-component fixed-point vectors and rays.
//!
//! A coordinate is an `i64` counting units of `1 / SCALE`, so `SCALE` stands
//! for `1.0`. Sums and differences are exact; `dot` is the exact integer
//! product sum (in units of `1 / SCALE^2`); other products with a
//! fractional factor are brought back to `1 / SCALE` units, rounding towards
//! negative infinity (`cross` rounds towards zero).
use vstd::prelude::*;
use crate::arith::{div_floor, isqrt, is_isqrt, sqrt_floor, lemma_sqrt_floor, lemma_sqrt_floor_exists};

verus! {

/// The fixed-point unit: a coordinate of `SCALE` means `1.0`.
pub const SCALE: i64 = 4096;

/// A point, a direction or a color, in units of `1 / SCALE`.
#[derive(Clone, Copy, Debug, PartialEq, Eq, Structural)]
pub struct Vec3(pub i64, pub i64, pub i64);

/// A vector as three unbounded integers.
pub type Triple = (int, int, int);

impl View for Vec3 {
    type V = Triple;

    open spec fn view(&self) -> Triple {
        (self.0 as int, self.1 as int, self.2 as int)
    }
}

pub open spec fn add3(u: Triple, v: Triple) -> Triple {
    (u.0 + v.0, u.1 + v.1, u.2 + v.2)
}

pub open spec fn sub3(u: Triple, v: Triple) -> Triple {
    (u.0 - v.0, u.1 - v.1, u.2 - v.2)
}

pub open spec fn neg3(u: Triple) -> Triple {
    (-u.0, -u.1, -u.2)
}

/// `k * u` for an integer `k` (no rescaling).
pub open spec fn times3(k: int, u: Triple) -> Triple {
    (k * u.0, k * u.1, k * u.2)
}

pub open spec fn dot3(u: Triple, v: Triple) -> int {
    u.0 * v.0 + u.1 * v.1 + u.2 * v.2
}

pub open spec fn cross3(u: Triple, v: Triple) -> Triple {
    (u.1 * v.2 - u.2 * v.1, u.2 * v.0 - u.0 * v.2, u.0 * v.1 - u.1 * v.0)
}

/// The fixed-point product of two coordinates.
pub open spec fn fx_mul(a: int, b: int) -> int {
    (a * b) / (SCALE as int)
}

/// The fixed-point product of a scalar and a vector.
pub open spec fn scale3(s: int, u: Triple) -> Triple {
    (fx_mul(s, u.0), fx_mul(s, u.1), fx_mul(s, u.2))
}

/// The component-wise fixed-point product.
pub open spec fn mul3(u: Triple, v: Triple) -> Triple {
    (fx_mul(u.0, v.0), fx_mul(u.1, v.1), fx_mul(u.2, v.2))
}

/// The fixed-point quotient of two coordinates (`b != 0`).
pub open spec fn fx_div(a: int, b: int) -> int {
    if b > 0 {
        (a * SCALE) / b
    } else {
        (-(a * SCALE)) / (-b)
    }
}

pub open spec fn fits_i64(v: int) -> bool {
    i64::MIN <= v <= i64::MAX
}

pub open spec fn fits3(u: Triple) -> bool {
    fits_i64(u.0) && fits_i64(u.1) && fits_i64(u.2)
}

/// Every component lies in `[-b, b]`.
pub open spec fn within3(u: Triple, b: int) -> bool {
    -b <= u.0 <= b && -b <= u.1 <= b && -b <= u.2 <= b
}

/// The magnitude of one component of the unit vector in the direction of a
/// vector whose squared length is `n`: `floor(|c| * SCALE / sqrt(n))`.
pub open spec fn unit_part(c: int, n: int) -> int
    recommends
        n > 0,
{
    let m = if c >= 0 { c } else { -c };
    sqrt_floor((m * m * SCALE * SCALE) / n)
}

/// A component of the unit vector, with the sign of `c`.
pub open spec fn unit_comp(c: int, n: int) -> int {
    if c >= 0 { unit_part(c, n) } else { -unit_part(c, n) }
}

pub open spec fn unit3(u: Triple) -> Triple {
    let n = dot3(u, u);
    (unit_comp(u.0, n), unit_comp(u.1, n), unit_comp(u.2, n))
}

/// Largest coordinate magnitude of scene geometry and of rays.
pub const WORLD: i64 = 0x1000_0000;

/// Component `i` (0, 1 or 2) of a vector.
pub open spec fn comp3(u: Triple, i: int) -> int {
    if i == 0 {
        u.0
    } else if i == 1 {
        u.1
    } else {
        u.2
    }
}

/// Largest component magnitude accepted by `cross`.
pub const CROSS_LIMIT: i64 = 0x10_0000_0000;

/// `x / SCALE` rounded towards zero.
pub open spec fn div_trunc(x: int) -> int {
    if x >= 0 { x / (SCALE as int) } else { -((-x) / (SCALE as int)) }
}

/// The cross product in fixed point, rounded towards zero.
pub open spec fn cross_fx(u: Triple, v: Triple) -> Triple {
    let c = cross3(u, v);
    (div_trunc(c.0), div_trunc(c.1), div_trunc(c.2))
}

/// Largest component magnitude for which `dot` and `len` cannot overflow.
pub const DOT_LIMIT: i64 = 0x4000_0000_0000_0000;

/// Largest component magnitude accepted by `unit`.
pub const UNIT_LIMIT: i64 = 0x4_0000_0000_0000;

impl Vec3 {
    pub fn new(x: i64, y: i64, z: i64) -> (r: Vec3)
        ensures
            r@ == (x as int, y as int, z as int),
    {
        Vec3(x, y, z)
    }

    pub fn x(&self) -> (r: i64)
        ensures
            r == self.0,
    {
        self.0
    }

    pub fn y(&self) -> (r: i64)
        ensures
            r == self.1,
    {
        self.1
    }

    pub fn z(&self) -> (r: i64)
        ensures
            r == self.2,
    {
        self.2
    }

    pub fn add(self, rhs: Vec3) -> (r: Vec3)
        requires
            fits3(add3(self@, rhs@)),
        ensures
            r@ == add3(self@, rhs@),
    {
        Vec3(self.0 + rhs.0, self.1 + rhs.1, self.2 + rhs.2)
    }

    pub fn sub(self, rhs: Vec3) -> (r: Vec3)
        requires
            fits3(sub3(self@, rhs@)),
        ensures
            r@ == sub3(self@, rhs@),
    {
        Vec3(self.0 - rhs.0, self.1 - rhs.1, self.2 - rhs.2)
    }

    pub fn neg(self) -> (r: Vec3)
        requires
            fits3(neg3(self@)),
        ensures
            r@ == neg3(self@),
    {
        Vec3(-self.0, -self.1, -self.2)
    }

    /// Component-wise fixed-point product (used on colors).
    pub fn mul(self, rhs: Vec3) -> (r: Vec3)
        requires
            fits3(mul3(self@, rhs@)),
        ensures
            r@ == mul3(self@, rhs@),
    {
        Vec3(mul_fixed(self.0, rhs.0), mul_fixed(self.1, rhs.1), mul_fixed(self.2, rhs.2))
    }

    /// Product with a fixed-point scalar.
    pub fn scale(self, s: i64) -> (r: Vec3)
        requires
            fits3(scale3(s as int, self@)),
        ensures
            r@ == scale3(s as int, self@),
    {
        Vec3(mul_fixed(s, self.0), mul_fixed(s, self.1), mul_fixed(s, self.2))
    }

    /// Quotient by a non-zero fixed-point scalar.
    pub fn div(self, s: i64) -> (r: Vec3)
        requires
            s != 0,
            fits_i64(fx_div(self.0 as int, s as int)),
            fits_i64(fx_div(self.1 as int, s as int)),
            fits_i64(fx_div(self.2 as int, s as int)),
        ensures
            r@ == (fx_div(self.0 as int, s as int), fx_div(self.1 as int, s as int),
                fx_div(self.2 as int, s as int)),
    {
        Vec3(div_fx(self.0, s), div_fx(self.1, s), div_fx(self.2, s))
    }

    pub fn dot(u: Vec3, v: Vec3) -> (r: i128)
        requires
            within3(u@, DOT_LIMIT as int),
            within3(v@, DOT_LIMIT as int),
        ensures
            r == dot3(u@, v@),
    {
        proof {
            lemma_product_bound(u.0 as int, v.0 as int, DOT_LIMIT as int);
            lemma_product_bound(u.1 as int, v.1 as int, DOT_LIMIT as int);
            lemma_product_bound(u.2 as int, v.2 as int, DOT_LIMIT as int);
        }
        let a: i128 = u.0 as i128 * v.0 as i128;
        let b: i128 = u.1 as i128 * v.1 as i128;
        let c: i128 = u.2 as i128 * v.2 as i128;
        a + b + c
    }

    /// The cross product in fixed point: the exact product divided by
    /// `SCALE`, rounded towards zero (so that swapping the arguments exactly
    /// negates the result).
    pub fn cross(u: Vec3, v: Vec3) -> (r: Vec3)
        requires
            within3(u@, CROSS_LIMIT as int),
            within3(v@, CROSS_LIMIT as int),
        ensures
            r@ == cross_fx(u@, v@),
    {
        proof {
            lemma_product_bound(u.1 as int, v.2 as int, CROSS_LIMIT as int);
            lemma_product_bound(u.2 as int, v.1 as int, CROSS_LIMIT as int);
            lemma_product_bound(u.2 as int, v.0 as int, CROSS_LIMIT as int);
            lemma_product_bound(u.0 as int, v.2 as int, CROSS_LIMIT as int);
            lemma_product_bound(u.0 as int, v.1 as int, CROSS_LIMIT as int);
            lemma_product_bound(u.1 as int, v.0 as int, CROSS_LIMIT as int);
        }
        let x: i128 = u.1 as i128 * v.2 as i128 - u.2 as i128 * v.1 as i128;
        let y: i128 = u.2 as i128 * v.0 as i128 - u.0 as i128 * v.2 as i128;
        let z: i128 = u.0 as i128 * v.1 as i128 - u.1 as i128 * v.0 as i128;
        Vec3(div_scale_trunc(x), div_scale_trunc(y), div_scale_trunc(z))
    }

    pub fn len_sqr(&self) -> (r: i128)
        requires
            within3(self@, DOT_LIMIT as int),
        ensures
            r == dot3(self@, self@),
            r >= 0,
    {
        proof {
            lemma_square_sum_nonneg(self@);
        }
        Vec3::dot(*self, *self)
    }

    /// The length, rounded down: the integer square root of `dot(u, u)`.
    pub fn len(&self) -> (r: i64)
        requires
            within3(self@, DOT_LIMIT as int),
        ensures
            is_isqrt(dot3(self@, self@), r as int),
    {
        let n = self.len_sqr();
        let r = isqrt(n as u128);
        proof {
            lemma_product_bound(self.0 as int, self.0 as int, DOT_LIMIT as int);
            lemma_product_bound(self.1 as int, self.1 as int, DOT_LIMIT as int);
            lemma_product_bound(self.2 as int, self.2 as int, DOT_LIMIT as int);
            lemma_isqrt_bound(n as int, r as int, 0x7000_0000_0000_0000);
        }
        r as i64
    }

    /// The vector of length `SCALE` (within rounding) pointing the same way;
    /// each component is rounded towards zero.
    pub fn unit(&self) -> (r: Vec3)
        requires
            within3(self@, UNIT_LIMIT as int),
            dot3(self@, self@) > 0,
        ensures
            r@ == unit3(self@),
            within3(r@, SCALE as int),
    {
        let n = self.len_sqr();
        proof {
            lemma_square_sum_nonneg(self@);
        }
        let x = unit_component(self.0, n);
        let y = unit_component(self.1, n);
        let z = unit_component(self.2, n);
        Vec3(x, y, z)
    }

    /// Component `i` (0 is x, 1 is y, 2 is z).
    pub fn axis(&self, i: usize) -> (r: i64)
        requires
            i < 3,
        ensures
            r == comp3(self@, i as int),
    {
        if i == 0 {
            self.0
        } else if i == 1 {
            self.1
        } else {
            self.2
        }
    }

    /// The sum of the three components.
    pub fn accumulate(&self) -> (r: i128)
        ensures
            r == self.0 + self.1 + self.2,
    {
        self.0 as i128 + self.1 as i128 + self.2 as i128
    }
}

/// A half-line `origin + t * direction`; the direction need not have length
/// `SCALE`.
#[derive(Clone, Copy, Debug, PartialEq, Eq, Structural)]
pub struct Ray {
    pub origin: Vec3,
    pub direction: Vec3,
}

/// The point at fixed-point parameter `t`, as unbounded integers.
pub open spec fn at3(r: Ray, t: int) -> Triple {
    (r.origin.0 + fx_mul(t, r.direction.0 as int), r.origin.1 + fx_mul(t, r.direction.1 as int),
        r.origin.2 + fx_mul(t, r.direction.2 as int))
}

impl Ray {
    /// The point `origin + t * direction` (`t` in fixed point).
    pub fn at(&self, t: i64) -> (r: Vec3)
        requires
            fits3(at3(*self, t as int)),
        ensures
            r@ == at3(*self, t as int),
    {
        proof {
            lemma_product_bound(t as int, self.direction.0 as int, 0x8000_0000_0000_0000);
            lemma_product_bound(t as int, self.direction.1 as int, 0x8000_0000_0000_0000);
            lemma_product_bound(t as int, self.direction.2 as int, 0x8000_0000_0000_0000);
        }
        let dx = div_floor(t as i128 * self.direction.0 as i128, SCALE as i128);
        let dy = div_floor(t as i128 * self.direction.1 as i128, SCALE as i128);
        let dz = div_floor(t as i128 * self.direction.2 as i128, SCALE as i128);
        Vec3(
            (self.origin.0 as i128 + dx) as i64,
            (self.origin.1 as i128 + dy) as i64,
            (self.origin.2 as i128 + dz) as i64,
        )
    }
}

/// Vector addition commutes.
pub proof fn lemma_add_commutes(u: Triple, v: Triple)
    ensures
        add3(u, v) == add3(v, u),
{
}

/// The dot product is linear in each argument.
pub proof fn lemma_dot_bilinear(u: Triple, w: Triple, v: Triple, a: int, b: int)
    ensures
        dot3(add3(times3(a, u), times3(b, w)), v) == a * dot3(u, v) + b * dot3(w, v),
        dot3(v, add3(times3(a, u), times3(b, w))) == a * dot3(v, u) + b * dot3(v, w),
{
    lemma_linear_term(a, u.0, b, w.0, v.0);
    lemma_linear_term(a, u.1, b, w.1, v.1);
    lemma_linear_term(a, u.2, b, w.2, v.2);
    lemma_scale_sum(a, u.0 * v.0, u.1 * v.1, u.2 * v.2);
    lemma_scale_sum(b, w.0 * v.0, w.1 * v.1, w.2 * v.2);
    lemma_scale_sum(a, v.0 * u.0, v.1 * u.1, v.2 * u.2);
    lemma_scale_sum(b, v.0 * w.0, v.1 * w.1, v.2 * w.2);
}

proof fn lemma_scale_sum(a: int, x: int, y: int, z: int)
    ensures
        a * (x + y + z) == a * x + a * y + a * z,
{
    assert(a * (x + y + z) == a * x + a * y + a * z) by (nonlinear_arith);
}

proof fn lemma_linear_term(a: int, x: int, b: int, y: int, z: int)
    ensures
        (a * x + b * y) * z == a * (x * z) + b * (y * z),
        z * (a * x + b * y) == a * (z * x) + b * (z * y),
{
    assert((a * x + b * y) * z == a * (x * z) + b * (y * z)) by (nonlinear_arith);
    assert(z * (a * x + b * y) == a * (z * x) + b * (z * y)) by (nonlinear_arith);
}

/// The cross product is anti-commutative, both exactly and in fixed point.
pub proof fn lemma_cross_anticommutes(u: Triple, v: Triple)
    ensures
        cross3(u, v) == neg3(cross3(v, u)),
        cross_fx(u, v) == neg3(cross_fx(v, u)),
{
    assert(u.1 * v.2 == v.2 * u.1 && u.2 * v.1 == v.1 * u.2) by (nonlinear_arith);
    assert(u.2 * v.0 == v.0 * u.2 && u.0 * v.2 == v.2 * u.0) by (nonlinear_arith);
    assert(u.0 * v.1 == v.1 * u.0 && u.1 * v.0 == v.0 * u.1) by (nonlinear_arith);
}

/// The unit vector of a non-zero vector has length `SCALE` up to rounding:
/// its squared length lies in `(SCALE^2 - 6 SCALE - 3, SCALE^2]`.
pub proof fn lemma_unit_length(u: Triple)
    requires
        dot3(u, u) > 0,
    ensures
        SCALE * SCALE - 6 * SCALE - 3 < dot3(unit3(u), unit3(u)) <= SCALE * SCALE,
{
    let n = dot3(u, u);
    lemma_square_sum_nonneg(u);
    lemma_unit_part_bounds(u.0, n);
    lemma_unit_part_bounds(u.1, n);
    lemma_unit_part_bounds(u.2, n);
    let a = unit_part(u.0, n);
    let b = unit_part(u.1, n);
    let c = unit_part(u.2, n);
    let w = unit3(u);
    assert(w.0 * w.0 == a * a && w.1 * w.1 == b * b && w.2 * w.2 == c * c) by (nonlinear_arith)
        requires
            w.0 == a || w.0 == -a,
            w.1 == b || w.1 == -b,
            w.2 == c || w.2 == -c,
    ;
    let k = SCALE * SCALE;
    assert((a * a + b * b + c * c) * n <= k * n) by (nonlinear_arith)
        requires
            a * a * n <= u.0 * u.0 * k,
            b * b * n <= u.1 * u.1 * k,
            c * c * n <= u.2 * u.2 * k,
            n == u.0 * u.0 + u.1 * u.1 + u.2 * u.2,
    ;
    assert(a * a + b * b + c * c <= k) by (nonlinear_arith)
        requires
            (a * a + b * b + c * c) * n <= k * n,
            n > 0,
    ;
    assert(((a + 1) * (a + 1) + (b + 1) * (b + 1) + (c + 1) * (c + 1)) * n > k * n)
        by (nonlinear_arith)
        requires
            (a + 1) * (a + 1) * n > u.0 * u.0 * k,
            (b + 1) * (b + 1) * n > u.1 * u.1 * k,
            (c + 1) * (c + 1) * n > u.2 * u.2 * k,
            n == u.0 * u.0 + u.1 * u.1 + u.2 * u.2,
    ;
    assert((a + 1) * (a + 1) + (b + 1) * (b + 1) + (c + 1) * (c + 1) > k) by (nonlinear_arith)
        requires
            ((a + 1) * (a + 1) + (b + 1) * (b + 1) + (c + 1) * (c + 1)) * n > k * n,
            n > 0,
    ;
    assert(a * a + b * b + c * c > k - 6 * SCALE - 3) by (nonlinear_arith)
        requires
            (a + 1) * (a + 1) + (b + 1) * (b + 1) + (c + 1) * (c + 1) > k,
            0 <= a <= SCALE,
            0 <= b <= SCALE,
            0 <= c <= SCALE,
    ;
}

/// Bounds that pin down one component of a unit vector.
proof fn lemma_unit_part_bounds(c: int, n: int)
    requires
        n > 0,
        c * c <= n,
    ensures
        unit_part(c, n) * unit_part(c, n) * n <= c * c * (SCALE * SCALE),
        (unit_part(c, n) + 1) * (unit_part(c, n) + 1) * n > c * c * (SCALE * SCALE),
        0 <= unit_part(c, n) <= SCALE,
{
    let m = if c >= 0 { c } else { -c };
    assert(m * m == c * c) by (nonlinear_arith)
        requires
            m == c || m == -c,
    ;
    let p = m * m * SCALE * SCALE;
    assert(p == c * c * (SCALE * SCALE)) by (nonlinear_arith)
        requires
            m * m == c * c,
            p == m * m * SCALE * SCALE,
    ;
    let q = p / n;
    let w = sqrt_floor(q);
    vstd::arithmetic::div_mod::lemma_fundamental_div_mod(p, n);
    assert(p >= 0) by (nonlinear_arith)
        requires
            p == m * m * SCALE * SCALE,
    ;
    vstd::arithmetic::div_mod::lemma_div_pos_is_pos(p, n);
    lemma_sqrt_floor_exists(q);
    assert(w * w * n <= p) by (nonlinear_arith)
        requires
            w * w <= q,
            p == n * q + p % n,
            0 <= p % n,
            n > 0,
    ;
    assert((w + 1) * (w + 1) * n > p) by (nonlinear_arith)
        requires
            (w + 1) * (w + 1) >= q + 1,
            p == n * q + p % n,
            p % n < n,
            n > 0,
    ;
    lemma_unit_part_is(m, n, w);
}

fn div_scale_trunc(x: i128) -> (r: i64)
    requires
        -0x200_0000_0000_0000_0000 <= x <= 0x200_0000_0000_0000_0000,
    ensures
        r == div_trunc(x as int),
{
    let m: i128 = if x >= 0 { x } else { -x };
    proof {
        vstd::arithmetic::div_mod::lemma_div_is_ordered(m as int, 0x200_0000_0000_0000_0000, SCALE as int);
        vstd::arithmetic::div_mod::lemma_div_pos_is_pos(m as int, SCALE as int);
        assert(0x200_0000_0000_0000_0000int / (SCALE as int) == 0x2000_0000_0000_0000);
    }
    let q: i64 = (m / SCALE as i128) as i64;
    if x >= 0 {
        q
    } else {
        -q
    }
}

/// The fixed-point product of two coordinates.
pub fn mul_fixed(a: i64, b: i64) -> (r: i64)
    requires
        fits_i64(fx_mul(a as int, b as int)),
    ensures
        r == fx_mul(a as int, b as int),
{
    proof {
        lemma_product_bound(a as int, b as int, 0x8000_0000_0000_0000);
    }
    div_floor(a as i128 * b as i128, SCALE as i128) as i64
}

fn div_fx(a: i64, s: i64) -> (r: i64)
    requires
        s != 0,
        fits_i64(fx_div(a as int, s as int)),
    ensures
        r == fx_div(a as int, s as int),
{
    proof {
        lemma_product_bound(a as int, SCALE as int, 0x8000_0000_0000_0000);
    }
    let n: i128 = a as i128 * SCALE as i128;
    if s > 0 {
        div_floor(n, s as i128) as i64
    } else {
        div_floor(-n, -(s as i128)) as i64
    }
}

/// One component of `unit`, for a vector whose squared length is `n`.
fn unit_component(c: i64, n: i128) -> (r: i64)
    requires
        -UNIT_LIMIT <= c <= UNIT_LIMIT,
        n > 0,
        c * c <= n,
    ensures
        r == unit_comp(c as int, n as int),
        -SCALE <= r <= SCALE,
{
    let m: i128 = if c >= 0 { c as i128 } else { -(c as i128) };
    proof {
        assert(m * m == c * c) by (nonlinear_arith)
            requires
                m == c || m == -c,
        ;
        lemma_product_bound(m as int, m as int, UNIT_LIMIT as int);
        assert(m * m * SCALE * SCALE <= 0x10_0000_0000_0000_0000_0000_0000 * 0x100_0000)
            by (nonlinear_arith)
            requires
                0 <= m * m <= 0x10_0000_0000_0000_0000_0000_0000,
        ;
    }
    let q: u128 = ((m * m) as u128 * (SCALE as u128 * SCALE as u128)) / (n as u128);
    let w: u128 = isqrt(q);
    proof {
        assert(m * m * SCALE * SCALE == (m * m) * (SCALE * SCALE)) by (nonlinear_arith);
        lemma_unit_part_is(m as int, n as int, w as int);
    }
    if c >= 0 {
        w as i64
    } else {
        -(w as i64)
    }
}

proof fn lemma_unit_part_is(m: int, n: int, w: int)
    requires
        m >= 0,
        n > 0,
        m * m <= n,
        is_isqrt((m * m * SCALE * SCALE) / n, w),
    ensures
        unit_part(m, n) == w,
        unit_part(-m, n) == w,
        w <= SCALE,
{
    let q = (m * m * SCALE * SCALE) / n;
    lemma_sqrt_floor(q, w);
    assert(-m >= 0 ==> m == 0);
    assert((-m) * (-m) == m * m) by (nonlinear_arith);
    lemma_sqrt_floor(((-m) * (-m) * SCALE * SCALE) / n, w);
    assert(q <= SCALE * SCALE) by {
        assert(m * m * SCALE * SCALE <= n * (SCALE * SCALE)) by (nonlinear_arith)
            requires
                m * m <= n,
        ;
        vstd::arithmetic::div_mod::lemma_div_is_ordered(
            m * m * SCALE * SCALE,
            n * (SCALE * SCALE),
            n,
        );
        vstd::arithmetic::div_mod::lemma_div_multiples_vanish(SCALE * SCALE, n);
        assert(n * (SCALE * SCALE) == (SCALE * SCALE) * n) by (nonlinear_arith);
    }
    if w > SCALE {
        assert(w * w > SCALE * SCALE) by (nonlinear_arith)
            requires
                w > SCALE,
        ;
    }
}

proof fn lemma_isqrt_bound(n: int, r: int, b: int)
    requires
        is_isqrt(n, r),
        n <= b * b,
        b >= 0,
    ensures
        r <= b,
{
    if r > b {
        assert(r * r > b * b) by (nonlinear_arith)
            requires
                r > b,
                b >= 0,
        ;
    }
}

/// A bound on the dot product of two bounded vectors.
pub proof fn lemma_dot_bound(u: Triple, v: Triple, a: int, b: int)
    requires
        within3(u, a),
        within3(v, b),
    ensures
        -3 * (a * b) <= dot3(u, v) <= 3 * (a * b),
{
    lemma_mixed_product_bound(u.0, v.0, a, b);
    lemma_mixed_product_bound(u.1, v.1, a, b);
    lemma_mixed_product_bound(u.2, v.2, a, b);
}

pub proof fn lemma_mixed_product_bound(x: int, y: int, a: int, b: int)
    requires
        -a <= x <= a,
        -b <= y <= b,
    ensures
        -(a * b) <= x * y <= a * b,
{
    assert(-(a * b) <= x * y <= a * b) by (nonlinear_arith)
        requires
            -a <= x <= a,
            -b <= y <= b,
    ;
}

/// A fixed-point product of bounded factors is bounded.
pub proof fn lemma_fx_mul_bound(a: int, b: int, ab: int, bb: int, m: int)
    requires
        -ab <= a <= ab,
        -bb <= b <= bb,
        ab * bb <= m * SCALE,
        m >= 0,
    ensures
        -m <= fx_mul(a, b) <= m,
{
    lemma_mixed_product_bound(a, b, ab, bb);
    vstd::arithmetic::div_mod::lemma_div_is_ordered(a * b, m * SCALE, SCALE as int);
    vstd::arithmetic::div_mod::lemma_div_is_ordered(-(m * SCALE), a * b, SCALE as int);
    vstd::arithmetic::div_mod::lemma_div_multiples_vanish(m, SCALE as int);
    vstd::arithmetic::div_mod::lemma_div_multiples_vanish(-m, SCALE as int);
    assert(m * SCALE == SCALE * m);
    assert(-(m * SCALE) == SCALE * (-m));
}

/// Scaling a bounded vector by a bounded scalar gives a bounded vector.
pub proof fn lemma_scale_within(s: int, u: Triple, sb: int, ub: int, m: int)
    requires
        -sb <= s <= sb,
        within3(u, ub),
        sb * ub <= m * SCALE,
        m >= 0,
    ensures
        within3(scale3(s, u), m),
{
    lemma_fx_mul_bound(s, u.0, sb, ub, m);
    lemma_fx_mul_bound(s, u.1, sb, ub, m);
    lemma_fx_mul_bound(s, u.2, sb, ub, m);
}

pub proof fn lemma_product_bound(a: int, b: int, m: int)
    requires
        -m <= a <= m,
        -m <= b <= m,
    ensures
        -(m * m) <= a * b <= m * m,
{
    assert(-(m * m) <= a * b <= m * m) by (nonlinear_arith)
        requires
            -m <= a <= m,
            -m <= b <= m,
    ;
}

pub proof fn lemma_square_sum_nonneg(u: Triple)
    ensures
        dot3(u, u) >= 0,
        u.0 * u.0 <= dot3(u, u),
        u.1 * u.1 <= dot3(u, u),
        u.2 * u.2 <= dot3(u, u),
{
    assert(u.0 * u.0 >= 0 && u.1 * u.1 >= 0 && u.2 * u.2 >= 0) by (nonlinear_arith);
}

} // verus!
