//! Axis-aligned bounding boxes and the slab test.
use vstd::prelude::*;
use crate::vector::{Vec3, Ray, Triple, comp3, within3, at3, fx_mul, SCALE, WORLD};

verus! {

/// A box `[min, max]` on each axis.
#[derive(Clone, Copy, Debug, PartialEq, Eq, Structural)]
pub struct AABB {
    pub min: Vec3,
    pub max: Vec3,
}

/// A ray parameter as a fraction `num / den` with `den > 0`.
pub type Frac = (int, int);

pub open spec fn frac_lt(p: Frac, q: Frac) -> bool {
    p.0 * q.1 < q.0 * p.1
}

/// Where the ray enters the slab of axis `i` (direction component non-zero).
pub open spec fn slab_entry(b: AABB, r: Ray, i: int) -> Frac {
    let o = comp3(r.origin@, i);
    let d = comp3(r.direction@, i);
    if d > 0 {
        (comp3(b.min@, i) - o, d)
    } else {
        (o - comp3(b.max@, i), -d)
    }
}

/// Where the ray leaves the slab of axis `i` (direction component non-zero).
pub open spec fn slab_exit(b: AABB, r: Ray, i: int) -> Frac {
    let o = comp3(r.origin@, i);
    let d = comp3(r.direction@, i);
    if d > 0 {
        (comp3(b.max@, i) - o, d)
    } else {
        (o - comp3(b.min@, i), -d)
    }
}

/// The lower bounds on the parameter: the entries of axes 0 to 2, and
/// `t_min` as bound 3.
pub open spec fn lower_bound(b: AABB, r: Ray, t_min: int, i: int) -> Frac {
    if i == 3 {
        (t_min, SCALE as int)
    } else {
        slab_entry(b, r, i)
    }
}

/// The upper bounds on the parameter: the exits of axes 0 to 2, and `t_max`
/// as bound 3.
pub open spec fn upper_bound(b: AABB, r: Ray, t_max: int, i: int) -> Frac {
    if i == 3 {
        (t_max, SCALE as int)
    } else {
        slab_exit(b, r, i)
    }
}

/// Bound `i` constrains the parameter: the interval itself, or an axis that
/// the ray is not parallel to.
pub open spec fn bound_active(r: Ray, i: int) -> bool {
    i == 3 || comp3(r.direction@, i) != 0
}

/// The ray is parallel to axis `i` and runs inside its slab.
pub open spec fn parallel_inside(b: AABB, r: Ray, i: int) -> bool {
    comp3(r.direction@, i) == 0 ==> comp3(b.min@, i) <= comp3(r.origin@, i) <= comp3(b.max@, i)
}

/// The slab test: some parameter strictly between `t_min` and `t_max`
/// (fixed point) lies in every slab, i.e. every lower bound is below every
/// upper bound, and no parallel axis excludes the ray.
pub open spec fn box_hit(b: AABB, r: Ray, t_min: int, t_max: int) -> bool {
    &&& forall|i: int| 0 <= i < 3 ==> #[trigger] parallel_inside(b, r, i)
    &&& forall|i: int, j: int|
        0 <= i < 4 && 0 <= j < 4 && bound_active(r, i) && bound_active(r, j) ==> frac_lt(
            #[trigger] lower_bound(b, r, t_min, i),
            #[trigger] upper_bound(b, r, t_max, j),
        )
}

/// `outer` contains `inner` on every axis.
pub open spec fn box_contains(outer: AABB, inner: AABB) -> bool {
    &&& outer.min.0 <= inner.min.0 && outer.min.1 <= inner.min.1 && outer.min.2 <= inner.min.2
    &&& inner.max.0 <= outer.max.0 && inner.max.1 <= outer.max.1 && inner.max.2 <= outer.max.2
}

/// A point lies strictly inside the box on every axis.
pub open spec fn strictly_inside(b: AABB, p: Triple) -> bool {
    &&& b.min.0 < p.0 < b.max.0
    &&& b.min.1 < p.1 < b.max.1
    &&& b.min.2 < p.2 < b.max.2
}

/// The corners are ordered and within `[-m, m]`.
pub open spec fn box_within(b: AABB, m: int) -> bool {
    &&& b.min.0 <= b.max.0 && b.min.1 <= b.max.1 && b.min.2 <= b.max.2
    &&& within3(b.min@, m) && within3(b.max@, m)
}

/// The corners are ordered and within the coordinate range.
pub open spec fn box_wf(b: AABB) -> bool {
    box_within(b, WORLD as int)
}

/// The largest widening `grow` applies: `WORLD / SCALE + 2`.
pub const RAY_MARGIN: i64 = 0x1_0002;

/// Boxes of scene geometry stay this far inside the coordinate range, so
/// that they can be widened by `ray_pad`.
pub open spec fn geometry_box(b: AABB) -> bool {
    box_within(b, (WORLD - RAY_MARGIN) as int)
}

/// How far a point computed at a rounded parameter can stray from the exact
/// point on each axis, plus one: `|d_i| / SCALE + 2`.
pub open spec fn ray_pad(r: Ray) -> Triple {
    let d = r.direction@;
    (abs_i(d.0) / (SCALE as int) + 2, abs_i(d.1) / (SCALE as int) + 2, abs_i(d.2) / (SCALE as int) + 2)
}

pub open spec fn abs_i(x: int) -> int {
    if x >= 0 { x } else { -x }
}

/// The box widened by `e` on each side.
pub open spec fn grow(b: AABB, e: Triple) -> AABB {
    AABB {
        min: Vec3((b.min.0 - e.0) as i64, (b.min.1 - e.1) as i64, (b.min.2 - e.2) as i64),
        max: Vec3((b.max.0 + e.0) as i64, (b.max.1 + e.1) as i64, (b.max.2 + e.2) as i64),
    }
}

/// Widening keeps containment.
pub proof fn lemma_grow_contains(outer: AABB, inner: AABB, e: Triple)
    requires
        geometry_box(outer),
        geometry_box(inner),
        0 <= e.0 <= RAY_MARGIN && 0 <= e.1 <= RAY_MARGIN && 0 <= e.2 <= RAY_MARGIN,
        box_contains(outer, inner),
    ensures
        box_contains(grow(outer, e), grow(inner, e)),
        box_wf(grow(outer, e)),
        box_wf(grow(inner, e)),
{
}

/// `ray_pad` for a ray, as a vector.
pub fn ray_pad_of(r: &Ray) -> (e: Vec3)
    requires
        ray_wf(*r),
    ensures
        e@ == ray_pad(*r),
        0 <= e.0 <= RAY_MARGIN && 0 <= e.1 <= RAY_MARGIN && 0 <= e.2 <= RAY_MARGIN,
{
    let d = r.direction;
    let ax: i64 = if d.0 >= 0 { d.0 } else { -d.0 };
    let ay: i64 = if d.1 >= 0 { d.1 } else { -d.1 };
    let az: i64 = if d.2 >= 0 { d.2 } else { -d.2 };
    proof {
        vstd::arithmetic::div_mod::lemma_div_is_ordered(ax as int, WORLD as int, SCALE as int);
        vstd::arithmetic::div_mod::lemma_div_is_ordered(ay as int, WORLD as int, SCALE as int);
        vstd::arithmetic::div_mod::lemma_div_is_ordered(az as int, WORLD as int, SCALE as int);
        vstd::arithmetic::div_mod::lemma_div_pos_is_pos(ax as int, SCALE as int);
        vstd::arithmetic::div_mod::lemma_div_pos_is_pos(ay as int, SCALE as int);
        vstd::arithmetic::div_mod::lemma_div_pos_is_pos(az as int, SCALE as int);
        assert((WORLD as int) / (SCALE as int) == 0x1_0000);
    }
    Vec3(ax / SCALE + 2, ay / SCALE + 2, az / SCALE + 2)
}

/// The ray's origin and direction are within the coordinate range.
pub open spec fn ray_wf(r: Ray) -> bool {
    within3(r.origin@, WORLD as int) && within3(r.direction@, WORLD as int)
}

pub open spec fn min_i(a: int, b: int) -> int {
    if a <= b { a } else { b }
}

pub open spec fn max_i(a: int, b: int) -> int {
    if a >= b { a } else { b }
}

/// The smallest box containing both boxes: the smaller minimum and the
/// larger maximum on each axis.
pub open spec fn surrounding(a: AABB, b: AABB) -> AABB {
    AABB {
        min: Vec3(
            if a.min.0 <= b.min.0 { a.min.0 } else { b.min.0 },
            if a.min.1 <= b.min.1 { a.min.1 } else { b.min.1 },
            if a.min.2 <= b.min.2 { a.min.2 } else { b.min.2 },
        ),
        max: Vec3(
            if a.max.0 >= b.max.0 { a.max.0 } else { b.max.0 },
            if a.max.1 >= b.max.1 { a.max.1 } else { b.max.1 },
            if a.max.2 >= b.max.2 { a.max.2 } else { b.max.2 },
        ),
    }
}

/// The center of a box, rounded down.
pub open spec fn box_center(b: AABB) -> Triple {
    ((b.min.0 + b.max.0) / 2, (b.min.1 + b.max.1) / 2, (b.min.2 + b.max.2) / 2)
}

/// The surrounding box contains both boxes, and is well formed when they are.
pub proof fn lemma_surrounding_contains(a: AABB, b: AABB)
    ensures
        box_contains(surrounding(a, b), a),
        box_contains(surrounding(a, b), b),
        box_wf(a) && box_wf(b) ==> box_wf(surrounding(a, b)),
        geometry_box(a) && geometry_box(b) ==> geometry_box(surrounding(a, b)),
{
}

/// A ray that passes strictly inside a box at some parameter of the open
/// interval `(t_min, t_max)` hits the box.
pub proof fn lemma_inside_point_hits(b: AABB, r: Ray, t_min: int, t_max: int, t: int)
    requires
        t_min < t < t_max,
        strictly_inside(b, at3(r, t)),
    ensures
        box_hit(b, r, t_min, t_max),
{
    let m: Frac = (t, SCALE as int);
    lemma_axis_brackets(b, r, t, 0);
    lemma_axis_brackets(b, r, t, 1);
    lemma_axis_brackets(b, r, t, 2);
    assert forall|i: int| 0 <= i < 3 implies #[trigger] parallel_inside(b, r, i) by {
        lemma_axis_brackets(b, r, t, i);
    }
    assert forall|i: int, j: int|
        0 <= i < 4 && 0 <= j < 4 && bound_active(r, i) && bound_active(r, j) implies frac_lt(
        #[trigger] lower_bound(b, r, t_min, i),
        #[trigger] upper_bound(b, r, t_max, j),
    ) by {
        assert(frac_lt(lower_bound(b, r, t_min, i), m)) by {
            if i == 3 {
                assert(t_min * SCALE < t * SCALE) by (nonlinear_arith)
                    requires
                        t_min < t,
                ;
            }
        }
        assert(frac_lt(m, upper_bound(b, r, t_max, j))) by {
            if j == 3 {
                assert(t * SCALE < t_max * SCALE) by (nonlinear_arith)
                    requires
                        t < t_max,
                ;
            }
        }
        lemma_frac_trans(lower_bound(b, r, t_min, i), m, upper_bound(b, r, t_max, j));
    }
}

/// A ray through the center of a box that is at least two units wide on
/// every axis hits it.
pub proof fn lemma_center_hits(b: AABB, r: Ray, t_min: int, t_max: int, t: int)
    requires
        t_min < t < t_max,
        b.max.0 - b.min.0 >= 2 && b.max.1 - b.min.1 >= 2 && b.max.2 - b.min.2 >= 2,
        at3(r, t) == box_center(b),
    ensures
        box_hit(b, r, t_min, t_max),
{
    lemma_inside_point_hits(b, r, t_min, t_max, t);
}

/// A ray that starts outside the slab of one axis and does not move towards
/// it misses the box for every non-negative `t_min`.
pub proof fn lemma_diverging_misses(b: AABB, r: Ray, t_min: int, t_max: int, i: int)
    requires
        0 <= t_min,
        0 <= i < 3,
        (comp3(r.origin@, i) > comp3(b.max@, i) && comp3(r.direction@, i) >= 0) || (comp3(
            r.origin@,
            i,
        ) < comp3(b.min@, i) && comp3(r.direction@, i) <= 0),
    ensures
        !box_hit(b, r, t_min, t_max),
{
    if comp3(r.direction@, i) == 0 {
        assert(!parallel_inside(b, r, i));
    } else {
        let e = upper_bound(b, r, t_max, i);
        assert(e.0 < 0 && e.1 > 0);
        assert(t_min * e.1 >= 0) by (nonlinear_arith)
            requires
                t_min >= 0,
                e.1 > 0,
        ;
        assert(e.0 * SCALE < 0) by (nonlinear_arith)
            requires
                e.0 < 0,
        ;
        assert(!frac_lt(lower_bound(b, r, t_min, 3), e));
    }
}

/// On an axis where the point at `t` is strictly inside the slab, `t` lies
/// strictly between the entry and the exit.
proof fn lemma_axis_brackets(b: AABB, r: Ray, t: int, i: int)
    requires
        strictly_inside(b, at3(r, t)),
        0 <= i < 3,
    ensures
        parallel_inside(b, r, i),
        comp3(r.direction@, i) != 0 ==> frac_lt(slab_entry(b, r, i), (t, SCALE as int)),
        comp3(r.direction@, i) != 0 ==> frac_lt((t, SCALE as int), slab_exit(b, r, i)),
{
    let o = comp3(r.origin@, i);
    let d = comp3(r.direction@, i);
    let lo = comp3(b.min@, i);
    let hi = comp3(b.max@, i);
    let s = SCALE as int;
    let f = (t * d) / s;
    assert(comp3(at3(r, t), i) == o + fx_mul(t, d));
    assert(lo < o + f < hi);
    vstd::arithmetic::div_mod::lemma_fundamental_div_mod(t * d, s);
    let rem = (t * d) % s;
    assert(t * d == s * f + rem);
    assert(0 <= rem < s);
    if d == 0 {
        assert(t * d == 0) by (nonlinear_arith)
            requires
                d == 0,
        ;
        vstd::arithmetic::div_mod::lemma_div_of0(s);
    } else if d > 0 {
        assert((lo - o) * s < t * d) by (nonlinear_arith)
            requires
                lo - o <= f - 1,
                t * d == s * f + rem,
                0 <= rem,
                s > 0,
        ;
        assert(t * d < (hi - o) * s) by (nonlinear_arith)
            requires
                f + 1 <= hi - o,
                t * d == s * f + rem,
                rem < s,
                s > 0,
        ;
    } else {
        assert((o - hi) * s < t * (-d)) by (nonlinear_arith)
            requires
                f + 1 <= hi - o,
                t * d == s * f + rem,
                rem < s,
                s > 0,
        ;
        assert(t * (-d) < (o - lo) * s) by (nonlinear_arith)
            requires
                lo - o <= f - 1,
                t * d == s * f + rem,
                0 <= rem,
                s > 0,
        ;
    }
}

/// `p < q` for fractions with positive denominators.
fn lt_frac(pn: i128, pd: i128, qn: i128, qd: i128) -> (r: bool)
    requires
        -0x1_0000_0000_0000_0000 <= pn <= 0x1_0000_0000_0000_0000,
        -0x1_0000_0000_0000_0000 <= qn <= 0x1_0000_0000_0000_0000,
        0 < pd <= 0x1000_0000,
        0 < qd <= 0x1000_0000,
    ensures
        r == frac_lt((pn as int, pd as int), (qn as int, qd as int)),
{
    proof {
        lemma_bounded_mul(pn as int, qd as int);
        lemma_bounded_mul(qn as int, pd as int);
    }
    pn * qd < qn * pd
}

proof fn lemma_bounded_mul(n: int, d: int)
    requires
        -0x1_0000_0000_0000_0000 <= n <= 0x1_0000_0000_0000_0000,
        0 < d <= 0x1000_0000,
    ensures
        -0x1000_0000_0000_0000_0000_0000 <= n * d <= 0x1000_0000_0000_0000_0000_0000,
{
    assert(-0x1000_0000_0000_0000_0000_0000 <= n * d <= 0x1000_0000_0000_0000_0000_0000)
        by (nonlinear_arith)
        requires
            -0x1_0000_0000_0000_0000 <= n <= 0x1_0000_0000_0000_0000,
            0 < d <= 0x1000_0000,
    ;
}

/// `p <= q < s` gives `p < s` for positive denominators.
proof fn lemma_frac_trans(p: Frac, q: Frac, s: Frac)
    requires
        p.1 > 0,
        q.1 > 0,
        s.1 > 0,
        !frac_lt(q, p),
        frac_lt(q, s),
    ensures
        frac_lt(p, s),
{
    assert(p.0 * q.1 * s.1 <= q.0 * p.1 * s.1) by (nonlinear_arith)
        requires
            p.0 * q.1 <= q.0 * p.1,
            s.1 > 0,
    ;
    assert(q.0 * s.1 * p.1 < s.0 * q.1 * p.1) by (nonlinear_arith)
        requires
            q.0 * s.1 < s.0 * q.1,
            p.1 > 0,
    ;
    assert(p.0 * s.1 * q.1 < s.0 * p.1 * q.1) by (nonlinear_arith)
        requires
            p.0 * q.1 * s.1 <= q.0 * p.1 * s.1,
            q.0 * s.1 * p.1 < s.0 * q.1 * p.1,
    ;
    assert(p.0 * s.1 < s.0 * p.1) by (nonlinear_arith)
        requires
            p.0 * s.1 * q.1 < s.0 * p.1 * q.1,
            q.1 > 0,
    ;
}

/// `p < q` and `q <= s` give `p < s` for positive denominators.
proof fn lemma_frac_trans2(p: Frac, q: Frac, s: Frac)
    requires
        p.1 > 0,
        q.1 > 0,
        s.1 > 0,
        frac_lt(p, q),
        !frac_lt(s, q),
    ensures
        frac_lt(p, s),
{
    assert(p.0 * q.1 * s.1 < q.0 * p.1 * s.1) by (nonlinear_arith)
        requires
            p.0 * q.1 < q.0 * p.1,
            s.1 > 0,
    ;
    assert(q.0 * s.1 * p.1 <= s.0 * q.1 * p.1) by (nonlinear_arith)
        requires
            q.0 * s.1 <= s.0 * q.1,
            p.1 > 0,
    ;
    assert(p.0 * s.1 * q.1 < s.0 * p.1 * q.1) by (nonlinear_arith)
        requires
            p.0 * q.1 * s.1 < q.0 * p.1 * s.1,
            q.0 * s.1 * p.1 <= s.0 * q.1 * p.1,
    ;
    assert(p.0 * s.1 < s.0 * p.1) by (nonlinear_arith)
        requires
            p.0 * s.1 * q.1 < s.0 * p.1 * q.1,
            q.1 > 0,
    ;
}

impl AABB {
    /// The slab test over the open parameter interval `(t_min, t_max)`
    /// (fixed point): the interval is narrowed axis by axis and the test
    /// fails as soon as it becomes empty.
    pub fn hit(&self, r: &Ray, t_min: i64, t_max: i64) -> (res: bool)
        requires
            box_wf(*self),
            ray_wf(*r),
        ensures
            res == box_hit(*self, *r, t_min as int, t_max as int),
    {
        let b = *self;
        let ray = *r;
        let mut lo_n: i128 = t_min as i128;
        let mut lo_d: i128 = SCALE as i128;
        let mut hi_n: i128 = t_max as i128;
        let mut hi_d: i128 = SCALE as i128;
        if !lt_frac(lo_n, lo_d, hi_n, hi_d) {
            assert(!frac_lt(lower_bound(*self, *r, t_min as int, 3), upper_bound(*self, *r, t_max as int, 3)));
            return false;
        }
        let ghost mut li: int = 3;
        let ghost mut hj: int = 3;
        let mut i: usize = 0;
        while i < 3
            invariant
                box_wf(b),
                ray_wf(ray),
                b == *self,
                ray == *r,
                0 <= i <= 3,
                0 <= li < 4,
                0 <= hj < 4,
                li == 3 || li < i,
                hj == 3 || hj < i,
                bound_active(ray, li),
                bound_active(ray, hj),
                (lo_n as int, lo_d as int) == lower_bound(b, ray, t_min as int, li),
                (hi_n as int, hi_d as int) == upper_bound(b, ray, t_max as int, hj),
                frac_lt((lo_n as int, lo_d as int), (hi_n as int, hi_d as int)),
                forall|k: int| 0 <= k < i ==> #[trigger] parallel_inside(b, ray, k),
                forall|k: int|
                    (k == 3 || 0 <= k < i) && bound_active(ray, k) ==> !frac_lt(
                        (lo_n as int, lo_d as int),
                        #[trigger] lower_bound(b, ray, t_min as int, k),
                    ),
                forall|k: int|
                    (k == 3 || 0 <= k < i) && bound_active(ray, k) ==> !frac_lt(
                        #[trigger] upper_bound(b, ray, t_max as int, k),
                        (hi_n as int, hi_d as int),
                    ),
            decreases 3 - i,
        {
            let o = ray.origin.axis(i) as i128;
            let d = ray.direction.axis(i) as i128;
            let mn = b.min.axis(i) as i128;
            let mx = b.max.axis(i) as i128;
            if d == 0 {
                if o < mn || o > mx {
                    assert(!parallel_inside(b, ray, i as int));
                    return false;
                }
            } else {
                let (en, ex, den) = if d > 0 {
                    (mn - o, mx - o, d)
                } else {
                    (o - mx, o - mn, -d)
                };
                assert((en as int, den as int) == lower_bound(b, ray, t_min as int, i as int));
                assert((ex as int, den as int) == upper_bound(b, ray, t_max as int, i as int));
                let ghost old_lo = (lo_n as int, lo_d as int);
                let ghost old_hi = (hi_n as int, hi_d as int);
                if lt_frac(lo_n, lo_d, en, den) {
                    lo_n = en;
                    lo_d = den;
                    proof {
                        li = i as int;
                        assert forall|k: int|
                            (k == 3 || 0 <= k < i + 1) && bound_active(ray, k) implies !frac_lt(
                            (lo_n as int, lo_d as int),
                            #[trigger] lower_bound(b, ray, t_min as int, k),
                        ) by {
                            if k != i {
                                lemma_frac_trans(lower_bound(b, ray, t_min as int, k), old_lo, (lo_n as int, lo_d as int));
                            }
                        }
                    }
                }
                if lt_frac(ex, den, hi_n, hi_d) {
                    hi_n = ex;
                    hi_d = den;
                    proof {
                        hj = i as int;
                        assert forall|k: int|
                            (k == 3 || 0 <= k < i + 1) && bound_active(ray, k) implies !frac_lt(
                            #[trigger] upper_bound(b, ray, t_max as int, k),
                            (hi_n as int, hi_d as int),
                        ) by {
                            if k != i {
                                lemma_frac_trans2((hi_n as int, hi_d as int), old_hi, upper_bound(b, ray, t_max as int, k));
                            }
                        }
                    }
                }
                if !lt_frac(lo_n, lo_d, hi_n, hi_d) {
                    assert(!frac_lt(lower_bound(b, ray, t_min as int, li), upper_bound(b, ray, t_max as int, hj)));
                    return false;
                }
            }
            i = i + 1;
        }
        proof {
            assert forall|p: int, q: int|
                0 <= p < 4 && 0 <= q < 4 && bound_active(ray, p) && bound_active(ray, q) implies frac_lt(
                #[trigger] lower_bound(b, ray, t_min as int, p),
                #[trigger] upper_bound(b, ray, t_max as int, q),
            ) by {
                let lo = (lo_n as int, lo_d as int);
                let hi = (hi_n as int, hi_d as int);
                lemma_frac_trans(lower_bound(b, ray, t_min as int, p), lo, hi);
                lemma_frac_trans2(lower_bound(b, ray, t_min as int, p), hi, upper_bound(b, ray, t_max as int, q));
            }
        }
        true
    }

    /// The box widened by `e` on each side.
    pub fn grow(&self, e: Vec3) -> (r: AABB)
        requires
            geometry_box(*self),
            0 <= e.0 <= RAY_MARGIN && 0 <= e.1 <= RAY_MARGIN && 0 <= e.2 <= RAY_MARGIN,
        ensures
            r == grow(*self, e@),
            box_wf(r),
    {
        AABB {
            min: Vec3(self.min.0 - e.0, self.min.1 - e.1, self.min.2 - e.2),
            max: Vec3(self.max.0 + e.0, self.max.1 + e.1, self.max.2 + e.2),
        }
    }

    /// The smallest box that contains both boxes.
    pub fn surrounding_box(box0: AABB, box1: AABB) -> (r: AABB)
        ensures
            r == surrounding(box0, box1),
    {
        let small = Vec3(
            if box0.min.0 <= box1.min.0 { box0.min.0 } else { box1.min.0 },
            if box0.min.1 <= box1.min.1 { box0.min.1 } else { box1.min.1 },
            if box0.min.2 <= box1.min.2 { box0.min.2 } else { box1.min.2 },
        );
        let big = Vec3(
            if box0.max.0 >= box1.max.0 { box0.max.0 } else { box1.max.0 },
            if box0.max.1 >= box1.max.1 { box0.max.1 } else { box1.max.1 },
            if box0.max.2 >= box1.max.2 { box0.max.2 } else { box1.max.2 },
        );
        AABB { min: small, max: big }
    }
}

} // verus!
