//! The scene: an intersectable model, its materials, and the path integrator.
use vstd::prelude::*;
use rand::rngs::StdRng;
use crate::aabb::{AABB, box_contains, box_wf, ray_wf, lemma_surrounding_contains};
use crate::models::to_vec;
use crate::bvh::{Bvh, bvh_wf, node_ok};
use crate::material::{Material, Scatter, material_wf, color_wf, hit_wf, scatter_outcome, DIR_LIMIT};
use crate::models::{
    Sphere, Hit, T_MIN, sphere_wf, sphere_box, sphere_hit_t, hit_t, nearest_t, is_hit_of,
    all_spheres_wf, hit_list};
use crate::vector::{Vec3, Ray, Triple, dot3, unit3, mul3, fx_mul, within3, SCALE, WORLD};

verus! {

/// The largest ray parameter: rays run without an upper bound.
pub const T_MAX: i64 = i64::MAX;

/// An intersectable model: one sphere, a list tested one by one, or a
/// bounding-volume hierarchy.
#[derive(Debug)]
pub enum Model {
    Sphere(Sphere),
    List(Vec<Sphere>),
    Bvh(Bvh),
}

/// The spheres of a model.
pub open spec fn model_spheres(m: Model) -> Seq<Sphere> {
    match m {
        Model::Sphere(s) => seq![s],
        Model::List(v) => v@,
        Model::Bvh(b) => b.prims@,
    }
}

pub open spec fn model_wf(m: Model) -> bool {
    match m {
        Model::Sphere(s) => sphere_wf(s),
        Model::List(v) => all_spheres_wf(v@),
        Model::Bvh(b) => bvh_wf(b),
    }
}

impl Model {
    /// The nearest hit in `(t_min, t_max)` over the model's spheres.
    pub fn hit(&self, r: &Ray, t_min: i64, t_max: i64) -> (res: Option<Hit>)
        requires
            model_wf(*self),
            ray_wf(*r),
        ensures
            hit_t(res) == nearest_t(model_spheres(*self), *r, t_min as int, t_max as int),
            res matches Some(h) ==> is_hit_of(model_spheres(*self), *r, t_min as int, t_max as int, h),
            res matches Some(h) ==> hit_wf(h),
    {
        match self {
            Model::Sphere(s) => {
                let res = s.hit(r, t_min, t_max);
                proof {
                    let objs = seq![*s];
                    assert(objs.drop_last() =~= Seq::<Sphere>::empty());
                    assert(objs[0] == *s);
                    assert(nearest_t(objs.drop_last(), *r, t_min as int, t_max as int) == None::<int>);
                    assert(nearest_t(objs, *r, t_min as int, t_max as int) == sphere_hit_t(*s, *r, t_min as int, t_max as int));
                }
                res
            },
            Model::List(v) => hit_list(v, r, t_min, t_max),
            Model::Bvh(b) => b.hit(r, t_min, t_max),
        }
    }

    /// A box around every sphere of the model, or none for an empty list.
    pub fn bounding_box(&self) -> (res: Option<AABB>)
        requires
            model_wf(*self),
        ensures
            res is None <==> model_spheres(*self).len() == 0,
            res matches Some(b) ==> box_wf(b) && forall|k: int|
                0 <= k < model_spheres(*self).len() ==> box_contains(b, #[trigger] sphere_box(model_spheres(*self)[k])),
    {
        match self {
            Model::Sphere(s) => {
                assert(seq![*s][0] == *s);
                Some(s.bounding_box())
            },
            Model::List(v) => {
                if v.len() == 0 {
                    return None;
                }
                assert(sphere_wf(v@[0]));
                let mut acc = v[0].bounding_box();
                let mut i: usize = 1;
                while i < v.len()
                    invariant
                        1 <= i <= v@.len(),
                        all_spheres_wf(v@),
                        crate::aabb::geometry_box(acc),
                        forall|k: int| 0 <= k < i ==> box_contains(acc, #[trigger] sphere_box(v@[k])),
                    decreases v@.len() - i,
                {
                    assert(sphere_wf(v@[i as int]));
                    let b = v[i].bounding_box();
                    proof {
                        lemma_surrounding_contains(acc, b);
                    }
                    acc = AABB::surrounding_box(acc, b);
                    i = i + 1;
                }
                Some(acc)
            },
            Model::Bvh(b) => {
                proof {
                    assert(node_ok(b.prims@, b.nodes@, b.root as int));
                }
                Some(b.nodes[b.root].bbox)
            },
        }
    }
}

/// A model with the materials its spheres refer to.
#[derive(Debug)]
pub struct World {
    pub objects: Model,
    pub materials: Vec<Material>,
}

pub open spec fn world_wf(w: World) -> bool {
    &&& model_wf(w.objects)
    &&& forall|i: int| 0 <= i < w.materials@.len() ==> #[trigger] material_wf(w.materials@[i])
    &&& forall|k: int|
        0 <= k < model_spheres(w.objects).len() ==> (#[trigger] model_spheres(w.objects)[k]).material
            < w.materials@.len()
}

/// Whether spheres and materials make a sound scene: every sphere well
/// formed, every material well formed and every material index in range.
pub fn scene_valid(objects: &Vec<Sphere>, materials: &Vec<Material>) -> (ok: bool)
    ensures
        ok <==> {
            &&& all_spheres_wf(objects@)
            &&& forall|i: int| 0 <= i < materials@.len() ==> #[trigger] material_wf(materials@[i])
            &&& forall|k: int| 0 <= k < objects@.len() ==> (#[trigger] objects@[k]).material < materials@.len()
        },
{
    let mut i: usize = 0;
    while i < materials.len()
        invariant
            i <= materials@.len(),
            forall|q: int| 0 <= q < i ==> #[trigger] material_wf(materials@[q]),
        decreases materials@.len() - i,
    {
        let ok = match materials[i] {
            Material::Lambertian(l) => color_in_range(l.albedo),
            Material::Metal(m) => color_in_range(m.albedo) && 0 <= m.fuzz && m.fuzz <= SCALE,
            Material::Dielectric(d) => 0 < d.refractive_index && d.refractive_index
                <= crate::material::MAX_INDEX,
        };
        if !ok {
            assert(!material_wf(materials@[i as int]));
            return false;
        }
        i = i + 1;
    }
    let mut k: usize = 0;
    while k < objects.len()
        invariant
            k <= objects@.len(),
            forall|i: int| 0 <= i < materials@.len() ==> #[trigger] material_wf(materials@[i]),
            forall|q: int| 0 <= q < k ==> #[trigger] sphere_wf(objects@[q]),
            forall|q: int| 0 <= q < k ==> (#[trigger] objects@[q]).material < materials@.len(),
        decreases objects@.len() - k,
    {
        let s = objects[k];
        if !(0 < s.radius && s.radius <= WORLD) {
            assert(!sphere_wf(objects@[k as int]));
            return false;
        }
        let b = WORLD - crate::aabb::RAY_MARGIN - s.radius - crate::models::BOX_PAD;
        let c = s.center;
        if !(-b <= c.0 && c.0 <= b && -b <= c.1 && c.1 <= b && -b <= c.2 && c.2 <= b) {
            assert(!sphere_wf(objects@[k as int]));
            return false;
        }
        if s.material >= materials.len() {
            assert(!(objects@[k as int].material < materials@.len()));
            return false;
        }
        k = k + 1;
    }
    true
}

fn color_in_range(c: Vec3) -> (ok: bool)
    ensures
        ok == color_wf(c@),
{
    0 <= c.0 && c.0 <= SCALE && 0 <= c.1 && c.1 <= SCALE && 0 <= c.2 && c.2 <= SCALE
}

/// The sky seen along direction `d`: white at the bottom blending into light
/// blue at the top, by the height `t = (y + 1) / 2` of the unit direction.
/// A zero direction sees the middle of the blend.
pub open spec fn background3(d: Triple) -> Triple {
    let y = if dot3(d, d) == 0 { 0 } else { unit3(d).1 };
    let t = (y + SCALE) / 2;
    ((SCALE - t) + fx_mul(t, 2048), (SCALE - t) + fx_mul(t, 2867), (SCALE - t) + t)
}

/// The sky color for a ray that hits nothing.
pub fn background(r: &Ray) -> (c: Vec3)
    requires
        ray_wf(*r),
    ensures
        c@ == background3(r.direction@),
        color_wf(c@),
{
    let n = r.direction.len_sqr();
    let y: i64 = if n == 0 { 0 } else { r.direction.unit().1 };
    let t: i64 = (y + SCALE) / 2;
    proof {
        crate::vector::lemma_fx_mul_bound(t as int, 2048, SCALE as int, 2048, 2048);
        crate::vector::lemma_fx_mul_bound(t as int, 2867, SCALE as int, 2867, 2867);
        vstd::arithmetic::div_mod::lemma_div_pos_is_pos(t * 2048, SCALE as int);
        vstd::arithmetic::div_mod::lemma_div_pos_is_pos(t * 2867, SCALE as int);
        assert(t * 2048 >= 0 && t * 2867 >= 0) by (nonlinear_arith)
            requires
                t >= 0,
        ;
        assert(SCALE * 2048 <= 2048 * SCALE && SCALE * 2867 <= 2867 * SCALE) by (nonlinear_arith);
    }
    let blue = Vec3(2048, 2867, SCALE).scale(t);
    Vec3((SCALE - t) + blue.0, (SCALE - t) + blue.1, (SCALE - t) + t)
}

/// The product of two colors is a color.
pub proof fn lemma_color_mul(a: Triple, b: Triple)
    requires
        color_wf(a),
        color_wf(b),
    ensures
        color_wf(mul3(a, b)),
{
    crate::vector::lemma_fx_mul_bound(a.0, b.0, SCALE as int, SCALE as int, SCALE as int);
    crate::vector::lemma_fx_mul_bound(a.1, b.1, SCALE as int, SCALE as int, SCALE as int);
    crate::vector::lemma_fx_mul_bound(a.2, b.2, SCALE as int, SCALE as int, SCALE as int);
    assert(a.0 * b.0 >= 0 && a.1 * b.1 >= 0 && a.2 * b.2 >= 0) by (nonlinear_arith)
        requires
            color_wf(a),
            color_wf(b),
    ;
    vstd::arithmetic::div_mod::lemma_div_pos_is_pos(a.0 * b.0, SCALE as int);
    vstd::arithmetic::div_mod::lemma_div_pos_is_pos(a.1 * b.1, SCALE as int);
    vstd::arithmetic::div_mod::lemma_div_pos_is_pos(a.2 * b.2, SCALE as int);
}

/// White leaves a color unchanged.
pub proof fn lemma_white_mul(b: Triple)
    ensures
        mul3((SCALE as int, SCALE as int, SCALE as int), b) == b,
{
    vstd::arithmetic::div_mod::lemma_div_multiples_vanish(b.0, SCALE as int);
    vstd::arithmetic::div_mod::lemma_div_multiples_vanish(b.1, SCALE as int);
    vstd::arithmetic::div_mod::lemma_div_multiples_vanish(b.2, SCALE as int);
}

/// The ray a scattered ray continues as: the same ray with its direction
/// scaled to length `SCALE` (up to rounding), which keeps directions small
/// from bounce to bounce.
pub open spec fn continue_ray(r: Ray) -> Ray {
    Ray {
        origin: r.origin,
        direction: if r.direction@ == (0int, 0int, 0int) { r.direction } else { to_vec(unit3(r.direction@)) },
    }
}

/// One step of a path: the record of the hit and what its material did.
pub type Bounce = (Hit, Option<Scatter>);

/// The color `ray_color` returns for `r` with budget `depth` when its
/// material outcomes are `outs`, innermost last: black once the budget is
/// spent; the sky when the ray hits nothing; otherwise, for the nearest hit
/// and the outcome of its material, black if the material absorbs, or the
/// attenuation times the color of the continued scattered ray with one unit
/// less. `None` when `outs` is not a possible sequence of outcomes.
pub open spec fn color_along(w: World, r: Ray, depth: nat, outs: Seq<Bounce>) -> Option<Triple>
    decreases depth,
{
    if depth == 0 {
        Some((0int, 0int, 0int))
    } else if nearest_t(model_spheres(w.objects), r, T_MIN as int, T_MAX as int) is None {
        Some(background3(r.direction@))
    } else if outs.len() == 0 || !hit_outcome(w, r, outs[0].0, outs[0].1) {
        None
    } else {
        match outs[0].1 {
            None => Some((0int, 0int, 0int)),
            Some(s) => match color_along(w, continue_ray(s.ray), (depth - 1) as nat, outs.drop_first()) {
                Some(c2) => Some(mul3(s.attenuation@, c2)),
                None => None,
            },
        }
    }
}

/// `c` is a color that `ray_color` can return for `r` with budget `depth`.
pub open spec fn color_of(w: World, r: Ray, depth: nat, c: Triple) -> bool {
    exists|outs: Seq<Bounce>| #[trigger] color_along(w, r, depth, outs) == Some(c)
}

/// `h` is the record of the nearest hit of `r` in the world and `res` a
/// possible outcome of its material.
pub open spec fn hit_outcome(w: World, r: Ray, h: Hit, res: Option<Scatter>) -> bool {
    &&& is_hit_of(model_spheres(w.objects), r, T_MIN as int, T_MAX as int, h)
    &&& Some(h.t as int) == nearest_t(model_spheres(w.objects), r, T_MIN as int, T_MAX as int)
    &&& h.material < w.materials@.len()
    &&& scatter_outcome(w.materials@[h.material as int], r, h, res)
}

/// One step of `color_along` where the material scatters.
proof fn lemma_color_scattered(w: World, r: Ray, depth: nat, h: Hit, s: Scatter, tail: Seq<Bounce>, c2: Triple)
    requires
        depth > 0,
        nearest_t(model_spheres(w.objects), r, T_MIN as int, T_MAX as int) is Some,
        hit_outcome(w, r, h, Some(s)),
        color_along(w, continue_ray(s.ray), (depth - 1) as nat, tail) == Some(c2),
    ensures
        color_along(w, r, depth, seq![(h, Some(s))] + tail) == Some(mul3(s.attenuation@, c2)),
{
    let outs = seq![(h, Some(s))] + tail;
    assert(outs.drop_first() =~= tail);
    assert(outs[0] == (h, Some(s)));
}

/// One step of `color_along` where the material absorbs.
proof fn lemma_color_absorbed(w: World, r: Ray, depth: nat, h: Hit)
    requires
        depth > 0,
        nearest_t(model_spheres(w.objects), r, T_MIN as int, T_MAX as int) is Some,
        hit_outcome(w, r, h, None),
    ensures
        color_along(w, r, depth, seq![(h, None::<Scatter>)]) == Some((0int, 0int, 0int)),
{
    assert(seq![(h, None::<Scatter>)][0] == (h, None::<Scatter>));
}

/// Facts about a hit of the world that the integrator relies on.
proof fn lemma_world_hit(w: World, r: Ray, h: Hit)
    requires
        world_wf(w),
        is_hit_of(model_spheres(w.objects), r, T_MIN as int, T_MAX as int, h),
    ensures
        h.material < w.materials@.len(),
        dot3(r.direction@, r.direction@) > 0,
{
    let objs = model_spheres(w.objects);
    let j = choose|j: int|
        0 <= j < objs.len() && sphere_hit_t(#[trigger] objs[j], r, T_MIN as int, T_MAX as int) == Some(h.t as int)
            && h == crate::models::hit_record(objs[j], r, h.t as int);
    assert(objs[j].material < w.materials@.len());
    crate::vector::lemma_square_sum_nonneg(r.direction@);
}

/// The continued ray of a scattered ray.
fn continue_ray_of(r: &Ray) -> (c: Ray)
    requires
        within3(r.origin@, WORLD as int),
        within3(r.direction@, DIR_LIMIT as int),
    ensures
        c == continue_ray(*r),
        ray_wf(c),
{
    let d = r.direction;
    if d.0 == 0 && d.1 == 0 && d.2 == 0 {
        *r
    } else {
        proof {
            crate::vector::lemma_square_sum_nonneg(d@);
            assert(d.0 * d.0 > 0 || d.1 * d.1 > 0 || d.2 * d.2 > 0) by (nonlinear_arith)
                requires
                    d.0 != 0 || d.1 != 0 || d.2 != 0,
            ;
        }
        let u = d.unit();
        Ray { origin: r.origin, direction: u }
    }
}

/// The color seen along a ray, following at most `depth` surfaces (see
/// `color_of`).
pub fn ray_color(r: Ray, world: &World, depth: usize, rng: &mut StdRng) -> (c: Vec3)
    requires
        world_wf(*world),
        ray_wf(r),
    ensures
        color_of(*world, r, depth as nat, c@),
        color_wf(c@),
    decreases depth,
{
    if depth == 0 {
        assert(color_along(*world, r, 0, Seq::<Bounce>::empty()) == Some((0int, 0int, 0int)));
        return Vec3(0, 0, 0);
    }
    match world.objects.hit(&r, T_MIN, T_MAX) {
        Some(hit) => {
            proof {
                lemma_world_hit(*world, r, hit);
            }
            let mat = world.materials[hit.material];
            let res = mat.scatter(&r, &hit, rng);
            match res {
                Some(s) => {
                    let next = ray_color(continue_ray_of(&s.ray), world, depth - 1, rng);
                    proof {
                        lemma_color_mul(s.attenuation@, next@);
                    }
                    let c = s.attenuation.mul(next);
                    proof {
                        assert(hit_outcome(*world, r, hit, res));
                        let tail = choose|o: Seq<Bounce>|
                            #[trigger] color_along(*world, continue_ray(s.ray), (depth - 1) as nat, o) == Some(next@);
                        lemma_color_scattered(*world, r, depth as nat, hit, s, tail, next@);
                        assert(color_along(*world, r, depth as nat, seq![(hit, Some(s))] + tail) == Some(c@));
                    }
                    c
                },
                None => {
                    proof {
                        assert(hit_outcome(*world, r, hit, res));
                        lemma_color_absorbed(*world, r, depth as nat, hit);
                        assert(color_along(*world, r, depth as nat, seq![(hit, None::<Scatter>)]) == Some((0int, 0int, 0int)));
                    }
                    Vec3(0, 0, 0)
                },
            }
        },
        None => {
            let sky = background(&r);
            assert(color_along(*world, r, depth as nat, Seq::<Bounce>::empty()) == Some(sky@));
            sky
        },
    }
}

/// The color of the last ray of a path, passed back through the
/// attenuations collected along it, innermost first.
pub open spec fn fold_att(atts: Seq<Vec3>, c: Triple) -> Triple
    decreases atts.len(),
{
    if atts.len() == 0 {
        c
    } else {
        mul3(atts[0]@, fold_att(atts.drop_first(), c))
    }
}

proof fn lemma_fold_push(atts: Seq<Vec3>, a: Vec3, c: Triple)
    ensures
        fold_att(atts.push(a), c) == fold_att(atts, mul3(a@, c)),
    decreases atts.len(),
{
    if atts.len() > 0 {
        assert(atts.push(a).drop_first() =~= atts.drop_first().push(a));
        assert(atts.push(a)[0] == atts[0]);
        lemma_fold_push(atts.drop_first(), a, c);
    } else {
        assert(atts.push(a).drop_first() =~= Seq::<Vec3>::empty());
        assert(atts.push(a)[0] == a);
        assert(fold_att(Seq::<Vec3>::empty(), c) == c);
        assert(fold_att(atts, mul3(a@, c)) == mul3(a@, c));
    }
}

/// `fold_att` computed from the innermost attenuation outwards.
fn fold_back(atts: &Vec<Vec3>, c: Vec3) -> (r: Vec3)
    requires
        color_wf(c@),
        forall|i: int| 0 <= i < atts@.len() ==> color_wf(#[trigger] atts@[i]@),
    ensures
        r@ == fold_att(atts@, c@),
        color_wf(r@),
{
    let mut acc = c;
    let mut i: usize = atts.len();
    assert(atts@.subrange(i as int, atts@.len() as int) =~= Seq::<Vec3>::empty());
    while i > 0
        invariant
            i <= atts@.len(),
            color_wf(acc@),
            forall|k: int| 0 <= k < atts@.len() ==> color_wf(#[trigger] atts@[k]@),
            acc@ == fold_att(atts@.subrange(i as int, atts@.len() as int), c@),
        decreases i,
    {
        proof {
            lemma_color_mul(atts@[i - 1]@, acc@);
            let s = atts@.subrange(i - 1, atts@.len() as int);
            assert(s.drop_first() =~= atts@.subrange(i as int, atts@.len() as int));
            assert(s[0] == atts@[i - 1]);
        }
        acc = atts[i - 1].mul(acc);
        i = i - 1;
    }
    assert(atts@.subrange(0, atts@.len() as int) =~= atts@);
    acc
}

/// `ray_color` as a loop: the attenuations met along the path are kept and
/// applied once the path ends, so the stack stays flat for any depth and the
/// colors are the same as `ray_color`'s.
pub fn ray_color_iter(r: Ray, world: &World, max_depth: usize, rng: &mut StdRng) -> (c: Vec3)
    requires
        world_wf(*world),
        ray_wf(r),
    ensures
        color_of(*world, r, max_depth as nat, c@),
        color_wf(c@),
{
    let mut atts: Vec<Vec3> = Vec::new();
    let mut ray = r;
    let mut remaining: usize = max_depth;
    let ghost mut outs: Seq<Bounce> = Seq::empty();
    proof {
        assert forall|tail: Seq<Bounce>| #[trigger] color_along(*world, ray, remaining as nat, tail) is Some
            implies color_along(*world, r, max_depth as nat, outs + tail) == Some(
            fold_att(atts@, color_along(*world, ray, remaining as nat, tail)->Some_0),
        ) by {
            assert(outs + tail =~= tail);
        }
    }
    while remaining > 0
        invariant
            world_wf(*world),
            ray_wf(ray),
            remaining <= max_depth,
            forall|k: int| 0 <= k < atts@.len() ==> color_wf(#[trigger] atts@[k]@),
            forall|tail: Seq<Bounce>|
                #[trigger] color_along(*world, ray, remaining as nat, tail) is Some ==> color_along(
                    *world,
                    r,
                    max_depth as nat,
                    outs + tail,
                ) == Some(fold_att(atts@, color_along(*world, ray, remaining as nat, tail)->Some_0)),
        decreases remaining,
    {
        match world.objects.hit(&ray, T_MIN, T_MAX) {
            Some(hit) => {
                proof {
                    lemma_world_hit(*world, ray, hit);
                }
                let mat = world.materials[hit.material];
                let res = mat.scatter(&ray, &hit, rng);
                match res {
                    Some(s) => {
                        let next = continue_ray_of(&s.ray);
                        let ghost old_atts = atts@;
                        let ghost old_ray = ray;
                        let ghost old_rem = remaining;
                        let ghost old_outs = outs;
                        atts.push(s.attenuation);
                        proof {
                            outs = old_outs.push((hit, Some(s)));
                            assert(hit_outcome(*world, old_ray, hit, res));
                            assert forall|tail: Seq<Bounce>|
                                #[trigger] color_along(*world, next, (old_rem - 1) as nat, tail) is Some implies color_along(
                                *world,
                                r,
                                max_depth as nat,
                                outs + tail,
                            ) == Some(fold_att(atts@, color_along(*world, next, (old_rem - 1) as nat, tail)->Some_0)) by {
                                let c = color_along(*world, next, (old_rem - 1) as nat, tail)->Some_0;
                                lemma_color_scattered(*world, old_ray, old_rem as nat, hit, s, tail, c);
                                assert(old_outs + (seq![(hit, Some(s))] + tail) =~= outs + tail);
                                lemma_fold_push(old_atts, s.attenuation, c);
                            }
                            assert forall|k: int| 0 <= k < atts@.len() implies color_wf(#[trigger] atts@[k]@) by {
                                if k < old_atts.len() {
                                    assert(atts@[k] == old_atts[k]);
                                }
                            }
                        }
                        ray = next;
                        remaining = remaining - 1;
                    },
                    None => {
                        proof {
                            assert(hit_outcome(*world, ray, hit, res));
                            lemma_color_absorbed(*world, ray, remaining as nat, hit);
                            assert(color_along(*world, ray, remaining as nat, seq![(hit, None::<Scatter>)]) == Some((0int, 0int, 0int)));
                        }
                        let c = fold_back(&atts, Vec3(0, 0, 0));
                        proof {
                            assert(color_along(*world, r, max_depth as nat, outs + seq![(hit, None::<Scatter>)]) == Some(c@));
                        }
                        return c;
                    },
                }
            },
            None => {
                let sky = background(&ray);
                proof {
                    assert(color_along(*world, ray, remaining as nat, Seq::<Bounce>::empty()) == Some(sky@));
                }
                let c = fold_back(&atts, sky);
                proof {
                    assert(color_along(*world, r, max_depth as nat, outs + Seq::<Bounce>::empty()) == Some(c@));
                }
                return c;
            },
        }
    }
    proof {
        assert(color_along(*world, ray, 0, Seq::<Bounce>::empty()) == Some((0int, 0int, 0int)));
    }
    let c = fold_back(&atts, Vec3(0, 0, 0));
    proof {
        assert(color_along(*world, r, max_depth as nat, outs + Seq::<Bounce>::empty()) == Some(c@));
    }
    c
}

} // verus!
