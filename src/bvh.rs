//! A bounding-volume hierarchy over spheres, stored as a flat list of nodes.
use vstd::prelude::*;
use crate::aabb::{AABB, box_contains, box_hit, ray_wf, grow, ray_pad, ray_pad_of, geometry_box, lemma_grow_contains,
    lemma_surrounding_contains, lemma_inside_point_hits};
use crate::models::{
    Sphere, Hit, sphere_wf, sphere_box, sphere_hit_t, hit_t, nearest_t, nearest_char, is_hit_of,
    all_spheres_wf, same_elems, hit_record, root_ok, lemma_nearest_char, lemma_char_unique,
    lemma_sphere_narrow, lemma_same_elems_nearest};
use crate::vector::{Ray, within3, SCALE, WORLD};
use crate::aabb::RAY_MARGIN;

verus! {

/// A node covers the spheres `start..end` of the hierarchy's list. A node
/// over one sphere is a leaf; any other has two children that split its
/// range at some index, both stored before it.
#[derive(Clone, Copy, Debug, PartialEq, Eq, Structural)]
pub struct BvhNode {
    pub bbox: AABB,
    pub start: usize,
    pub end: usize,
    pub left: usize,
    pub right: usize,
}

/// A bounding-volume hierarchy: the spheres, reordered during construction,
/// and the nodes over them, with `root` covering all of them.
#[derive(Debug)]
pub struct Bvh {
    pub prims: Vec<Sphere>,
    pub nodes: Vec<BvhNode>,
    pub root: usize,
}

pub open spec fn is_leaf(n: BvhNode) -> bool {
    n.end - n.start == 1
}

/// Node `i` is sound: its range is valid, its box encloses the padded box of
/// every sphere in it, and an inner node's children split its range.
pub open spec fn node_ok(prims: Seq<Sphere>, nodes: Seq<BvhNode>, i: int) -> bool {
    let n = nodes[i];
    &&& n.start < n.end <= prims.len()
    &&& geometry_box(n.bbox)
    &&& forall|k: int| n.start <= k < n.end ==> box_contains(n.bbox, #[trigger] sphere_box(prims[k]))
    &&& !is_leaf(n) ==> {
        &&& n.left < i && n.right < i
        &&& nodes[n.left as int].start == n.start
        &&& nodes[n.left as int].end == nodes[n.right as int].start
        &&& nodes[n.right as int].end == n.end
    }
}

pub open spec fn nodes_ok(prims: Seq<Sphere>, nodes: Seq<BvhNode>) -> bool {
    forall|i: int| 0 <= i < nodes.len() ==> #[trigger] node_ok(prims, nodes, i)
}

pub open spec fn bvh_wf(b: Bvh) -> bool {
    &&& all_spheres_wf(b.prims@)
    &&& nodes_ok(b.prims@, b.nodes@)
    &&& b.root < b.nodes@.len()
    &&& b.nodes@[b.root as int].start == 0
    &&& b.nodes@[b.root as int].end == b.prims@.len()
}

/// The spheres under a node.
pub open spec fn covered(prims: Seq<Sphere>, n: BvhNode) -> Seq<Sphere> {
    prims.subrange(n.start as int, n.end as int)
}

/// A sphere's hit lies strictly inside every box that encloses its padded
/// box, once both are widened by the ray's `ray_pad`; so the widened box
/// reports a hit.
pub proof fn lemma_hit_inside_box(s: Sphere, b: AABB, r: Ray, t_min: int, t_max: int)
    requires
        box_contains(b, sphere_box(s)),
        geometry_box(b),
        sphere_wf(s),
        ray_wf(r),
        sphere_hit_t(s, r, t_min, t_max) is Some,
    ensures
        box_hit(grow(b, ray_pad(r)), r, t_min, t_max),
{
    let t = sphere_hit_t(s, r, t_min, t_max)->Some_0;
    assert(root_ok(s, r, t_min, t_max, t));
    crate::vector::lemma_square_sum_nonneg(r.direction@);
    assert(0 <= ray_pad(r).0 <= RAY_MARGIN && 0 <= ray_pad(r).1 <= RAY_MARGIN && 0 <= ray_pad(r).2 <= RAY_MARGIN) by {
        vstd::arithmetic::div_mod::lemma_div_is_ordered(crate::aabb::abs_i(r.direction.0 as int), WORLD as int, SCALE as int);
        vstd::arithmetic::div_mod::lemma_div_is_ordered(crate::aabb::abs_i(r.direction.1 as int), WORLD as int, SCALE as int);
        vstd::arithmetic::div_mod::lemma_div_is_ordered(crate::aabb::abs_i(r.direction.2 as int), WORLD as int, SCALE as int);
        vstd::arithmetic::div_mod::lemma_div_pos_is_pos(crate::aabb::abs_i(r.direction.0 as int), SCALE as int);
        vstd::arithmetic::div_mod::lemma_div_pos_is_pos(crate::aabb::abs_i(r.direction.1 as int), SCALE as int);
        vstd::arithmetic::div_mod::lemma_div_pos_is_pos(crate::aabb::abs_i(r.direction.2 as int), SCALE as int);
        assert((WORLD as int) / (SCALE as int) == 0x1_0000);
    }
    lemma_grow_contains(b, sphere_box(s), ray_pad(r));
    lemma_inside_point_hits(grow(b, ray_pad(r)), r, t_min, t_max, t);
}

/// The sort key of a sphere on an axis: the low side of its padded box.
pub open spec fn axis_key(s: Sphere, axis: int) -> int {
    crate::vector::comp3(s.center@, axis) - s.radius - crate::models::BOX_PAD
}

fn key_of(s: &Sphere, axis: usize) -> (k: i64)
    requires
        sphere_wf(*s),
        axis < 3,
    ensures
        k == axis_key(*s, axis as int),
{
    s.center.axis(axis) - s.radius - crate::models::BOX_PAD
}

/// Sorts `start..end` by the key of `axis`, with adjacent swaps only.
fn sort_range(prims: &mut Vec<Sphere>, start: usize, end: usize, axis: usize)
    requires
        start < end <= old(prims)@.len(),
        all_spheres_wf(old(prims)@),
        axis < 3,
    ensures
        final(prims)@.len() == old(prims)@.len(),
        final(prims)@.to_multiset() == old(prims)@.to_multiset(),
        same_elems(final(prims)@, old(prims)@),
        all_spheres_wf(final(prims)@),
        forall|k: int|
            0 <= k < final(prims)@.len() && !(start <= k < end) ==> final(prims)@[k] == old(prims)@[k],
        forall|a: int, b: int|
            start <= a < b < end ==> axis_key(#[trigger] final(prims)@[a], axis as int) <= axis_key(
                #[trigger] final(prims)@[b],
                axis as int,
            ),
{
    let ghost orig = prims@;
    let mut i: usize = start + 1;
    while i < end
        invariant
            start < i <= end || (i == start + 1 && end == start + 1),
            start < end <= prims@.len(),
            prims@.len() == orig.len(),
            axis < 3,
            same_elems(prims@, orig),
            prims@.to_multiset() == orig.to_multiset(),
            all_spheres_wf(prims@),
            all_spheres_wf(orig),
            forall|k: int| 0 <= k < prims@.len() && !(start <= k < end) ==> prims@[k] == orig[k],
            forall|a: int, b: int|
                start <= a < b < i ==> axis_key(#[trigger] prims@[a], axis as int) <= axis_key(
                    #[trigger] prims@[b],
                    axis as int,
                ),
        decreases end - i,
    {
        let mut j: usize = i;
        while j > start && key_of(&prims[j - 1], axis) > key_of(&prims[j], axis)
            invariant
                start <= j <= i < end <= prims@.len(),
                prims@.len() == orig.len(),
                axis < 3,
                same_elems(prims@, orig),
                prims@.to_multiset() == orig.to_multiset(),
                all_spheres_wf(prims@),
                forall|k: int| 0 <= k < prims@.len() && !(start <= k < end) ==> prims@[k] == orig[k],
                // sorted apart from position j
                forall|a: int, b: int|
                    start <= a < b <= i && a != j && b != j ==> axis_key(#[trigger] prims@[a], axis as int)
                        <= axis_key(#[trigger] prims@[b], axis as int),
                forall|b: int|
                    j < b <= i ==> axis_key(prims@[j as int], axis as int) < axis_key(
                        #[trigger] prims@[b],
                        axis as int,
                    ),
                // everything before j may be larger than position j, but not larger than
                // anything after it
                forall|a: int, b: int|
                    start <= a < j && j < b <= i ==> axis_key(#[trigger] prims@[a], axis as int)
                        <= axis_key(#[trigger] prims@[b], axis as int),
            decreases j,
        {
            let ghost before = prims@;
            let x = prims[j - 1];
            let y = prims[j];
            let ghost mid = before.update(j - 1, y);
            prims.set(j - 1, y);
            prims.set(j, x);
            proof {
                vstd::seq_lib::to_multiset_update(before, j - 1, y);
                vstd::seq_lib::to_multiset_update(mid, j as int, x);
                assert(prims@ == mid.update(j as int, x));
                assert(mid[j as int] == y);
                assert(before[j - 1] == x);
                assert(prims@.to_multiset() =~= before.to_multiset()) by {
                    broadcast use vstd::multiset::group_multiset_axioms;
                    broadcast use vstd::seq_lib::group_to_multiset_ensures;
                    assert(before.to_multiset().count(x) > 0);
                    assert(mid.to_multiset().count(y) > 0);
                }
                assert forall|s: Sphere| prims@.contains(s) <==> before.contains(s) by {
                    if prims@.contains(s) {
                        let k = choose|k: int| 0 <= k < prims@.len() && prims@[k] == s;
                        if k == j - 1 {
                            assert(before[j as int] == s);
                        } else if k == j {
                            assert(before[j - 1] == s);
                        } else {
                            assert(before[k] == s);
                        }
                    }
                    if before.contains(s) {
                        let k = choose|k: int| 0 <= k < before.len() && before[k] == s;
                        if k == j - 1 {
                            assert(prims@[j as int] == s);
                        } else if k == j {
                            assert(prims@[j - 1] == s);
                        } else {
                            assert(prims@[k] == s);
                        }
                    }
                }
                assert forall|k: int| 0 <= k < prims@.len() implies #[trigger] sphere_wf(prims@[k]) by {
                    if k == j - 1 {
                        assert(sphere_wf(before[j as int]));
                    } else if k == j {
                        assert(sphere_wf(before[j - 1]));
                    } else {
                        assert(sphere_wf(before[k]));
                    }
                }
            }
            j = j - 1;
        }
        proof {
            assert forall|a: int, b: int|
                start <= a < b < i + 1 implies axis_key(#[trigger] prims@[a], axis as int) <= axis_key(
                #[trigger] prims@[b],
                axis as int,
            ) by {
                if a == j && j > start {
                    assert(axis_key(prims@[j - 1], axis as int) <= axis_key(prims@[j as int], axis as int));
                }
            }
        }
        i = i + 1;
    }
}

/// Every node's range lies outside `start..end`.
pub open spec fn nodes_outside(nodes: Seq<BvhNode>, start: int, end: int) -> bool {
    forall|i: int| 0 <= i < nodes.len() ==> (#[trigger] nodes[i]).end <= start || nodes[i].start >= end
}

/// Changing spheres that no node covers keeps every node sound.
proof fn lemma_nodes_frame(p1: Seq<Sphere>, p2: Seq<Sphere>, nodes: Seq<BvhNode>, start: int, end: int)
    requires
        nodes_ok(p1, nodes),
        nodes_outside(nodes, start, end),
        p1.len() == p2.len(),
        forall|k: int| 0 <= k < p1.len() && !(start <= k < end) ==> p1[k] == p2[k],
    ensures
        nodes_ok(p2, nodes),
{
    assert forall|i: int| 0 <= i < nodes.len() implies #[trigger] node_ok(p2, nodes, i) by {
        assert(node_ok(p1, nodes, i));
        let n = nodes[i];
        assert forall|k: int| n.start <= k < n.end implies box_contains(n.bbox, #[trigger] sphere_box(p2[k])) by {
            assert(p1[k] == p2[k]);
            assert(box_contains(n.bbox, sphere_box(p1[k])));
        }
    }
}

/// Builds the subtree over `start..end`, sorting that range along `axis`
/// and splitting it at the median; returns the index of its root, which is
/// the last node added.
fn build(prims: &mut Vec<Sphere>, nodes: &mut Vec<BvhNode>, start: usize, end: usize, axis: usize) -> (idx: usize)
    requires
        start < end <= old(prims)@.len(),
        all_spheres_wf(old(prims)@),
        axis < 3,
        nodes_ok(old(prims)@, old(nodes)@),
        nodes_outside(old(nodes)@, start as int, end as int),
    ensures
        final(prims)@.len() == old(prims)@.len(),
        final(prims)@.to_multiset() == old(prims)@.to_multiset(),
        same_elems(final(prims)@, old(prims)@),
        all_spheres_wf(final(prims)@),
        forall|k: int|
            0 <= k < final(prims)@.len() && !(start <= k < end) ==> final(prims)@[k] == old(prims)@[k],
        final(nodes)@.len() > old(nodes)@.len(),
        forall|i: int| 0 <= i < old(nodes)@.len() ==> final(nodes)@[i] == old(nodes)@[i],
        forall|i: int|
            old(nodes)@.len() <= i < final(nodes)@.len() ==> start <= (#[trigger] final(nodes)@[i]).start
                && final(nodes)@[i].end <= end,
        nodes_ok(final(prims)@, final(nodes)@),
        idx == final(nodes)@.len() - 1,
        final(nodes)@[idx as int].start == start,
        final(nodes)@[idx as int].end == end,
    decreases end - start,
{
    if end - start == 1 {
        let bbox = prims[start].bounding_box();
        assert(sphere_wf(prims@[start as int]));
        let ghost before = nodes@;
        nodes.push(BvhNode { bbox, start, end, left: 0, right: 0 });
        proof {
            assert forall|i: int| 0 <= i < nodes@.len() implies #[trigger] node_ok(prims@, nodes@, i) by {
                if i < before.len() {
                    assert(node_ok(prims@, before, i));
                    assert(nodes@[i] == before[i]);
                }
            }
        }
        return nodes.len() - 1;
    }
    let ghost p0 = prims@;
    sort_range(prims, start, end, axis);
    proof {
        lemma_nodes_frame(p0, prims@, nodes@, start as int, end as int);
    }
    let mid: usize = start + (end - start) / 2;
    let next: usize = if axis == 2 { 0 } else { axis + 1 };
    let ghost n0 = nodes@;
    let ghost p1 = prims@;
    let left = build(prims, nodes, start, mid, next);
    let ghost n1 = nodes@;
    let ghost p2 = prims@;
    proof {
        assert forall|i: int| 0 <= i < nodes@.len() implies (#[trigger] nodes@[i]).end <= mid
            || nodes@[i].start >= end by {
            if i < n0.len() {
                assert(nodes@[i] == n0[i]);
            }
        }
    }
    let right = build(prims, nodes, mid, end, next);
    let lb = nodes[left].bbox;
    let rb = nodes[right].bbox;
    let bbox = AABB::surrounding_box(lb, rb);
    proof {
        lemma_surrounding_contains(lb, rb);
        assert(node_ok(prims@, nodes@, left as int));
        assert(node_ok(prims@, nodes@, right as int));
        assert(nodes@[left as int] == n1[left as int]);
    }
    let ghost before = nodes@;
    nodes.push(BvhNode { bbox, start, end, left, right });
    proof {
        assert forall|i: int| 0 <= i < nodes@.len() implies #[trigger] node_ok(prims@, nodes@, i) by {
            if i < before.len() {
                assert(node_ok(prims@, before, i));
                assert(nodes@[i] == before[i]);
            } else {
                assert forall|k: int| start <= k < end implies box_contains(bbox, #[trigger] sphere_box(prims@[k])) by {
                    if k < mid {
                        assert(node_ok(prims@, before, left as int));
                        assert(box_contains(lb, sphere_box(prims@[k])));
                    } else {
                        assert(node_ok(prims@, before, right as int));
                        assert(box_contains(rb, sphere_box(prims@[k])));
                    }
                }
            }
        }
        assert forall|i: int| 0 <= i < n0.len() implies nodes@[i] == n0[i] by {
            assert(n1[i] == n0[i]);
        }
        assert forall|i: int| n0.len() <= i < nodes@.len() implies start <= (#[trigger] nodes@[i]).start
            && nodes@[i].end <= end by {
            if i < n1.len() {
                assert(nodes@[i] == n1[i]);
            }
        }
        assert forall|x: Sphere| prims@.contains(x) <==> p0.contains(x) by {
            assert(prims@.contains(x) <==> p2.contains(x));
            assert(p2.contains(x) <==> p1.contains(x));
        }
    }
    nodes.len() - 1
}

impl Bvh {
    /// Builds the hierarchy over a non-empty list of spheres.
    pub fn new(objects: Vec<Sphere>) -> (b: Bvh)
        requires
            objects@.len() > 0,
            all_spheres_wf(objects@),
        ensures
            bvh_wf(b),
            b.prims@.to_multiset() == objects@.to_multiset(),
            same_elems(b.prims@, objects@),
    {
        let mut prims = objects;
        let mut nodes: Vec<BvhNode> = Vec::new();
        let n = prims.len();
        let root = build(&mut prims, &mut nodes, 0, n, 0);
        Bvh { prims, nodes, root }
    }

    /// The nearest hit under node `i`.
    #[verifier::rlimit(60)]
    fn hit_node(&self, i: usize, r: &Ray, t_min: i64, t_max: i64) -> (res: Option<Hit>)
        requires
            bvh_wf(*self),
            i < self.nodes@.len(),
            ray_wf(*r),
        ensures
            nearest_char(covered(self.prims@, self.nodes@[i as int]), *r, t_min as int, t_max as int, hit_t(res)),
            res matches Some(h) ==> is_hit_of(covered(self.prims@, self.nodes@[i as int]), *r, t_min as int, t_max as int, h),
            res matches Some(h) ==> within3(h.normal@, 2 * SCALE) && within3(h.point@, WORLD as int),
            res matches Some(h) ==> t_min < h.t < t_max,
        decreases i,
    {
        let n = self.nodes[i];
        proof {
            assert(node_ok(self.prims@, self.nodes@, i as int));
        }
        let ghost c = covered(self.prims@, n);
        assert(forall|k: int| 0 <= k < c.len() ==> #[trigger] c[k] == self.prims@[n.start + k]);
        let widened = n.bbox.grow(ray_pad_of(r));
        if !widened.hit(r, t_min, t_max) {
            proof {
                assert forall|k: int| 0 <= k < c.len() implies sphere_hit_t(#[trigger] c[k], *r, t_min as int, t_max as int) == None::<int> by {
                    assert(box_contains(n.bbox, sphere_box(self.prims@[n.start + k])));
                    assert(sphere_wf(self.prims@[n.start + k]));
                    if sphere_hit_t(c[k], *r, t_min as int, t_max as int) is Some {
                        lemma_hit_inside_box(c[k], n.bbox, *r, t_min as int, t_max as int);
                    }
                }
            }
            return None;
        }
        if n.end - n.start == 1 {
            assert(sphere_wf(self.prims@[n.start as int]));
            let res = self.prims[n.start].hit(r, t_min, t_max);
            proof {
                assert(c[0] == self.prims@[n.start as int]);
                match res {
                    Some(h) => {
                        assert(sphere_hit_t(c[0], *r, t_min as int, t_max as int) == Some(h.t as int));
                    },
                    None => {},
                }
            }
            return res;
        }
        let lres = self.hit_node(n.left, r, t_min, t_max);
        let bound = match lres {
            Some(h) => h.t,
            None => t_max,
        };
        let rres = self.hit_node(n.right, r, t_min, bound);
        let ghost ln = self.nodes@[n.left as int];
        let ghost rn = self.nodes@[n.right as int];
        let ghost lc = covered(self.prims@, ln);
        let ghost rc = covered(self.prims@, rn);
        proof {
            assert(node_ok(self.prims@, self.nodes@, n.left as int));
            assert(node_ok(self.prims@, self.nodes@, n.right as int));
            assert(forall|k: int| 0 <= k < lc.len() ==> #[trigger] lc[k] == c[k]);
            assert(forall|k: int| 0 <= k < rc.len() ==> #[trigger] rc[k] == c[k + lc.len()]);
            assert forall|k: int| 0 <= k < rc.len() implies #[trigger] sphere_hit_t(rc[k], *r, t_min as int, bound as int)
                == (if (sphere_hit_t(rc[k], *r, t_min as int, t_max as int) matches Some(x) && x < bound) {
                    sphere_hit_t(rc[k], *r, t_min as int, t_max as int)
                } else {
                    None
                }) by {
                lemma_sphere_narrow(rc[k], *r, t_min as int, t_max as int, bound as int);
            }
        }
        match rres {
            Some(h) => {
                proof {
                    let j = choose|j: int| 0 <= j < rc.len() && sphere_hit_t(#[trigger] rc[j], *r, t_min as int, bound as int) == Some(h.t as int)
                        && h == crate::models::hit_record(rc[j], *r, h.t as int);
                    assert(sphere_hit_t(c[j + lc.len()], *r, t_min as int, t_max as int) == Some(h.t as int));
                    assert forall|k: int| 0 <= k < c.len() implies (sphere_hit_t(#[trigger] c[k], *r, t_min as int, t_max as int) matches Some(x) ==> h.t <= x) by {
                        if k < lc.len() {
                            assert(c[k] == lc[k]);
                        } else {
                            assert(c[k] == rc[k - lc.len()]);
                        }
                    }
                }
                Some(h)
            },
            None => {
                proof {
                    match lres {
                        Some(h) => {
                            let j = choose|j: int| 0 <= j < lc.len() && sphere_hit_t(#[trigger] lc[j], *r, t_min as int, t_max as int) == Some(h.t as int)
                                && h == crate::models::hit_record(lc[j], *r, h.t as int);
                            assert(c[j] == lc[j]);
                            assert forall|k: int| 0 <= k < c.len() implies (sphere_hit_t(#[trigger] c[k], *r, t_min as int, t_max as int) matches Some(x) ==> h.t <= x) by {
                                if k < lc.len() {
                                    assert(c[k] == lc[k]);
                                } else {
                                    assert(c[k] == rc[k - lc.len()]);
                                }
                            }
                        },
                        None => {
                            assert forall|k: int| 0 <= k < c.len() implies sphere_hit_t(#[trigger] c[k], *r, t_min as int, t_max as int) == None::<int> by {
                                if k < lc.len() {
                                    assert(c[k] == lc[k]);
                                } else {
                                    assert(c[k] == rc[k - lc.len()]);
                                }
                            }
                        },
                    }
                }
                lres
            },
        }
    }

    /// The nearest hit of the ray in `(t_min, t_max)`, pruning subtrees whose
    /// box the ray misses.
    pub fn hit(&self, r: &Ray, t_min: i64, t_max: i64) -> (res: Option<Hit>)
        requires
            bvh_wf(*self),
            ray_wf(*r),
        ensures
            hit_t(res) == nearest_t(self.prims@, *r, t_min as int, t_max as int),
            res matches Some(h) ==> is_hit_of(self.prims@, *r, t_min as int, t_max as int, h),
            res matches Some(h) ==> within3(h.normal@, 2 * SCALE) && within3(h.point@, WORLD as int),
    {
        let res = self.hit_node(self.root, r, t_min, t_max);
        proof {
            assert(covered(self.prims@, self.nodes@[self.root as int]) =~= self.prims@);
            lemma_nearest_char(self.prims@, *r, t_min as int, t_max as int);
            lemma_char_unique(self.prims@, *r, t_min as int, t_max as int, hit_t(res), nearest_t(self.prims@, *r, t_min as int, t_max as int));
        }
        res
    }
}

/// For any scene and any ray, the hierarchy built over the scene finds the
/// same nearest hit as testing every sphere of the scene in turn, and every
/// hit record it can return is one that the linear test can return.
pub proof fn lemma_bvh_matches_list(b: Bvh, scene: Seq<Sphere>, r: Ray, t_min: int, t_max: int)
    requires
        same_elems(b.prims@, scene),
    ensures
        nearest_t(b.prims@, r, t_min, t_max) == nearest_t(scene, r, t_min, t_max),
        forall|h: Hit| is_hit_of(b.prims@, r, t_min, t_max, h) <==> is_hit_of(scene, r, t_min, t_max, h),
{
    lemma_same_elems_nearest(b.prims@, scene, r, t_min, t_max);
}

} // verus!
