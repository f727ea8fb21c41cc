use pathtracer::bvh::Bvh;
use pathtracer::models::{hit_list, Sphere};
use pathtracer::vector::{Ray, Vec3, SCALE};
use pathtracer::world::Model;

const S: i64 = SCALE;

/// A small deterministic generator for test scenes.
struct Lcg(u64);

impl Lcg {
    fn next(&mut self) -> u64 {
        self.0 = self.0.wrapping_mul(6364136223846793005).wrapping_add(1442695040888963407);
        self.0 >> 33
    }

    fn range(&mut self, lo: i64, hi: i64) -> i64 {
        lo + (self.next() % ((hi - lo) as u64)) as i64
    }
}

fn random_scene(g: &mut Lcg, n: usize) -> Vec<Sphere> {
    (0..n)
        .map(|k| Sphere {
            center: Vec3(g.range(-20 * S, 20 * S), g.range(-20 * S, 20 * S), g.range(-20 * S, 20 * S)),
            radius: g.range(S / 8, 3 * S),
            material: k,
        })
        .collect()
}

fn random_ray(g: &mut Lcg) -> Ray {
    let origin = Vec3(g.range(-30 * S, 30 * S), g.range(-30 * S, 30 * S), g.range(-30 * S, 30 * S));
    let target = Vec3(g.range(-20 * S, 20 * S), g.range(-20 * S, 20 * S), g.range(-20 * S, 20 * S));
    let mut d = target.sub(origin);
    if d == Vec3(0, 0, 0) {
        d = Vec3(0, 0, S);
    }
    Ray { origin, direction: d }
}

#[test]
fn bvh_matches_linear_search_on_random_scenes() {
    let mut g = Lcg(7);
    let mut hits = 0;
    for n in [1usize, 2, 3, 5, 17, 64].iter() {
        let scene = random_scene(&mut g, *n);
        let bvh = Bvh::new(scene.clone());
        assert_eq!(bvh.prims.len(), scene.len());
        for _ in 0..300 {
            let r = random_ray(&mut g);
            let a = hit_list(&scene, &r, 1, i64::MAX);
            let b = bvh.hit(&r, 1, i64::MAX);
            assert_eq!(a.map(|h| h.t), b.map(|h| h.t));
            if a.is_some() {
                hits += 1;
            }
        }
    }
    assert!(hits > 50);
}

#[test]
fn bvh_hit_aimed_at_each_sphere() {
    let mut g = Lcg(99);
    let scene = random_scene(&mut g, 40);
    let bvh = Bvh::new(scene.clone());
    for s in scene.iter() {
        let r = Ray { origin: Vec3(0, 100 * S, 0), direction: s.center.sub(Vec3(0, 100 * S, 0)) };
        let a = hit_list(&scene, &r, 1, i64::MAX).expect("aimed at a center");
        let b = bvh.hit(&r, 1, i64::MAX).expect("aimed at a center");
        assert_eq!(a.t, b.t);
    }
}

#[test]
fn model_variants_agree() {
    let mut g = Lcg(3);
    let scene = random_scene(&mut g, 12);
    let one = Model::Sphere(scene[0]);
    let list = Model::List(scene.clone());
    let tree = Model::Bvh(Bvh::new(scene.clone()));
    for _ in 0..200 {
        let r = random_ray(&mut g);
        let a = list.hit(&r, 1, i64::MAX).map(|h| h.t);
        let b = tree.hit(&r, 1, i64::MAX).map(|h| h.t);
        assert_eq!(a, b);
        assert_eq!(one.hit(&r, 1, i64::MAX), scene[0].hit(&r, 1, i64::MAX));
    }
    assert!(Model::List(Vec::new()).bounding_box().is_none());
    let b = list.bounding_box().unwrap();
    assert_eq!(tree.bounding_box().unwrap(), b);
}
