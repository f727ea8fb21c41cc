use pathtracer::aabb::AABB;
use pathtracer::models::{get_face_normal, hit_list, Sphere};
use pathtracer::vector::{Ray, Vec3, SCALE};

const S: i64 = SCALE;

fn unit_box() -> AABB {
    AABB { min: Vec3(-S, -S, -S), max: Vec3(S, S, S) }
}

#[test]
fn surrounding_box_contains_both() {
    let a = AABB { min: Vec3(0, -5, 3), max: Vec3(4, 2, 9) };
    let b = AABB { min: Vec3(-2, 1, 5), max: Vec3(3, 8, 6) };
    let c = AABB::surrounding_box(a, b);
    assert_eq!(c, AABB { min: Vec3(-2, -5, 3), max: Vec3(4, 8, 9) });
}

#[test]
fn ray_through_center_hits_box() {
    let b = unit_box();
    let r = Ray { origin: Vec3(-5 * S, 3 * S, 2 * S), direction: Vec3(5 * S, -3 * S, -2 * S) };
    assert!(b.hit(&r, 1, i64::MAX));
    let axis = Ray { origin: Vec3(0, 0, 10 * S), direction: Vec3(0, 0, -S) };
    assert!(b.hit(&axis, 1, i64::MAX));
}

#[test]
fn diverging_ray_misses_box() {
    let b = unit_box();
    let r = Ray { origin: Vec3(3 * S, 3 * S, 3 * S), direction: Vec3(S, 2 * S, S) };
    assert!(!b.hit(&r, 0, i64::MAX));
    let parallel = Ray { origin: Vec3(2 * S, 0, 0), direction: Vec3(0, S, 0) };
    assert!(!b.hit(&parallel, 0, i64::MAX));
}

#[test]
fn box_interval_is_respected() {
    let b = unit_box();
    let r = Ray { origin: Vec3(0, 0, 10 * S), direction: Vec3(0, 0, -S) };
    // The box spans t in [9, 11]; the interval (0, 5) stops short of it.
    assert!(!b.hit(&r, 0, 5 * S));
    assert!(b.hit(&r, 0, 10 * S));
    assert!(!b.hit(&r, 12 * S, 20 * S));
}

#[test]
fn sphere_hit_from_outside_at_distance_to_surface() {
    let s = Sphere { center: Vec3(0, 0, -2 * S), radius: S / 2, material: 0 };
    let r = Ray { origin: Vec3(0, 0, 0), direction: Vec3(0, 0, -S) };
    let h = s.hit(&r, 1, i64::MAX).expect("aimed at the center");
    assert_eq!(h.t, 3 * S / 2);
    assert_eq!(h.point, Vec3(0, 0, -3 * S / 2));
    let rel = h.point.sub(s.center);
    assert_eq!(rel.len(), s.radius);
    assert_eq!(h.normal, Vec3(0, 0, S));
    assert!(h.front_face);
}

#[test]
fn sphere_hit_along_a_slanted_ray() {
    let s = Sphere { center: Vec3(3 * S, 4 * S, 0), radius: S, material: 2 };
    let r = Ray { origin: Vec3(0, 0, 0), direction: Vec3(3 * S, 4 * S, 0) };
    let h = s.hit(&r, 1, i64::MAX).expect("aimed at the center");
    // The center is at t = 1 and the surface one fifth earlier.
    assert_eq!(h.t, 4 * S / 5);
    let d = h.point.sub(s.center).len();
    assert!((d - S).abs() <= 5);
    assert_eq!(h.material, 2);
}

#[test]
fn sphere_missed_by_offset_ray() {
    let s = Sphere { center: Vec3(0, 0, -2 * S), radius: S / 2, material: 0 };
    let r = Ray { origin: Vec3(S, 0, 0), direction: Vec3(0, 0, -S) };
    assert!(s.hit(&r, 1, i64::MAX).is_none());
    let grazing = Ray { origin: Vec3(S / 2, 0, 0), direction: Vec3(0, 0, -S) };
    assert!(s.hit(&grazing, 1, i64::MAX).is_none());
}

#[test]
fn sphere_returns_smaller_root_then_larger() {
    let s = Sphere { center: Vec3(0, 0, -2 * S), radius: S / 2, material: 0 };
    let r = Ray { origin: Vec3(0, 0, 0), direction: Vec3(0, 0, -S) };
    assert_eq!(s.hit(&r, 1, i64::MAX).unwrap().t, 3 * S / 2);
    // With the near root excluded, the far one is reported.
    let far = s.hit(&r, 2 * S, i64::MAX).unwrap();
    assert_eq!(far.t, 5 * S / 2);
    assert!(!far.front_face);
    assert_eq!(far.normal, Vec3(0, 0, S));
    // From inside the sphere only the far root is ahead.
    let inside = Ray { origin: Vec3(0, 0, -2 * S), direction: Vec3(0, 0, -S) };
    assert_eq!(s.hit(&inside, 1, i64::MAX).unwrap().t, S / 2);
    // Both roots beyond t_max: no hit.
    assert!(s.hit(&r, 1, S).is_none());
}

#[test]
fn face_normal_turns_against_the_ray() {
    let r = Ray { origin: Vec3(0, 0, 0), direction: Vec3(0, 0, -S) };
    assert_eq!(get_face_normal(&r, Vec3(0, 0, S)), (true, Vec3(0, 0, S)));
    assert_eq!(get_face_normal(&r, Vec3(0, 0, -S)), (false, Vec3(0, 0, S)));
}

#[test]
fn list_returns_nearest_hit() {
    let far = Sphere { center: Vec3(0, 0, -10 * S), radius: S, material: 1 };
    let near = Sphere { center: Vec3(0, 0, -4 * S), radius: S, material: 2 };
    let aside = Sphere { center: Vec3(5 * S, 0, -4 * S), radius: S, material: 3 };
    let objects = vec![far, aside, near];
    let r = Ray { origin: Vec3(0, 0, 0), direction: Vec3(0, 0, -S) };
    let h = hit_list(&objects, &r, 1, i64::MAX).unwrap();
    assert_eq!(h.t, 3 * S);
    assert_eq!(h.material, 2);
    assert!(hit_list(&Vec::new(), &r, 1, i64::MAX).is_none());
}

#[test]
fn sphere_hit_with_a_long_direction_keeps_the_near_root() {
    let s = Sphere { center: Vec3(0, 0, -2000 * S), radius: 100 * S, material: 0 };
    let r = Ray { origin: Vec3(0, 0, 0), direction: Vec3(0, 0, -1000 * S) };
    let h = s.hit(&r, 1, i64::MAX).expect("aimed at the center");
    // The near surface is at t = 1.9.
    assert!((h.t - (19 * S) / 10).abs() <= 1);
}

#[test]
fn list_prefers_the_first_sphere_on_equal_distance() {
    let a = Sphere { center: Vec3(0, 0, -4 * S), radius: S, material: 7 };
    let b = Sphere { center: Vec3(0, 0, -4 * S), radius: S, material: 8 };
    let r = Ray { origin: Vec3(0, 0, 0), direction: Vec3(0, 0, -S) };
    assert_eq!(hit_list(&vec![a, b], &r, 1, i64::MAX).unwrap().material, 7);
    assert_eq!(hit_list(&vec![b, a], &r, 1, i64::MAX).unwrap().material, 8);
}
