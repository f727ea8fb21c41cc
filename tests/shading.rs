use pathtracer::material::{reflect, refract, Dielectric, Lambertian, Material, Metal};
use pathtracer::models::Hit;
use pathtracer::random::random_source;
use pathtracer::vector::{Ray, Vec3, SCALE};

const S: i64 = SCALE;

fn up_hit() -> Hit {
    Hit { point: Vec3(0, 0, 0), normal: Vec3(0, S, 0), t: S, front_face: true, material: 0 }
}

fn in_unit_range(c: Vec3) -> bool {
    (0..=S).contains(&c.0) && (0..=S).contains(&c.1) && (0..=S).contains(&c.2)
}

#[test]
fn reflect_mirrors_about_the_normal() {
    assert_eq!(reflect(Vec3(S, -S, 0), Vec3(0, S, 0)), Vec3(S, S, 0));
    assert_eq!(reflect(Vec3(0, 0, S), Vec3(0, S, 0)), Vec3(0, 0, S));
}

#[test]
fn refract_without_bending_at_equal_indices() {
    let d = Vec3(0, -S, 0);
    assert_eq!(refract(d, Vec3(0, S, 0), S), Vec3(0, -S, 0));
}

#[test]
fn schlick_stays_within_unit_interval() {
    for eta in [1i64, 256, 2730, 4096, 6144, 65536].iter() {
        for c in (0..=S).step_by(97) {
            let r = Dielectric::schlick(c, *eta);
            assert!((0..=S).contains(&r));
        }
    }
    // Head-on through glass: ((1 - 1.5) / (1 + 1.5))^2 = 0.04.
    let head_on = Dielectric::schlick(S, 6144);
    assert!((head_on - 164).abs() <= 2);
    // Grazing incidence reflects everything.
    assert_eq!(Dielectric::schlick(0, 6144), S);
}

#[test]
fn lambertian_scatters_with_its_albedo() {
    let mut rng = random_source(5);
    let m = Lambertian { albedo: Vec3(S / 2, S / 4, S) };
    let r = Ray { origin: Vec3(0, S, 0), direction: Vec3(0, -S, 0) };
    for _ in 0..100 {
        let s = m.scatter(&r, &up_hit(), &mut rng).expect("diffuse surfaces always scatter");
        assert_eq!(s.attenuation, m.albedo);
        assert_eq!(s.ray.origin, Vec3(0, 0, 0));
        assert!(s.ray.direction != Vec3(0, 0, 0));
    }
}

#[test]
fn metal_never_scatters_into_the_surface() {
    let mut rng = random_source(11);
    let m = Metal { albedo: Vec3(S, S, S / 2), fuzz: S };
    let r = Ray { origin: Vec3(-S, S, 0), direction: Vec3(S, -S / 8, 0) };
    let mut absorbed = 0;
    for _ in 0..500 {
        match m.scatter(&r, &up_hit(), &mut rng) {
            Some(s) => {
                assert!(Vec3::dot(s.ray.direction, Vec3(0, S, 0)) > 0);
                assert!(in_unit_range(s.attenuation));
            }
            None => absorbed += 1,
        }
    }
    assert!(absorbed > 0);
    let exact = Metal { albedo: Vec3(S, S, S), fuzz: 0 };
    let s = exact.scatter_with(&r, &up_hit(), Vec3(0, 0, 0)).unwrap();
    assert_eq!(s.ray.direction, Vec3(S, S / 8, 0));
    // The incoming direction itself is mirrored, so the fuzz moves it by an
    // absolute amount.
    let fuzzy = Metal { albedo: Vec3(S, S, S), fuzz: S };
    let down = Ray { origin: Vec3(0, 2 * S, 0), direction: Vec3(0, -2 * S, 0) };
    let s = fuzzy.scatter_with(&down, &up_hit(), Vec3(S, 0, 0)).unwrap();
    assert_eq!(s.ray.direction, Vec3(S, 2 * S, 0));
}

#[test]
fn dielectric_always_scatters_white() {
    let mut rng = random_source(12);
    let glass = Material::Dielectric(Dielectric { refractive_index: 6144 });
    let r = Ray { origin: Vec3(-S, S, 0), direction: Vec3(S, -S, 0) };
    for _ in 0..200 {
        let s = glass.scatter(&r, &up_hit(), &mut rng).expect("glass always scatters");
        assert_eq!(s.attenuation, Vec3(S, S, S));
    }
    // From inside at a grazing angle the ray is totally reflected.
    let inside = Hit { front_face: false, ..up_hit() };
    let g = Dielectric { refractive_index: 6144 };
    let grazing = Ray { origin: Vec3(-S, S / 8, 0), direction: Vec3(S, -S / 8, 0) };
    let s = g.scatter_with(&grazing, &inside, S - 1);
    assert!(s.ray.direction.1 > 0);
    // Head-on from outside with a large draw the ray passes straight through.
    let straight = Ray { origin: Vec3(0, S, 0), direction: Vec3(0, -S, 0) };
    let s = g.scatter_with(&straight, &up_hit(), S - 1);
    assert_eq!(s.ray.direction, Vec3(0, -S, 0));
}

#[test]
fn attenuation_stays_within_unit_range() {
    let mut rng = random_source(13);
    let mats = [
        Material::Lambertian(Lambertian { albedo: Vec3(0, S, S / 3) }),
        Material::Metal(Metal { albedo: Vec3(S, 0, S / 7), fuzz: S / 2 }),
        Material::Dielectric(Dielectric { refractive_index: 4096 + 2048 }),
    ];
    let r = Ray { origin: Vec3(-S, S, 0), direction: Vec3(S, -S, 0) };
    for m in mats.iter() {
        for _ in 0..100 {
            if let Some(s) = m.scatter(&r, &up_hit(), &mut rng) {
                assert!(in_unit_range(s.attenuation));
            }
        }
    }
}

#[test]
fn random_vectors_stay_in_range() {
    let mut rng = random_source(21);
    for _ in 0..200 {
        let v = Vec3::random(&mut rng, -5, 5);
        assert!((-5..5).contains(&v.0) && (-5..5).contains(&v.1) && (-5..5).contains(&v.2));
        let b = Vec3::random_unit_sphere(&mut rng);
        assert!(b.len_sqr() <= (S as i128) * (S as i128));
        let d = Vec3::random_unit_disk(&mut rng);
        assert_eq!(d.2, 0);
        assert!(d.len_sqr() <= (S as i128) * (S as i128));
        let u = Vec3::random_unit_vector(&mut rng);
        assert!(u.len_sqr() > (S as i128) * (S as i128) - 6 * S as i128 - 3);
    }
    let draws: Vec<i64> = (0..50).map(|_| Vec3::random(&mut rng, 0, 1000).0).collect();
    assert!(draws.iter().any(|d| *d != draws[0]));
}
