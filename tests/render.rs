use pathtracer::camera::Camera;
use pathtracer::material::{Lambertian, Material};
use pathtracer::models::Sphere;
use pathtracer::random::random_source;
use pathtracer::renderer::{render, render_line, Pixel};
use pathtracer::vector::{Ray, Vec3, SCALE};
use pathtracer::material::{Dielectric, Metal};
use pathtracer::world::{background, ray_color, ray_color_iter, scene_valid, Model, World};

const S: i64 = SCALE;

fn scene() -> World {
    World {
        objects: Model::List(vec![
            Sphere { center: Vec3(0, 0, -S), radius: S / 2, material: 0 },
            Sphere { center: Vec3(0, -100 * S - S / 2, -S), radius: 100 * S, material: 0 },
        ]),
        materials: vec![Material::Lambertian(Lambertian { albedo: Vec3(S / 2, S / 2, S / 2) })],
    }
}

fn camera() -> Camera {
    Camera {
        origin: Vec3(0, 0, 0),
        lower_left_corner: Vec3(-2 * S, -S, -S),
        horizontal: Vec3(4 * S, 0, 0),
        vertical: Vec3(0, 2 * S, 0),
        u: Vec3(S, 0, 0),
        v: Vec3(0, S, 0),
        w: Vec3(0, 0, S),
        lens_radius: 0,
    }
}

fn brightness(p: &Pixel) -> i32 {
    p.0 as i32 + p.1 as i32 + p.2 as i32
}

#[test]
fn channels_are_gamma_corrected_and_clamped() {
    let sum = Vec3(4 * S, 0, S);
    assert_eq!(sum.r(4), 255);
    assert_eq!(sum.g(4), 0);
    assert_eq!(sum.b(4), 128);
    // Averages above one clamp to the brightest byte.
    assert_eq!(Vec3(100 * S, 0, 0).r(1), 255);
}

#[test]
fn sky_blends_white_into_blue() {
    let up = Ray { origin: Vec3(0, 0, 0), direction: Vec3(0, S, 0) };
    let down = Ray { origin: Vec3(0, 0, 0), direction: Vec3(0, -S, 0) };
    let still = Ray { origin: Vec3(0, 0, 0), direction: Vec3(0, 0, 0) };
    assert_eq!(background(&up), Vec3(2048, 2867, S));
    assert_eq!(background(&down), Vec3(S, S, S));
    assert_eq!(background(&still), Vec3(3072, 3481, S));
}

#[test]
fn integrator_budget_and_escape() {
    let world = scene();
    let mut rng = random_source(1);
    let sky_ray = Ray { origin: Vec3(0, 0, 0), direction: Vec3(0, S, -S) };
    assert_eq!(ray_color(sky_ray, &world, 5, &mut rng), background(&sky_ray));
    assert_eq!(ray_color_iter(sky_ray, &world, 5, &mut rng), background(&sky_ray));
    assert_eq!(ray_color(sky_ray, &world, 0, &mut rng), Vec3(0, 0, 0));
    assert_eq!(ray_color_iter(sky_ray, &world, 0, &mut rng), Vec3(0, 0, 0));
    let at_sphere = Ray { origin: Vec3(0, 0, 0), direction: Vec3(0, 0, -S) };
    for _ in 0..50 {
        let c = ray_color_iter(at_sphere, &world, 10, &mut rng);
        // Half the light is absorbed at the first bounce at least.
        assert!(c.0 <= S / 2 && c.1 <= S / 2 && c.2 <= S / 2);
        let d = ray_color(at_sphere, &world, 10, &mut rng);
        assert!(d.0 <= S / 2 && d.1 <= S / 2 && d.2 <= S / 2);
    }
}

#[test]
fn render_has_requested_shape() {
    let frame = render(&scene(), &camera(), 8, 4, 1, 3, 0);
    assert_eq!(frame.len(), 4);
    assert!(frame.iter().all(|row| row.len() == 8));
}

#[test]
fn render_is_deterministic_for_a_seed() {
    let a = render(&scene(), &camera(), 16, 8, 2, 5, 1234);
    let b = render(&scene(), &camera(), 16, 8, 2, 5, 1234);
    assert_eq!(a, b);
    let c = render(&scene(), &camera(), 16, 8, 2, 5, 4321);
    assert_ne!(a, c);
}

#[test]
fn more_samples_reduce_pixel_variance() {
    let world = scene();
    let cam = camera();
    let variance = |samples: usize| {
        let values: Vec<f64> = (0..40u64)
            .map(|seed| brightness(&render_line(&world, &cam, 2, 2, samples, 10, 0, seed)[0]) as f64)
            .collect();
        let mean = values.iter().sum::<f64>() / values.len() as f64;
        values.iter().map(|v| (v - mean) * (v - mean)).sum::<f64>() / values.len() as f64
    };
    assert!(variance(32) < variance(1));
}

#[test]
fn single_sphere_scene_renders_silhouette_under_sky() {
    let (w, h) = (40usize, 20usize);
    let frame = render(&scene(), &camera(), w, h, 8, 10, 7);
    let top = &frame[0];
    let bottom = &frame[h - 1];
    let middle = &frame[h / 2];
    // The sky is bluish and the top row is lighter and bluer than the ground.
    let sky = Pixel(204, 226, 255);
    let dist = |p: &Pixel| {
        (p.0 as i32 - sky.0 as i32).abs() + (p.1 as i32 - sky.1 as i32).abs() + (p.2 as i32 - sky.2 as i32).abs()
    };
    let top_dist: i32 = top.iter().map(|p| dist(p)).sum();
    let bottom_dist: i32 = bottom.iter().map(|p| dist(p)).sum();
    assert!(top_dist < bottom_dist);
    assert!(top.iter().all(|p| p.2 >= p.0));
    // The middle row sees sky at both edges and the sphere in the center.
    let edge = brightness(&middle[0]).min(brightness(&middle[w - 1]));
    let center = brightness(&middle[w / 2]);
    assert!(center + 60 < edge);
    // The silhouette is roughly centered: dark pixels of the middle row are
    // balanced around the middle column.
    let dark: Vec<usize> = (0..w).filter(|i| brightness(&middle[*i]) + 60 < edge).collect();
    assert!(!dark.is_empty());
    let lo = *dark.first().unwrap() as i64;
    let hi = *dark.last().unwrap() as i64;
    assert!(((lo + hi) - (w as i64 - 1)).abs() <= 3);
}

#[test]
fn camera_new_builds_the_standard_view() {
    let c = Camera::new(Vec3(0, 0, 0), Vec3(0, 0, -S), Vec3(0, S, 0), S, 2 * S, 0, S);
    assert_eq!(c, camera());
    let lens = Camera::new(Vec3(0, 0, 0), Vec3(0, 0, -S), Vec3(0, S, 0), S, 2 * S, S, S);
    assert_eq!(lens.lens_radius, S / 2);
}

#[test]
fn camera_try_new_rejects_degenerate_views() {
    assert!(Camera::try_new(Vec3(0, 0, 0), Vec3(0, 0, 0), Vec3(0, S, 0), S, S, 0, S).is_none());
    assert!(Camera::try_new(Vec3(0, 0, 0), Vec3(0, -S, 0), Vec3(0, S, 0), S, S, 0, S).is_none());
    assert!(Camera::try_new(Vec3(0, 0, 0), Vec3(0, 0, -S), Vec3(0, S, 0), -1, S, 0, S).is_none());
    assert_eq!(
        Camera::try_new(Vec3(0, 0, 0), Vec3(0, 0, -S), Vec3(0, S, 0), S, 2 * S, 0, S),
        Some(camera())
    );
}

#[test]
fn camera_rays_pass_through_the_image_plane() {
    let cam = camera();
    let r = cam.get_ray_with(S / 2, S / 2, Vec3(0, 0, 0));
    assert_eq!(r, Ray { origin: Vec3(0, 0, 0), direction: Vec3(0, 0, -S) });
    let corner = cam.get_ray_with(0, 0, Vec3(0, 0, 0));
    assert_eq!(corner.direction, Vec3(-2 * S, -S, -S));
    let mut rng = random_source(3);
    assert_eq!(cam.get_ray(S, S, &mut rng).direction, Vec3(2 * S, S, -S));
}

#[test]
fn scene_validation() {
    let spheres = vec![Sphere { center: Vec3(0, 0, -S), radius: S / 2, material: 1 }];
    let good = vec![
        Material::Lambertian(Lambertian { albedo: Vec3(S, 0, 0) }),
        Material::Metal(Metal { albedo: Vec3(S, S, S), fuzz: S / 3 }),
    ];
    assert!(scene_valid(&spheres, &good));
    let bright = vec![Material::Lambertian(Lambertian { albedo: Vec3(S + 1, 0, 0) }), good[1]];
    assert!(!scene_valid(&spheres, &bright));
    assert!(!scene_valid(&spheres, &good[..1].to_vec()));
    let thin = vec![Material::Dielectric(Dielectric { refractive_index: 0 }); 2];
    assert!(!scene_valid(&spheres, &thin));
    let flat = vec![Sphere { center: Vec3(0, 0, 0), radius: 0, material: 0 }];
    assert!(!scene_valid(&flat, &good));
}
