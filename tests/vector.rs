use pathtracer::vector::{Ray, Vec3, SCALE};

const S: i64 = SCALE;
const VEC1: Vec3 = Vec3(S, 2 * S, 3 * S);
const VEC2: Vec3 = Vec3(3 * S, 2 * S, S);

#[test]
fn test_addition() {
    assert_eq!(VEC1.add(VEC2), Vec3(4 * S, 4 * S, 4 * S));
}

#[test]
fn test_subtraction() {
    assert_eq!(VEC2.sub(VEC2), Vec3(0, 0, 0));
}

#[test]
fn test_vector_multiplication() {
    assert_eq!(VEC1.mul(VEC2), Vec3(3 * S, 4 * S, 3 * S));
}

#[test]
fn test_negation() {
    assert_eq!(VEC1.neg(), Vec3(-S, -2 * S, -3 * S));
}

#[test]
fn test_float_multiplication() {
    assert_eq!(VEC1.scale(2 * S), Vec3(2 * S, 4 * S, 6 * S));
}

#[test]
fn test_float_division() {
    assert_eq!(VEC1.div(2 * S), Vec3(S / 2, S, 3 * S / 2));
}

#[test]
fn test_dot_product() {
    assert_eq!(Vec3::dot(VEC1, VEC2), 10 * (S as i128) * (S as i128));
}

#[test]
fn test_cross_product() {
    assert_eq!(Vec3::cross(VEC1, VEC2), Vec3(-4 * S, 8 * S, -4 * S));
}

#[test]
fn test_len() {
    let expected = (14.0_f64.sqrt() * S as f64).floor() as i64;
    assert_eq!(VEC1.len(), expected);
}

#[test]
fn test_unit() {
    let part = |k: f64| (k * S as f64 / 14.0_f64.sqrt()).floor() as i64;
    assert_eq!(VEC1.unit(), Vec3(part(1.0), part(2.0), part(3.0)));
}

#[test]
fn addition_commutes_on_samples() {
    let vs = [Vec3(1, -2, 3), Vec3(-7, 11, 0), Vec3(5 * S, -3 * S, 9)];
    for u in vs.iter() {
        for v in vs.iter() {
            assert_eq!(u.add(*v), v.add(*u));
        }
    }
}

#[test]
fn dot_is_bilinear_on_samples() {
    let u = Vec3(3, -1, 4);
    let w = Vec3(-2, 7, 1);
    let v = Vec3(5, 2, -6);
    let (a, b) = (3i64, -4i64);
    let combo = Vec3(a * u.0 + b * w.0, a * u.1 + b * w.1, a * u.2 + b * w.2);
    assert_eq!(
        Vec3::dot(combo, v),
        a as i128 * Vec3::dot(u, v) + b as i128 * Vec3::dot(w, v)
    );
    assert_eq!(
        Vec3::dot(v, combo),
        a as i128 * Vec3::dot(v, u) + b as i128 * Vec3::dot(v, w)
    );
}

#[test]
fn cross_anticommutes_on_samples() {
    let u = Vec3(3, -1, 4);
    let v = Vec3(5, 2, -6);
    assert_eq!(Vec3::cross(u, v), Vec3::cross(v, u).neg());
}

#[test]
fn len_is_square_root_of_dot() {
    let u = Vec3(3 * S, 4 * S, 0);
    assert_eq!(u.len(), 5 * S);
    assert_eq!(Vec3(1, 1, 1).len(), 1);
    assert_eq!(Vec3(0, 0, 0).len(), 0);
}

#[test]
fn unit_has_length_one_within_rounding() {
    let samples = [Vec3(1, 0, 0), Vec3(1, 1, 1), Vec3(-3, 5, 7), Vec3(123456, -98765, 4321)];
    for u in samples.iter() {
        let n = u.unit().len_sqr();
        let s = S as i128;
        assert!(n <= s * s);
        assert!(n > s * s - 6 * s - 3);
    }
    assert_eq!(Vec3(0, 0, -7).unit(), Vec3(0, 0, -S));
}

#[test]
fn ray_at_moves_along_direction() {
    let r = Ray { origin: Vec3(S, 0, 0), direction: Vec3(0, 2 * S, -S) };
    assert_eq!(r.at(S / 2), Vec3(S, S, -S / 2));
    assert_eq!(r.at(0), Vec3(S, 0, 0));
}

#[test]
fn accumulate_sums_components() {
    assert_eq!(Vec3(1, 2, 3).accumulate(), 6);
}
