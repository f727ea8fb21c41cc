//! Random sampling on top of `rand`'s seeded generator.
use vstd::prelude::*;
use rand::rngs::StdRng;
use crate::vector::{Vec3, dot3, within3, lemma_unit_length, SCALE};

verus! {

#[verifier::external_type_specification]
#[verifier::external_body]
pub struct ExStdRng(rand::rngs::StdRng);

/// Relies on rand's `SeedableRng::seed_from_u64` for `StdRng`: a generator
/// whose whole stream is fixed by the seed.
#[verifier::external_body]
pub(crate) fn seeded_rng(seed: u64) -> StdRng {
    <StdRng as rand::SeedableRng>::seed_from_u64(seed)
}

/// Relies on rand's `Rng::gen_range(low, high)` for `i64`: a value in
/// `[low, high)`; it panics when `low >= high`.
#[verifier::external_body]
pub(crate) fn draw(rng: &mut StdRng, low: i64, high: i64) -> (r: i64)
    requires
        low < high,
    ensures
        low <= r < high,
{
    rand::Rng::gen_range(rng, low, high)
}

/// A random stream fixed by `seed`, for callers of the sampling functions.
pub fn random_source(seed: u64) -> StdRng {
    seeded_rng(seed)
}

/// How many candidates the rejection samplers draw before they give up and
/// return a fixed sample (the chance of that is below `2^-60`).
pub const MAX_TRIES: usize = 64;

impl Vec3 {
    /// A vector with each component drawn from `[min, max)`.
    pub fn random(rng: &mut StdRng, min: i64, max: i64) -> (r: Vec3)
        requires
            min < max,
        ensures
            min <= r.0 < max && min <= r.1 < max && min <= r.2 < max,
    {
        let x = draw(rng, min, max);
        let y = draw(rng, min, max);
        let z = draw(rng, min, max);
        Vec3(x, y, z)
    }

    /// A point of the unit ball, by rejection; the center if every candidate
    /// was rejected.
    pub fn random_unit_sphere(rng: &mut StdRng) -> (r: Vec3)
        ensures
            dot3(r@, r@) <= SCALE * SCALE,
            within3(r@, SCALE as int),
    {
        let mut tries: usize = 0;
        while tries < MAX_TRIES
            decreases MAX_TRIES - tries,
        {
            let p = Vec3::random(rng, -SCALE, SCALE + 1);
            if p.len_sqr() <= SCALE as i128 * SCALE as i128 {
                return p;
            }
            tries = tries + 1;
        }
        Vec3(0, 0, 0)
    }

    /// A point of the unit disk in the plane `z = 0`, by rejection; the
    /// center if every candidate was rejected.
    pub fn random_unit_disk(rng: &mut StdRng) -> (r: Vec3)
        ensures
            r.2 == 0,
            dot3(r@, r@) <= SCALE * SCALE,
            within3(r@, SCALE as int),
    {
        let mut tries: usize = 0;
        while tries < MAX_TRIES
            decreases MAX_TRIES - tries,
        {
            let p = Vec3(draw(rng, -SCALE, SCALE + 1), draw(rng, -SCALE, SCALE + 1), 0);
            if p.len_sqr() <= SCALE as i128 * SCALE as i128 {
                return p;
            }
            tries = tries + 1;
        }
        Vec3(0, 0, 0)
    }

    /// A direction of length `SCALE` (up to rounding), uniform over the
    /// sphere: a non-zero point of the unit ball scaled to unit length; the
    /// vertical if every candidate was rejected.
    pub fn random_unit_vector(rng: &mut StdRng) -> (r: Vec3)
        ensures
            SCALE * SCALE - 6 * SCALE - 3 < dot3(r@, r@) <= SCALE * SCALE,
            within3(r@, SCALE as int),
    {
        let mut tries: usize = 0;
        while tries < MAX_TRIES
            decreases MAX_TRIES - tries,
        {
            let p = Vec3::random(rng, -SCALE, SCALE + 1);
            let n = p.len_sqr();
            if 0 < n && n <= SCALE as i128 * SCALE as i128 {
                proof {
                    lemma_unit_length(p@);
                }
                return p.unit();
            }
            tries = tries + 1;
        }
        Vec3(0, SCALE, 0)
    }
}

} // verus!
