//! The renderer: averages jittered samples per pixel, gamma-corrects and
//! quantizes them, one scanline at a time.
use vstd::prelude::*;

use crate::arith::{isqrt, sqrt_floor};
use crate::camera::{Camera, camera_wf, camera_origin, camera_direction};
use crate::material::clamp_i;
use crate::random::{draw, seeded_rng};
use crate::vector::{Vec3, Ray, Triple, add3, dot3, within3, SCALE};
use crate::world::{World, world_wf, ray_color_iter, color_of};

verus! {

/// The largest channel value before quantizing: `0.999` in fixed point.
pub const CHANNEL_MAX: i64 = 4091;

/// The largest number of samples per pixel.
pub const MAX_SAMPLES: usize = 0x10_0000;

/// The largest image width or height.
pub const MAX_SIDE: usize = 0x10_0000;

/// An output pixel: red, green and blue bytes.
#[derive(Clone, Copy, Debug, PartialEq, Eq, Structural)]
pub struct Pixel(pub u8, pub u8, pub u8);

/// One channel of a pixel from the sum of `samples` colors: the average,
/// its square root (gamma 2), clamped to `[0, 0.999]` and scaled to a byte.
pub open spec fn channel(sum: int, samples: int) -> int {
    (256 * clamp_i(sqrt_floor((sum / samples) * SCALE), 0, CHANNEL_MAX as int)) / (SCALE as int)
}

/// The pixel for the sum of `samples` colors.
pub open spec fn pixel_of(c: Triple, samples: int) -> Pixel {
    Pixel(channel(c.0, samples) as u8, channel(c.1, samples) as u8, channel(c.2, samples) as u8)
}

/// A sum of `samples` colors.
pub open spec fn color_sum_wf(c: Triple, samples: int) -> bool {
    0 <= c.0 <= samples * SCALE && 0 <= c.1 <= samples * SCALE && 0 <= c.2 <= samples * SCALE
}

/// The image position of a sample on pixel `i` of `n`, with jitter `u` from
/// `[0, SCALE)`: `(i + u) / (n - 1)` in fixed point.
pub open spec fn image_pos(i: int, u: int, n: int) -> int {
    (i * SCALE + u) / (n - 1)
}

/// `ray` is a camera ray through pixel `(i, j)`: for some jitters `u`, `v`
/// from `[0, SCALE)` and some point `disk` of the lens disk.
pub open spec fn is_sample_ray(cam: Camera, width: int, height: int, i: int, j: int, ray: Ray) -> bool {
    exists|u: int, v: int, disk: Triple|
        0 <= u < SCALE && 0 <= v < SCALE && disk.2 == 0 && dot3(disk, disk) <= SCALE * SCALE
            && within3(disk, SCALE as int) && ray.origin@ == camera_origin(cam, disk) && ray.direction@
            == #[trigger] camera_direction(cam, image_pos(i, u, width), image_pos(j, v, height), disk)
}

/// `c` is a color one sample of pixel `(i, j)` can bring: a color of a
/// camera ray through the pixel, traced through at most `depth` surfaces.
pub open spec fn is_sample_color(w: World, cam: Camera, width: int, height: int, depth: nat, i: int, j: int, c: Triple) -> bool {
    exists|ray: Ray| is_sample_ray(cam, width, height, i, j, ray) && #[trigger] color_of(w, ray, depth, c)
}

/// The sum of a sequence of colors.
pub open spec fn sum_colors(cs: Seq<Triple>) -> Triple
    decreases cs.len(),
{
    if cs.len() == 0 {
        (0int, 0int, 0int)
    } else {
        add3(sum_colors(cs.drop_last()), cs.last())
    }
}

/// `p` is a pixel the renderer can produce at `(i, j)`: the pixel of the
/// sum of `samples` sample colors of that pixel.
pub open spec fn is_pixel_at(
    w: World,
    cam: Camera,
    width: int,
    height: int,
    samples: int,
    depth: nat,
    i: int,
    j: int,
    p: Pixel,
) -> bool {
    exists|cs: Seq<Triple>|
        cs.len() == samples && (forall|k: int|
            0 <= k < cs.len() ==> is_sample_color(w, cam, width, height, depth, i, j, #[trigger] cs[k]))
            && color_sum_wf(sum_colors(cs), samples) && p == #[trigger] pixel_of(sum_colors(cs), samples)
}

/// Relies on `num::clamp` (num-traits' `clamp`, re-exported by num): `input`
/// raised to `min` or lowered to `max`; it asserts (in debug builds) that
/// `min <= max`.
#[verifier::external_body]
fn clamp_channel(input: i64, min: i64, max: i64) -> (r: i64)
    requires
        min <= max,
    ensures
        r == clamp_i(input as int, min as int, max as int),
{
    num::clamp(input, min, max)
}

/// One channel from the sum of `samples` colors (see `channel`).
fn to_byte(sum: i64, samples: usize) -> (b: u8)
    requires
        0 < samples <= MAX_SAMPLES,
        0 <= sum,
    ensures
        b == channel(sum as int, samples as int),
{
    let avg: i64 = sum / samples as i64;
    proof {
        vstd::arithmetic::div_mod::lemma_div_is_ordered_by_denominator(sum as int, 1, samples as int);
        vstd::arithmetic::div_mod::lemma_div_pos_is_pos(sum as int, samples as int);
        assert(0 <= avg * SCALE <= 0x8000_0000_0000_0000 * SCALE) by (nonlinear_arith)
            requires
                0 <= avg <= 0x8000_0000_0000_0000,
        ;
    }
    let g0 = isqrt(avg as u128 * SCALE as u128);
    proof {
        if g0 > 0x40_0000_0000 {
            assert(g0 * g0 > 0x40_0000_0000 * 0x40_0000_0000) by (nonlinear_arith)
                requires
                    g0 > 0x40_0000_0000,
            ;
        }
    }
    let g = g0 as i64;
    let c = clamp_channel(g, 0, CHANNEL_MAX);
    proof {
        assert(0 <= 256 * c <= 256 * CHANNEL_MAX);
        vstd::arithmetic::div_mod::lemma_div_is_ordered(256 * c, 256 * CHANNEL_MAX, SCALE as int);
        vstd::arithmetic::div_mod::lemma_div_pos_is_pos(256 * c, SCALE as int);
        assert((256 * CHANNEL_MAX) / (SCALE as int) == 255);
    }
    ((256 * c) / SCALE) as u8
}

impl Vec3 {
    /// The red byte of a pixel whose `samples` colors sum to `self`.
    pub fn r(&self, samples: usize) -> (b: u8)
        requires
            0 < samples <= MAX_SAMPLES,
            0 <= self.0,
        ensures
            b == channel(self.0 as int, samples as int),
    {
        to_byte(self.0, samples)
    }

    /// The green byte of a pixel whose `samples` colors sum to `self`.
    pub fn g(&self, samples: usize) -> (b: u8)
        requires
            0 < samples <= MAX_SAMPLES,
            0 <= self.1,
        ensures
            b == channel(self.1 as int, samples as int),
    {
        to_byte(self.1, samples)
    }

    /// The blue byte of a pixel whose `samples` colors sum to `self`.
    pub fn b(&self, samples: usize) -> (b: u8)
        requires
            0 < samples <= MAX_SAMPLES,
            0 <= self.2,
        ensures
            b == channel(self.2 as int, samples as int),
    {
        to_byte(self.2, samples)
    }
}

/// The image position of a sample: `(i + jitter) / (n - 1)` in fixed point.
fn image_coord(i: usize, jitter: i64, n: usize) -> (s: i64)
    requires
        2 <= n <= MAX_SIDE,
        i < n,
        0 <= jitter < SCALE,
    ensures
        s == image_pos(i as int, jitter as int, n as int),
        0 <= s <= 2 * SCALE,
{
    let num: i64 = i as i64 * SCALE + jitter;
    proof {
        assert(i * SCALE + jitter <= 2 * SCALE * (n - 1)) by (nonlinear_arith)
            requires
                i <= n - 1,
                n >= 2,
                0 <= jitter < SCALE,
        ;
        vstd::arithmetic::div_mod::lemma_div_is_ordered(i * SCALE + jitter, (2 * SCALE) * (n - 1), (n - 1) as int);
        vstd::arithmetic::div_mod::lemma_div_multiples_vanish(2 * SCALE, (n - 1) as int);
        assert((2 * SCALE) * (n - 1) == (n - 1) * (2 * SCALE)) by (nonlinear_arith);
        vstd::arithmetic::div_mod::lemma_div_pos_is_pos(i * SCALE + jitter, (n - 1) as int);
    }
    num / (n - 1) as i64
}

/// Renders scanline `j` (counted from the bottom): each pixel averages
/// `samples` rays jittered within it, traced through at most `max_depth`
/// surfaces. The random stream is seeded from `seed + j`, so a line depends
/// on its inputs alone.
pub fn render_line(
    world: &World,
    camera: &Camera,
    width: usize,
    height: usize,
    samples: usize,
    max_depth: usize,
    j: usize,
    seed: u64,
) -> (line: Vec<Pixel>)
    requires
        world_wf(*world),
        camera_wf(*camera),
        2 <= width <= MAX_SIDE,
        2 <= height <= MAX_SIDE,
        0 < samples <= MAX_SAMPLES,
        j < height,
    ensures
        line@.len() == width,
        forall|i: int|
            0 <= i < width ==> #[trigger] is_pixel_at(
                *world,
                *camera,
                width as int,
                height as int,
                samples as int,
                max_depth as nat,
                i,
                j as int,
                line@[i],
            ),
{
    let mut rng = seeded_rng(seed.wrapping_add(j as u64));
    let mut line: Vec<Pixel> = Vec::new();
    let mut i: usize = 0;
    while i < width
        invariant
            world_wf(*world),
            camera_wf(*camera),
            2 <= width <= MAX_SIDE,
            2 <= height <= MAX_SIDE,
            0 < samples <= MAX_SAMPLES,
            j < height,
            i <= width,
            line@.len() == i,
            forall|k: int|
                0 <= k < i ==> #[trigger] is_pixel_at(
                    *world,
                    *camera,
                    width as int,
                    height as int,
                    samples as int,
                    max_depth as nat,
                    k,
                    j as int,
                    line@[k],
                ),
        decreases width - i,
    {
        let mut sum = Vec3(0, 0, 0);
        let mut n: usize = 0;
        let ghost mut cs: Seq<Triple> = Seq::empty();
        while n < samples
            invariant
                world_wf(*world),
                camera_wf(*camera),
                2 <= width <= MAX_SIDE,
                2 <= height <= MAX_SIDE,
                0 < samples <= MAX_SAMPLES,
                i < width,
                j < height,
                n <= samples,
                color_sum_wf(sum@, n as int),
                cs.len() == n,
                sum@ == sum_colors(cs),
                forall|k: int|
                    0 <= k < cs.len() ==> is_sample_color(
                        *world,
                        *camera,
                        width as int,
                        height as int,
                        max_depth as nat,
                        i as int,
                        j as int,
                        #[trigger] cs[k],
                    ),
            decreases samples - n,
        {
            let du = draw(&mut rng, 0, SCALE);
            let dv = draw(&mut rng, 0, SCALE);
            let s = image_coord(i, du, width);
            let t = image_coord(j, dv, height);
            let r = camera.get_ray(s, t, &mut rng);
            let c = ray_color_iter(r, world, max_depth, &mut rng);
            proof {
                assert(n * SCALE + SCALE == (n + 1) * SCALE) by (nonlinear_arith);
                assert((n + 1) * SCALE <= MAX_SAMPLES * SCALE) by (nonlinear_arith)
                    requires
                        n + 1 <= MAX_SAMPLES,
                ;
                let disk = choose|disk: Triple|
                    disk.2 == 0 && dot3(disk, disk) <= SCALE * SCALE && within3(disk, SCALE as int)
                        && r.origin@ == camera_origin(*camera, disk) && r.direction@ == #[trigger] camera_direction(
                        *camera,
                        s as int,
                        t as int,
                        disk,
                    );
                assert(r.direction@ == camera_direction(*camera, image_pos(i as int, du as int, width as int), image_pos(j as int, dv as int, height as int), disk));
                assert(is_sample_ray(*camera, width as int, height as int, i as int, j as int, r));
                assert(is_sample_color(*world, *camera, width as int, height as int, max_depth as nat, i as int, j as int, c@));
                let old_cs = cs;
                cs = cs.push(c@);
                assert(cs.drop_last() =~= old_cs);
                assert forall|k: int| 0 <= k < cs.len() implies is_sample_color(
                    *world,
                    *camera,
                    width as int,
                    height as int,
                    max_depth as nat,
                    i as int,
                    j as int,
                    #[trigger] cs[k],
                ) by {
                    if k < old_cs.len() {
                        assert(cs[k] == old_cs[k]);
                    }
                }
            }
            sum = sum.add(c);
            n = n + 1;
        }
        proof {
            assert(color_sum_wf(sum@, samples as int));
        }
        let px = Pixel(sum.r(samples), sum.g(samples), sum.b(samples));
        proof {
            assert(px == pixel_of(sum_colors(cs), samples as int));
            assert(is_pixel_at(*world, *camera, width as int, height as int, samples as int, max_depth as nat, i as int, j as int, px));
        }
        let ghost before = line@;
        line.push(px);
        proof {
            assert forall|k: int| 0 <= k < i + 1 implies #[trigger] is_pixel_at(
                *world,
                *camera,
                width as int,
                height as int,
                samples as int,
                max_depth as nat,
                k,
                j as int,
                line@[k],
            ) by {
                if k < i {
                    assert(line@[k] == before[k]);
                }
            }
        }
        i = i + 1;
    }
    line
}

/// Renders the whole image, top row first: row `k` is scanline
/// `height - 1 - k`, seeded as `render_line` describes.
pub fn render(
    world: &World,
    camera: &Camera,
    width: usize,
    height: usize,
    samples: usize,
    max_depth: usize,
    seed: u64,
) -> (frame: Vec<Vec<Pixel>>)
    requires
        world_wf(*world),
        camera_wf(*camera),
        2 <= width <= MAX_SIDE,
        2 <= height <= MAX_SIDE,
        0 < samples <= MAX_SAMPLES,
    ensures
        frame@.len() == height,
        forall|k: int| 0 <= k < height ==> (#[trigger] frame@[k])@.len() == width,
        forall|k: int, i: int|
            0 <= k < height && 0 <= i < width ==> #[trigger] is_pixel_at(
                *world,
                *camera,
                width as int,
                height as int,
                samples as int,
                max_depth as nat,
                i,
                height - 1 - k,
                frame@[k]@[i],
            ),
{
    let mut frame: Vec<Vec<Pixel>> = Vec::new();
    let mut k: usize = 0;
    while k < height
        invariant
            world_wf(*world),
            camera_wf(*camera),
            2 <= width <= MAX_SIDE,
            2 <= height <= MAX_SIDE,
            0 < samples <= MAX_SAMPLES,
            k <= height,
            frame@.len() == k,
            forall|q: int| 0 <= q < k ==> (#[trigger] frame@[q])@.len() == width,
            forall|q: int, i: int|
                0 <= q < k && 0 <= i < width ==> #[trigger] is_pixel_at(
                    *world,
                    *camera,
                    width as int,
                    height as int,
                    samples as int,
                    max_depth as nat,
                    i,
                    height - 1 - q,
                    frame@[q]@[i],
                ),
        decreases height - k,
    {
        let line = render_line(world, camera, width, height, samples, max_depth, height - 1 - k, seed);
        let ghost before = frame@;
        frame.push(line);
        proof {
            assert forall|q: int, i: int| 0 <= q < k + 1 && 0 <= i < width implies #[trigger] is_pixel_at(
                *world,
                *camera,
                width as int,
                height as int,
                samples as int,
                max_depth as nat,
                i,
                height - 1 - q,
                frame@[q]@[i],
            ) by {
                if q < k {
                    assert(frame@[q] == before[q]);
                } else {
                    assert(frame@[q] == line);
                }
            }
            assert forall|q: int| 0 <= q < k + 1 implies (#[trigger] frame@[q])@.len() == width by {
                if q < k {
                    assert(frame@[q] == before[q]);
                }
            }
        }
        k = k + 1;
    }
    frame
}

} // verus!
