//! The render driver: multi-sample pixel accumulation, gamma
//! correction, and row-major image assembly.
//!
//! `render_row` is the unit of outside scheduling: rows are independent,
//! so a driver may compute them in any order or in parallel and report
//! progress per completed row.

use vstd::prelude::*;
use crate::fixed::{
    FP_ONE, tdiv, fdiv, spec_isqrt, isqrt, div_fp, lemma_tdiv_mag, lemma_tdiv_ordered,
    lemma_tdiv_exact,
};
use crate::vec3::{Vec3, V3, v_add};
use crate::ray::Ray;
use crate::camera::{Camera, cam_ray_outcome};
use crate::shape::World;
use crate::tracer::{ray_color, radiance_outcome};
use crate::material::color01;
use crate::rng::{rng_from_seed, rng_range};

verus! {

/// One display byte of an accumulated channel: average over the
/// samples, gamma-2 correction by square root, clamp to the unit, and
/// an 8-bit quantization.
pub open spec fn spec_gamma_byte(c: int, samples: int) -> int {
    let avg = tdiv(c, samples);
    let g = spec_isqrt(avg * FP_ONE);
    if g >= FP_ONE as int {
        255
    } else {
        tdiv(g * 255, FP_ONE as int)
    }
}

/// Turn an accumulated color sum into one 8-bit RGB triple.
pub fn write_color(sum: &Vec3, samples: u16) -> (rgb: (u8, u8, u8))
    requires
        samples >= 1,
        0 <= sum.m().x <= samples as int * FP_ONE as int,
        0 <= sum.m().y <= samples as int * FP_ONE as int,
        0 <= sum.m().z <= samples as int * FP_ONE as int,
    ensures
        rgb.0 as int == spec_gamma_byte(sum.m().x, samples as int),
        rgb.1 as int == spec_gamma_byte(sum.m().y, samples as int),
        rgb.2 as int == spec_gamma_byte(sum.m().z, samples as int),
{
    (
        gamma_byte(sum.x, samples),
        gamma_byte(sum.y, samples),
        gamma_byte(sum.z, samples),
    )
}

/// One channel of `write_color`.
fn gamma_byte(c: i64, samples: u16) -> (b: u8)
    requires
        samples >= 1,
        0 <= c <= samples as int * FP_ONE as int,
    ensures
        b as int == spec_gamma_byte(c as int, samples as int),
{
    proof {
        lemma_tdiv_mag(c as int, samples as int);
        lemma_tdiv_ordered(c as int, samples as int * FP_ONE as int, samples as int);
        lemma_tdiv_exact(FP_ONE as int, samples as int);
        assert(samples as int * FP_ONE as int == FP_ONE as int * samples as int)
            by (nonlinear_arith);
    }
    let avg: i64 = c / (samples as i64);
    proof {
        assert((avg as int) * (FP_ONE as int) <= 65536 * 65536) by (nonlinear_arith)
            requires
                0 <= avg as int <= 65536,
        ;
    }
    let g = isqrt((avg as u128) * 65536);
    if g >= 65536 {
        255
    } else {
        proof {
            lemma_tdiv_mag(g as int * 255, FP_ONE as int);
            lemma_tdiv_ordered(g as int * 255, FP_ONE as int * 255, FP_ONE as int);
            assert(g as int * 255 <= FP_ONE as int * 255) by (nonlinear_arith)
                requires
                    g as int <= FP_ONE as int,
            ;
            assert(tdiv(FP_ONE as int * 255, FP_ONE as int) == 255) by {
                assert(FP_ONE as int * 255 == 255 * FP_ONE as int) by (nonlinear_arith);
                lemma_tdiv_exact(255, FP_ONE as int);
            };
            assert(g as int * 255 >= 0) by (nonlinear_arith)
                requires
                    g as int >= 0,
            ;
        }
        (((g as i64) * 255) / 65536) as u8
    }
}

/// Normalized image-plane coordinate of pixel index `p` jittered by
/// `dp`, against extent `n`: `(p + dp) / (n - 1)`.
pub open spec fn spec_plane_coord(p: int, dp: int, n: int) -> int {
    fdiv(p * FP_ONE + dp, (n - 1) * FP_ONE)
}

/// Executable image-plane coordinate; lands within [0, 2].
fn plane_coord(p: usize, dp: i64, n: usize) -> (r: i64)
    requires
        2 <= n <= 4096,
        p < n,
        0 <= dp < FP_ONE,
    ensures
        r as int == spec_plane_coord(p as int, dp as int, n as int),
        0 <= r <= 2 * FP_ONE,
{
    let num: i64 = (p as i64) * 65536 + dp;
    let den: i64 = ((n - 1) as i64) * 65536;
    proof {
        let nn = num as int;
        let dd = den as int;
        lemma_tdiv_mag(nn * FP_ONE as int, dd);
        assert(nn * FP_ONE as int <= (2 * FP_ONE as int) * dd) by (nonlinear_arith)
            requires
                0 <= nn <= 2 * dd,
                dd >= 1,
                FP_ONE as int == 65536,
        ;
        assert(nn * FP_ONE as int >= 0) by (nonlinear_arith)
            requires
                nn >= 0,
        ;
        lemma_tdiv_ordered(nn * FP_ONE as int, (2 * FP_ONE as int) * dd, dd);
        lemma_tdiv_exact(2 * FP_ONE as int, dd);
    }
    div_fp(num, den)
}

/// One radiance estimate a pixel can contribute: the outcome of a
/// camera ray through the jittered pixel coordinates.
pub open spec fn pixel_sample(
    world: World,
    cam: Camera,
    i: int,
    j: int,
    width: int,
    height: int,
    depth: nat,
    col: V3,
) -> bool {
    exists|du: int, dv: int, ray: Ray|
        #![trigger cam_ray_outcome(cam, spec_plane_coord(i, du, width), spec_plane_coord(j, dv, height), ray), radiance_outcome(ray, world, depth, col)]
        {
            &&& 0 <= du < FP_ONE
            &&& 0 <= dv < FP_ONE
            &&& cam_ray_outcome(
                cam,
                spec_plane_coord(i, du, width),
                spec_plane_coord(j, dv, height),
                ray,
            )
            &&& radiance_outcome(ray, world, depth, col)
        }
}

/// Sum of a sequence of colors.
pub open spec fn vsum(s: Seq<V3>) -> V3
    decreases s.len(),
{
    if s.len() == 0 {
        V3 { x: 0, y: 0, z: 0 }
    } else {
        v_add(vsum(s.drop_last()), s.last())
    }
}

/// Appending to a color sequence adds to its sum.
proof fn lemma_vsum_push(s: Seq<V3>, v: V3)
    ensures
        vsum(s.push(v)) == v_add(vsum(s), v),
{
    assert(s.push(v).drop_last() =~= s);
    assert(s.push(v).last() == v);
}

/// The bytes a pixel can show: the gamma-corrected average of
/// `samples` independent radiance estimates at jittered coordinates.
pub open spec fn pixel_rgb_ok(
    world: World,
    cam: Camera,
    i: int,
    j: int,
    width: int,
    height: int,
    samples: int,
    depth: nat,
    r0: u8,
    r1: u8,
    r2: u8,
) -> bool {
    exists|cols: Seq<V3>|
        #![trigger vsum(cols)]
        {
            &&& cols.len() == samples
            &&& (forall|k: int|
                0 <= k < samples ==> color01(#[trigger] cols[k]) && pixel_sample(
                    world,
                    cam,
                    i,
                    j,
                    width,
                    height,
                    depth,
                    cols[k],
                ))
            &&& r0 as int == spec_gamma_byte(vsum(cols).x, samples)
            &&& r1 as int == spec_gamma_byte(vsum(cols).y, samples)
            &&& r2 as int == spec_gamma_byte(vsum(cols).z, samples)
        }
}

/// The color of one pixel: the gamma-corrected average of `samples`
/// jittered estimates.
pub fn render_pixel(
    world: &World,
    cam: &Camera,
    i: usize,
    j: usize,
    width: usize,
    height: usize,
    samples: u16,
    depth: u16,
    rng: &mut rand::rngs::StdRng,
) -> (rgb: (u8, u8, u8))
    requires
        world.wf(),
        cam.wf(),
        2 <= width <= 4096,
        2 <= height <= 4096,
        i < width,
        j < height,
        samples >= 1,
    ensures
        pixel_rgb_ok(
            *world,
            *cam,
            i as int,
            j as int,
            width as int,
            height as int,
            samples as int,
            depth as nat,
            rgb.0,
            rgb.1,
            rgb.2,
        ),
{
    let mut sum = Vec3 { x: 0, y: 0, z: 0 };
    let mut s: u16 = 0;
    let ghost mut cols: Seq<V3> = Seq::empty();
    while s < samples
        invariant
            world.wf(),
            cam.wf(),
            2 <= width <= 4096,
            2 <= height <= 4096,
            i < width,
            j < height,
            s <= samples,
            0 <= sum.m().x <= s as int * FP_ONE as int,
            0 <= sum.m().y <= s as int * FP_ONE as int,
            0 <= sum.m().z <= s as int * FP_ONE as int,
            cols.len() == s as int,
            vsum(cols) == sum.m(),
            forall|k: int|
                0 <= k < s as int ==> color01(#[trigger] cols[k]) && pixel_sample(
                    *world,
                    *cam,
                    i as int,
                    j as int,
                    width as int,
                    height as int,
                    depth as nat,
                    cols[k],
                ),
        decreases samples - s,
    {
        let du = rng_range(rng, 0, 65535);
        let dv = rng_range(rng, 0, 65535);
        let u = plane_coord(i, du, width);
        let v = plane_coord(j, dv, height);
        let ray = cam.get_ray(u, v, rng);
        let col = ray_color(&ray, world, depth, rng);
        proof {
            assert((s as int + 1) * FP_ONE as int == s as int * FP_ONE as int + FP_ONE as int)
                by (nonlinear_arith);
            assert(pixel_sample(
                *world,
                *cam,
                i as int,
                j as int,
                width as int,
                height as int,
                depth as nat,
                col.m(),
            )) by {
                assert(cam_ray_outcome(
                    *cam,
                    spec_plane_coord(i as int, du as int, width as int),
                    spec_plane_coord(j as int, dv as int, height as int),
                    ray,
                ) && radiance_outcome(ray, *world, depth as nat, col.m()));
            };
            lemma_vsum_push(cols, col.m());
            cols = cols.push(col.m());
        }
        sum = sum.add(col);
        s = s + 1;
    }
    let rgb = write_color(&sum, samples);
    proof {
        assert(cols.len() == samples as int && rgb.0 as int == spec_gamma_byte(
            vsum(cols).x,
            samples as int,
        ) && rgb.1 as int == spec_gamma_byte(vsum(cols).y, samples as int) && rgb.2 as int
            == spec_gamma_byte(vsum(cols).z, samples as int));
    }
    rgb
}

/// One scanline of the image, at row `j` counted from the bottom of
/// the viewport, as `3 * width` interleaved RGB bytes. Rows are
/// independent: this is the hook an outside driver parallelizes over
/// and reports progress on.
pub fn render_row(
    world: &World,
    cam: &Camera,
    j: usize,
    width: usize,
    height: usize,
    samples: u16,
    depth: u16,
    seed: u64,
) -> (row: Vec<u8>)
    requires
        world.wf(),
        cam.wf(),
        2 <= width <= 4096,
        2 <= height <= 4096,
        j < height,
        samples >= 1,
    ensures
        row@.len() == 3 * width as int,
        forall|px: int|
            0 <= px < width as int ==> #[trigger] pixel_rgb_ok(
                *world,
                *cam,
                px,
                j as int,
                width as int,
                height as int,
                samples as int,
                depth as nat,
                row@[3 * px],
                row@[3 * px + 1],
                row@[3 * px + 2],
            ),
{
    let mut rng = rng_from_seed(seed);
    let mut row: Vec<u8> = Vec::new();
    let mut i: usize = 0;
    while i < width
        invariant
            world.wf(),
            cam.wf(),
            2 <= width <= 4096,
            2 <= height <= 4096,
            j < height,
            samples >= 1,
            i <= width,
            row@.len() == 3 * i as int,
            forall|px: int|
                0 <= px < i as int ==> #[trigger] pixel_rgb_ok(
                    *world,
                    *cam,
                    px,
                    j as int,
                    width as int,
                    height as int,
                    samples as int,
                    depth as nat,
                    row@[3 * px],
                    row@[3 * px + 1],
                    row@[3 * px + 2],
                ),
        decreases width - i,
    {
        let (r, g, b) = render_pixel(world, cam, i, j, width, height, samples, depth, &mut rng);
        row.push(r);
        row.push(g);
        row.push(b);
        i = i + 1;
    }
    row
}

/// The full image: rows emitted top to bottom, each pixel an RGB
/// triple, `3 * width * height` bytes in all. The render is a function
/// of the scene, the camera and the seed alone.
pub fn render(
    world: &World,
    cam: &Camera,
    width: usize,
    height: usize,
    samples: u16,
    depth: u16,
    seed: u64,
) -> (buf: Vec<u8>)
    requires
        world.wf(),
        cam.wf(),
        2 <= width <= 4096,
        2 <= height <= 4096,
        samples >= 1,
    ensures
        buf@.len() == 3 * width as int * height as int,
        forall|rr: int, px: int|
            0 <= rr < height as int && 0 <= px < width as int ==> #[trigger] pixel_rgb_ok(
                *world,
                *cam,
                px,
                height as int - 1 - rr,
                width as int,
                height as int,
                samples as int,
                depth as nat,
                buf@[3 * (rr * width as int + px)],
                buf@[3 * (rr * width as int + px) + 1],
                buf@[3 * (rr * width as int + px) + 2],
            ),
{
    let mut buf: Vec<u8> = Vec::new();
    let mut done: usize = 0;
    while done < height
        invariant
            world.wf(),
            cam.wf(),
            2 <= width <= 4096,
            2 <= height <= 4096,
            samples >= 1,
            done <= height,
            buf@.len() == 3 * width as int * done as int,
            forall|rr: int, px: int|
                0 <= rr < done as int && 0 <= px < width as int ==> #[trigger] pixel_rgb_ok(
                    *world,
                    *cam,
                    px,
                    height as int - 1 - rr,
                    width as int,
                    height as int,
                    samples as int,
                    depth as nat,
                    buf@[3 * (rr * width as int + px)],
                    buf@[3 * (rr * width as int + px) + 1],
                    buf@[3 * (rr * width as int + px) + 2],
                ),
        decreases height - done,
    {
        let j = height - 1 - done;
        let mut row = render_row(world, cam, j, width, height, samples, depth,
            seed ^ (j as u64));
        proof {
            assert(3 * width as int * (done as int + 1)
                == 3 * width as int * done as int + 3 * width as int) by (nonlinear_arith);
        }
        let ghost old_buf = buf@;
        let ghost old_row = row@;
        buf.append(&mut row);
        proof {
            let w = width as int;
            let d = done as int;
            assert forall|rr: int, px: int|
                0 <= rr < d + 1 && 0 <= px < w implies #[trigger] pixel_rgb_ok(
                *world,
                *cam,
                px,
                height as int - 1 - rr,
                w,
                height as int,
                samples as int,
                depth as nat,
                buf@[3 * (rr * w + px)],
                buf@[3 * (rr * w + px) + 1],
                buf@[3 * (rr * w + px) + 2],
            ) by {
                assert(buf@ == old_buf + old_row);
                if rr < d {
                    assert(0 <= 3 * (rr * w + px) && 3 * (rr * w + px) + 2 < 3 * w * d)
                        by (nonlinear_arith)
                        requires
                            0 <= rr < d,
                            0 <= px < w,
                            2 <= w,
                    ;
                    assert(buf@[3 * (rr * w + px)] == old_buf[3 * (rr * w + px)]);
                    assert(buf@[3 * (rr * w + px) + 1] == old_buf[3 * (rr * w + px) + 1]);
                    assert(buf@[3 * (rr * w + px) + 2] == old_buf[3 * (rr * w + px) + 2]);
                } else {
                    assert(3 * (rr * w + px) == 3 * w * d + 3 * px && 0 <= 3 * w * d
                        && rr * w + px >= 0) by (nonlinear_arith)
                        requires
                            rr == d,
                            0 <= px < w,
                            2 <= w,
                            0 <= d,
                    ;
                    assert(buf@[3 * (rr * w + px)] == old_row[3 * px]);
                    assert(buf@[3 * (rr * w + px) + 1] == old_row[3 * px + 1]);
                    assert(buf@[3 * (rr * w + px) + 2] == old_row[3 * px + 2]);
                }
            }
        }
        done = done + 1;
    }
    buf
}

} // verus!
