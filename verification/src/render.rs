//! The recursive light-transport integrator and image assembly.

use vstd::prelude::*;
use crate::camera::ThinLens;
use crate::fixed::{
    fmul, isqrt, lemma_fmul_bound, lemma_isqrt_lt, lemma_tdiv_bounds, tdiv, div_trunc, fx_mul,
    isqrt_u128, SCALE,
};
use crate::material::{attenuation_bound, color_ok, lemma_fmul_unit_range};
use crate::ray::{ray_wf, Ray, T_MAX};
use crate::rng::rand_range;
use crate::shape::{shape_wf, spheres_of, Shape};
use crate::sphere::{is_sphere_hit, lemma_hit_record_normal, sphere_hit_t};
use crate::vec3::{Vec3, COORD_MAX};

verus! {

/// The lower end of every intersection query: a small positive offset
/// that keeps a scattered ray from re-hitting its own surface.
pub const T_MIN_HIT: i64 = 66;

/// An 8-bit output pixel, gamma-corrected.
#[derive(Clone, Copy, PartialEq, Eq, Structural, Debug)]
pub struct Rgb {
    pub r: u8,
    pub g: u8,
    pub b: u8,
}

/// No light: the color of an exhausted or absorbed path.
pub open spec fn black() -> Vec3 {
    Vec3 { x: 0, y: 0, z: 0 }
}

/// The vertical gradient parameter of the sky: half of the normalized
/// direction's `y` plus one, clamped to `[0, 1]` (scaled).
pub open spec fn sky_t(r: Ray) -> int {
    let uy = tdiv((r.direction.y as int) * (SCALE as int), crate::vec3::len_fx(r.direction));
    let t0 = tdiv(uy + SCALE, 2);
    if t0 < 0 {
        0
    } else if t0 > SCALE {
        SCALE as int
    } else {
        t0
    }
}

/// One channel of the sky gradient: white blended toward the sky value.
pub open spec fn lerp_chan(c: int, t: int) -> int {
    SCALE + fmul(c - (SCALE as int), t)
}

/// The sky gradient: white at the horizon blending to sky blue upward.
pub open spec fn sky_color(r: Ray) -> Vec3 {
    let t = sky_t(r);
    Vec3 {
        x: lerp_chan(32768, t) as i64,
        y: lerp_chan(45875, t) as i64,
        z: lerp_chan(65536, t) as i64,
    }
}

/// No sphere of the world hits this ray over the standard query interval.
pub open spec fn world_misses(w: Shape, r: Ray) -> bool {
    forall|i: int|
        0 <= i < spheres_of(w).len() ==> sphere_hit_t(
            #[trigger] spheres_of(w)[i],
            r,
            T_MIN_HIT as int,
            T_MAX as int,
        ) is None
}

/// Every well-formed ray hits something: an enclosed scene.
pub open spec fn world_closed(w: Shape) -> bool {
    forall|r: Ray| ray_wf(r) ==> !world_misses(w, r)
}

/// Componentwise order on colors.
pub open spec fn vec_le(a: Vec3, b: Vec3) -> bool {
    a.x <= b.x && a.y <= b.y && a.z <= b.z
}

/// The sky gradient, exactly.
fn sky_exec(ray: &Ray) -> (c: Vec3)
    requires
        ray_wf(*ray),
    ensures
        c == sky_color(*ray),
        color_ok(c),
{
    let u = ray.direction.normalize();
    let t0 = div_trunc((u.y as i128) + 65536, 2) as i64;
    proof {
        lemma_tdiv_bounds((u.y as int) + 65536, 2);
    }
    let t = if t0 < 0 {
        0
    } else if t0 > SCALE {
        SCALE
    } else {
        t0
    };
    proof {
        lemma_fmul_bound(-32768, t as int, 32768, SCALE as int);
        lemma_fmul_bound(-19661, t as int, 19661, SCALE as int);
        lemma_fmul_bound(0, t as int, 0, SCALE as int);
        lemma_tdiv_bounds((-32768) * (t as int), SCALE as int);
        lemma_tdiv_bounds((-19661) * (t as int), SCALE as int);
        lemma_tdiv_bounds(0 * (t as int), SCALE as int);
    }
    Vec3 {
        x: SCALE + fx_mul(-32768, t),
        y: SCALE + fx_mul(-19661, t),
        z: SCALE + fx_mul(0, t),
    }
}

/// Whether a point lies within the world coordinate bounds.
fn origin_ok(v: &Vec3) -> (r: bool)
    ensures
        r == v.bounded(COORD_MAX as int),
{
    -COORD_MAX <= v.x && v.x <= COORD_MAX && -COORD_MAX <= v.y && v.y <= COORD_MAX
        && -COORD_MAX <= v.z && v.z <= COORD_MAX
}

/// Componentwise product of two colors in `[0, 1]` (scaled): the
/// Beer-Lambert compounding of attenuation along a path. Multiplying
/// black gives black.
pub fn mul_color(a: Vec3, b: Vec3) -> (r: Vec3)
    requires
        color_ok(a),
        color_ok(b),
    ensures
        r.x as int == fmul(a.x as int, b.x as int),
        r.y as int == fmul(a.y as int, b.y as int),
        r.z as int == fmul(a.z as int, b.z as int),
        color_ok(r),
        b == black() ==> r == black(),
{
    proof {
        lemma_fmul_unit_range(a.x as int, b.x as int);
        lemma_fmul_unit_range(a.y as int, b.y as int);
        lemma_fmul_unit_range(a.z as int, b.z as int);
        if b == black() {
            assert((a.x as int) * 0 == 0);
            assert((a.y as int) * 0 == 0);
            assert((a.z as int) * 0 == 0);
            assert(tdiv(0, SCALE as int) == 0);
        }
    }
    Vec3 { x: fx_mul(a.x, b.x), y: fx_mul(a.y, b.y), z: fx_mul(a.z, b.z) }
}

/// Trace a ray through the world: black once the path budget is spent,
/// the sky gradient on a miss, and otherwise the scattered color
/// attenuated by the surface — black again when the surface absorbs.
/// A scene that every ray hits can only end by exhaustion or absorption,
/// so it always traces to black.
pub fn trace(world: &Shape, ray: &Ray, depth: u32) -> (c: Vec3)
    requires
        shape_wf(*world),
        ray_wf(*ray),
    ensures
        color_ok(c),
        depth == 0 ==> c == black(),
        depth > 0 && world_misses(*world, *ray) ==> c == sky_color(*ray),
        depth > 0 && world_closed(*world) ==> c == black(),
        depth > 0 && !world_misses(*world, *ray) ==> c == black() || exists|i: int| {
            &&& 0 <= i < spheres_of(*world).len()
            &&& sphere_hit_t(
                #[trigger] spheres_of(*world)[i],
                *ray,
                T_MIN_HIT as int,
                T_MAX as int,
            ) is Some
            &&& vec_le(c, attenuation_bound(spheres_of(*world)[i].material))
        },
    decreases depth,
{
    if depth == 0 {
        return Vec3 { x: 0, y: 0, z: 0 };
    }
    let h = world.hit(ray, T_MIN_HIT, T_MAX);
    match h {
        None => {
            proof {
                if world_closed(*world) {
                    assert(!world_misses(*world, *ray));
                    assert(false);
                }
            }
            sky_exec(ray)
        },
        Some(rec) => {
            proof {
                let ss = spheres_of(*world);
                let i = choose|i: int|
                    0 <= i < ss.len() && is_sphere_hit(
                        ss[i],
                        *ray,
                        T_MIN_HIT as int,
                        T_MAX as int,
                        rec,
                    );
                crate::shape::lemma_spheres_wf(*world);
                lemma_hit_record_normal(ss[i], *ray, T_MIN_HIT as int, T_MAX as int, rec);
                if world_misses(*world, *ray) {
                    assert(sphere_hit_t(ss[i], *ray, T_MIN_HIT as int, T_MAX as int) is None);
                    assert(false);
                }
            }
            match rec.material.scatter(ray, &rec) {
                None => Vec3 { x: 0, y: 0, z: 0 },
                Some(pair) => {
                    let attenuation = pair.0;
                    let scattered = pair.1;
                    if !origin_ok(&scattered.origin) {
                        Vec3 { x: 0, y: 0, z: 0 }
                    } else {
                        let sub = trace(world, &scattered, depth - 1);
                        let c = mul_color(attenuation, sub);
                        proof {
                            let ss = spheres_of(*world);
                            let i = choose|i: int|
                                0 <= i < ss.len() && is_sphere_hit(
                                    ss[i],
                                    *ray,
                                    T_MIN_HIT as int,
                                    T_MAX as int,
                                    rec,
                                );
                            assert(attenuation == attenuation_bound(ss[i].material));
                            crate::fixed::lemma_fmul_le_left(attenuation.x as int, sub.x as int);
                            crate::fixed::lemma_fmul_le_left(attenuation.y as int, sub.y as int);
                            crate::fixed::lemma_fmul_le_left(attenuation.z as int, sub.z as int);
                            assert(vec_le(c, attenuation_bound(ss[i].material)));
                        }
                        c
                    }
                },
            }
        },
    }
}

/// A clamped channel: `[0, 0.999]` (scaled).
pub open spec fn clamp_chan(c: int) -> int {
    if c < 0 {
        0
    } else if c > 65470 {
        65470
    } else {
        c
    }
}

/// One tone-mapped channel: clamp, gamma-correct by square root, and
/// scale to the 8-bit range.
pub open spec fn tone_chan(c: int) -> int {
    tdiv(isqrt(clamp_chan(c) * (SCALE as int)) * 256, SCALE as int)
}

/// One tone-mapped channel, exactly.
fn tone_chan_exec(c: i64) -> (b: u8)
    requires
        0 <= c <= SCALE,
    ensures
        b as int == tone_chan(c as int),
{
    let cl: i64 = if c > 65470 {
        65470
    } else {
        c
    };
    proof {
        assert((cl as int) * (SCALE as int) < 65520 * 65520) by (nonlinear_arith)
            requires 0 <= cl as int <= 65470;
    }
    let g = isqrt_u128((cl as u128) * 65536);
    proof {
        lemma_isqrt_lt((cl as int) * (SCALE as int), 65520);
        lemma_tdiv_bounds((g as int) * 256, SCALE as int);
        vstd::arithmetic::div_mod::lemma_div_is_ordered(
            (g as int) * 256,
            65519int * 256,
            SCALE as int,
        );
        assert((65519int * 256) / 65536 == 255int);
        assert((g as int) * 256 <= 65519 * 256) by (nonlinear_arith)
            requires g as int <= 65519;
    }
    let byte = (g * 256) / 65536;
    byte as u8
}

/// Clamp, gamma-correct and quantize a color to an 8-bit pixel.
pub fn tone_map(c: Vec3) -> (p: Rgb)
    requires
        color_ok(c),
    ensures
        p.r as int == tone_chan(c.x as int),
        p.g as int == tone_chan(c.y as int),
        p.b as int == tone_chan(c.z as int),
{
    Rgb { r: tone_chan_exec(c.x), g: tone_chan_exec(c.y), b: tone_chan_exec(c.z) }
}

/// The average of `samples` traced paths through one pixel, each with a
/// uniform jitter inside the pixel footprint, tone-mapped to 8 bits:
/// always the tone map of some average color; exactly black with no path
/// budget or in a scene every ray hits.
pub fn render_pixel(
    world: &Shape,
    camera: &ThinLens,
    i: usize,
    j: usize,
    width: usize,
    height: usize,
    samples: u32,
    depth: u32,
) -> (p: Rgb)
    requires
        shape_wf(*world),
        camera.wf(),
        i < width,
        j < height,
        width <= 65536,
        height <= 65536,
        1 <= samples <= 65536,
    ensures
        depth == 0 ==> p == (Rgb { r: 0, g: 0, b: 0 }),
        world_closed(*world) ==> p == (Rgb { r: 0, g: 0, b: 0 }),
        exists|a: Vec3| {
            &&& color_ok(a)
            &&& p.r as int == tone_chan(a.x as int)
            &&& p.g as int == tone_chan(a.y as int)
            &&& p.b as int == tone_chan(a.z as int)
        },
{
    let mut sx: i64 = 0;
    let mut sy: i64 = 0;
    let mut sz: i64 = 0;
    let mut k: u32 = 0;
    while k < samples
        invariant
            shape_wf(*world),
            camera.wf(),
            i < width,
            j < height,
            width <= 65536,
            height <= 65536,
            1 <= samples <= 65536,
            k <= samples,
            0 <= sx <= (k as int) * (SCALE as int),
            0 <= sy <= (k as int) * (SCALE as int),
            0 <= sz <= (k as int) * (SCALE as int),
            depth == 0 || world_closed(*world) ==> sx == 0 && sy == 0 && sz == 0,
        decreases samples - k,
    {
        let ju = rand_range(0, SCALE);
        let jv = rand_range(0, SCALE);
        let u = pixel_coord(i, ju, width);
        let v = pixel_coord(j, jv, height);
        let ray = camera.get_ray(u, v);
        let c = trace(world, &ray, depth);
        proof {
            assert((k as int + 1) * (SCALE as int) == (k as int) * (SCALE as int) + (
            SCALE as int)) by (nonlinear_arith);
        }
        sx = sx + c.x;
        sy = sy + c.y;
        sz = sz + c.z;
        k = k + 1;
    }
    proof {
        assert((samples as int) * (SCALE as int) <= 65536 * 65536) by (nonlinear_arith)
            requires samples as int <= 65536;
        lemma_avg_in_range(sx as int, samples as int);
        lemma_avg_in_range(sy as int, samples as int);
        lemma_avg_in_range(sz as int, samples as int);
    }
    let avg = Vec3 {
        x: div_trunc(sx as i128, samples as i128) as i64,
        y: div_trunc(sy as i128, samples as i128) as i64,
        z: div_trunc(sz as i128, samples as i128) as i64,
    };
    proof {
        if depth == 0 || world_closed(*world) {
            assert(tdiv(0, samples as int) == 0);
            assert(avg == black());
        }
        assert(isqrt(0) == 0);
        assert(tone_chan(0) == 0) by {
            assert(tdiv(0int * 256, SCALE as int) == 0);
        }
    }
    let p = tone_map(avg);
    proof {
        assert(color_ok(avg) && p.r as int == tone_chan(avg.x as int) && p.g as int == tone_chan(
            avg.y as int,
        ) && p.b as int == tone_chan(avg.z as int));
    }
    p
}

/// The normalized image coordinate of a pixel index with jitter.
fn pixel_coord(i: usize, jitter: i64, extent: usize) -> (u: i64)
    requires
        i < extent,
        extent <= 65536,
        0 <= jitter < SCALE,
    ensures
        0 <= u <= SCALE,
        u as int == tdiv((i as int) * (SCALE as int) + jitter, extent as int),
{
    proof {
        assert((i as int) * (SCALE as int) + jitter < (extent as int) * (SCALE as int))
            by (nonlinear_arith)
            requires i < extent, 0 <= jitter as int, (jitter as int) < SCALE as int;
        assert((i as int) * (SCALE as int) >= 0) by (nonlinear_arith)
            requires i >= 0;
        lemma_div_below((i as int) * (SCALE as int) + (jitter as int), extent as int, SCALE as int);
        lemma_tdiv_bounds((i as int) * (SCALE as int) + (jitter as int), extent as int);
    }
    div_trunc((i as i128) * 65536 + (jitter as i128), extent as i128) as i64
}

/// A non-negative sum of at most `n * SCALE` divided by `n` stays in
/// `[0, SCALE]`.
proof fn lemma_avg_in_range(s: int, n: int)
    requires
        n > 0,
        0 <= s <= n * (SCALE as int),
    ensures
        0 <= tdiv(s, n) <= SCALE as int,
{
    lemma_tdiv_bounds(s, n);
    lemma_div_below_eq(s, n, SCALE as int);
}

/// If `s < n * b` then `s / n < b` (for non-negative `s`).
proof fn lemma_div_below(s: int, n: int, b: int)
    requires
        n > 0,
        0 <= s,
        s < n * b,
    ensures
        s / n < b,
{
    vstd::arithmetic::div_mod::lemma_fundamental_div_mod(s, n);
    if s / n >= b {
        assert(n * (s / n) >= n * b) by (nonlinear_arith)
            requires n > 0, s / n >= b;
    }
}

/// If `s <= n * b` then `s / n <= b` (for non-negative `s`).
proof fn lemma_div_below_eq(s: int, n: int, b: int)
    requires
        n > 0,
        0 <= s,
        s <= n * b,
    ensures
        s / n <= b,
{
    vstd::arithmetic::div_mod::lemma_fundamental_div_mod(s, n);
    if s / n > b {
        assert(n * (s / n) >= n * (b + 1)) by (nonlinear_arith)
            requires n > 0, s / n >= b + 1;
        assert(n * (b + 1) == n * b + n) by (nonlinear_arith);
    }
}

/// One scanline of the image, left to right: one pixel per column, each
/// black with no path budget or in a scene every ray hits.
pub fn render_scanline(
    world: &Shape,
    camera: &ThinLens,
    j: usize,
    width: usize,
    height: usize,
    samples: u32,
    depth: u32,
) -> (row: Vec<Rgb>)
    requires
        shape_wf(*world),
        camera.wf(),
        j < height,
        width <= 65536,
        height <= 65536,
        1 <= samples <= 65536,
    ensures
        row@.len() == width,
        depth == 0 || world_closed(*world) ==> forall|i: int|
            0 <= i < row@.len() ==> row@[i] == (Rgb { r: 0, g: 0, b: 0 }),
{
    let mut row: Vec<Rgb> = Vec::new();
    let mut i: usize = 0;
    while i < width
        invariant
            shape_wf(*world),
            camera.wf(),
            j < height,
            width <= 65536,
            height <= 65536,
            1 <= samples <= 65536,
            i <= width,
            row@.len() == i,
            depth == 0 || world_closed(*world) ==> forall|k: int|
                0 <= k < row@.len() ==> row@[k] == (Rgb { r: 0, g: 0, b: 0 }),
        decreases width - i,
    {
        let p = render_pixel(world, camera, i, j, width, height, samples, depth);
        row.push(p);
        i = i + 1;
    }
    row
}

/// The whole image: `height` rows of `width` pixels, row `k` holding the
/// scanline `height - 1 - k` (top first), each pixel black with no path
/// budget or in a scene every ray hits.
pub fn render_image(
    world: &Shape,
    camera: &ThinLens,
    width: usize,
    height: usize,
    samples: u32,
    depth: u32,
) -> (img: Vec<Vec<Rgb>>)
    requires
        shape_wf(*world),
        camera.wf(),
        0 < width <= 65536,
        0 < height <= 65536,
        1 <= samples <= 65536,
    ensures
        img@.len() == height,
        forall|j: int| 0 <= j < img@.len() ==> (#[trigger] img@[j])@.len() == width,
        depth == 0 || world_closed(*world) ==> forall|j: int, i: int|
            0 <= j < img@.len() && 0 <= i < (img@[j])@.len() ==> #[trigger] ((img@[j])@[i]) == (Rgb {
                r: 0,
                g: 0,
                b: 0,
            }),
{
    let mut img: Vec<Vec<Rgb>> = Vec::new();
    let mut row_index: usize = 0;
    while row_index < height
        invariant
            shape_wf(*world),
            camera.wf(),
            0 < width <= 65536,
            0 < height <= 65536,
            1 <= samples <= 65536,
            row_index <= height,
            img@.len() == row_index,
            forall|j: int| 0 <= j < img@.len() ==> (#[trigger] img@[j])@.len() == width,
            depth == 0 || world_closed(*world) ==> forall|j: int, i: int|
                0 <= j < img@.len() && 0 <= i < (img@[j])@.len() ==> #[trigger] ((img@[j])@[i])
                    == (Rgb { r: 0, g: 0, b: 0 }),
        decreases height - row_index,
    {
        let j = height - 1 - row_index;
        let row = render_scanline(world, camera, j, width, height, samples, depth);
        img.push(row);
        row_index = row_index + 1;
    }
    img
}

} // verus!
