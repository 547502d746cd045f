//! Surface materials: diffuse, metallic and refractive.

use vstd::prelude::*;
use crate::fixed::{
    absi, fmul, fxdiv, isqrt, lemma_isqrt_bounds, lemma_isqrt_lt, lemma_fmul_le_left,
    lemma_mag_div_le, lemma_tdiv_bounds, tdiv, fx_div, fx_mul, isqrt_u128, SCALE,
};
use crate::ray::Ray;
use crate::rng::rand_range;
use crate::shape::HitRecord;
use crate::vec3::{dot_raw, dot_raw_exec, Vec3, DIR_MAX};
use vstd::arithmetic::div_mod::{lemma_div_is_ordered, lemma_div_pos_is_pos};

verus! {

/// A color whose channels all lie in `[0, 1]` (scaled).
pub open spec fn color_ok(v: Vec3) -> bool {
    &&& 0 <= v.x <= SCALE
    &&& 0 <= v.y <= SCALE
    &&& 0 <= v.z <= SCALE
}

/// A diffuse surface that always scatters and attenuates by its albedo.
#[derive(Clone, Copy, PartialEq, Eq, Structural, Debug)]
pub struct Lambertian {
    pub albedo: Vec3,
}

/// A reflective surface with a fuzz radius in `[0, 1]` (scaled).
#[derive(Clone, Copy, PartialEq, Eq, Structural, Debug)]
pub struct Metal {
    pub albedo: Vec3,
    pub fuzz: i64,
}

/// A transparent surface with a scaled refractive index.
#[derive(Clone, Copy, PartialEq, Eq, Structural, Debug)]
pub struct Dielectric {
    pub refractive_index: i64,
}

/// The closed set of surface materials.
#[derive(Clone, Copy, PartialEq, Eq, Structural, Debug)]
pub enum Material {
    Lambertian(Lambertian),
    Metal(Metal),
    Dielectric(Dielectric),
}

impl Material {
    /// A well-formed material: albedo channels in `[0, 1]`, fuzz in
    /// `[0, 1]`, refractive index in `[1/16, 16]` (all scaled). The cap on
    /// the index exists so the fixed-point ratio of indices and its
    /// reciprocal cannot overflow; real media lie far inside it.
    pub open spec fn wf(self) -> bool {
        match self {
            Material::Lambertian(m) => color_ok(m.albedo),
            Material::Metal(m) => color_ok(m.albedo) && 0 <= m.fuzz <= SCALE,
            Material::Dielectric(m) => (SCALE as int) / 16 <= m.refractive_index <= 16 * (SCALE as int),
        }
    }
}

} // verus!

verus! {

/// A usable scattering normal: components at most 2 and squared length
/// within a factor of two of 1 (all scaled).
pub open spec fn normal_wf(n: Vec3) -> bool {
    &&& n.bounded(0x2_0000)
    &&& 0x8000_0000 <= dot_raw(n, n) <= 0x2_0000_0000
}

/// A usable scattered direction: bounded and long enough to normalize.
pub open spec fn dir_wf(v: Vec3) -> bool {
    &&& v.bounded(DIR_MAX as int)
    &&& dot_raw(v, v) >= 0x4000_0000
}

/// Pure white: the attenuation of a dielectric.
pub open spec fn white() -> Vec3 {
    Vec3 { x: SCALE, y: SCALE, z: SCALE }
}

/// The largest attenuation a material can apply: its albedo for a diffuse
/// or metallic surface, pure white for a dielectric.
pub open spec fn attenuation_bound(m: Material) -> Vec3 {
    match m {
        Material::Lambertian(l) => l.albedo,
        Material::Metal(mm) => mm.albedo,
        Material::Dielectric(_) => white(),
    }
}

/// The mirror reflection as a vector (components assumed in range).
pub open spec fn reflect_vec(v: Vec3, n: Vec3) -> Vec3 {
    Vec3 { x: reflect_x(v, n) as i64, y: reflect_y(v, n) as i64, z: reflect_z(v, n) as i64 }
}

/// The Snell refraction as a vector (components assumed in range).
pub open spec fn refract_vec(uv: Vec3, n: Vec3, ratio: int) -> Vec3 {
    Vec3 {
        x: refract_x(uv, n, ratio) as i64,
        y: refract_y(uv, n, ratio) as i64,
        z: refract_z(uv, n, ratio) as i64,
    }
}

/// A rejection-sampled point in the unit ball; after a bounded number of
/// draws the center is returned.
pub fn random_in_unit_sphere() -> (p: Vec3)
    ensures
        p.bounded(SCALE as int),
        dot_raw(p, p) < 0x1_0000_0000,
{
    let mut tries: u32 = 0;
    while tries < 64
        invariant
            true,
        decreases 64 - tries,
    {
        let p = Vec3 {
            x: rand_range(-SCALE, SCALE + 1),
            y: rand_range(-SCALE, SCALE + 1),
            z: rand_range(-SCALE, SCALE + 1),
        };
        let d = dot_raw_exec(p, p);
        if d < 0x1_0000_0000 {
            return p;
        }
        tries = tries + 1;
    }
    Vec3 { x: 0, y: 0, z: 0 }
}

/// A random near-unit direction: a rejection-sampled point of the unit
/// ball, kept away from the center so it can be normalized (a fixed-point
/// necessity), then normalized. The result is the unit vector of some
/// such sample.
pub fn random_unit_vector() -> (r: Vec3)
    ensures
        r.bounded(SCALE as int),
        exists|p: Vec3| {
            &&& p.bounded(SCALE as int)
            &&& 0x4000_0000 <= dot_raw(p, p) < 0x1_0000_0000
            &&& r == crate::vec3::unit_vec(p)
        },
{
    let mut tries: u32 = 0;
    let mut p = Vec3 { x: 32768, y: 0, z: 0 };
    proof {
        assert(dot_raw(p, p) == 0x4000_0000);
    }
    while tries < 64
        invariant
            p.bounded(SCALE as int),
            0x4000_0000 <= dot_raw(p, p) < 0x1_0000_0000,
        decreases 64 - tries,
    {
        let q = Vec3 {
            x: rand_range(-SCALE, SCALE + 1),
            y: rand_range(-SCALE, SCALE + 1),
            z: rand_range(-SCALE, SCALE + 1),
        };
        let d = dot_raw_exec(q, q);
        if 0x4000_0000 <= d && d < 0x1_0000_0000 {
            p = q;
            break;
        }
        tries = tries + 1;
    }
    let u = p.normalize();
    proof {
        assert(u == crate::vec3::unit_vec(p));
    }
    u
}

/// A rejection-sampled point in the unit disk (`z = 0`); after a bounded
/// number of draws the center is returned.
pub fn random_in_unit_disk() -> (p: Vec3)
    ensures
        p.bounded(SCALE as int),
        dot_raw(p, p) < 0x1_0000_0000,
        p.z == 0,
{
    let mut tries: u32 = 0;
    while tries < 64
        invariant
            true,
        decreases 64 - tries,
    {
        let p = Vec3 {
            x: rand_range(-SCALE, SCALE + 1),
            y: rand_range(-SCALE, SCALE + 1),
            z: 0,
        };
        let d = dot_raw_exec(p, p);
        if d < 0x1_0000_0000 {
            return p;
        }
        tries = tries + 1;
    }
    Vec3 { x: 0, y: 0, z: 0 }
}

/// The mirror reflection of `v` about `n`: `v - 2 (v . n) n`, `x` component.
pub open spec fn reflect_x(v: Vec3, n: Vec3) -> int {
    v.x - fmul(n.x as int, 2 * crate::vec3::dot_fx(v, n))
}

/// The mirror reflection, `y` component.
pub open spec fn reflect_y(v: Vec3, n: Vec3) -> int {
    v.y - fmul(n.y as int, 2 * crate::vec3::dot_fx(v, n))
}

/// The mirror reflection, `z` component.
pub open spec fn reflect_z(v: Vec3, n: Vec3) -> int {
    v.z - fmul(n.z as int, 2 * crate::vec3::dot_fx(v, n))
}

/// The mirror reflection of `v` about the normal `n`.
pub fn reflect(v: Vec3, n: Vec3) -> (r: Vec3)
    requires
        v.bounded(2 * (SCALE as int)),
        n.bounded(2 * (SCALE as int)),
    ensures
        r.x as int == reflect_x(v, n),
        r.y as int == reflect_y(v, n),
        r.z as int == reflect_z(v, n),
        r.bounded(0x40_0000),
{
    let d = v.dot(n);
    proof {
        crate::vec3::lemma_dot_raw_mag(v, n, 2 * (SCALE as int), 2 * (SCALE as int));
        lemma_mag_div_le(dot_raw(v, n), 12 * (SCALE as int) * (SCALE as int), SCALE as int);
        assert((12 * (SCALE as int) * (SCALE as int)) / (SCALE as int) <= 0xc_0000)
            by (nonlinear_arith);
        crate::fixed::lemma_fmul_bound(n.x as int, 2 * crate::vec3::dot_fx(v, n), 0x2_0000, 0x18_0000);
        crate::fixed::lemma_fmul_bound(n.y as int, 2 * crate::vec3::dot_fx(v, n), 0x2_0000, 0x18_0000);
        crate::fixed::lemma_fmul_bound(n.z as int, 2 * crate::vec3::dot_fx(v, n), 0x2_0000, 0x18_0000);
        assert((0x2_0000int * 0x18_0000) / 0x10000 == 0x30_0000int);
    }
    v.sub(n.scale(2 * d))
}

/// Snell refraction of the unit direction `uv` at the normal `n` with the
/// given ratio of refractive indices: the perpendicular part
/// `ratio (uv + cos n)` plus the parallel part `-sqrt(|1 - |perp|^2|) n`,
/// `x` component.
pub open spec fn refract_x(uv: Vec3, n: Vec3, ratio: int) -> int {
    refract_perp_x(uv, n, ratio) - fmul(refract_par_len(uv, n, ratio), n.x as int)
}

/// Snell refraction, `y` component.
pub open spec fn refract_y(uv: Vec3, n: Vec3, ratio: int) -> int {
    refract_perp_y(uv, n, ratio) - fmul(refract_par_len(uv, n, ratio), n.y as int)
}

/// Snell refraction, `z` component.
pub open spec fn refract_z(uv: Vec3, n: Vec3, ratio: int) -> int {
    refract_perp_z(uv, n, ratio) - fmul(refract_par_len(uv, n, ratio), n.z as int)
}

/// The perpendicular part of the refracted direction, `x` component.
pub open spec fn refract_perp_x(uv: Vec3, n: Vec3, ratio: int) -> int {
    fmul(uv.x + fmul(n.x as int, -crate::vec3::dot_fx(uv, n)), ratio)
}

/// The perpendicular part, `y` component.
pub open spec fn refract_perp_y(uv: Vec3, n: Vec3, ratio: int) -> int {
    fmul(uv.y + fmul(n.y as int, -crate::vec3::dot_fx(uv, n)), ratio)
}

/// The perpendicular part, `z` component.
pub open spec fn refract_perp_z(uv: Vec3, n: Vec3, ratio: int) -> int {
    fmul(uv.z + fmul(n.z as int, -crate::vec3::dot_fx(uv, n)), ratio)
}

/// The length of the parallel part: `sqrt(|1 - |perp|^2|)`, scaled.
pub open spec fn refract_par_len(uv: Vec3, n: Vec3, ratio: int) -> int {
    let px = refract_perp_x(uv, n, ratio);
    let py = refract_perp_y(uv, n, ratio);
    let pz = refract_perp_z(uv, n, ratio);
    let len2 = tdiv(px * px + py * py + pz * pz, SCALE as int);
    isqrt(absi((SCALE as int) - len2) * (SCALE as int))
}

/// Snell refraction of the unit direction `uv` at the normal `n`.
pub fn refract(uv: Vec3, n: Vec3, ratio: i64) -> (r: Vec3)
    requires
        uv.bounded(2 * (SCALE as int)),
        n.bounded(2 * (SCALE as int)),
        0 <= ratio <= 16 * (SCALE as int),
    ensures
        r.x as int == refract_x(uv, n, ratio as int),
        r.y as int == refract_y(uv, n, ratio as int),
        r.z as int == refract_z(uv, n, ratio as int),
        r.bounded(0x2000_0000),
{
    let d = uv.dot(n);
    proof {
        crate::vec3::lemma_dot_raw_mag(uv, n, 2 * (SCALE as int), 2 * (SCALE as int));
        lemma_mag_div_le(dot_raw(uv, n), 12 * (SCALE as int) * (SCALE as int), SCALE as int);
        assert((12 * (SCALE as int) * (SCALE as int)) / (SCALE as int) <= 0xc_0000)
            by (nonlinear_arith);
        crate::fixed::lemma_fmul_bound(n.x as int, -crate::vec3::dot_fx(uv, n), 0x2_0000, 0xc_0000);
        crate::fixed::lemma_fmul_bound(n.y as int, -crate::vec3::dot_fx(uv, n), 0x2_0000, 0xc_0000);
        crate::fixed::lemma_fmul_bound(n.z as int, -crate::vec3::dot_fx(uv, n), 0x2_0000, 0xc_0000);
        assert((0x2_0000int * 0xc_0000) / 0x10000 == 0x18_0000int);
    }
    let inner = uv.add(n.scale(-d));
    let perp = inner.scale(ratio);
    proof {
        crate::fixed::lemma_fmul_bound(inner.x as int, ratio as int, 0x1a_0000, 0x10_0000);
        crate::fixed::lemma_fmul_bound(inner.y as int, ratio as int, 0x1a_0000, 0x10_0000);
        crate::fixed::lemma_fmul_bound(inner.z as int, ratio as int, 0x1a_0000, 0x10_0000);
        assert((0x1a_0000int * 0x10_0000) / 0x10000 == 0x1a0_0000int);
    }
    let len2 = perp.dot(perp);
    proof {
        crate::vec3::lemma_dot_raw_mag(perp, perp, 0x1a0_0000, 0x1a0_0000);
        lemma_mag_div_le(dot_raw(perp, perp), 3 * (0x1a0_0000int * 0x1a0_0000), SCALE as int);
        crate::vec3::lemma_dot_raw_self_nonneg(perp);
        lemma_tdiv_bounds(dot_raw(perp, perp), SCALE as int);
    }
    let diff: i64 = SCALE - len2;
    let mag: i64 = if diff >= 0 { diff } else { -diff };
    proof {
        assert(mag <= 0x10_0001_0000);
        assert((mag as int) * (SCALE as int) < 0x800_0000int * 0x800_0000) by (nonlinear_arith)
            requires 0 <= mag as int <= 0x10_0001_0000;
    }
    let coef128 = isqrt_u128((mag as u128) * (SCALE as u128));
    proof {
        lemma_isqrt_lt(mag as int * (SCALE as int), 0x800_0000);
    }
    let coef = coef128 as i64;
    proof {
        crate::fixed::lemma_fmul_bound(n.x as int, coef as int, 0x2_0000, 0x800_0000);
        crate::fixed::lemma_fmul_bound(n.y as int, coef as int, 0x2_0000, 0x800_0000);
        crate::fixed::lemma_fmul_bound(n.z as int, coef as int, 0x2_0000, 0x800_0000);
        assert((0x2_0000int * 0x800_0000) / 0x10000 == 0x1000_0000int);
        assert((n.x as int) * (coef as int) == (coef as int) * (n.x as int))
            by (nonlinear_arith);
        assert((n.y as int) * (coef as int) == (coef as int) * (n.y as int))
            by (nonlinear_arith);
        assert((n.z as int) * (coef as int) == (coef as int) * (n.z as int))
            by (nonlinear_arith);
    }
    let par = n.scale(coef);
    perp.sub(par)
}

/// The Schlick reflectance approximation:
/// `r0 + (1 - r0)(1 - cos)^5` with `r0 = ((1 - ratio)/(1 + ratio))^2`.
pub open spec fn reflectance_spec(cos: int, ratio: int) -> int {
    let q = fxdiv((SCALE as int) - ratio, (SCALE as int) + ratio);
    let r0 = fmul(q, q);
    let p1 = (SCALE as int) - cos;
    let p5 = fmul(fmul(fmul(p1, p1), fmul(p1, p1)), p1);
    r0 + fmul((SCALE as int) - r0, p5)
}

/// The Schlick reflectance approximation, exactly.
pub fn reflectance(cos: i64, ratio: i64) -> (r: i64)
    requires
        0 <= cos <= SCALE,
        0 < ratio <= 16 * (SCALE as int),
    ensures
        r as int == reflectance_spec(cos as int, ratio as int),
        0 <= r <= SCALE,
{
    let q = fx_div(SCALE - ratio, SCALE + ratio);
    proof {
        lemma_unit_fraction(SCALE as int - ratio, SCALE as int + ratio);
        lemma_fmul_sq_unit(q as int);
    }
    let r0 = fx_mul(q, q);
    let p1 = SCALE - cos;
    proof {
        lemma_fmul_unit_range(p1 as int, p1 as int);
    }
    let p2 = fx_mul(p1, p1);
    proof {
        lemma_fmul_unit_range(p2 as int, p2 as int);
    }
    let p4 = fx_mul(p2, p2);
    proof {
        lemma_fmul_unit_range(p4 as int, p1 as int);
    }
    let p5 = fx_mul(p4, p1);
    proof {
        lemma_fmul_unit_range((SCALE - r0) as int, p5 as int);
        crate::fixed::lemma_fmul_le_left((SCALE - r0) as int, p5 as int);
    }
    r0 + fx_mul(SCALE - r0, p5)
}

/// The magnitude of `a SCALE / b` is at most `SCALE` when `|a| <= b`.
proof fn lemma_unit_fraction(a: int, b: int)
    requires
        b > 0,
        absi(a) <= b,
    ensures
        absi(fxdiv(a, b)) <= SCALE as int,
{
    assert(absi(a * (SCALE as int)) <= b * (SCALE as int)) by (nonlinear_arith)
        requires absi(a) <= b;
    lemma_mag_div_le(a * (SCALE as int), b * (SCALE as int), b);
    assert((b * (SCALE as int)) / b == SCALE as int) by (nonlinear_arith)
        requires b > 0;
}

/// The fixed-point square of a value of magnitude at most `SCALE` lies in
/// `[0, SCALE]`.
proof fn lemma_fmul_sq_unit(a: int)
    requires
        absi(a) <= SCALE as int,
    ensures
        0 <= fmul(a, a) <= SCALE as int,
{
    assert(0 <= a * a <= (SCALE as int) * (SCALE as int)) by (nonlinear_arith)
        requires absi(a) <= SCALE as int;
    lemma_tdiv_bounds(a * a, SCALE as int);
    lemma_div_is_ordered(a * a, (SCALE as int) * (SCALE as int), SCALE as int);
    assert(((SCALE as int) * (SCALE as int)) / (SCALE as int) == SCALE as int)
        by (nonlinear_arith);
}

/// The fixed-point product of values in `[0, SCALE]` stays in `[0, SCALE]`.
pub proof fn lemma_fmul_unit_range(a: int, b: int)
    requires
        0 <= a <= SCALE as int,
        0 <= b <= SCALE as int,
    ensures
        0 <= fmul(a, b) <= SCALE as int,
{
    assert(0 <= a * b <= (SCALE as int) * (SCALE as int)) by (nonlinear_arith)
        requires 0 <= a <= SCALE as int, 0 <= b <= SCALE as int;
    lemma_tdiv_bounds(a * b, SCALE as int);
    lemma_div_is_ordered(a * b, (SCALE as int) * (SCALE as int), SCALE as int);
    assert(((SCALE as int) * (SCALE as int)) / (SCALE as int) == SCALE as int)
        by (nonlinear_arith);
}

} // verus!

verus! {

/// Whether a vector is usable as a scattered ray direction.
pub fn dir_ok_exec(v: &Vec3) -> (r: bool)
    ensures
        r == dir_wf(*v),
{
    if v.x > DIR_MAX || v.x < -DIR_MAX || v.y > DIR_MAX || v.y < -DIR_MAX || v.z > DIR_MAX
        || v.z < -DIR_MAX {
        return false;
    }
    let d = dot_raw_exec(*v, *v);
    d >= 0x4000_0000
}

impl Material {
    /// Scatter an incoming ray at a surface hit. A diffuse or refractive
    /// surface always scatters; a metallic one absorbs rays fuzzed below
    /// the surface. The attenuation is the albedo (pure white for a
    /// dielectric), and the scattered ray starts at the hit point with a
    /// usable direction.
    pub fn scatter(&self, ray_in: &Ray, hit_record: &HitRecord) -> (r: Option<(Vec3, Ray)>)
        requires
            self.wf(),
            ray_in.direction.bounded(DIR_MAX as int),
            dot_raw(ray_in.direction, ray_in.direction) >= 0x4000_0000,
            normal_wf(hit_record.normal),
            dot_raw(ray_in.direction, hit_record.normal) <= 0,
        ensures
            match r {
                Some(pair) => {
                    &&& pair.1.origin == hit_record.point
                    &&& dir_wf(pair.1.direction)
                    &&& color_ok(pair.0)
                    &&& (self matches Material::Lambertian(m) ==> pair.0 == m.albedo
                        && lambertian_dir(hit_record.normal, pair.1.direction))
                    &&& (self matches Material::Metal(m) ==> pair.0 == m.albedo
                        && dot_raw(pair.1.direction, hit_record.normal) > 0
                        && metal_dir(
                            crate::vec3::unit_vec(ray_in.direction),
                            hit_record.normal,
                            m.fuzz,
                            pair.1.direction,
                        ))
                    &&& (self matches Material::Dielectric(m) ==> {
                        let unit_in = crate::vec3::unit_vec(ray_in.direction);
                        let ratio = dielectric_ratio(m.refractive_index, hit_record.front_face);
                        &&& pair.0 == white()
                        &&& dielectric_dir(unit_in, hit_record.normal, ratio, pair.1.direction)
                        &&& fmul(ratio, dielectric_sin(unit_in, hit_record.normal)) > SCALE
                            ==> pair.1.direction == reflect_vec(unit_in, hit_record.normal)
                                || pair.1.direction == hit_record.normal
                    })
                },
                None => self is Metal,
            },
            self is Lambertian || self is Dielectric ==> r is Some,
            (self matches Material::Metal(m) && m.fuzz == 0) ==> {
                let rd = reflect_vec(crate::vec3::unit_vec(ray_in.direction), hit_record.normal);
                &&& (r is Some <==> dir_wf(rd) && dot_raw(rd, hit_record.normal) > 0)
                &&& (r matches Some(pair) ==> pair.1.direction == rd)
            },
    {
        match self {
            Material::Lambertian(material) => material.scatter(ray_in, hit_record),
            Material::Metal(material) => material.scatter(ray_in, hit_record),
            Material::Dielectric(material) => material.scatter(ray_in, hit_record),
        }
    }
}

impl Lambertian {
    /// Scatter toward the normal perturbed by a random unit vector,
    /// falling back to the bare normal when the sum degenerates.
    fn scatter(&self, _ray_in: &Ray, hit_record: &HitRecord) -> (r: Option<(Vec3, Ray)>)
        requires
            color_ok(self.albedo),
            normal_wf(hit_record.normal),
        ensures
            r matches Some(pair) && pair.0 == self.albedo && pair.1.origin == hit_record.point
                && dir_wf(pair.1.direction),
            r matches Some(pair) ==> lambertian_dir(hit_record.normal, pair.1.direction),
    {
        let u = random_unit_vector();
        let mut direction = hit_record.normal.add(u);
        if !dir_ok_exec(&direction) {
            direction = hit_record.normal;
        }
        proof {
            let p = choose|p: Vec3| {
                &&& p.bounded(SCALE as int)
                &&& 0x4000_0000 <= dot_raw(p, p) < 0x1_0000_0000
                &&& u == crate::vec3::unit_vec(p)
            };
            assert(direction == hit_record.normal ==> lambertian_dir(hit_record.normal, direction));
        }
        Some((self.albedo, Ray { origin: hit_record.point, direction }))
    }
}

/// The direction a diffuse surface scatters into: the surface normal plus
/// the unit vector of some near-unit sample of the unit ball, or the bare
/// normal when that sum degenerates.
pub open spec fn lambertian_dir(normal: Vec3, dir: Vec3) -> bool {
    ||| exists|p: Vec3| {
        &&& p.bounded(SCALE as int)
        &&& 0x4000_0000 <= dot_raw(p, p) < 0x1_0000_0000
        &&& dir.x as int == normal.x + crate::vec3::unit_vec(p).x
        &&& dir.y as int == normal.y + crate::vec3::unit_vec(p).y
        &&& dir.z as int == normal.z + crate::vec3::unit_vec(p).z
    }
    ||| dir == normal
}

impl Metal {
    /// Reflect the incoming direction, perturbed by the fuzz radius;
    /// absorb the ray when the perturbed reflection does not leave the
    /// surface. With no fuzz the outcome is a deterministic perfect
    /// mirror: it scatters exactly when the reflected direction is usable
    /// and leaves the surface.
    fn scatter(&self, ray_in: &Ray, hit_record: &HitRecord) -> (r: Option<(Vec3, Ray)>)
        requires
            color_ok(self.albedo),
            0 <= self.fuzz <= SCALE,
            ray_in.direction.bounded(DIR_MAX as int),
            dot_raw(ray_in.direction, ray_in.direction) >= 0x4000_0000,
            normal_wf(hit_record.normal),
        ensures
            match r {
                Some(pair) => {
                    &&& pair.0 == self.albedo
                    &&& pair.1.origin == hit_record.point
                    &&& dir_wf(pair.1.direction)
                    &&& dot_raw(pair.1.direction, hit_record.normal) > 0
                    &&& metal_dir(
                        crate::vec3::unit_vec(ray_in.direction),
                        hit_record.normal,
                        self.fuzz,
                        pair.1.direction,
                    )
                },
                None => true,
            },
            self.fuzz == 0 ==> {
                let rd = reflect_vec(crate::vec3::unit_vec(ray_in.direction), hit_record.normal);
                &&& (r is Some <==> dir_wf(rd) && dot_raw(rd, hit_record.normal) > 0)
                &&& (r matches Some(pair) ==> pair.1.direction == rd)
            },
    {
        let unit_in = ray_in.direction.normalize();
        proof {
            assert(unit_in == crate::vec3::unit_vec(ray_in.direction));
        }
        let reflected = reflect(unit_in, hit_record.normal);
        let p = random_in_unit_sphere();
        proof {
            crate::fixed::lemma_fmul_bound(p.x as int, self.fuzz as int, SCALE as int, SCALE as int);
            crate::fixed::lemma_fmul_bound(p.y as int, self.fuzz as int, SCALE as int, SCALE as int);
            crate::fixed::lemma_fmul_bound(p.z as int, self.fuzz as int, SCALE as int, SCALE as int);
            assert(((SCALE as int) * (SCALE as int)) / (SCALE as int) == SCALE as int)
                by (nonlinear_arith);
        }
        let direction = reflected.add(p.scale(self.fuzz));
        proof {
            if self.fuzz == 0 {
                assert((p.x as int) * 0 == 0);
                assert((p.y as int) * 0 == 0);
                assert((p.z as int) * 0 == 0);
                assert(tdiv(0, SCALE as int) == 0);
                assert(direction == reflect_vec(
                    crate::vec3::unit_vec(ray_in.direction),
                    hit_record.normal,
                ));
            }
        }
        if !dir_ok_exec(&direction) {
            return None;
        }
        let toward = dot_raw_exec(direction, hit_record.normal);
        if toward > 0 {
            Some((self.albedo, Ray { origin: hit_record.point, direction }))
        } else {
            None
        }
    }
}

/// The direction a metallic surface scatters into: the mirror reflection
/// of the unit incoming direction, displaced by the fuzz radius times some
/// sample of the unit ball.
pub open spec fn metal_dir(unit_in: Vec3, normal: Vec3, fuzz: i64, dir: Vec3) -> bool {
    exists|p: Vec3| {
        &&& p.bounded(SCALE as int)
        &&& dot_raw(p, p) < 0x1_0000_0000
        &&& dir.x as int == reflect_x(unit_in, normal) + fmul(p.x as int, fuzz as int)
        &&& dir.y as int == reflect_y(unit_in, normal) + fmul(p.y as int, fuzz as int)
        &&& dir.z as int == reflect_z(unit_in, normal) + fmul(p.z as int, fuzz as int)
    }
}

/// The ratio of refractive indices at a surface crossing: the reciprocal
/// of the index when entering from outside, the index itself when leaving
/// (the adjacent medium is always taken as vacuum).
pub open spec fn dielectric_ratio(refractive_index: i64, front_face: bool) -> int {
    if front_face {
        fxdiv(SCALE as int, refractive_index as int)
    } else {
        refractive_index as int
    }
}

/// The cosine of the incidence angle: the unit incoming direction against
/// the inward normal, clamped to `[0, 1]` (scaled).
pub open spec fn dielectric_cos(unit_in: Vec3, normal: Vec3) -> int {
    let d = -crate::vec3::dot_fx(unit_in, normal);
    if d > SCALE {
        SCALE as int
    } else if d < 0 {
        0
    } else {
        d
    }
}

/// The sine of the incidence angle, from the cosine (scaled).
pub open spec fn dielectric_sin(unit_in: Vec3, normal: Vec3) -> int {
    let c = dielectric_cos(unit_in, normal);
    isqrt((SCALE as int) * (SCALE as int) - c * c)
}

/// The direction a refractive surface scatters into: the mirror reflection
/// or the Snell refraction of the unit incoming direction, or the bare
/// normal when the computed direction degenerates.
pub open spec fn dielectric_dir(unit_in: Vec3, normal: Vec3, ratio: int, dir: Vec3) -> bool {
    ||| dir == reflect_vec(unit_in, normal)
    ||| dir == refract_vec(unit_in, normal, ratio)
    ||| dir == normal
}

impl Dielectric {
    /// Never absorb: choose between reflection and Snell refraction from
    /// total internal reflection and a Schlick reflectance draw, assuming
    /// vacuum on the outside of every surface. Total internal reflection
    /// forces reflection, whatever the draw.
    fn scatter(&self, ray_in: &Ray, hit_record: &HitRecord) -> (r: Option<(Vec3, Ray)>)
        requires
            (SCALE as int) / 16 <= self.refractive_index <= 16 * (SCALE as int),
            ray_in.direction.bounded(DIR_MAX as int),
            dot_raw(ray_in.direction, ray_in.direction) >= 0x4000_0000,
            normal_wf(hit_record.normal),
            dot_raw(ray_in.direction, hit_record.normal) <= 0,
        ensures
            r matches Some(pair) && pair.0 == white() && pair.1.origin == hit_record.point
                && dir_wf(pair.1.direction),
            r matches Some(pair) ==> {
                let unit_in = crate::vec3::unit_vec(ray_in.direction);
                let ratio = dielectric_ratio(self.refractive_index, hit_record.front_face);
                &&& dielectric_dir(unit_in, hit_record.normal, ratio, pair.1.direction)
                &&& fmul(ratio, dielectric_sin(unit_in, hit_record.normal)) > SCALE
                    ==> pair.1.direction == reflect_vec(unit_in, hit_record.normal)
                        || pair.1.direction == hit_record.normal
            },
    {
        let refraction_ratio: i64 = if hit_record.front_face {
            let q = fx_div(SCALE, self.refractive_index);
            proof {
                lemma_ratio_range(self.refractive_index as int);
            }
            q
        } else {
            self.refractive_index
        };
        let direction_in = ray_in.direction.normalize();
        proof {
            assert(direction_in == crate::vec3::unit_vec(ray_in.direction));
        }
        let d = direction_in.dot(hit_record.normal);
        proof {
            crate::vec3::lemma_dot_raw_mag(direction_in, hit_record.normal, SCALE as int, 0x2_0000);
            lemma_mag_div_le(
                dot_raw(direction_in, hit_record.normal),
                3 * ((SCALE as int) * 0x2_0000),
                SCALE as int,
            );
        }
        let mut cos_theta: i64 = -d;
        if cos_theta > SCALE {
            cos_theta = SCALE;
        }
        if cos_theta < 0 {
            cos_theta = 0;
        }
        proof {
            assert((cos_theta as int) * (cos_theta as int) <= (SCALE as int) * (SCALE as int))
                by (nonlinear_arith)
                requires 0 <= cos_theta as int <= SCALE as int;
            assert((cos_theta as int) * (cos_theta as int) >= 0) by (nonlinear_arith);
        }
        let sin2: i128 = (SCALE as i128) * (SCALE as i128) - (cos_theta as i128) * (cos_theta as i128);
        let sin128 = isqrt_u128(sin2 as u128);
        proof {
            lemma_isqrt_lt(sin2 as int, (SCALE as int) + 1);
        }
        let sin_theta = sin128 as i64;
        proof {
            assert(cos_theta as int == dielectric_cos(direction_in, hit_record.normal));
            assert(sin_theta as int == dielectric_sin(direction_in, hit_record.normal));
            assert(refraction_ratio as int == dielectric_ratio(
                self.refractive_index,
                hit_record.front_face,
            ));
        }
        let cannot_refract = fx_mul(refraction_ratio, sin_theta) > SCALE;
        let draw = rand_range(0, SCALE);
        let use_reflect = cannot_refract || reflectance(cos_theta, refraction_ratio) > draw;
        let mut direction = if use_reflect {
            let rd = reflect(direction_in, hit_record.normal);
            proof {
                assert(rd == reflect_vec(direction_in, hit_record.normal));
            }
            rd
        } else {
            let rd = refract(direction_in, hit_record.normal, refraction_ratio);
            proof {
                assert(rd == refract_vec(direction_in, hit_record.normal, refraction_ratio as int));
            }
            rd
        };
        if !dir_ok_exec(&direction) {
            direction = hit_record.normal;
        }
        Some((Vec3 { x: SCALE, y: SCALE, z: SCALE }, Ray { origin: hit_record.point, direction }))
    }
}

/// The reciprocal of a refractive index in `[1/16, 16]` stays in that range.
proof fn lemma_ratio_range(ir: int)
    requires
        (SCALE as int) / 16 <= ir <= 16 * (SCALE as int),
    ensures
        0 < fxdiv(SCALE as int, ir) <= 16 * (SCALE as int),
{
    lemma_div_pos_is_pos((SCALE as int) * (SCALE as int), ir);
    assert((SCALE as int) * (SCALE as int) <= ir * (16 * (SCALE as int))) by (nonlinear_arith)
        requires ir >= (SCALE as int) / 16, SCALE == 65536i64;
    lemma_mag_div_le((SCALE as int) * (SCALE as int), ir * (16 * (SCALE as int)), ir);
    assert((ir * (16 * (SCALE as int))) / ir == 16 * (SCALE as int)) by (nonlinear_arith)
        requires ir > 0;
    assert(fxdiv(SCALE as int, ir) > 0) by {
        assert((SCALE as int) * (SCALE as int) >= ir) by (nonlinear_arith)
            requires 0 < ir <= 16 * (SCALE as int), SCALE == 65536i64;
        lemma_div_is_ordered(ir, (SCALE as int) * (SCALE as int), ir);
        assert(ir / ir == 1) by (nonlinear_arith)
            requires ir > 0;
    }
}

} // verus!

verus! {

/// With a refraction ratio of one (matched media) a head-on ray refracts
/// into exactly its own direction: the degenerate no-op case of Snell's
/// law, stated for the axis-aligned unit direction.
pub proof fn lemma_unit_ratio_head_on_refraction(uv: Vec3, n: Vec3)
    requires
        uv == (Vec3 { x: 0i64, y: 0i64, z: (-65536) as i64 }),
        n == (Vec3 { x: 0i64, y: 0i64, z: 65536i64 }),
    ensures
        refract_x(uv, n, SCALE as int) == uv.x,
        refract_y(uv, n, SCALE as int) == uv.y,
        refract_z(uv, n, SCALE as int) == uv.z,
{
    assert(dot_raw(uv, n) == -0x1_0000_0000) by (nonlinear_arith)
        requires uv == (Vec3 { x: 0i64, y: 0i64, z: (-65536) as i64 }),
            n == (Vec3 { x: 0i64, y: 0i64, z: 65536i64 });
    assert(crate::vec3::dot_fx(uv, n) == -65536);
    assert(fmul(65536, -crate::vec3::dot_fx(uv, n)) == 65536) by (nonlinear_arith)
        requires crate::vec3::dot_fx(uv, n) == -65536;
    assert(fmul(0, -crate::vec3::dot_fx(uv, n)) == 0);
    assert(refract_perp_x(uv, n, SCALE as int) == 0);
    assert(refract_perp_y(uv, n, SCALE as int) == 0);
    assert(refract_perp_z(uv, n, SCALE as int) == fmul(0, SCALE as int));
    assert(fmul(0, SCALE as int) == 0);
    assert(refract_par_len(uv, n, SCALE as int) == isqrt(0x1_0000_0000)) by {
        assert(tdiv(0, SCALE as int) == 0);
        assert(absi((SCALE as int) - 0) * (SCALE as int) == 0x1_0000_0000) by (nonlinear_arith);
    }
    assert(isqrt(0x1_0000_0000) == 65536) by {
        lemma_isqrt_bounds(0x1_0000_0000);
        crate::fixed::lemma_isqrt_unique(0x1_0000_0000, 65536);
    }
    assert(fmul(65536, 65536int) == 65536) by (nonlinear_arith);
    assert(fmul(65536, 0int) == 0);
}

} // verus!
