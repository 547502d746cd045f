//! Spheres: closed-form ray intersection and bounding box.

use vstd::prelude::*;
use crate::fixed::{
    absi, isqrt, lemma_abs_mul_le, lemma_isqrt_bounds, lemma_tdiv_ordered, tdiv, div_trunc,
    isqrt_u128, SCALE,
};
use crate::material::Material;
use crate::ray::{ray_at_x, ray_at_y, ray_at_z, Ray, T_MAX};
use crate::shape::{lemma_slab_monotone, pad_box, slab_hit, Aabb, HitRecord, BOX_PAD};
use crate::vec3::{dot_raw, Vec3, COORD_MAX, DIR_MAX};

verus! {

/// A sphere with a positive radius and a surface material.
#[derive(Clone, Copy, PartialEq, Eq, Structural, Debug)]
pub struct Sphere {
    pub center: Vec3,
    pub radius: i64,
    pub material: Material,
}

/// The quadratic coefficient `a = d . d` of `|O + tD - C|^2 = r^2`.
pub open spec fn quad_a(s: Sphere, r: Ray) -> int {
    dot_raw(r.direction, r.direction)
}

/// The half coefficient `b = (O - C) . D`.
pub open spec fn quad_b(s: Sphere, r: Ray) -> int {
    (r.origin.x - s.center.x) * (r.direction.x as int)
        + (r.origin.y - s.center.y) * (r.direction.y as int)
        + (r.origin.z - s.center.z) * (r.direction.z as int)
}

/// The constant coefficient `c = (O - C) . (O - C) - r^2`.
pub open spec fn quad_c(s: Sphere, r: Ray) -> int {
    (r.origin.x - s.center.x) * (r.origin.x - s.center.x)
        + (r.origin.y - s.center.y) * (r.origin.y - s.center.y)
        + (r.origin.z - s.center.z) * (r.origin.z - s.center.z)
        - (s.radius as int) * (s.radius as int)
}

/// The discriminant `b^2 - a c`.
pub open spec fn sphere_disc(s: Sphere, r: Ray) -> int {
    quad_b(s, r) * quad_b(s, r) - quad_a(s, r) * quad_c(s, r)
}

/// The near root `(-b - sqrt(disc)) / a`, scaled.
pub open spec fn sphere_root1(s: Sphere, r: Ray) -> int {
    tdiv((-quad_b(s, r) - isqrt(sphere_disc(s, r))) * (SCALE as int), quad_a(s, r))
}

/// The far root `(-b + sqrt(disc)) / a`, scaled.
pub open spec fn sphere_root2(s: Sphere, r: Ray) -> int {
    tdiv((-quad_b(s, r) + isqrt(sphere_disc(s, r))) * (SCALE as int), quad_a(s, r))
}

/// The `x` component of the outward normal `(P(t) - C) / radius` at `t`.
pub open spec fn out_normal_x(s: Sphere, r: Ray, t: int) -> int {
    tdiv((ray_at_x(r, t) - s.center.x) * (SCALE as int), s.radius as int)
}

/// The `y` component of the outward normal at `t`.
pub open spec fn out_normal_y(s: Sphere, r: Ray, t: int) -> int {
    tdiv((ray_at_y(r, t) - s.center.y) * (SCALE as int), s.radius as int)
}

/// The `z` component of the outward normal at `t`.
pub open spec fn out_normal_z(s: Sphere, r: Ray, t: int) -> int {
    tdiv((ray_at_z(r, t) - s.center.z) * (SCALE as int), s.radius as int)
}

/// The raw dot product of the ray direction with the outward normal at `t`.
pub open spec fn dir_dot_normal(s: Sphere, r: Ray, t: int) -> int {
    (r.direction.x as int) * out_normal_x(s, r, t)
        + (r.direction.y as int) * out_normal_y(s, r, t)
        + (r.direction.z as int) * out_normal_z(s, r, t)
}

/// The outward normal at `t` is close to unit length: components at most 2
/// and squared length within a factor of two of 1 (all scaled). A root
/// whose rounded normal degenerates is rejected, keeping every returned
/// record usable by the scattering math.
pub open spec fn normal_ok(s: Sphere, r: Ray, t: int) -> bool {
    let nx = out_normal_x(s, r, t);
    let ny = out_normal_y(s, r, t);
    let nz = out_normal_z(s, r, t);
    &&& absi(nx) <= 0x2_0000
    &&& absi(ny) <= 0x2_0000
    &&& absi(nz) <= 0x2_0000
    &&& 0x8000_0000 <= nx * nx + ny * ny + nz * nz <= 0x2_0000_0000
}

/// A root is accepted when it lies in the queried range, the ray is inside
/// the sphere's padded bounding box at that parameter, and the rounded
/// normal is usable. The two guards depart from a pure in-range policy
/// only when fixed-point rounding degenerates: the box guard rejects a
/// root only when the rounded parameter lands more than the box margin
/// outside the sphere's bounds (it is what makes skipping a subtree whose
/// box the ray misses a theorem), and the normal guard only when the
/// computed root is so far off the surface that the rounded normal's
/// squared length leaves `[1/2, 2]`.
pub open spec fn root_ok(s: Sphere, r: Ray, lo: int, hi: int, t: int) -> bool {
    &&& lo <= t < hi
    &&& slab_hit(pad_box(s.box_spec()), r, t, t + 1)
    &&& normal_ok(s, r, t)
}

/// The parameter returned by a sphere intersection query: the near root if
/// it is accepted, else the far root if it is accepted, else nothing.
pub open spec fn sphere_hit_t(s: Sphere, r: Ray, lo: int, hi: int) -> Option<int> {
    if sphere_disc(s, r) > 0 {
        if root_ok(s, r, lo, hi, sphere_root1(s, r)) {
            Some(sphere_root1(s, r))
        } else if root_ok(s, r, lo, hi, sphere_root2(s, r)) {
            Some(sphere_root2(s, r))
        } else {
            None
        }
    } else {
        None
    }
}

/// What a record returned by a sphere intersection query holds: the
/// accepted root, the point reached, the outward normal flipped to oppose
/// the ray, and the sphere's material.
pub open spec fn is_sphere_hit(s: Sphere, r: Ray, lo: int, hi: int, rec: HitRecord) -> bool {
    &&& sphere_hit_t(s, r, lo, hi) == Some(rec.t as int)
    &&& rec.point.x as int == ray_at_x(r, rec.t as int)
    &&& rec.point.y as int == ray_at_y(r, rec.t as int)
    &&& rec.point.z as int == ray_at_z(r, rec.t as int)
    &&& rec.front_face == (dir_dot_normal(s, r, rec.t as int) < 0)
    &&& (rec.front_face ==> {
        &&& rec.normal.x as int == out_normal_x(s, r, rec.t as int)
        &&& rec.normal.y as int == out_normal_y(s, r, rec.t as int)
        &&& rec.normal.z as int == out_normal_z(s, r, rec.t as int)
    })
    &&& (!rec.front_face ==> {
        &&& rec.normal.x as int == -out_normal_x(s, r, rec.t as int)
        &&& rec.normal.y as int == -out_normal_y(s, r, rec.t as int)
        &&& rec.normal.z as int == -out_normal_z(s, r, rec.t as int)
    })
    &&& dot_raw(r.direction, rec.normal) <= 0
    &&& rec.material == s.material
}

impl Sphere {
    /// A valid sphere: positive radius, both within the world bounds, and
    /// a well-formed material.
    pub open spec fn wf(self) -> bool {
        &&& 0 < self.radius <= COORD_MAX
        &&& self.center.bounded(COORD_MAX as int)
        &&& self.material.wf()
    }

    /// The sphere's axis-aligned bounding box: exactly `center +- radius`.
    pub open spec fn box_spec(self) -> Aabb {
        Aabb {
            min: Vec3 {
                x: (self.center.x - self.radius) as i64,
                y: (self.center.y - self.radius) as i64,
                z: (self.center.z - self.radius) as i64,
            },
            max: Vec3 {
                x: (self.center.x + self.radius) as i64,
                y: (self.center.y + self.radius) as i64,
                z: (self.center.z + self.radius) as i64,
            },
        }
    }

    /// A sphere always has a bounding box: exactly `center +- radius`.
    pub fn bounding_box(&self) -> (r: Option<Aabb>)
        requires
            self.wf(),
        ensures
            r == Some(self.box_spec()),
            self.box_spec().wf(),
    {
        Some(Aabb {
            min: Vec3 {
                x: self.center.x - self.radius,
                y: self.center.y - self.radius,
                z: self.center.z - self.radius,
            },
            max: Vec3 {
                x: self.center.x + self.radius,
                y: self.center.y + self.radius,
                z: self.center.z + self.radius,
            },
        })
    }

    /// The closest accepted intersection of the ray with this sphere in
    /// `[t_start, t_end)`, trying the near root before the far root, so an
    /// accepted near root always wins ([`lemma_sphere_near_root`]). A root
    /// in range is accepted unless one of the two rounding guards of
    /// [`root_ok`] rejects it.
    pub fn hit(&self, ray: &Ray, t_start: i64, t_end: i64) -> (r: Option<HitRecord>)
        requires
            self.wf(),
            ray.origin.bounded(COORD_MAX as int),
            ray.direction.bounded(DIR_MAX as int),
            0 <= t_start,
            t_end <= T_MAX,
        ensures
            match r {
                Some(rec) => is_sphere_hit(*self, *ray, t_start as int, t_end as int, rec),
                None => sphere_hit_t(*self, *ray, t_start as int, t_end as int) is None,
            },
    {
        proof {
            lemma_quad_fits(*self, *ray);
            lemma_abs_mul_le(ray.direction.x as int, ray.direction.x as int, DIR_MAX as int, DIR_MAX as int);
            lemma_abs_mul_le(ray.direction.y as int, ray.direction.y as int, DIR_MAX as int, DIR_MAX as int);
            lemma_abs_mul_le(ray.direction.z as int, ray.direction.z as int, DIR_MAX as int, DIR_MAX as int);
            lemma_abs_mul_le(ray.origin.x - self.center.x, ray.direction.x as int, 0x4_0000_0000, DIR_MAX as int);
            lemma_abs_mul_le(ray.origin.y - self.center.y, ray.direction.y as int, 0x4_0000_0000, DIR_MAX as int);
            lemma_abs_mul_le(ray.origin.z - self.center.z, ray.direction.z as int, 0x4_0000_0000, DIR_MAX as int);
            lemma_abs_mul_le(ray.origin.x - self.center.x, ray.origin.x - self.center.x, 0x4_0000_0000, 0x4_0000_0000);
            lemma_abs_mul_le(ray.origin.y - self.center.y, ray.origin.y - self.center.y, 0x4_0000_0000, 0x4_0000_0000);
            lemma_abs_mul_le(ray.origin.z - self.center.z, ray.origin.z - self.center.z, 0x4_0000_0000, 0x4_0000_0000);
            lemma_abs_mul_le(self.radius as int, self.radius as int, COORD_MAX as int, COORD_MAX as int);
        }
        let ocx = (ray.origin.x - self.center.x) as i128;
        let ocy = (ray.origin.y - self.center.y) as i128;
        let ocz = (ray.origin.z - self.center.z) as i128;
        let dx = ray.direction.x as i128;
        let dy = ray.direction.y as i128;
        let dz = ray.direction.z as i128;
        let a = dx * dx + dy * dy + dz * dz;
        let b = ocx * dx + ocy * dy + ocz * dz;
        let c = ocx * ocx + ocy * ocy + ocz * ocz
            - (self.radius as i128) * (self.radius as i128);
        proof {
            lemma_abs_mul_le(b as int, b as int, 0x1800_0000_0000_0000, 0x1800_0000_0000_0000);
            lemma_abs_mul_le(a as int, c as int, 0xc0_0000_0000_0000, 0x40_0000_0000_0000_0000);
        }
        let disc = b * b - a * c;
        if disc <= 0 {
            return None;
        }
        proof {
            lemma_quad_a_pos(*self, *ray);
            lemma_isqrt_bounds(disc as int);
            lemma_isqrt_fits(disc as int);
        }
        let sq = isqrt_u128(disc as u128) as i128;
        proof {
            lemma_abs_mul_le(-(b as int) - (sq as int), SCALE as int, 0x9800_0000_0000_0000, SCALE as int);
            lemma_abs_mul_le(-(b as int) + (sq as int), SCALE as int, 0x9800_0000_0000_0000, SCALE as int);
        }
        let t1 = div_trunc((-b - sq) * (SCALE as i128), a);
        let r1 = self.try_root(ray, t_start, t_end, t1);
        if r1.is_some() {
            return r1;
        }
        let t2 = div_trunc((-b + sq) * (SCALE as i128), a);
        let r2 = self.try_root(ray, t_start, t_end, t2);
        if r2.is_some() {
            return r2;
        }
        None
    }

    /// Accept or reject one candidate root, building the full record on
    /// acceptance.
    fn try_root(&self, ray: &Ray, t_start: i64, t_end: i64, t: i128) -> (r: Option<HitRecord>)
        requires
            self.wf(),
            ray.origin.bounded(COORD_MAX as int),
            ray.direction.bounded(DIR_MAX as int),
            0 <= t_start,
            t_end <= T_MAX,
        ensures
            match r {
                Some(rec) => {
                    &&& root_ok(*self, *ray, t_start as int, t_end as int, t as int)
                    &&& rec.t as int == t as int
                    &&& rec.point.x as int == ray_at_x(*ray, t as int)
                    &&& rec.point.y as int == ray_at_y(*ray, t as int)
                    &&& rec.point.z as int == ray_at_z(*ray, t as int)
                    &&& rec.front_face == (dir_dot_normal(*self, *ray, t as int) < 0)
                    &&& (rec.front_face ==> {
                        &&& rec.normal.x as int == out_normal_x(*self, *ray, t as int)
                        &&& rec.normal.y as int == out_normal_y(*self, *ray, t as int)
                        &&& rec.normal.z as int == out_normal_z(*self, *ray, t as int)
                    })
                    &&& (!rec.front_face ==> {
                        &&& rec.normal.x as int == -out_normal_x(*self, *ray, t as int)
                        &&& rec.normal.y as int == -out_normal_y(*self, *ray, t as int)
                        &&& rec.normal.z as int == -out_normal_z(*self, *ray, t as int)
                    })
                    &&& dot_raw(ray.direction, rec.normal) <= 0
                    &&& rec.material == self.material
                },
                None => !root_ok(*self, *ray, t_start as int, t_end as int, t as int),
            },
    {
        if t < t_start as i128 || t >= t_end as i128 {
            return None;
        }
        let ti = t as i64;
        let bb = Aabb {
            min: Vec3 {
                x: self.center.x - self.radius - BOX_PAD,
                y: self.center.y - self.radius - BOX_PAD,
                z: self.center.z - self.radius - BOX_PAD,
            },
            max: Vec3 {
                x: self.center.x + self.radius + BOX_PAD,
                y: self.center.y + self.radius + BOX_PAD,
                z: self.center.z + self.radius + BOX_PAD,
            },
        };
        proof {
            assert(bb == pad_box(self.box_spec()));
        }
        if !bb.hit(ray, ti, ti + 1) {
            return None;
        }
        let p = ray.p(ti);
        proof {
            lemma_normal_fits(*self, *ray, p);
        }
        let nx128 = div_trunc(((p.x as i128) - (self.center.x as i128)) * (SCALE as i128), self.radius as i128);
        let ny128 = div_trunc(((p.y as i128) - (self.center.y as i128)) * (SCALE as i128), self.radius as i128);
        let nz128 = div_trunc(((p.z as i128) - (self.center.z as i128)) * (SCALE as i128), self.radius as i128);
        if nx128 < -0x2_0000 || nx128 > 0x2_0000 || ny128 < -0x2_0000 || ny128 > 0x2_0000
            || nz128 < -0x2_0000 || nz128 > 0x2_0000 {
            return None;
        }
        proof {
            lemma_abs_mul_le(nx128 as int, nx128 as int, 0x2_0000, 0x2_0000);
            lemma_abs_mul_le(ny128 as int, ny128 as int, 0x2_0000, 0x2_0000);
            lemma_abs_mul_le(nz128 as int, nz128 as int, 0x2_0000, 0x2_0000);
        }
        let n2 = nx128 * nx128 + ny128 * ny128 + nz128 * nz128;
        if n2 < 0x8000_0000 || n2 > 0x2_0000_0000 {
            return None;
        }
        let outward = Vec3 { x: nx128 as i64, y: ny128 as i64, z: nz128 as i64 };
        let mut rec = HitRecord {
            t: ti,
            point: p,
            normal: outward,
            front_face: false,
            material: self.material,
        };
        rec.set_face_normal(ray, outward);
        Some(rec)
    }
}

/// With world-bounded inputs every quadratic coefficient fits comfortably
/// below `2^126`.
proof fn lemma_quad_fits(s: Sphere, r: Ray)
    requires
        s.wf(),
        r.origin.bounded(COORD_MAX as int),
        r.direction.bounded(DIR_MAX as int),
    ensures
        absi(quad_a(s, r)) <= 0xc0_0000_0000_0000,
        absi(quad_b(s, r)) <= 0x1800_0000_0000_0000,
        absi(quad_c(s, r)) <= 0x40_0000_0000_0000_0000,
        absi(sphere_disc(s, r))
            <= 0x1800_0000_0000_0000 * 0x1800_0000_0000_0000
                + 0xc0_0000_0000_0000 * 0x40_0000_0000_0000_0000,
        quad_a(s, r) >= 0,
{
    lemma_abs_mul_le(r.direction.x as int, r.direction.x as int, DIR_MAX as int, DIR_MAX as int);
    lemma_abs_mul_le(r.direction.y as int, r.direction.y as int, DIR_MAX as int, DIR_MAX as int);
    lemma_abs_mul_le(r.direction.z as int, r.direction.z as int, DIR_MAX as int, DIR_MAX as int);
    lemma_abs_mul_le(r.origin.x - s.center.x, r.direction.x as int, 0x4_0000_0000, DIR_MAX as int);
    lemma_abs_mul_le(r.origin.y - s.center.y, r.direction.y as int, 0x4_0000_0000, DIR_MAX as int);
    lemma_abs_mul_le(r.origin.z - s.center.z, r.direction.z as int, 0x4_0000_0000, DIR_MAX as int);
    lemma_abs_mul_le(r.origin.x - s.center.x, r.origin.x - s.center.x, 0x4_0000_0000, 0x4_0000_0000);
    lemma_abs_mul_le(r.origin.y - s.center.y, r.origin.y - s.center.y, 0x4_0000_0000, 0x4_0000_0000);
    lemma_abs_mul_le(r.origin.z - s.center.z, r.origin.z - s.center.z, 0x4_0000_0000, 0x4_0000_0000);
    lemma_abs_mul_le(s.radius as int, s.radius as int, COORD_MAX as int, COORD_MAX as int);
    lemma_abs_mul_le(quad_b(s, r), quad_b(s, r), 0x1800_0000_0000_0000, 0x1800_0000_0000_0000);
    lemma_abs_mul_le(quad_a(s, r), quad_c(s, r), 0xc0_0000_0000_0000, 0x40_0000_0000_0000_0000);
    assert((r.direction.x as int) * (r.direction.x as int) >= 0) by (nonlinear_arith);
    assert((r.direction.y as int) * (r.direction.y as int) >= 0) by (nonlinear_arith);
    assert((r.direction.z as int) * (r.direction.z as int) >= 0) by (nonlinear_arith);
}

/// A positive discriminant forces a positive leading coefficient.
pub proof fn lemma_quad_a_pos(s: Sphere, r: Ray)
    requires
        sphere_disc(s, r) > 0,
    ensures
        quad_a(s, r) > 0,
{
    assert((r.direction.x as int) * (r.direction.x as int) >= 0) by (nonlinear_arith);
    assert((r.direction.y as int) * (r.direction.y as int) >= 0) by (nonlinear_arith);
    assert((r.direction.z as int) * (r.direction.z as int) >= 0) by (nonlinear_arith);
    if quad_a(s, r) == 0 {
        assert(r.direction.x as int == 0 && r.direction.y as int == 0 && r.direction.z as int == 0)
            by (nonlinear_arith)
            requires
                (r.direction.x as int) * (r.direction.x as int) >= 0,
                (r.direction.y as int) * (r.direction.y as int) >= 0,
                (r.direction.z as int) * (r.direction.z as int) >= 0,
                (r.direction.x as int) * (r.direction.x as int)
                    + (r.direction.y as int) * (r.direction.y as int)
                    + (r.direction.z as int) * (r.direction.z as int) == 0;
        assert(quad_b(s, r) == 0) by (nonlinear_arith)
            requires
                r.direction.x as int == 0,
                r.direction.y as int == 0,
                r.direction.z as int == 0,
                quad_b(s, r) == (r.origin.x - s.center.x) * (r.direction.x as int)
                    + (r.origin.y - s.center.y) * (r.direction.y as int)
                    + (r.origin.z - s.center.z) * (r.direction.z as int);
        assert(sphere_disc(s, r) == 0) by (nonlinear_arith)
            requires quad_b(s, r) == 0, quad_a(s, r) == 0,
                sphere_disc(s, r) == quad_b(s, r) * quad_b(s, r) - quad_a(s, r) * quad_c(s, r);
        assert(false);
    }
}

/// A bounded square root stays below `2^63`.
proof fn lemma_isqrt_fits(n: int)
    requires
        0 <= n,
        n < 0x4000_0000_0000_0000_0000_0000_0000_0000,
    ensures
        isqrt(n) < 0x8000_0000_0000_0000,
{
    lemma_isqrt_bounds(n);
    if isqrt(n) >= 0x8000_0000_0000_0000 {
        assert(isqrt(n) * isqrt(n) >= 0x8000_0000_0000_0000 * 0x8000_0000_0000_0000)
            by (nonlinear_arith)
            requires isqrt(n) >= 0x8000_0000_0000_0000;
        assert(false);
    }
}

/// The normal numerators fit and the division is well-defined.
proof fn lemma_normal_fits(s: Sphere, r: Ray, p: Vec3)
    requires
        s.wf(),
        p.bounded(COORD_MAX as int + 0x80_0000_0000_0000),
    ensures
        absi((p.x - s.center.x) * (SCALE as int)) <= 0x100_0000_0000_0000 * 0x10000,
        absi((p.y - s.center.y) * (SCALE as int)) <= 0x100_0000_0000_0000 * 0x10000,
        absi((p.z - s.center.z) * (SCALE as int)) <= 0x100_0000_0000_0000 * 0x10000,
{
    lemma_abs_mul_le(p.x - s.center.x, SCALE as int, 0x100_0000_0000_0000, SCALE as int);
    lemma_abs_mul_le(p.y - s.center.y, SCALE as int, 0x100_0000_0000_0000, SCALE as int);
    lemma_abs_mul_le(p.z - s.center.z, SCALE as int, 0x100_0000_0000_0000, SCALE as int);
}

/// The normal stored in a returned record is usable for scattering:
/// bounded components and near-unit squared length.
pub proof fn lemma_hit_record_normal(s: Sphere, r: Ray, lo: int, hi: int, rec: HitRecord)
    requires
        is_sphere_hit(s, r, lo, hi, rec),
    ensures
        rec.normal.bounded(0x2_0000),
        0x8000_0000 <= dot_raw(rec.normal, rec.normal) <= 0x2_0000_0000,
        lo <= rec.t < hi,
{
    let t = rec.t as int;
    let nx = out_normal_x(s, r, t);
    let ny = out_normal_y(s, r, t);
    let nz = out_normal_z(s, r, t);
    assert(normal_ok(s, r, t));
    if rec.front_face {
        assert(dot_raw(rec.normal, rec.normal) == nx * nx + ny * ny + nz * nz);
    } else {
        assert((rec.normal.x as int) * (rec.normal.x as int) == nx * nx) by (nonlinear_arith)
            requires rec.normal.x as int == -nx;
        assert((rec.normal.y as int) * (rec.normal.y as int) == ny * ny) by (nonlinear_arith)
            requires rec.normal.y as int == -ny;
        assert((rec.normal.z as int) * (rec.normal.z as int) == nz * nz) by (nonlinear_arith)
            requires rec.normal.z as int == -nz;
    }
}

/// The returned normal always opposes the incoming ray: their dot product
/// is negative whenever the ray is not exactly tangent to the surface
/// (zero dot), and never positive.
pub proof fn lemma_normal_opposes_ray(s: Sphere, r: Ray, lo: int, hi: int, rec: HitRecord)
    requires
        is_sphere_hit(s, r, lo, hi, rec),
    ensures
        dot_raw(r.direction, rec.normal) <= 0,
        dir_dot_normal(s, r, rec.t as int) != 0 ==> dot_raw(r.direction, rec.normal) < 0,
{
    let t = rec.t as int;
    if rec.front_face {
        assert(dot_raw(r.direction, rec.normal) == dir_dot_normal(s, r, t));
    } else {
        let flipped = rec.normal;
        assert((r.direction.x as int) * (flipped.x as int)
            == -((r.direction.x as int) * out_normal_x(s, r, t))) by (nonlinear_arith)
            requires flipped.x as int == -out_normal_x(s, r, t);
        assert((r.direction.y as int) * (flipped.y as int)
            == -((r.direction.y as int) * out_normal_y(s, r, t))) by (nonlinear_arith)
            requires flipped.y as int == -out_normal_y(s, r, t);
        assert((r.direction.z as int) * (flipped.z as int)
            == -((r.direction.z as int) * out_normal_z(s, r, t))) by (nonlinear_arith)
            requires flipped.z as int == -out_normal_z(s, r, t);
        assert(dot_raw(r.direction, rec.normal) == -dir_dot_normal(s, r, t));
    }
}

/// The near root never exceeds the far root.
pub proof fn lemma_roots_ordered(s: Sphere, r: Ray)
    requires
        sphere_disc(s, r) > 0,
    ensures
        sphere_root1(s, r) <= sphere_root2(s, r),
{
    lemma_quad_a_pos(s, r);
    lemma_isqrt_bounds(sphere_disc(s, r));
    let b = quad_b(s, r);
    let sq = isqrt(sphere_disc(s, r));
    assert((-b - sq) * (SCALE as int) <= (-b + sq) * (SCALE as int)) by (nonlinear_arith)
        requires sq >= 0;
    lemma_tdiv_ordered((-b - sq) * (SCALE as int), (-b + sq) * (SCALE as int), quad_a(s, r));
}

/// The root selected when both roots are accepted is the near (minimum) one.
pub proof fn lemma_sphere_near_root(s: Sphere, r: Ray, lo: int, hi: int)
    requires
        sphere_disc(s, r) > 0,
        root_ok(s, r, lo, hi, sphere_root1(s, r)),
        root_ok(s, r, lo, hi, sphere_root2(s, r)),
    ensures
        sphere_hit_t(s, r, lo, hi) == Some(sphere_root1(s, r)),
        sphere_root1(s, r) <= sphere_root2(s, r),
{
    lemma_roots_ordered(s, r);
}

/// A hit found in a narrowed range is the hit of any containing range.
pub proof fn lemma_sphere_hit_widen(s: Sphere, r: Ray, lo: int, hi1: int, hi2: int, t: int)
    requires
        hi1 <= hi2,
        sphere_hit_t(s, r, lo, hi1) == Some(t),
    ensures
        sphere_hit_t(s, r, lo, hi2) == Some(t),
{
    lemma_roots_ordered(s, r);
}

/// If a narrowed range misses but the full range hits, the full-range hit
/// lies at or beyond the narrowed end.
pub proof fn lemma_sphere_hit_narrow_none(s: Sphere, r: Ray, lo: int, hi1: int, hi2: int, t: int)
    requires
        hi1 <= hi2,
        sphere_hit_t(s, r, lo, hi1) is None,
        sphere_hit_t(s, r, lo, hi2) == Some(t),
    ensures
        t >= hi1,
{
    lemma_roots_ordered(s, r);
}

/// An accepted hit passes the slab test of the sphere's padded bounding
/// box over the whole queried range.
pub proof fn lemma_sphere_hit_slab(s: Sphere, r: Ray, lo: int, hi: int, t: int)
    requires
        sphere_hit_t(s, r, lo, hi) == Some(t),
    ensures
        slab_hit(pad_box(s.box_spec()), r, lo, hi),
        lo <= t < hi,
{
    lemma_slab_monotone(pad_box(s.box_spec()), pad_box(s.box_spec()), r, t, t + 1, lo, hi);
}

} // verus!
