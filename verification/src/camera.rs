//! Cameras: mapping normalized image coordinates to world-space rays.

use vstd::prelude::*;
use crate::fixed::{fmul, lemma_fmul_bound, tdiv, div_trunc, fx_mul, SCALE};
use crate::material::{dir_ok_exec, dir_wf, random_in_unit_disk};
use crate::ray::{ray_wf, Ray};
use crate::vec3::{
    cross, cross_vec, dot_raw, dot_raw_exec, lemma_mag_div_le_wrap, unit_vec, Vec3, COORD_MAX,
};

verus! {

/// A source of camera rays: maps normalized image coordinates (scaled to
/// `[0, SCALE]`) to a world-space ray.
pub trait Camera {
    fn get_ray(&self, s: i64, t: i64) -> Ray;
}

/// A thin-lens camera: a pinhole camera when the lens radius is zero,
/// else with a random lens offset giving depth of field.
#[derive(Clone, Copy, PartialEq, Eq, Structural, Debug)]
pub struct ThinLens {
    pub lower_left_corner: Vec3,
    pub origin: Vec3,
    pub horizontal: Vec3,
    pub vertical: Vec3,
    pub u: Vec3,
    pub v: Vec3,
    pub w: Vec3,
    pub lens_radius: i64,
}

/// The direction of the pinhole ray for image coordinates `(s, t)`:
/// from the origin toward the viewport point, `x` component.
pub open spec fn pinhole_dir_x(c: ThinLens, s: int, t: int) -> int {
    c.lower_left_corner.x + fmul(c.horizontal.x as int, s) + fmul(c.vertical.x as int, t)
        - c.origin.x
}

/// The pinhole ray direction, `y` component.
pub open spec fn pinhole_dir_y(c: ThinLens, s: int, t: int) -> int {
    c.lower_left_corner.y + fmul(c.horizontal.y as int, s) + fmul(c.vertical.y as int, t)
        - c.origin.y
}

/// The pinhole ray direction, `z` component.
pub open spec fn pinhole_dir_z(c: ThinLens, s: int, t: int) -> int {
    c.lower_left_corner.z + fmul(c.horizontal.z as int, s) + fmul(c.vertical.z as int, t)
        - c.origin.z
}

/// The scaled width of the focus-plane viewport: the aspect ratio times
/// twice the half-view tangent, times the focus distance.
pub open spec fn hspan(tan_half_theta: int, aspect_ratio: int, focus_distance: int) -> int {
    fmul(focus_distance, fmul(aspect_ratio, 2 * tan_half_theta))
}

/// The scaled height of the focus-plane viewport.
pub open spec fn vspan(tan_half_theta: int, focus_distance: int) -> int {
    fmul(focus_distance, 2 * tan_half_theta)
}

/// The difference vector from the camera position to its target.
pub open spec fn view_diff(look_from: Vec3, look_at: Vec3) -> Vec3 {
    Vec3 {
        x: (look_from.x - look_at.x) as i64,
        y: (look_from.y - look_at.y) as i64,
        z: (look_from.z - look_at.z) as i64,
    }
}

/// The view direction is long enough to normalize.
pub open spec fn view_ok(look_from: Vec3, look_at: Vec3) -> bool {
    dot_raw(view_diff(look_from, look_at), view_diff(look_from, look_at)) >= 0x4000_0000
}

/// The up vector is far enough from the view axis for Gram-Schmidt.
pub open spec fn up_ok(view_up: Vec3, look_from: Vec3, look_at: Vec3) -> bool {
    let w = unit_vec(view_diff(look_from, look_at));
    let c = cross_vec(view_up, w);
    dot_raw(c, c) >= 0x4000_0000
}

/// The fallback direction when a configuration produces a degenerate ray.
pub open spec fn fallback_dir() -> Vec3 {
    Vec3 { x: 0, y: 0, z: (-65536) as i64 }
}

impl ThinLens {
    /// A usable camera: bounded fields and a near-unit basis.
    pub open spec fn wf(self) -> bool {
        &&& self.origin.bounded((COORD_MAX / 2) as int)
        &&& self.lower_left_corner.bounded(0x8_0000_0000)
        &&& self.horizontal.bounded(0x8_0000_0000)
        &&& self.vertical.bounded(0x8_0000_0000)
        &&& self.u.bounded(0x2_0000)
        &&& self.v.bounded(0x2_0000)
        &&& self.w.bounded(0x2_0000)
        &&& 0 <= self.lens_radius <= 0x40_0000
    }

    /// Build a thin-lens camera from a position, a target, an up vector,
    /// the tangent of half the vertical field of view, the aspect ratio,
    /// the aperture and the focus distance (all scaled). Returns nothing
    /// when the view direction or the up vector degenerates.
    #[verifier::rlimit(50)]
    pub fn new(
        look_from: Vec3,
        look_at: Vec3,
        view_up: Vec3,
        tan_half_theta: i64,
        aspect_ratio: i64,
        aperture: i64,
        focus_distance: i64,
    ) -> (r: Option<ThinLens>)
        requires
            look_from.bounded((COORD_MAX / 2) as int),
            look_at.bounded((COORD_MAX / 2) as int),
            view_up.bounded(0x10_0000),
            0 < tan_half_theta <= 8 * (SCALE as int),
            0 < aspect_ratio <= 8 * (SCALE as int),
            0 <= aperture <= 16 * (SCALE as int),
            0 < focus_distance <= 0x400_0000,
        ensures
            r is Some <==> view_ok(look_from, look_at) && up_ok(view_up, look_from, look_at),
            r matches Some(c) ==> {
                &&& c.wf()
                &&& c.origin == look_from
                &&& c.lens_radius as int == tdiv(aperture as int, 2)
                &&& c.w == unit_vec(Vec3 {
                    x: (look_from.x - look_at.x) as i64,
                    y: (look_from.y - look_at.y) as i64,
                    z: (look_from.z - look_at.z) as i64,
                })
                &&& c.u == unit_vec(cross_vec(view_up, c.w))
                &&& c.v == cross_vec(c.w, c.u)
                &&& c.horizontal.x as int == fmul(c.u.x as int, hspan(tan_half_theta as int, aspect_ratio as int, focus_distance as int))
                &&& c.horizontal.y as int == fmul(c.u.y as int, hspan(tan_half_theta as int, aspect_ratio as int, focus_distance as int))
                &&& c.horizontal.z as int == fmul(c.u.z as int, hspan(tan_half_theta as int, aspect_ratio as int, focus_distance as int))
                &&& c.vertical.x as int == fmul(c.v.x as int, vspan(tan_half_theta as int, focus_distance as int))
                &&& c.vertical.y as int == fmul(c.v.y as int, vspan(tan_half_theta as int, focus_distance as int))
                &&& c.vertical.z as int == fmul(c.v.z as int, vspan(tan_half_theta as int, focus_distance as int))
                &&& c.lower_left_corner.x as int == c.origin.x - fmul(c.horizontal.x as int, 0x8000)
                    - fmul(c.vertical.x as int, 0x8000) - fmul(c.w.x as int, focus_distance as int)
                &&& c.lower_left_corner.y as int == c.origin.y - fmul(c.horizontal.y as int, 0x8000)
                    - fmul(c.vertical.y as int, 0x8000) - fmul(c.w.y as int, focus_distance as int)
                &&& c.lower_left_corner.z as int == c.origin.z - fmul(c.horizontal.z as int, 0x8000)
                    - fmul(c.vertical.z as int, 0x8000) - fmul(c.w.z as int, focus_distance as int)
            },
    {
        let wdiff = look_from.sub(look_at);
        proof {
            assert(wdiff == view_diff(look_from, look_at));
        }
        let d2 = dot_raw_exec(wdiff, wdiff);
        if d2 < 0x4000_0000 {
            return None;
        }
        let w = wdiff.normalize();
        proof {
            assert(w == unit_vec(view_diff(look_from, look_at)));
        }
        let ucross = cross(view_up, w);
        proof {
            lemma_mag_div_le_wrap(view_up, w, 0x10_0000, 0x1_0000);
            assert(ucross == cross_vec(view_up, w));
        }
        let du = dot_raw_exec(ucross, ucross);
        if du < 0x4000_0000 {
            return None;
        }
        let u = ucross.normalize();
        let v = cross(w, u);
        proof {
            lemma_mag_div_le_wrap(w, u, 0x1_0000, 0x1_0000);
            lemma_fmul_bound(aspect_ratio as int, 2 * (tan_half_theta as int), 0x8_0000, 0x10_0000);
            assert((0x8_0000int * 0x10_0000) / 0x10000 == 0x80_0000int);
        }
        let vh = 2 * tan_half_theta;
        let vw = fx_mul(aspect_ratio, vh);
        proof {
            lemma_fmul_bound(focus_distance as int, vw as int, 0x400_0000, 0x80_0000);
            lemma_fmul_bound(focus_distance as int, vh as int, 0x400_0000, 0x10_0000);
            assert((0x400_0000int * 0x80_0000) / 0x10000 == 0x2_0000_0000int);
            assert((0x400_0000int * 0x10_0000) / 0x10000 == 0x4000_0000int);
        }
        let hscale = fx_mul(focus_distance, vw);
        let vscale = fx_mul(focus_distance, vh);
        proof {
            lemma_fmul_bound(u.x as int, hscale as int, 0x1_0000, 0x2_0000_0000);
            lemma_fmul_bound(u.y as int, hscale as int, 0x1_0000, 0x2_0000_0000);
            lemma_fmul_bound(u.z as int, hscale as int, 0x1_0000, 0x2_0000_0000);
            lemma_fmul_bound(v.x as int, vscale as int, 0x2_0000, 0x4000_0000);
            lemma_fmul_bound(v.y as int, vscale as int, 0x2_0000, 0x4000_0000);
            lemma_fmul_bound(v.z as int, vscale as int, 0x2_0000, 0x4000_0000);
            lemma_fmul_bound(w.x as int, focus_distance as int, 0x1_0000, 0x400_0000);
            lemma_fmul_bound(w.y as int, focus_distance as int, 0x1_0000, 0x400_0000);
            lemma_fmul_bound(w.z as int, focus_distance as int, 0x1_0000, 0x400_0000);
        }
        let horizontal = u.scale(hscale);
        let vertical = v.scale(vscale);
        let fw = w.scale(focus_distance);
        proof {
            lemma_fmul_bound(horizontal.x as int, 0x8000, 0x2_0000_0000_0000, 0x8000);
            lemma_fmul_bound(horizontal.y as int, 0x8000, 0x2_0000_0000_0000, 0x8000);
            lemma_fmul_bound(horizontal.z as int, 0x8000, 0x2_0000_0000_0000, 0x8000);
            lemma_fmul_bound(vertical.x as int, 0x8000, 0x2_0000_0000_0000, 0x8000);
            lemma_fmul_bound(vertical.y as int, 0x8000, 0x2_0000_0000_0000, 0x8000);
            lemma_fmul_bound(vertical.z as int, 0x8000, 0x2_0000_0000_0000, 0x8000);
        }
        let hh = horizontal.scale(0x8000);
        let vv = vertical.scale(0x8000);
        let lower_left_corner = look_from.sub(hh).sub(vv).sub(fw);
        proof {
            crate::fixed::lemma_tdiv_bounds(aperture as int, 2);
        }
        let lens_radius = div_trunc(aperture as i128, 2) as i64;
        Some(ThinLens {
            lower_left_corner,
            origin: look_from,
            horizontal,
            vertical,
            u,
            v,
            w,
            lens_radius,
        })
    }

    /// The camera ray for image coordinates `(s, t)`: from the (possibly
    /// lens-offset) origin toward the viewport point. When the lens radius
    /// is zero, the ray is the exact pinhole ray unless its direction
    /// degenerates, in which case a fixed fallback direction is used.
    pub fn get_ray(&self, s: i64, t: i64) -> (r: Ray)
        requires
            self.wf(),
            0 <= s <= SCALE,
            0 <= t <= SCALE,
        ensures
            ray_wf(r),
            self.lens_radius == 0 ==> r.origin == self.origin,
            self.lens_radius == 0 ==> {
                let d = Vec3 {
                    x: pinhole_dir_x(*self, s as int, t as int) as i64,
                    y: pinhole_dir_y(*self, s as int, t as int) as i64,
                    z: pinhole_dir_z(*self, s as int, t as int) as i64,
                };
                r.direction == (if dir_wf(d) { d } else { fallback_dir() })
            },
            r.direction == fallback_dir() || {
                &&& r.origin.x + r.direction.x == self.lower_left_corner.x + fmul(
                    self.horizontal.x as int,
                    s as int,
                ) + fmul(self.vertical.x as int, t as int)
                &&& r.origin.y + r.direction.y == self.lower_left_corner.y + fmul(
                    self.horizontal.y as int,
                    s as int,
                ) + fmul(self.vertical.y as int, t as int)
                &&& r.origin.z + r.direction.z == self.lower_left_corner.z + fmul(
                    self.horizontal.z as int,
                    s as int,
                ) + fmul(self.vertical.z as int, t as int)
            },
            exists|dsk: Vec3| {
                &&& dsk.z == 0
                &&& dsk.bounded(SCALE as int)
                &&& dot_raw(dsk, dsk) < 0x1_0000_0000
                &&& r.origin.x as int == self.origin.x + fmul(
                    self.u.x as int,
                    fmul(dsk.x as int, self.lens_radius as int),
                ) + fmul(self.v.x as int, fmul(dsk.y as int, self.lens_radius as int))
                &&& r.origin.y as int == self.origin.y + fmul(
                    self.u.y as int,
                    fmul(dsk.x as int, self.lens_radius as int),
                ) + fmul(self.v.y as int, fmul(dsk.y as int, self.lens_radius as int))
                &&& r.origin.z as int == self.origin.z + fmul(
                    self.u.z as int,
                    fmul(dsk.x as int, self.lens_radius as int),
                ) + fmul(self.v.z as int, fmul(dsk.y as int, self.lens_radius as int))
            },
    {
        let rd = random_in_unit_disk();
        proof {
            lemma_fmul_bound(rd.x as int, self.lens_radius as int, SCALE as int, 0x40_0000);
            lemma_fmul_bound(rd.y as int, self.lens_radius as int, SCALE as int, 0x40_0000);
            lemma_fmul_bound(rd.z as int, self.lens_radius as int, SCALE as int, 0x40_0000);
            assert(((SCALE as int) * 0x40_0000) / 0x10000 == 0x40_0000int);
        }
        let rdl = rd.scale(self.lens_radius);
        proof {
            lemma_fmul_bound(self.u.x as int, rdl.x as int, 0x2_0000, 0x40_0000);
            lemma_fmul_bound(self.u.y as int, rdl.x as int, 0x2_0000, 0x40_0000);
            lemma_fmul_bound(self.u.z as int, rdl.x as int, 0x2_0000, 0x40_0000);
            lemma_fmul_bound(self.v.x as int, rdl.y as int, 0x2_0000, 0x40_0000);
            lemma_fmul_bound(self.v.y as int, rdl.y as int, 0x2_0000, 0x40_0000);
            lemma_fmul_bound(self.v.z as int, rdl.y as int, 0x2_0000, 0x40_0000);
            assert((0x2_0000int * 0x40_0000) / 0x10000 == 0x80_0000int);
        }
        let offset = self.u.scale(rdl.x).add(self.v.scale(rdl.y));
        let origin = self.origin.add(offset);
        proof {
            lemma_fmul_bound(self.horizontal.x as int, s as int, 0x8_0000_0000, SCALE as int);
            lemma_fmul_bound(self.horizontal.y as int, s as int, 0x8_0000_0000, SCALE as int);
            lemma_fmul_bound(self.horizontal.z as int, s as int, 0x8_0000_0000, SCALE as int);
            lemma_fmul_bound(self.vertical.x as int, t as int, 0x8_0000_0000, SCALE as int);
            lemma_fmul_bound(self.vertical.y as int, t as int, 0x8_0000_0000, SCALE as int);
            lemma_fmul_bound(self.vertical.z as int, t as int, 0x8_0000_0000, SCALE as int);
            assert((0x8_0000_0000int * (SCALE as int)) / 0x10000 == 0x8_0000_0000int);
        }
        let mut direction = self
            .lower_left_corner
            .add(self.horizontal.scale(s))
            .add(self.vertical.scale(t))
            .sub(self.origin)
            .sub(offset);
        proof {
            if self.lens_radius == 0 {
                assert((rd.x as int) * 0 == 0);
                assert((rd.y as int) * 0 == 0);
                assert(tdiv(0, SCALE as int) == 0);
                assert(rdl.x as int == 0 && rdl.y as int == 0);
                assert((self.u.x as int) * 0 == 0 && (self.u.y as int) * 0 == 0
                    && (self.u.z as int) * 0 == 0);
                assert((self.v.x as int) * 0 == 0 && (self.v.y as int) * 0 == 0
                    && (self.v.z as int) * 0 == 0);
                assert(offset.x as int == 0 && offset.y as int == 0 && offset.z as int == 0);
                assert(origin == self.origin);
                assert(direction.x as int == pinhole_dir_x(*self, s as int, t as int));
                assert(direction.y as int == pinhole_dir_y(*self, s as int, t as int));
                assert(direction.z as int == pinhole_dir_z(*self, s as int, t as int));
            }
        }
        if !dir_ok_exec(&direction) {
            direction = Vec3 { x: 0, y: 0, z: -SCALE };
            proof {
                assert(dot_raw(direction, direction) == (SCALE as int) * (SCALE as int))
                    by (nonlinear_arith)
                    requires direction == (Vec3 { x: 0i64, y: 0i64, z: (-65536) as i64 });
            }
        }
        Ray { origin, direction }
    }
}

impl Camera for ThinLens {
    /// The trait entry point: well-formed cameras produce their thin-lens
    /// ray; anything else falls back to a fixed downward-axis ray.
    fn get_ray(&self, s: i64, t: i64) -> Ray {
        let sc = if s < 0 {
            0
        } else if s > SCALE {
            SCALE
        } else {
            s
        };
        let tc = if t < 0 {
            0
        } else if t > SCALE {
            SCALE
        } else {
            t
        };
        if self.check_wf() {
            ThinLens::get_ray(self, sc, tc)
        } else {
            Ray { origin: Vec3 { x: 0, y: 0, z: 0 }, direction: Vec3 { x: 0, y: 0, z: -SCALE } }
        }
    }
}

impl ThinLens {
    /// Whether this camera satisfies its validity bounds.
    pub fn check_wf(&self) -> (r: bool)
        ensures
            r == self.wf(),
    {
        in_range(&self.origin, COORD_MAX / 2) && in_range(&self.lower_left_corner, 0x8_0000_0000)
            && in_range(&self.horizontal, 0x8_0000_0000) && in_range(&self.vertical, 0x8_0000_0000)
            && in_range(&self.u, 0x2_0000) && in_range(&self.v, 0x2_0000)
            && in_range(&self.w, 0x2_0000) && 0 <= self.lens_radius && self.lens_radius <= 0x40_0000
    }
}

/// Whether all components of a vector are bounded by `b` in magnitude.
fn in_range(v: &Vec3, b: i64) -> (r: bool)
    requires
        b >= 0,
    ensures
        r == v.bounded(b as int),
{
    -b <= v.x && v.x <= b && -b <= v.y && v.y <= b && -b <= v.z && v.z <= b
}

} // verus!
