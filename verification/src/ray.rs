//! Rays: origin plus scaled parametric direction.

use vstd::prelude::*;
use crate::fixed::{absi, lemma_mag_div_le, tdiv, div_trunc, SCALE};
use crate::vec3::{dot_raw, Vec3, COORD_MAX, DIR_MAX};

verus! {

/// Upper bound for the ray parameter `t` in intersection queries.
pub const T_MAX: i64 = 0x4000_0000_0000;

/// A ray `P(t) = origin + t * direction`, with `t` scaled like every
/// other quantity.
#[derive(Clone, Copy, PartialEq, Eq, Structural, Debug)]
pub struct Ray {
    pub origin: Vec3,
    pub direction: Vec3,
}

/// The `x` coordinate of the ray's point at parameter `t`.
pub open spec fn ray_at_x(r: Ray, t: int) -> int {
    r.origin.x + tdiv(t * (r.direction.x as int), SCALE as int)
}

/// The `y` coordinate of the ray's point at parameter `t`.
pub open spec fn ray_at_y(r: Ray, t: int) -> int {
    r.origin.y + tdiv(t * (r.direction.y as int), SCALE as int)
}

/// The `z` coordinate of the ray's point at parameter `t`.
pub open spec fn ray_at_z(r: Ray, t: int) -> int {
    r.origin.z + tdiv(t * (r.direction.z as int), SCALE as int)
}

/// A ray the tracer works on: origin inside the world bounds, direction
/// bounded and long enough to normalize.
pub open spec fn ray_wf(r: Ray) -> bool {
    &&& r.origin.bounded(COORD_MAX as int)
    &&& r.direction.bounded(DIR_MAX as int)
    &&& dot_raw(r.direction, r.direction) >= 0x4000_0000
}

impl Ray {
    /// The point reached after travelling `t` along the ray.
    pub fn p(&self, t: i64) -> (q: Vec3)
        requires
            absi(t as int) <= T_MAX as int,
            self.origin.bounded(COORD_MAX as int),
            self.direction.bounded(DIR_MAX as int),
        ensures
            q.x as int == ray_at_x(*self, t as int),
            q.y as int == ray_at_y(*self, t as int),
            q.z as int == ray_at_z(*self, t as int),
            q.bounded(COORD_MAX as int + 0x80_0000_0000_0000),
    {
        proof {
            lemma_p_axis(t as int, self.direction.x as int);
            lemma_p_axis(t as int, self.direction.y as int);
            lemma_p_axis(t as int, self.direction.z as int);
        }
        let dx = div_trunc((t as i128) * (self.direction.x as i128), SCALE as i128);
        let dy = div_trunc((t as i128) * (self.direction.y as i128), SCALE as i128);
        let dz = div_trunc((t as i128) * (self.direction.z as i128), SCALE as i128);
        Vec3 {
            x: self.origin.x + dx as i64,
            y: self.origin.y + dy as i64,
            z: self.origin.z + dz as i64,
        }
    }
}

/// One axis of the travel bound: `|t * d / SCALE| <= 2^55`.
proof fn lemma_p_axis(t: int, d: int)
    requires
        absi(t) <= T_MAX as int,
        absi(d) <= DIR_MAX as int,
    ensures
        absi(tdiv(t * d, SCALE as int)) <= 0x80_0000_0000_0000,
{
    assert(absi(t * d) <= 0x4000_0000_0000 * 0x200_0000) by (nonlinear_arith)
        requires absi(t) <= 0x4000_0000_0000, absi(d) <= 0x200_0000;
    lemma_mag_div_le(t * d, 0x4000_0000_0000int * 0x200_0000, SCALE as int);
    assert((0x4000_0000_0000int * 0x200_0000) / 0x10000 == 0x80_0000_0000_0000int);
}

} // verus!
