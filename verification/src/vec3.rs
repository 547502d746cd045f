//! Three-component fixed-point vectors.

use vstd::prelude::*;
use crate::fixed::{
    absi, fmul, isqrt, lemma_isqrt_bounds, lemma_isqrt_ordered, lemma_isqrt_unique,
    lemma_mag_div_le, lemma_tdiv_bounds, tdiv, div_trunc, fx_mul, isqrt_u128, SCALE,
};
use vstd::arithmetic::div_mod::lemma_div_is_ordered;

verus! {

/// Largest magnitude allowed for a position or sphere-center component
/// (and for a sphere radius).
pub const COORD_MAX: i64 = 0x2_0000_0000;

/// Largest magnitude allowed for a ray-direction component.
pub const DIR_MAX: i64 = 0x200_0000;

/// A vector of three scaled coordinates.
#[derive(Clone, Copy, PartialEq, Eq, Structural, Debug)]
pub struct Vec3 {
    pub x: i64,
    pub y: i64,
    pub z: i64,
}

/// The unscaled dot product: the real dot product times `SCALE * SCALE`.
pub open spec fn dot_raw(a: Vec3, b: Vec3) -> int {
    (a.x as int) * (b.x as int) + (a.y as int) * (b.y as int) + (a.z as int) * (b.z as int)
}

/// The scaled dot product of two scaled vectors.
pub open spec fn dot_fx(a: Vec3, b: Vec3) -> int {
    tdiv(dot_raw(a, b), SCALE as int)
}

/// The scaled length of a scaled vector.
pub open spec fn len_fx(v: Vec3) -> int {
    isqrt(dot_raw(v, v))
}

impl Vec3 {
    /// All three components have magnitude at most `b`.
    pub open spec fn bounded(self, b: int) -> bool {
        absi(self.x as int) <= b && absi(self.y as int) <= b && absi(self.z as int) <= b
    }

    pub fn new(x: i64, y: i64, z: i64) -> (r: Vec3)
        ensures
            r == (Vec3 { x, y, z }),
    {
        Vec3 { x, y, z }
    }

    /// Componentwise sum.
    pub fn add(self, o: Vec3) -> (r: Vec3)
        requires
            self.bounded(0x3fff_ffff_ffff_ffff),
            o.bounded(0x3fff_ffff_ffff_ffff),
        ensures
            r.x as int == self.x + o.x,
            r.y as int == self.y + o.y,
            r.z as int == self.z + o.z,
    {
        Vec3 { x: self.x + o.x, y: self.y + o.y, z: self.z + o.z }
    }

    /// Componentwise difference.
    pub fn sub(self, o: Vec3) -> (r: Vec3)
        requires
            self.bounded(0x3fff_ffff_ffff_ffff),
            o.bounded(0x3fff_ffff_ffff_ffff),
        ensures
            r.x as int == self.x - o.x,
            r.y as int == self.y - o.y,
            r.z as int == self.z - o.z,
    {
        Vec3 { x: self.x - o.x, y: self.y - o.y, z: self.z - o.z }
    }

    /// Componentwise negation.
    pub fn neg(self) -> (r: Vec3)
        requires
            self.bounded(0x3fff_ffff_ffff_ffff),
        ensures
            r.x as int == -(self.x as int),
            r.y as int == -(self.y as int),
            r.z as int == -(self.z as int),
    {
        Vec3 { x: -self.x, y: -self.y, z: -self.z }
    }

    /// Multiplication by a scaled scalar.
    pub fn scale(self, s: i64) -> (r: Vec3)
        requires
            self.bounded(0x80_0000_0000),
            absi(s as int) <= 0x80_0000_0000,
        ensures
            r.x as int == fmul(self.x as int, s as int),
            r.y as int == fmul(self.y as int, s as int),
            r.z as int == fmul(self.z as int, s as int),
    {
        Vec3 { x: fx_mul(self.x, s), y: fx_mul(self.y, s), z: fx_mul(self.z, s) }
    }

    /// The scaled dot product.
    pub fn dot(self, o: Vec3) -> (r: i64)
        requires
            self.bounded(0x40_0000_0000),
            o.bounded(0x40_0000_0000),
        ensures
            r as int == dot_fx(self, o),
    {
        let s = dot_raw_exec(self, o);
        proof {
            lemma_dot_raw_mag(self, o, 0x40_0000_0000, 0x40_0000_0000);
            lemma_mag_div_le(s as int, 0x3000_0000_0000_0000_0000, SCALE as int);
            lemma_tdiv_bounds(s as int, SCALE as int);
        }
        div_trunc(s, SCALE as i128) as i64
    }

    /// The scaled vector of unit length pointing the same way.
    pub fn normalize(self) -> (r: Vec3)
        requires
            self.bounded(0x40_0000_0000),
            dot_raw(self, self) >= 0x4000_0000,
        ensures
            r.x as int == tdiv((self.x as int) * (SCALE as int), len_fx(self)),
            r.y as int == tdiv((self.y as int) * (SCALE as int), len_fx(self)),
            r.z as int == tdiv((self.z as int) * (SCALE as int), len_fx(self)),
            r.bounded(SCALE as int),
            len_fx(self) >= 0x8000,
    {
        let s2 = dot_raw_exec(self, self);
        proof {
            lemma_dot_raw_mag(self, self, 0x40_0000_0000, 0x40_0000_0000);
            assert(s2 >= 0x4000_0000);
        }
        let l128 = isqrt_u128(s2 as u128);
        proof {
            lemma_isqrt_ordered(0x4000_0000, s2 as int);
            lemma_isqrt_unique(0x4000_0000, 0x8000);
            lemma_unit_component_bound(self);
        }
        let l = l128 as i128;
        let rx = div_trunc((self.x as i128) * (SCALE as i128), l);
        let ry = div_trunc((self.y as i128) * (SCALE as i128), l);
        let rz = div_trunc((self.z as i128) * (SCALE as i128), l);
        Vec3 { x: rx as i64, y: ry as i64, z: rz as i64 }
    }
}

/// The cross product, `x` component (scaled).
pub open spec fn cross_x(a: Vec3, b: Vec3) -> int {
    tdiv((a.y as int) * (b.z as int) - (a.z as int) * (b.y as int), SCALE as int)
}

/// The cross product, `y` component (scaled).
pub open spec fn cross_y(a: Vec3, b: Vec3) -> int {
    tdiv((a.z as int) * (b.x as int) - (a.x as int) * (b.z as int), SCALE as int)
}

/// The cross product, `z` component (scaled).
pub open spec fn cross_z(a: Vec3, b: Vec3) -> int {
    tdiv((a.x as int) * (b.y as int) - (a.y as int) * (b.x as int), SCALE as int)
}

/// The cross product as a vector (components assumed in range).
pub open spec fn cross_vec(a: Vec3, b: Vec3) -> Vec3 {
    Vec3 { x: cross_x(a, b) as i64, y: cross_y(a, b) as i64, z: cross_z(a, b) as i64 }
}

/// The unit vector of `v` as a vector (components assumed in range).
pub open spec fn unit_vec(v: Vec3) -> Vec3 {
    Vec3 {
        x: tdiv((v.x as int) * (SCALE as int), len_fx(v)) as i64,
        y: tdiv((v.y as int) * (SCALE as int), len_fx(v)) as i64,
        z: tdiv((v.z as int) * (SCALE as int), len_fx(v)) as i64,
    }
}

/// The scaled cross product.
pub fn cross(a: Vec3, b: Vec3) -> (r: Vec3)
    requires
        a.bounded(0x40_0000_0000),
        b.bounded(0x40_0000_0000),
    ensures
        r.x as int == cross_x(a, b),
        r.y as int == cross_y(a, b),
        r.z as int == cross_z(a, b),
{
    proof {
        lemma_cross_fits(a, b);
        lemma_prod_mag(a.x as int, b.x as int, 0x40_0000_0000, 0x40_0000_0000);
        lemma_prod_mag(a.y as int, b.y as int, 0x40_0000_0000, 0x40_0000_0000);
        lemma_prod_mag(a.z as int, b.z as int, 0x40_0000_0000, 0x40_0000_0000);
        lemma_prod_mag(a.x as int, b.y as int, 0x40_0000_0000, 0x40_0000_0000);
        lemma_prod_mag(a.y as int, b.x as int, 0x40_0000_0000, 0x40_0000_0000);
        lemma_prod_mag(a.x as int, b.z as int, 0x40_0000_0000, 0x40_0000_0000);
        lemma_prod_mag(a.z as int, b.x as int, 0x40_0000_0000, 0x40_0000_0000);
        lemma_prod_mag(a.y as int, b.z as int, 0x40_0000_0000, 0x40_0000_0000);
        lemma_prod_mag(a.z as int, b.y as int, 0x40_0000_0000, 0x40_0000_0000);
    }
    let cx = div_trunc((a.y as i128) * (b.z as i128) - (a.z as i128) * (b.y as i128), SCALE as i128);
    let cy = div_trunc((a.z as i128) * (b.x as i128) - (a.x as i128) * (b.z as i128), SCALE as i128);
    let cz = div_trunc((a.x as i128) * (b.y as i128) - (a.y as i128) * (b.x as i128), SCALE as i128);
    Vec3 { x: cx as i64, y: cy as i64, z: cz as i64 }
}

/// The unscaled dot product, exactly.
pub fn dot_raw_exec(a: Vec3, b: Vec3) -> (r: i128)
    requires
        a.bounded(0x40_0000_0000),
        b.bounded(0x40_0000_0000),
    ensures
        r as int == dot_raw(a, b),
{
    proof {
        lemma_dot_raw_mag(a, b, 0x40_0000_0000, 0x40_0000_0000);
        lemma_prod_mag(a.x as int, b.x as int, 0x40_0000_0000, 0x40_0000_0000);
        lemma_prod_mag(a.y as int, b.y as int, 0x40_0000_0000, 0x40_0000_0000);
        lemma_prod_mag(a.z as int, b.z as int, 0x40_0000_0000, 0x40_0000_0000);
    }
    (a.x as i128) * (b.x as i128) + (a.y as i128) * (b.y as i128) + (a.z as i128) * (b.z as i128)
}

/// Magnitude bound on a product of bounded factors.
pub proof fn lemma_prod_mag(a: int, b: int, ma: int, mb: int)
    requires
        absi(a) <= ma,
        absi(b) <= mb,
    ensures
        absi(a * b) <= ma * mb,
{
    assert(absi(a * b) <= ma * mb) by (nonlinear_arith)
        requires absi(a) <= ma, absi(b) <= mb;
}

/// Magnitude bound on an unscaled dot product of bounded vectors.
pub proof fn lemma_dot_raw_mag(a: Vec3, b: Vec3, ma: int, mb: int)
    requires
        a.bounded(ma),
        b.bounded(mb),
    ensures
        absi(dot_raw(a, b)) <= 3 * (ma * mb),
{
    lemma_prod_mag(a.x as int, b.x as int, ma, mb);
    lemma_prod_mag(a.y as int, b.y as int, ma, mb);
    lemma_prod_mag(a.z as int, b.z as int, ma, mb);
}

/// A dot product of a vector with itself is non-negative.
pub proof fn lemma_dot_raw_self_nonneg(v: Vec3)
    ensures
        dot_raw(v, v) >= 0,
        (v.x as int) * (v.x as int) <= dot_raw(v, v),
        (v.y as int) * (v.y as int) <= dot_raw(v, v),
        (v.z as int) * (v.z as int) <= dot_raw(v, v),
{
    assert((v.x as int) * (v.x as int) >= 0) by (nonlinear_arith);
    assert((v.y as int) * (v.y as int) >= 0) by (nonlinear_arith);
    assert((v.z as int) * (v.z as int) >= 0) by (nonlinear_arith);
}

/// Negating one argument negates a raw dot product.
pub proof fn lemma_dot_raw_neg(a: Vec3, b: Vec3, nb: Vec3)
    requires
        nb.x as int == -(b.x as int),
        nb.y as int == -(b.y as int),
        nb.z as int == -(b.z as int),
    ensures
        dot_raw(a, nb) == -dot_raw(a, b),
{
    assert((a.x as int) * (nb.x as int) == -((a.x as int) * (b.x as int))) by (nonlinear_arith)
        requires nb.x as int == -(b.x as int);
    assert((a.y as int) * (nb.y as int) == -((a.y as int) * (b.y as int))) by (nonlinear_arith)
        requires nb.y as int == -(b.y as int);
    assert((a.z as int) * (nb.z as int) == -((a.z as int) * (b.z as int))) by (nonlinear_arith)
        requires nb.z as int == -(b.z as int);
}

/// Each component of a vector is bounded by its scaled length, so the
/// components of the normalized vector are bounded by `SCALE`.
proof fn lemma_unit_component_bound(v: Vec3)
    requires
        dot_raw(v, v) >= 1,
    ensures
        len_fx(v) >= 1,
        absi(tdiv((v.x as int) * (SCALE as int), len_fx(v))) <= SCALE as int,
        absi(tdiv((v.y as int) * (SCALE as int), len_fx(v))) <= SCALE as int,
        absi(tdiv((v.z as int) * (SCALE as int), len_fx(v))) <= SCALE as int,
{
    let s2 = dot_raw(v, v);
    let l = len_fx(v);
    lemma_isqrt_bounds(s2);
    lemma_isqrt_ordered(1, s2);
    assert(isqrt(1) == 1) by {
        lemma_isqrt_unique(1, 1);
    }
    lemma_dot_raw_self_nonneg(v);
    lemma_unit_axis(v.x as int, s2, l);
    lemma_unit_axis(v.y as int, s2, l);
    lemma_unit_axis(v.z as int, s2, l);
}

/// One axis of the component bound above.
proof fn lemma_unit_axis(c: int, s2: int, l: int)
    requires
        l >= 1,
        c * c <= s2,
        s2 < (l + 1) * (l + 1),
    ensures
        absi(tdiv(c * (SCALE as int), l)) <= SCALE as int,
{
    assert(absi(c) <= l) by (nonlinear_arith)
        requires c * c <= s2, s2 < (l + 1) * (l + 1), l >= 1;
    assert(absi(c * (SCALE as int)) <= l * (SCALE as int)) by (nonlinear_arith)
        requires absi(c) <= l;
    lemma_mag_div_le(c * (SCALE as int), l * (SCALE as int), l);
    assert((l * (SCALE as int)) / l == SCALE as int) by (nonlinear_arith)
        requires l >= 1;
}

/// Componentwise magnitude bound on a cross product of bounded vectors.
pub proof fn lemma_mag_div_le_wrap(a: Vec3, b: Vec3, ma: int, mb: int)
    requires
        a.bounded(ma),
        b.bounded(mb),
        0 <= ma,
        0 <= mb,
    ensures
        absi(cross_x(a, b)) <= tdiv(2 * (ma * mb), SCALE as int),
        absi(cross_y(a, b)) <= tdiv(2 * (ma * mb), SCALE as int),
        absi(cross_z(a, b)) <= tdiv(2 * (ma * mb), SCALE as int),
        cross_vec(a, b).bounded(tdiv(2 * (ma * mb), SCALE as int)),
{
    lemma_prod_mag(a.y as int, b.z as int, ma, mb);
    lemma_prod_mag(a.z as int, b.y as int, ma, mb);
    lemma_prod_mag(a.z as int, b.x as int, ma, mb);
    lemma_prod_mag(a.x as int, b.z as int, ma, mb);
    lemma_prod_mag(a.x as int, b.y as int, ma, mb);
    lemma_prod_mag(a.y as int, b.x as int, ma, mb);
    lemma_mag_div_le((a.y as int) * (b.z as int) - (a.z as int) * (b.y as int), 2 * (ma * mb), SCALE as int);
    lemma_mag_div_le((a.z as int) * (b.x as int) - (a.x as int) * (b.z as int), 2 * (ma * mb), SCALE as int);
    lemma_mag_div_le((a.x as int) * (b.y as int) - (a.y as int) * (b.x as int), 2 * (ma * mb), SCALE as int);
    crate::fixed::lemma_tdiv_bounds(2 * (ma * mb), SCALE as int);
}

/// Cross-product numerators fit below `2^126`.
proof fn lemma_cross_fits(a: Vec3, b: Vec3)
    requires
        a.bounded(0x40_0000_0000),
        b.bounded(0x40_0000_0000),
    ensures
        absi((a.y as int) * (b.z as int) - (a.z as int) * (b.y as int)) <= 0x2000_0000_0000_0000_0000,
        absi((a.z as int) * (b.x as int) - (a.x as int) * (b.z as int)) <= 0x2000_0000_0000_0000_0000,
        absi((a.x as int) * (b.y as int) - (a.y as int) * (b.x as int)) <= 0x2000_0000_0000_0000_0000,
        absi(cross_x(a, b)) <= 0x2000_0000_0000_0000,
        absi(cross_y(a, b)) <= 0x2000_0000_0000_0000,
        absi(cross_z(a, b)) <= 0x2000_0000_0000_0000,
{
    assert(0x2000_0000_0000_0000_0000int / 0x10000 == 0x2000_0000_0000_0000int);
    lemma_prod_mag(a.x as int, b.x as int, 0x40_0000_0000, 0x40_0000_0000);
    lemma_prod_mag(a.y as int, b.y as int, 0x40_0000_0000, 0x40_0000_0000);
    lemma_prod_mag(a.z as int, b.z as int, 0x40_0000_0000, 0x40_0000_0000);
    lemma_prod_mag(a.x as int, b.y as int, 0x40_0000_0000, 0x40_0000_0000);
    lemma_prod_mag(a.y as int, b.x as int, 0x40_0000_0000, 0x40_0000_0000);
    lemma_prod_mag(a.x as int, b.z as int, 0x40_0000_0000, 0x40_0000_0000);
    lemma_prod_mag(a.z as int, b.x as int, 0x40_0000_0000, 0x40_0000_0000);
    lemma_prod_mag(a.y as int, b.z as int, 0x40_0000_0000, 0x40_0000_0000);
    lemma_prod_mag(a.z as int, b.y as int, 0x40_0000_0000, 0x40_0000_0000);
    lemma_mag_div_le(
        (a.y as int) * (b.z as int) - (a.z as int) * (b.y as int),
        0x2000_0000_0000_0000_0000,
        SCALE as int,
    );
    lemma_mag_div_le(
        (a.z as int) * (b.x as int) - (a.x as int) * (b.z as int),
        0x2000_0000_0000_0000_0000,
        SCALE as int,
    );
    lemma_mag_div_le(
        (a.x as int) * (b.y as int) - (a.y as int) * (b.x as int),
        0x2000_0000_0000_0000_0000,
        SCALE as int,
    );
}

} // verus!
