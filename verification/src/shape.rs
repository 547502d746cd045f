//! Axis-aligned bounding boxes, hit records, and the shape tree.

use vstd::prelude::*;
use crate::fixed::{
    absi, cdiv, fdiv, lemma_abs_mul_le, lemma_cdiv_ordered, lemma_fdiv_ordered, div_floor, SCALE,
};
use crate::material::Material;
use crate::ray::Ray;
use crate::vec3::{dot_raw, Vec3, COORD_MAX, DIR_MAX};

verus! {

/// Largest magnitude allowed for a bounding-box corner component.
pub const BOX_MAX: i64 = 0x4_0001_0000;

/// Margin added to each side of a box when it is used to accept or prune
/// candidate intersections: a small fixed-point amount (1/64 of a unit)
/// covering the rounding of computed roots, so the box test never rejects
/// a true intersection. Reported bounding boxes are exact; the margin
/// exists only in the traversal.
pub const BOX_PAD: i64 = 1024;

/// The lesser of two integers.
pub open spec fn mini(a: int, b: int) -> int {
    if a <= b { a } else { b }
}

/// The greater of two integers.
pub open spec fn maxi(a: int, b: int) -> int {
    if a >= b { a } else { b }
}

/// An axis-aligned box given by two corners, `min` componentwise below `max`.
#[derive(Clone, Copy, PartialEq, Eq, Structural, Debug)]
pub struct Aabb {
    pub min: Vec3,
    pub max: Vec3,
}

impl Aabb {
    /// A valid box: ordered corners within the world bounds (with room
    /// left for the traversal margin below [`BOX_MAX`]).
    pub open spec fn wf(self) -> bool {
        &&& self.min.x <= self.max.x
        &&& self.min.y <= self.max.y
        &&& self.min.z <= self.max.z
        &&& self.min.bounded(0x4_0000_0000)
        &&& self.max.bounded(0x4_0000_0000)
    }

    /// This box contains the box `o`.
    pub open spec fn contains_box(self, o: Aabb) -> bool {
        &&& self.min.x <= o.min.x && o.max.x <= self.max.x
        &&& self.min.y <= o.min.y && o.max.y <= self.max.y
        &&& self.min.z <= o.min.z && o.max.z <= self.max.z
    }

    /// The smallest box containing both arguments: componentwise minimum
    /// of the minima and maximum of the maxima.
    pub open spec fn surround_spec(a: Aabb, b: Aabb) -> Aabb {
        Aabb {
            min: Vec3 {
                x: if a.min.x <= b.min.x { a.min.x } else { b.min.x },
                y: if a.min.y <= b.min.y { a.min.y } else { b.min.y },
                z: if a.min.z <= b.min.z { a.min.z } else { b.min.z },
            },
            max: Vec3 {
                x: if a.max.x >= b.max.x { a.max.x } else { b.max.x },
                y: if a.max.y >= b.max.y { a.max.y } else { b.max.y },
                z: if a.max.z >= b.max.z { a.max.z } else { b.max.z },
            },
        }
    }

    /// The smallest box containing both `self` and `another_box`.
    pub fn surrounding_box(self, another_box: Aabb) -> (r: Aabb)
        ensures
            r == Aabb::surround_spec(self, another_box),
    {
        Aabb {
            min: Vec3 {
                x: if self.min.x <= another_box.min.x { self.min.x } else { another_box.min.x },
                y: if self.min.y <= another_box.min.y { self.min.y } else { another_box.min.y },
                z: if self.min.z <= another_box.min.z { self.min.z } else { another_box.min.z },
            },
            max: Vec3 {
                x: if self.max.x >= another_box.max.x { self.max.x } else { another_box.max.x },
                y: if self.max.y >= another_box.max.y { self.max.y } else { another_box.max.y },
                z: if self.max.z >= another_box.max.z { self.max.z } else { another_box.max.z },
            },
        }
    }
}

/// The surrounding box contains both of its arguments, and is valid
/// whenever they are.
pub proof fn lemma_surrounding_box_contains(a: Aabb, b: Aabb)
    ensures
        Aabb::surround_spec(a, b).contains_box(a),
        Aabb::surround_spec(a, b).contains_box(b),
        a.wf() && b.wf() ==> Aabb::surround_spec(a, b).wf(),
{
}

/// Box containment is transitive.
pub proof fn lemma_contains_box_trans(a: Aabb, b: Aabb, c: Aabb)
    requires
        a.contains_box(b),
        b.contains_box(c),
    ensures
        a.contains_box(c),
{
}

/// Merging boxes is commutative.
pub proof fn lemma_surrounding_box_commutative(a: Aabb, b: Aabb)
    ensures
        Aabb::surround_spec(a, b) == Aabb::surround_spec(b, a),
{
}

/// Merging boxes is associative.
pub proof fn lemma_surrounding_box_associative(a: Aabb, b: Aabb, c: Aabb)
    ensures
        Aabb::surround_spec(Aabb::surround_spec(a, b), c)
            == Aabb::surround_spec(a, Aabb::surround_spec(b, c)),
{
}

/// The result of a successful intersection query: the parameter `t`, the
/// point reached, the unit surface normal opposing the ray, whether the
/// ray struck the outside of the surface, and the surface's material.
#[derive(Clone, Copy, PartialEq, Eq, Structural, Debug)]
pub struct HitRecord {
    pub t: i64,
    pub point: Vec3,
    pub normal: Vec3,
    pub front_face: bool,
    pub material: Material,
}

impl HitRecord {
    /// Record whether the ray approaches from outside (against the
    /// geometric outward normal) and store the normal flipped to oppose
    /// the ray.
    pub fn set_face_normal(&mut self, ray: &Ray, outward_normal: Vec3)
        requires
            ray.direction.bounded(DIR_MAX as int),
            outward_normal.bounded(4 * (SCALE as int)),
        ensures
            final(self).front_face == (dot_raw(ray.direction, outward_normal) < 0),
            final(self).front_face ==> final(self).normal == outward_normal,
            !final(self).front_face ==> {
                &&& final(self).normal.x as int == -(outward_normal.x as int)
                &&& final(self).normal.y as int == -(outward_normal.y as int)
                &&& final(self).normal.z as int == -(outward_normal.z as int)
            },
            final(self).t == old(self).t,
            final(self).point == old(self).point,
            final(self).material == old(self).material,
            dot_raw(ray.direction, final(self).normal) <= 0,
            dot_raw(ray.direction, outward_normal) != 0
                ==> dot_raw(ray.direction, final(self).normal) < 0,
    {
        let d = crate::vec3::dot_raw_exec(ray.direction, outward_normal);
        self.front_face = d < 0;
        if self.front_face {
            self.normal = outward_normal;
        } else {
            let n = outward_normal.neg();
            proof {
                crate::vec3::lemma_dot_raw_neg(ray.direction, outward_normal, n);
            }
            self.normal = n;
        }
    }
}

/// The box grown by the traversal margin on every side.
pub open spec fn pad_box(b: Aabb) -> Aabb {
    Aabb {
        min: Vec3 {
            x: (b.min.x - BOX_PAD) as i64,
            y: (b.min.y - BOX_PAD) as i64,
            z: (b.min.z - BOX_PAD) as i64,
        },
        max: Vec3 {
            x: (b.max.x + BOX_PAD) as i64,
            y: (b.max.y + BOX_PAD) as i64,
            z: (b.max.z + BOX_PAD) as i64,
        },
    }
}

/// Growing two nested boxes by the same margin keeps them nested.
pub proof fn lemma_pad_box_contains(outer: Aabb, inner: Aabb)
    requires
        outer.contains_box(inner),
        outer.min.bounded(0x4_0000_0000),
        outer.max.bounded(0x4_0000_0000),
        inner.min.bounded(0x4_0000_0000),
        inner.max.bounded(0x4_0000_0000),
    ensures
        pad_box(outer).contains_box(pad_box(inner)),
        pad_box(outer).min.bounded(BOX_MAX as int),
        pad_box(outer).max.bounded(BOX_MAX as int),
{
}

/// The entry parameter of the slab `[mn, mx]` on one axis, rounded down.
pub open spec fn axis_entry(o: int, d: int, mn: int, mx: int) -> int {
    if d > 0 {
        fdiv((mn - o) * (SCALE as int), d)
    } else {
        fdiv((mx - o) * (SCALE as int), d)
    }
}

/// The exit parameter of the slab `[mn, mx]` on one axis, rounded up.
pub open spec fn axis_exit(o: int, d: int, mn: int, mx: int) -> int {
    if d > 0 {
        cdiv((mx - o) * (SCALE as int), d)
    } else {
        cdiv((mn - o) * (SCALE as int), d)
    }
}

/// The start of the parameter interval in which a ray is inside the box:
/// the query start raised to each moving axis's entry.
pub open spec fn slab_lo(b: Aabb, r: Ray, lo: int) -> int {
    let l1 = if r.direction.x != 0 {
        maxi(lo, axis_entry(r.origin.x as int, r.direction.x as int, b.min.x as int, b.max.x as int))
    } else {
        lo
    };
    let l2 = if r.direction.y != 0 {
        maxi(l1, axis_entry(r.origin.y as int, r.direction.y as int, b.min.y as int, b.max.y as int))
    } else {
        l1
    };
    if r.direction.z != 0 {
        maxi(l2, axis_entry(r.origin.z as int, r.direction.z as int, b.min.z as int, b.max.z as int))
    } else {
        l2
    }
}

/// The end of the parameter interval in which a ray is inside the box:
/// the query end lowered to each moving axis's exit.
pub open spec fn slab_hi(b: Aabb, r: Ray, hi: int) -> int {
    let h1 = if r.direction.x != 0 {
        mini(hi, axis_exit(r.origin.x as int, r.direction.x as int, b.min.x as int, b.max.x as int))
    } else {
        hi
    };
    let h2 = if r.direction.y != 0 {
        mini(h1, axis_exit(r.origin.y as int, r.direction.y as int, b.min.y as int, b.max.y as int))
    } else {
        h1
    };
    if r.direction.z != 0 {
        mini(h2, axis_exit(r.origin.z as int, r.direction.z as int, b.min.z as int, b.max.z as int))
    } else {
        h2
    }
}

/// The slab test: the ray passes through the box somewhere in `[lo, hi)`.
/// An axis on which the ray does not move must already start inside the slab.
pub open spec fn slab_hit(b: Aabb, r: Ray, lo: int, hi: int) -> bool {
    &&& (r.direction.x != 0 || (b.min.x <= r.origin.x && r.origin.x <= b.max.x))
    &&& (r.direction.y != 0 || (b.min.y <= r.origin.y && r.origin.y <= b.max.y))
    &&& (r.direction.z != 0 || (b.min.z <= r.origin.z && r.origin.z <= b.max.z))
    &&& slab_lo(b, r, lo) < slab_hi(b, r, hi)
}

/// Entry parameters only drop and exit parameters only rise when the box
/// grows, so a slab hit against an inner box is a slab hit against any
/// containing box, for any containing parameter range.
pub proof fn lemma_slab_monotone(inner: Aabb, outer: Aabb, r: Ray, lo1: int, hi1: int, lo2: int, hi2: int)
    requires
        outer.contains_box(inner),
        lo2 <= lo1,
        hi1 <= hi2,
        slab_hit(inner, r, lo1, hi1),
    ensures
        slab_hit(outer, r, lo2, hi2),
{
    lemma_axis_monotone(
        r.origin.x as int, r.direction.x as int,
        outer.min.x as int, inner.min.x as int, inner.max.x as int, outer.max.x as int,
    );
    lemma_axis_monotone(
        r.origin.y as int, r.direction.y as int,
        outer.min.y as int, inner.min.y as int, inner.max.y as int, outer.max.y as int,
    );
    lemma_axis_monotone(
        r.origin.z as int, r.direction.z as int,
        outer.min.z as int, inner.min.z as int, inner.max.z as int, outer.max.z as int,
    );
}

/// One axis of the slab monotonicity: widening the slab lowers the entry
/// and raises the exit.
proof fn lemma_axis_monotone(o: int, d: int, mn2: int, mn1: int, mx1: int, mx2: int)
    requires
        mn2 <= mn1,
        mx1 <= mx2,
    ensures
        d != 0 ==> axis_entry(o, d, mn2, mx2) <= axis_entry(o, d, mn1, mx1),
        d != 0 ==> axis_exit(o, d, mn1, mx1) <= axis_exit(o, d, mn2, mx2),
{
    if d > 0 {
        lemma_mul_scale_ordered(mn2 - o, mn1 - o);
        lemma_fdiv_ordered((mn2 - o) * (SCALE as int), (mn1 - o) * (SCALE as int), d);
        lemma_mul_scale_ordered(mx1 - o, mx2 - o);
        lemma_cdiv_ordered((mx1 - o) * (SCALE as int), (mx2 - o) * (SCALE as int), d);
    } else if d < 0 {
        lemma_mul_scale_ordered(mx1 - o, mx2 - o);
        lemma_fdiv_neg_ordered((mx1 - o) * (SCALE as int), (mx2 - o) * (SCALE as int), d);
        lemma_mul_scale_ordered(mn2 - o, mn1 - o);
        lemma_cdiv_neg_ordered((mn2 - o) * (SCALE as int), (mn1 - o) * (SCALE as int), d);
    }
}

/// Scaling preserves order.
proof fn lemma_mul_scale_ordered(a1: int, a2: int)
    requires
        a1 <= a2,
    ensures
        a1 * (SCALE as int) <= a2 * (SCALE as int),
{
    assert(a1 * (SCALE as int) <= a2 * (SCALE as int)) by (nonlinear_arith)
        requires a1 <= a2;
}

/// Floor division by a negative divisor reverses order.
proof fn lemma_fdiv_neg_ordered(a1: int, a2: int, b: int)
    requires
        b < 0,
        a1 <= a2,
    ensures
        fdiv(a2, b) <= fdiv(a1, b),
{
    lemma_fdiv_ordered(-a2, -a1, -b);
}

/// Ceiling division by a negative divisor reverses order.
proof fn lemma_cdiv_neg_ordered(a1: int, a2: int, b: int)
    requires
        b < 0,
        a1 <= a2,
    ensures
        cdiv(a2, b) <= cdiv(a1, b),
{
    lemma_fdiv_neg_ordered(-a2, -a1, b);
}

impl Aabb {
    /// Whether the ray passes through this box within `[t_start, t_end)`.
    pub fn hit(&self, ray: &Ray, t_start: i64, t_end: i64) -> (r: bool)
        requires
            self.min.bounded(BOX_MAX as int),
            self.max.bounded(BOX_MAX as int),
            ray.origin.bounded(COORD_MAX as int),
            ray.direction.bounded(DIR_MAX as int),
        ensures
            r == slab_hit(*self, *ray, t_start as int, t_end as int),
    {
        let mut lo: i128 = t_start as i128;
        let mut hi: i128 = t_end as i128;

        // x axis
        if ray.direction.x == 0 {
            if ray.origin.x < self.min.x || ray.origin.x > self.max.x {
                return false;
            }
        } else {
            let (e, x) = axis_params(ray.origin.x, ray.direction.x, self.min.x, self.max.x);
            if e > lo {
                lo = e;
            }
            if x < hi {
                hi = x;
            }
            if lo >= hi {
                proof {
                    assert(slab_lo(*self, *ray, t_start as int) >= lo as int);
                    assert(slab_hi(*self, *ray, t_end as int) <= hi as int);
                }
                return false;
            }
        }
        // y axis
        if ray.direction.y == 0 {
            if ray.origin.y < self.min.y || ray.origin.y > self.max.y {
                return false;
            }
        } else {
            let (e, x) = axis_params(ray.origin.y, ray.direction.y, self.min.y, self.max.y);
            if e > lo {
                lo = e;
            }
            if x < hi {
                hi = x;
            }
            if lo >= hi {
                proof {
                    assert(slab_lo(*self, *ray, t_start as int) >= lo as int);
                    assert(slab_hi(*self, *ray, t_end as int) <= hi as int);
                }
                return false;
            }
        }
        // z axis
        if ray.direction.z == 0 {
            if ray.origin.z < self.min.z || ray.origin.z > self.max.z {
                return false;
            }
        } else {
            let (e, x) = axis_params(ray.origin.z, ray.direction.z, self.min.z, self.max.z);
            if e > lo {
                lo = e;
            }
            if x < hi {
                hi = x;
            }
        }
        lo < hi
    }
}

/// The entry and exit parameters of one slab axis, exactly.
fn axis_params(o: i64, d: i64, mn: i64, mx: i64) -> (r: (i128, i128))
    requires
        d != 0,
        absi(o as int) <= COORD_MAX as int,
        absi(d as int) <= DIR_MAX as int,
        absi(mn as int) <= BOX_MAX as int,
        absi(mx as int) <= BOX_MAX as int,
    ensures
        r.0 == axis_entry(o as int, d as int, mn as int, mx as int),
        r.1 == axis_exit(o as int, d as int, mn as int, mx as int),
{
    proof {
        lemma_abs_mul_le((mn - o) as int, SCALE as int, 0x7_0000_0000, SCALE as int);
        lemma_abs_mul_le((mx - o) as int, SCALE as int, 0x7_0000_0000, SCALE as int);
    }
    let nmn: i128 = ((mn - o) as i128) * (SCALE as i128);
    let nmx: i128 = ((mx - o) as i128) * (SCALE as i128);
    if d > 0 {
        proof {
            crate::fixed::lemma_fdiv_range(-(nmx as int), d as int);
        }
        let e = div_floor(nmn, d as i128);
        let x = -div_floor(-nmx, d as i128);
        (e, x)
    } else {
        proof {
            crate::fixed::lemma_fdiv_range(nmn as int, -(d as int));
        }
        let e = div_floor(-nmx, -(d as i128));
        let x = -div_floor(nmn, -(d as i128));
        proof {
            assert(fdiv(-(nmx as int), -(d as int)) == fdiv(nmx as int, d as int));
            assert(cdiv(nmn as int, d as int) == -fdiv(-(nmn as int), d as int));
            assert(fdiv(-(nmn as int), d as int) == fdiv(nmn as int, -(d as int)));
        }
        (e, x)
    }
}

} // verus!

use crate::sphere::{
    is_sphere_hit, lemma_sphere_hit_narrow_none, lemma_sphere_hit_slab, lemma_sphere_hit_widen,
    sphere_hit_t, Sphere,
};
use crate::ray::T_MAX;

verus! {

/// The closed union of shapes: a primitive, an unordered list, or a
/// bounding-volume node.
pub enum Shape {
    Sphere(Sphere),
    List(ShapeList),
    Bvh(BvhNode),
}

/// A flat collection of shapes queried one after the other.
pub struct ShapeList(pub Vec<Shape>);

/// A binary acceleration node whose box bounds both children.
pub struct BvhNode {
    pub left: Box<Shape>,
    pub right: Box<Shape>,
    pub bounding_box: Aabb,
}

/// The sequence of all spheres in a shape tree, left to right.
pub open spec fn spheres_of(s: Shape) -> Seq<Sphere>
    decreases s, 1int,
{
    match s {
        Shape::Sphere(sp) => seq![sp],
        Shape::List(l) => spheres_prefix(l.0@, l.0@.len() as int),
        Shape::Bvh(b) => spheres_of(*b.left) + spheres_of(*b.right),
    }
}

/// The spheres of the first `n` entries of a shape sequence.
pub open spec fn spheres_prefix(ss: Seq<Shape>, n: int) -> Seq<Sphere>
    decreases ss, n,
{
    if n <= 0 || n > ss.len() {
        Seq::empty()
    } else {
        spheres_prefix(ss, n - 1) + spheres_of(ss[n - 1])
    }
}

/// The bounding box of a shape tree: always present for a sphere or a
/// bounding-volume node, present for a list only when the list is
/// non-empty and all entries have one.
pub open spec fn shape_bbox(s: Shape) -> Option<Aabb>
    decreases s, 1int,
{
    match s {
        Shape::Sphere(sp) => Some(sp.box_spec()),
        Shape::List(l) => bbox_prefix(l.0@, l.0@.len() as int),
        Shape::Bvh(b) => Some(b.bounding_box),
    }
}

/// The merged bounding box of the first `n` entries of a shape sequence.
pub open spec fn bbox_prefix(ss: Seq<Shape>, n: int) -> Option<Aabb>
    decreases ss, n,
{
    if n <= 0 || n > ss.len() {
        None
    } else if n == 1 {
        shape_bbox(ss[0])
    } else {
        match (bbox_prefix(ss, n - 1), shape_bbox(ss[n - 1])) {
            (Some(a), Some(b)) => Some(Aabb::surround_spec(a, b)),
            _ => None,
        }
    }
}

/// An optional box lies inside `outer` (and is present).
pub open spec fn opt_box_contains(outer: Aabb, o: Option<Aabb>) -> bool {
    match o {
        Some(bb) => outer.contains_box(bb),
        None => false,
    }
}

/// A well-formed shape tree: every sphere is valid, and every
/// bounding-volume node has a valid box containing both children's boxes.
pub open spec fn shape_wf(s: Shape) -> bool
    decreases s, 1int,
{
    match s {
        Shape::Sphere(sp) => sp.wf(),
        Shape::List(l) => forall|i: int|
            0 <= i < l.0@.len() ==> shape_wf(#[trigger] l.0@[i]),
        Shape::Bvh(b) => {
            &&& shape_wf(*b.left)
            &&& shape_wf(*b.right)
            &&& b.bounding_box.wf()
            &&& opt_box_contains(b.bounding_box, shape_bbox(*b.left))
            &&& opt_box_contains(b.bounding_box, shape_bbox(*b.right))
        },
    }
}

/// What an intersection query over a sequence of spheres returns: a record
/// produced by one of the spheres, no farther than any sphere's own hit;
/// or nothing, when no sphere hits.
pub open spec fn closest_hit_post(
    ss: Seq<Sphere>,
    r: Ray,
    lo: int,
    hi: int,
    res: Option<HitRecord>,
) -> bool {
    match res {
        Some(rec) => {
            &&& exists|i: int| 0 <= i < ss.len() && is_sphere_hit(#[trigger] ss[i], r, lo, hi, rec)
            &&& forall|i: int|
                0 <= i < ss.len() ==> (sphere_hit_t(#[trigger] ss[i], r, lo, hi) matches Some(t)
                    ==> rec.t <= t)
        },
        None => forall|i: int|
            0 <= i < ss.len() ==> sphere_hit_t(#[trigger] ss[i], r, lo, hi) is None,
    }
}

/// Any two results satisfying the closest-hit contract for the same query
/// agree on whether there is a hit and on its parameter: the contract pins
/// the closest hit up to ties at equal `t`.
pub proof fn lemma_closest_hit_unique(
    ss: Seq<Sphere>,
    r: Ray,
    lo: int,
    hi: int,
    a: Option<HitRecord>,
    b: Option<HitRecord>,
)
    requires
        closest_hit_post(ss, r, lo, hi, a),
        closest_hit_post(ss, r, lo, hi, b),
    ensures
        a is Some <==> b is Some,
        a matches Some(ra) ==> (b matches Some(rb) ==> ra.t == rb.t),
{
    match (a, b) {
        (Some(ra), Some(rb)) => {
            let i = choose|i: int| 0 <= i < ss.len() && is_sphere_hit(ss[i], r, lo, hi, ra);
            let j = choose|j: int| 0 <= j < ss.len() && is_sphere_hit(ss[j], r, lo, hi, rb);
            assert(sphere_hit_t(ss[i], r, lo, hi) == Some(ra.t as int));
            assert(sphere_hit_t(ss[j], r, lo, hi) == Some(rb.t as int));
            assert(rb.t <= ra.t);
            assert(ra.t <= rb.t);
        },
        (Some(ra), None) => {
            let i = choose|i: int| 0 <= i < ss.len() && is_sphere_hit(ss[i], r, lo, hi, ra);
            assert(sphere_hit_t(ss[i], r, lo, hi) is None);
            assert(false);
        },
        (None, Some(rb)) => {
            let j = choose|j: int| 0 <= j < ss.len() && is_sphere_hit(ss[j], r, lo, hi, rb);
            assert(sphere_hit_t(ss[j], r, lo, hi) is None);
            assert(false);
        },
        (None, None) => {},
    }
}

/// Widening the query range preserves what a record is.
pub proof fn lemma_is_hit_widen(s: Sphere, r: Ray, lo: int, hi1: int, hi2: int, rec: HitRecord)
    requires
        hi1 <= hi2,
        is_sphere_hit(s, r, lo, hi1, rec),
    ensures
        is_sphere_hit(s, r, lo, hi2, rec),
{
    lemma_sphere_hit_widen(s, r, lo, hi1, hi2, rec.t as int);
}

/// Folding one more child into a running closest hit: narrowing the query
/// end to the best hit so far keeps the combined result the closest hit
/// over the concatenation.
pub proof fn lemma_combine_closest(
    prefix: Seq<Sphere>,
    child: Seq<Sphere>,
    r: Ray,
    lo: int,
    hi: int,
    old_res: Option<HitRecord>,
    cur_end: int,
    child_res: Option<HitRecord>,
)
    requires
        closest_hit_post(prefix, r, lo, hi, old_res),
        cur_end == (match old_res {
            Some(rec) => rec.t as int,
            None => hi,
        }),
        old_res matches Some(rec) ==> lo <= rec.t < hi,
        closest_hit_post(child, r, lo, cur_end, child_res),
    ensures
        closest_hit_post(
            prefix + child,
            r,
            lo,
            hi,
            if child_res is Some { child_res } else { old_res },
        ),
{
    let all = prefix + child;
    let pl = prefix.len() as int;
    match child_res {
        Some(c) => {
            let i = choose|i: int| 0 <= i < child.len() && is_sphere_hit(child[i], r, lo, cur_end, c);
            lemma_sphere_hit_slab(child[i], r, lo, cur_end, c.t as int);
            lemma_is_hit_widen(child[i], r, lo, cur_end, hi, c);
            assert(all[pl + i] == child[i]);
            assert(0 <= pl + i < all.len() && is_sphere_hit(all[pl + i], r, lo, hi, c));
            assert forall|j: int|
                0 <= j < all.len() implies (sphere_hit_t(#[trigger] all[j], r, lo, hi) matches Some(t)
                    ==> c.t <= t) by {
                if j < pl {
                    assert(all[j] == prefix[j]);
                    if sphere_hit_t(prefix[j], r, lo, hi) is Some {
                        let t = sphere_hit_t(prefix[j], r, lo, hi)->Some_0;
                        match old_res {
                            Some(o) => {
                                assert(o.t <= t);
                            },
                            None => {},
                        }
                    }
                } else {
                    assert(all[j] == child[j - pl]);
                    if sphere_hit_t(child[j - pl], r, lo, hi) is Some {
                        let t = sphere_hit_t(child[j - pl], r, lo, hi)->Some_0;
                        match sphere_hit_t(child[j - pl], r, lo, cur_end) {
                            Some(tn) => {
                                lemma_sphere_hit_widen(child[j - pl], r, lo, cur_end, hi, tn);
                                assert(tn == t);
                            },
                            None => {
                                lemma_sphere_hit_narrow_none(child[j - pl], r, lo, cur_end, hi, t);
                            },
                        }
                    }
                }
            }
        },
        None => {
            match old_res {
                Some(o) => {
                    let i = choose|i: int| 0 <= i < prefix.len()
                        && is_sphere_hit(prefix[i], r, lo, hi, o);
                    assert(all[i] == prefix[i]);
                    assert forall|j: int|
                        0 <= j < all.len() implies (sphere_hit_t(#[trigger] all[j], r, lo, hi)
                            matches Some(t) ==> o.t <= t) by {
                        if j < pl {
                            assert(all[j] == prefix[j]);
                        } else {
                            assert(all[j] == child[j - pl]);
                            if sphere_hit_t(child[j - pl], r, lo, hi) is Some {
                                let t = sphere_hit_t(child[j - pl], r, lo, hi)->Some_0;
                                lemma_sphere_hit_narrow_none(child[j - pl], r, lo, cur_end, hi, t);
                            }
                        }
                    }
                },
                None => {
                    assert forall|j: int|
                        0 <= j < all.len() implies sphere_hit_t(#[trigger] all[j], r, lo, hi)
                            is None by {
                        if j < pl {
                            assert(all[j] == prefix[j]);
                        } else {
                            assert(all[j] == child[j - pl]);
                        }
                    }
                },
            }
        },
    }
}

} // verus!

verus! {

/// The box `bb` contains the bounding box of every sphere in `ss`.
pub open spec fn covers_all(bb: Aabb, ss: Seq<Sphere>) -> bool {
    forall|i: int| 0 <= i < ss.len() ==> bb.contains_box(#[trigger] ss[i].box_spec())
}

/// Every sphere of a well-formed shape tree lies inside the tree's
/// bounding box, when the tree has one.
pub proof fn lemma_bbox_covers(s: Shape)
    requires
        shape_wf(s),
    ensures
        shape_bbox(s) is Some ==> covers_all(shape_bbox(s)->Some_0, spheres_of(s)),
    decreases s, 1int,
{
    match s {
        Shape::Sphere(sp) => {
            assert forall|i: int|
                0 <= i < spheres_of(s).len() implies sp.box_spec().contains_box(
                    #[trigger] spheres_of(s)[i].box_spec(),
                ) by {
                assert(spheres_of(s)[i] == sp);
            }
        },
        Shape::List(l) => {
            lemma_bbox_covers_prefix(l.0@, l.0@.len() as int);
        },
        Shape::Bvh(b) => {
            lemma_bbox_covers(*b.left);
            lemma_bbox_covers(*b.right);
            let lb = shape_bbox(*b.left)->Some_0;
            let rb = shape_bbox(*b.right)->Some_0;
            let ls = spheres_of(*b.left);
            let rs = spheres_of(*b.right);
            assert forall|i: int|
                0 <= i < spheres_of(s).len() implies b.bounding_box.contains_box(
                    #[trigger] spheres_of(s)[i].box_spec(),
                ) by {
                if i < ls.len() {
                    assert(spheres_of(s)[i] == ls[i]);
                    assert(lb.contains_box(ls[i].box_spec()));
                    lemma_contains_box_trans(b.bounding_box, lb, ls[i].box_spec());
                } else {
                    assert(spheres_of(s)[i] == rs[i - ls.len()]);
                    assert(rb.contains_box(rs[i - ls.len()].box_spec()));
                    lemma_contains_box_trans(b.bounding_box, rb, rs[i - ls.len()].box_spec());
                }
            }
        },
    }
}

/// The prefix form of the covering lemma, for lists.
pub proof fn lemma_bbox_covers_prefix(ss: Seq<Shape>, n: int)
    requires
        forall|i: int| 0 <= i < ss.len() ==> shape_wf(#[trigger] ss[i]),
        n <= ss.len(),
    ensures
        bbox_prefix(ss, n) is Some ==> covers_all(bbox_prefix(ss, n)->Some_0, spheres_prefix(ss, n)),
    decreases ss, n,
{
    if n == 1 {
        lemma_bbox_covers(ss[0]);
        assert(spheres_prefix(ss, 1) == spheres_prefix(ss, 0) + spheres_of(ss[0]));
        if bbox_prefix(ss, 1) is Some {
            let bb = bbox_prefix(ss, 1)->Some_0;
            assert forall|i: int|
                0 <= i < spheres_prefix(ss, 1).len() implies bb.contains_box(
                    #[trigger] spheres_prefix(ss, 1)[i].box_spec(),
                ) by {
                assert(spheres_prefix(ss, 1)[i] == spheres_of(ss[0])[i]);
                assert(bb.contains_box(spheres_of(ss[0])[i].box_spec()));
            }
        }
    } else if n > 1 {
        lemma_bbox_covers_prefix(ss, n - 1);
        lemma_bbox_covers(ss[n - 1]);
        if bbox_prefix(ss, n) is Some {
            let bb = bbox_prefix(ss, n)->Some_0;
            let a = bbox_prefix(ss, n - 1)->Some_0;
            let cb = shape_bbox(ss[n - 1])->Some_0;
            lemma_surrounding_box_contains(a, cb);
            let ps = spheres_prefix(ss, n - 1);
            let cs = spheres_of(ss[n - 1]);
            assert forall|i: int|
                0 <= i < spheres_prefix(ss, n).len() implies bb.contains_box(
                    #[trigger] spheres_prefix(ss, n)[i].box_spec(),
                ) by {
                if i < ps.len() {
                    assert(spheres_prefix(ss, n)[i] == ps[i]);
                    assert(a.contains_box(ps[i].box_spec()));
                    lemma_contains_box_trans(bb, a, ps[i].box_spec());
                } else {
                    assert(spheres_prefix(ss, n)[i] == cs[i - ps.len()]);
                    assert(cb.contains_box(cs[i - ps.len()].box_spec()));
                    lemma_contains_box_trans(bb, cb, cs[i - ps.len()].box_spec());
                }
            }
        }
    }
}

/// Every sphere in the sequence is well-formed.
pub open spec fn all_spheres_wf(ss: Seq<Sphere>) -> bool {
    forall|i: int| 0 <= i < ss.len() ==> (#[trigger] ss[i]).wf()
}

/// Every sphere of a well-formed shape tree is itself well-formed.
pub proof fn lemma_spheres_wf(s: Shape)
    requires
        shape_wf(s),
    ensures
        all_spheres_wf(spheres_of(s)),
    decreases s, 1int,
{
    match s {
        Shape::Sphere(sp) => {
            assert forall|i: int| 0 <= i < spheres_of(s).len() implies (
                #[trigger] spheres_of(s)[i]).wf() by {
                assert(spheres_of(s)[i] == sp);
            }
        },
        Shape::List(l) => {
            lemma_spheres_wf_prefix(l.0@, l.0@.len() as int);
        },
        Shape::Bvh(b) => {
            lemma_spheres_wf(*b.left);
            lemma_spheres_wf(*b.right);
            let ls = spheres_of(*b.left);
            let rs = spheres_of(*b.right);
            assert forall|i: int| 0 <= i < spheres_of(s).len() implies (
                #[trigger] spheres_of(s)[i]).wf() by {
                if i < ls.len() {
                    assert(spheres_of(s)[i] == ls[i]);
                } else {
                    assert(spheres_of(s)[i] == rs[i - ls.len()]);
                }
            }
        },
    }
}

/// The prefix form of the sphere validity lemma, for lists.
pub proof fn lemma_spheres_wf_prefix(ss: Seq<Shape>, n: int)
    requires
        forall|i: int| 0 <= i < ss.len() ==> shape_wf(#[trigger] ss[i]),
        n <= ss.len(),
    ensures
        all_spheres_wf(spheres_prefix(ss, n)),
    decreases ss, n,
{
    if n > 0 {
        lemma_spheres_wf_prefix(ss, n - 1);
        lemma_spheres_wf(ss[n - 1]);
        let ps = spheres_prefix(ss, n - 1);
        let cs = spheres_of(ss[n - 1]);
        assert forall|i: int| 0 <= i < spheres_prefix(ss, n).len() implies (
            #[trigger] spheres_prefix(ss, n)[i]).wf() by {
            if i < ps.len() {
                assert(spheres_prefix(ss, n)[i] == ps[i]);
            } else {
                assert(spheres_prefix(ss, n)[i] == cs[i - ps.len()]);
            }
        }
    }
}

/// The bounding box of a well-formed shape tree, when present, is valid.
pub proof fn lemma_bbox_wf(s: Shape)
    requires
        shape_wf(s),
    ensures
        shape_bbox(s) matches Some(bb) ==> bb.wf(),
    decreases s, 1int,
{
    match s {
        Shape::Sphere(sp) => {},
        Shape::List(l) => {
            lemma_bbox_wf_prefix(l.0@, l.0@.len() as int);
        },
        Shape::Bvh(b) => {},
    }
}

/// The prefix form of the box validity lemma, for lists.
pub proof fn lemma_bbox_wf_prefix(ss: Seq<Shape>, n: int)
    requires
        forall|i: int| 0 <= i < ss.len() ==> shape_wf(#[trigger] ss[i]),
        n <= ss.len(),
    ensures
        bbox_prefix(ss, n) matches Some(bb) ==> bb.wf(),
    decreases ss, n,
{
    if n == 1 {
        lemma_bbox_wf(ss[0]);
    } else if n > 1 {
        lemma_bbox_wf_prefix(ss, n - 1);
        lemma_bbox_wf(ss[n - 1]);
        if bbox_prefix(ss, n) is Some {
            lemma_surrounding_box_contains(
                bbox_prefix(ss, n - 1)->Some_0,
                shape_bbox(ss[n - 1])->Some_0,
            );
        }
    }
}

impl Shape {
    /// The closest intersection of the ray with any sphere of this shape
    /// tree in `[t_start, t_end)`, or nothing when no sphere hits there.
    pub fn hit(&self, ray: &Ray, t_start: i64, t_end: i64) -> (r: Option<HitRecord>)
        requires
            shape_wf(*self),
            ray.origin.bounded(COORD_MAX as int),
            ray.direction.bounded(DIR_MAX as int),
            0 <= t_start,
            t_end <= T_MAX,
        ensures
            closest_hit_post(spheres_of(*self), *ray, t_start as int, t_end as int, r),
        decreases *self, 1int,
    {
        match self {
            Shape::Sphere(shape) => {
                let r = shape.hit(ray, t_start, t_end);
                proof {
                    let ss = spheres_of(*self);
                    assert(ss == seq![*shape]);
                    if r is Some {
                        assert(is_sphere_hit(ss[0], *ray, t_start as int, t_end as int, r->Some_0));
                    }
                }
                r
            },
            Shape::List(shape) => shape.hit(ray, t_start, t_end),
            Shape::Bvh(shape) => shape.hit(ray, t_start, t_end),
        }
    }

    /// The bounding box of this shape tree, when it has one.
    pub fn bounding_box(&self) -> (r: Option<Aabb>)
        requires
            shape_wf(*self),
        ensures
            r == shape_bbox(*self),
        decreases *self, 1int,
    {
        match self {
            Shape::Sphere(shape) => shape.bounding_box(),
            Shape::List(shape) => shape.bounding_box(),
            Shape::Bvh(shape) => shape.bounding_box(),
        }
    }
}

impl ShapeList {
    /// The closest hit over the entries, narrowing the range end to the
    /// best hit found so far.
    fn hit(&self, ray: &Ray, t_start: i64, t_end: i64) -> (r: Option<HitRecord>)
        requires
            forall|i: int| 0 <= i < self.0@.len() ==> shape_wf(#[trigger] self.0@[i]),
            ray.origin.bounded(COORD_MAX as int),
            ray.direction.bounded(DIR_MAX as int),
            0 <= t_start,
            t_end <= T_MAX,
        ensures
            closest_hit_post(
                spheres_prefix(self.0@, self.0@.len() as int),
                *ray,
                t_start as int,
                t_end as int,
                r,
            ),
        decreases *self, 0int,
    {
        let mut hit_record: Option<HitRecord> = None;
        let mut range_end: i64 = t_end;
        let n = self.0.len();
        assert(spheres_prefix(self.0@, 0) =~= Seq::<Sphere>::empty());
        for idx in 0..n
            invariant
                n == self.0@.len(),
                forall|i: int| 0 <= i < self.0@.len() ==> shape_wf(#[trigger] self.0@[i]),
                ray.origin.bounded(COORD_MAX as int),
                ray.direction.bounded(DIR_MAX as int),
                0 <= t_start,
                t_end <= T_MAX,
                closest_hit_post(
                    spheres_prefix(self.0@, idx as int),
                    *ray,
                    t_start as int,
                    t_end as int,
                    hit_record,
                ),
                range_end as int == (match hit_record {
                    Some(rec) => rec.t as int,
                    None => t_end as int,
                }),
                hit_record matches Some(rec) ==> t_start <= rec.t < t_end,
            decreases n - idx,
        {
            let entity = &self.0[idx];
            let h = entity.hit(ray, t_start, range_end);
            proof {
                lemma_combine_closest(
                    spheres_prefix(self.0@, idx as int),
                    spheres_of(self.0@[idx as int]),
                    *ray,
                    t_start as int,
                    t_end as int,
                    hit_record,
                    range_end as int,
                    h,
                );
                match h {
                    Some(c) => {
                        let child = spheres_of(self.0@[idx as int]);
                        let i = choose|i: int| 0 <= i < child.len()
                            && is_sphere_hit(child[i], *ray, t_start as int, range_end as int, c);
                        lemma_sphere_hit_slab(child[i], *ray, t_start as int, range_end as int, c.t as int);
                    },
                    None => {},
                }
            }
            if h.is_some() {
                hit_record = h;
            }
            if let Some(rec) = &hit_record {
                range_end = rec.t;
            }
        }
        hit_record
    }

    /// The merged bounding box of the entries: nothing for an empty list
    /// or when any entry has none.
    fn bounding_box(&self) -> (r: Option<Aabb>)
        requires
            forall|i: int| 0 <= i < self.0@.len() ==> shape_wf(#[trigger] self.0@[i]),
        ensures
            r == bbox_prefix(self.0@, self.0@.len() as int),
        decreases *self, 0int,
    {
        let mut acc: Option<Aabb> = None;
        let n = self.0.len();
        for idx in 0..n
            invariant
                n == self.0@.len(),
                forall|i: int| 0 <= i < self.0@.len() ==> shape_wf(#[trigger] self.0@[i]),
                acc == bbox_prefix(self.0@, idx as int),
            decreases n - idx,
        {
            let b = self.0[idx].bounding_box();
            acc = if idx == 0 {
                b
            } else {
                match (acc, b) {
                    (Some(a), Some(bb)) => Some(a.surrounding_box(bb)),
                    _ => None,
                }
            };
        }
        acc
    }
}

impl BvhNode {
    /// Skip the whole subtree when the ray misses this node's box; else
    /// query the left child and then the right child over the narrowed
    /// range, preferring the right (closer) result.
    fn hit(&self, ray: &Ray, t_start: i64, t_end: i64) -> (r: Option<HitRecord>)
        requires
            shape_wf(Shape::Bvh(BvhNode { left: self.left, right: self.right, bounding_box: self.bounding_box })),
            ray.origin.bounded(COORD_MAX as int),
            ray.direction.bounded(DIR_MAX as int),
            0 <= t_start,
            t_end <= T_MAX,
        ensures
            closest_hit_post(
                spheres_of(*self.left) + spheres_of(*self.right),
                *ray,
                t_start as int,
                t_end as int,
                r,
            ),
        decreases *self, 0int,
    {
        let ghost all = spheres_of(*self.left) + spheres_of(*self.right);
        let guard = Aabb {
            min: Vec3 {
                x: self.bounding_box.min.x - BOX_PAD,
                y: self.bounding_box.min.y - BOX_PAD,
                z: self.bounding_box.min.z - BOX_PAD,
            },
            max: Vec3 {
                x: self.bounding_box.max.x + BOX_PAD,
                y: self.bounding_box.max.y + BOX_PAD,
                z: self.bounding_box.max.z + BOX_PAD,
            },
        };
        proof {
            assert(guard == pad_box(self.bounding_box));
        }
        if !guard.hit(ray, t_start, t_end) {
            proof {
                lemma_bbox_covers(*self.left);
                lemma_bbox_covers(*self.right);
                lemma_spheres_wf(*self.left);
                lemma_spheres_wf(*self.right);
                let ls = spheres_of(*self.left);
                let rs = spheres_of(*self.right);
                assert(covers_all(shape_bbox(*self.left)->Some_0, ls));
                assert(covers_all(shape_bbox(*self.right)->Some_0, rs));
                assert forall|i: int|
                    0 <= i < all.len() implies sphere_hit_t(
                    #[trigger] all[i],
                    *ray,
                    t_start as int,
                    t_end as int,
                ) is None by {
                    let sp = all[i];
                    if sphere_hit_t(sp, *ray, t_start as int, t_end as int) is Some {
                        let t = sphere_hit_t(sp, *ray, t_start as int, t_end as int)->Some_0;
                        lemma_sphere_hit_slab(sp, *ray, t_start as int, t_end as int, t);
                        if i < ls.len() {
                            assert(sp == ls[i]);
                            assert(sp.wf());
                            lemma_contains_box_trans(
                                self.bounding_box,
                                shape_bbox(*self.left)->Some_0,
                                sp.box_spec(),
                            );
                        } else {
                            assert(sp == rs[i - ls.len()]);
                            assert(sp.wf());
                            lemma_contains_box_trans(
                                self.bounding_box,
                                shape_bbox(*self.right)->Some_0,
                                sp.box_spec(),
                            );
                        }
                        lemma_pad_box_contains(self.bounding_box, sp.box_spec());
                        lemma_slab_monotone(
                            pad_box(sp.box_spec()),
                            pad_box(self.bounding_box),
                            *ray,
                            t_start as int,
                            t_end as int,
                            t_start as int,
                            t_end as int,
                        );
                        assert(false);
                    }
                }
            }
            return None;
        }
        let hit_left = self.left.hit(ray, t_start, t_end);
        let range_end: i64 = if let Some(rec) = &hit_left {
            proof {
                let ls = spheres_of(*self.left);
                let i = choose|i: int| 0 <= i < ls.len()
                    && is_sphere_hit(ls[i], *ray, t_start as int, t_end as int, *rec);
                lemma_sphere_hit_slab(ls[i], *ray, t_start as int, t_end as int, rec.t as int);
            }
            rec.t
        } else {
            t_end
        };
        let hit_right = self.right.hit(ray, t_start, range_end);
        proof {
            lemma_combine_closest(
                spheres_of(*self.left),
                spheres_of(*self.right),
                *ray,
                t_start as int,
                t_end as int,
                hit_left,
                range_end as int,
                hit_right,
            );
        }
        if hit_right.is_some() {
            hit_right
        } else {
            hit_left
        }
    }

    /// A bounding-volume node always has a box.
    fn bounding_box(&self) -> (r: Option<Aabb>)
        ensures
            r == Some(self.bounding_box),
    {
        Some(self.bounding_box)
    }
}

} // verus!

use crate::rng::rand_range;
use vstd::pervasive::unreached;
use vstd::multiset::Multiset;
use vstd::seq_lib::group_to_multiset_ensures;

verus! {

impl Shape {
    /// A structurally equal copy of this shape tree.
    pub fn duplicate(&self) -> (r: Shape)
        ensures
            spheres_of(r) == spheres_of(*self),
            shape_bbox(r) == shape_bbox(*self),
            shape_wf(*self) ==> shape_wf(r),
        decreases *self, 1int,
    {
        match self {
            Shape::Sphere(sp) => Shape::Sphere(*sp),
            Shape::List(l) => {
                let mut v: Vec<Shape> = Vec::new();
                let n = l.0.len();
                #[verifier::loop_isolation(false)]
                for i in 0..n
                    invariant
                        v@.len() == i,
                        forall|j: int| 0 <= j < i ==> spheres_of(#[trigger] v@[j]) == spheres_of(l.0@[j]),
                        forall|j: int| 0 <= j < i ==> shape_bbox(#[trigger] v@[j]) == shape_bbox(l.0@[j]),
                        forall|j: int| 0 <= j < i ==> (shape_wf(l.0@[j]) ==> shape_wf(#[trigger] v@[j])),
                    decreases n - i,
                {
                    proof {
                        assert(decreases_to!(*self => *l));
                        assert(decreases_to!(*l => l.0));
                        assert(decreases_to!(l.0 => l.0@));
                        assert(decreases_to!(l.0@ => l.0@[i as int]));
                    }
                    v.push(l.0[i].duplicate());
                }
                proof {
                    lemma_prefix_congruent(v@, l.0@, v@.len() as int);
                    lemma_bbox_prefix_congruent(v@, l.0@, v@.len() as int);
                    if shape_wf(*self) {
                        assert forall|j: int| 0 <= j < v@.len() implies
                            shape_wf(#[trigger] v@[j]) by {
                            assert(shape_wf(l.0@[j]));
                        }
                        assert(shape_wf(Shape::List(ShapeList(v))));
                    }
                }
                Shape::List(ShapeList(v))
            },
            Shape::Bvh(b) => Shape::Bvh(BvhNode {
                left: Box::new(b.left.duplicate()),
                right: Box::new(b.right.duplicate()),
                bounding_box: b.bounding_box,
            }),
        }
    }
}

/// The chosen sort key of a shape: the component of its bounding-box
/// minimum corner on the given axis.
pub open spec fn axis_key(e: Shape, axis: i64) -> int {
    let bb = shape_bbox(e)->Some_0;
    if axis == 0 {
        bb.min.x as int
    } else if axis == 1 {
        bb.min.y as int
    } else {
        bb.min.z as int
    }
}

/// The sort key of a shape, exactly.
fn axis_key_exec(e: &Shape, axis: i64) -> (k: i64)
    requires
        shape_wf(*e),
        shape_bbox(*e) is Some,
        0 <= axis < 3,
    ensures
        k as int == axis_key(*e, axis),
{
    let bb = match e.bounding_box() {
        Some(bb) => bb,
        None => unreached(),
    };
    if axis == 0 {
        bb.min.x
    } else if axis == 1 {
        bb.min.y
    } else {
        bb.min.z
    }
}

/// Every entry is a well-formed shape with a bounding box.
pub open spec fn entries_ok(ss: Seq<Shape>) -> bool {
    forall|i: int|
        0 <= i < ss.len() ==> shape_wf(#[trigger] ss[i]) && shape_bbox(ss[i]) is Some
}

/// Selection sort of the entries by bounding-box minimum on `axis`:
/// the result is ordered and holds exactly the same shapes.
fn sort_by_axis(v: Vec<Shape>, axis: i64) -> (r: Vec<Shape>)
    requires
        entries_ok(v@),
        0 <= axis < 3,
    ensures
        r@.to_multiset() == v@.to_multiset(),
        r@.len() == v@.len(),
        entries_ok(r@),
        forall|i: int, j: int|
            0 <= i <= j < r@.len() ==> axis_key(#[trigger] r@[i], axis) <= axis_key(
                #[trigger] r@[j],
                axis,
            ),
{
    broadcast use group_to_multiset_ensures;

    let mut rem = v;
    let ghost orig = rem@;
    let mut out: Vec<Shape> = Vec::new();
    while rem.len() > 0
        invariant
            0 <= axis < 3,
            out@.to_multiset().add(rem@.to_multiset()) == orig.to_multiset(),
            out@.len() + rem@.len() == orig.len(),
            entries_ok(out@),
            entries_ok(rem@),
            forall|i: int, j: int|
                0 <= i <= j < out@.len() ==> axis_key(#[trigger] out@[i], axis) <= axis_key(
                    #[trigger] out@[j],
                    axis,
                ),
            forall|i: int, j: int|
                0 <= i < out@.len() && 0 <= j < rem@.len() ==> axis_key(#[trigger] out@[i], axis)
                    <= axis_key(#[trigger] rem@[j], axis),
        decreases rem@.len(),
    {
        let mut m: usize = 0;
        let mut mk = axis_key_exec(&rem[0], axis);
        let n = rem.len();
        for j in 1..n
            invariant
                0 <= axis < 3,
                n == rem@.len(),
                entries_ok(rem@),
                m < n,
                mk as int == axis_key(rem@[m as int], axis),
                forall|t: int| 0 <= t < j ==> mk as int <= axis_key(#[trigger] rem@[t], axis),
            decreases n - j,
        {
            let k = axis_key_exec(&rem[j], axis);
            if k < mk {
                m = j;
                mk = k;
            }
        }
        let ghost rem_old = rem@;
        let x = rem.remove(m);
        proof {
            broadcast use group_to_multiset_ensures;

            rem_old.to_multiset_ensures();
            out@.to_multiset_ensures();
            assert(rem_old[m as int] == x);
            assert(rem_old.contains(x));
            assert(rem@ == rem_old.remove(m as int));
            assert(rem_old.remove(m as int).to_multiset() == rem_old.to_multiset().remove(x));
            assert(rem_old.to_multiset().count(x) > 0);
            assert(out@.push(x).to_multiset() =~= out@.to_multiset().insert(x));
            assert(out@.to_multiset().add(rem_old.to_multiset())
                =~= out@.push(x).to_multiset().add(rem@.to_multiset()));
            assert forall|j: int| 0 <= j < rem@.len() implies mk as int <= axis_key(
                #[trigger] rem@[j],
                axis,
            ) by {
                if j < m {
                    assert(rem@[j] == rem_old[j]);
                } else {
                    assert(rem@[j] == rem_old[j + 1]);
                }
            }
            assert forall|j: int| 0 <= j < rem@.len() implies shape_wf(#[trigger] rem@[j])
                && shape_bbox(rem@[j]) is Some by {
                if j < m {
                    assert(rem@[j] == rem_old[j]);
                } else {
                    assert(rem@[j] == rem_old[j + 1]);
                }
            }
        }
        out.push(x);
    }
    proof {
        assert(rem@.to_multiset() =~= Multiset::<Shape>::empty());
        assert(out@.to_multiset().add(rem@.to_multiset()) =~= out@.to_multiset());
    }
    out
}

/// Sequences whose entries hold the same spheres have the same sphere
/// prefixes.
proof fn lemma_prefix_congruent(a: Seq<Shape>, b: Seq<Shape>, n: int)
    requires
        a.len() == b.len(),
        n <= a.len(),
        forall|j: int| 0 <= j < a.len() ==> spheres_of(#[trigger] a[j]) == spheres_of(b[j]),
    ensures
        spheres_prefix(a, n) == spheres_prefix(b, n),
    decreases n,
{
    if n > 0 {
        lemma_prefix_congruent(a, b, n - 1);
    }
}

/// Sequences whose entries have the same boxes have the same merged boxes.
proof fn lemma_bbox_prefix_congruent(a: Seq<Shape>, b: Seq<Shape>, n: int)
    requires
        a.len() == b.len(),
        n <= a.len(),
        forall|j: int| 0 <= j < a.len() ==> shape_bbox(#[trigger] a[j]) == shape_bbox(b[j]),
    ensures
        bbox_prefix(a, n) == bbox_prefix(b, n),
    decreases n,
{
    if n > 0 {
        lemma_bbox_prefix_congruent(a, b, n - 1);
    }
}

/// Membership in the spheres of a prefix is membership in the spheres of
/// one of its entries.
pub proof fn lemma_prefix_contains(ss: Seq<Shape>, n: int, sp: Sphere)
    requires
        0 <= n <= ss.len(),
    ensures
        spheres_prefix(ss, n).contains(sp) <==> exists|i: int|
            0 <= i < n && #[trigger] spheres_of(ss[i]).contains(sp),
    decreases n,
{
    if n > 0 {
        lemma_prefix_contains(ss, n - 1, sp);
        let pre = spheres_prefix(ss, n - 1);
        let last = spheres_of(ss[n - 1]);
        assert(spheres_prefix(ss, n) == pre + last);
        if spheres_prefix(ss, n).contains(sp) {
            let k = choose|k: int| 0 <= k < (pre + last).len() && (pre + last)[k] == sp;
            if k < pre.len() {
                assert(pre[k] == sp);
                assert(pre.contains(sp));
            } else {
                assert(last[k - pre.len()] == sp);
                assert(last.contains(sp));
            }
        }
        if exists|i: int| 0 <= i < n && #[trigger] spheres_of(ss[i]).contains(sp) {
            let i = choose|i: int| 0 <= i < n && #[trigger] spheres_of(ss[i]).contains(sp);
            if i < n - 1 {
                assert(pre.contains(sp));
                let k = choose|k: int| 0 <= k < pre.len() && pre[k] == sp;
                assert((pre + last)[k] == sp);
            } else {
                let k = choose|k: int| 0 <= k < last.len() && last[k] == sp;
                assert((pre + last)[pre.len() + k] == sp);
            }
            assert(spheres_prefix(ss, n).contains(sp));
        }
    }
}

/// Shape sequences holding the same shapes hold the same spheres.
pub proof fn lemma_same_shapes_same_spheres(a: Seq<Shape>, b: Seq<Shape>)
    requires
        a.to_multiset() == b.to_multiset(),
    ensures
        forall|sp: Sphere| #[trigger] spheres_prefix(a, a.len() as int).contains(sp)
            <==> spheres_prefix(b, b.len() as int).contains(sp),
{
    broadcast use group_to_multiset_ensures;

    assert forall|sp: Sphere| #[trigger] spheres_prefix(a, a.len() as int).contains(sp)
        <==> spheres_prefix(b, b.len() as int).contains(sp) by {
        lemma_prefix_contains(a, a.len() as int, sp);
        lemma_prefix_contains(b, b.len() as int, sp);
        if exists|i: int| 0 <= i < a.len() && #[trigger] spheres_of(a[i]).contains(sp) {
            let i = choose|i: int| 0 <= i < a.len() && #[trigger] spheres_of(a[i]).contains(sp);
            assert(a.contains(a[i]));
            assert(a.to_multiset().count(a[i]) > 0);
            assert(b.to_multiset().count(a[i]) > 0);
            assert(b.contains(a[i]));
            let j = choose|j: int| 0 <= j < b.len() && b[j] == a[i];
            assert(spheres_of(b[j]).contains(sp));
        }
        if exists|i: int| 0 <= i < b.len() && #[trigger] spheres_of(b[i]).contains(sp) {
            let i = choose|i: int| 0 <= i < b.len() && #[trigger] spheres_of(b[i]).contains(sp);
            assert(b.contains(b[i]));
            assert(b.to_multiset().count(b[i]) > 0);
            assert(a.to_multiset().count(b[i]) > 0);
            assert(a.contains(b[i]));
            let j = choose|j: int| 0 <= j < a.len() && a[j] == b[i];
            assert(spheres_of(a[j]).contains(sp));
        }
    }
}

impl BvhNode {
    /// Build a bounding-volume tree over one or more entities: choose a
    /// random axis; a single entity becomes both children; two entities
    /// are ordered by bounding-box minimum on the axis; more are sorted on
    /// that key and split at the middle, recursing into both halves. The
    /// tree holds exactly the input's spheres, under boxes that bound
    /// every descendant.
    pub fn new(entities: Vec<Shape>) -> (r: BvhNode)
        requires
            entities@.len() >= 1,
            entries_ok(entities@),
        ensures
            shape_wf(Shape::Bvh(r)),
            shape_bbox(Shape::Bvh(r)) is Some,
            forall|sp: Sphere| #[trigger] spheres_of(Shape::Bvh(r)).contains(sp)
                <==> spheres_prefix(entities@, entities@.len() as int).contains(sp),
            entities@.len() == 2 ==> {
                &&& ((*r.left == entities@[0] && *r.right == entities@[1]) || (*r.left
                    == entities@[1] && *r.right == entities@[0]))
                &&& exists|axis: i64| 0 <= axis < 3 && #[trigger] axis_key(*r.left, axis)
                    <= axis_key(*r.right, axis)
            },
        decreases entities@.len(),
    {
        let axis = rand_range(0, 3);
        let ghost orig = entities@;
        let mut entities = entities;
        let (left, right): (Shape, Shape) = if entities.len() == 1 {
            let e = match entities.pop() {
                Some(e) => e,
                None => unreached(),
            };
            let d = e.duplicate();
            proof {
                assert(orig =~= seq![e]);
                assert(e == orig[0]);
                assert(spheres_prefix(orig, 0) =~= Seq::<Sphere>::empty());
                assert(spheres_prefix(orig, 1) =~= spheres_of(e));
                assert(spheres_of(d) == spheres_of(e));
                assert forall|sp: Sphere| #[trigger] (spheres_of(e) + spheres_of(d)).contains(sp)
                    <==> spheres_prefix(orig, orig.len() as int).contains(sp) by {
                    lemma_concat_contains(spheres_of(e), spheres_of(d), sp);
                }
            }
            (e, d)
        } else if entities.len() == 2 {
            let e1 = match entities.pop() {
                Some(e) => e,
                None => unreached(),
            };
            let e0 = match entities.pop() {
                Some(e) => e,
                None => unreached(),
            };
            proof {
                assert(orig =~= seq![e0, e1]);
                assert(e0 == orig[0] && e1 == orig[1]);
                assert(spheres_prefix(orig, 0) =~= Seq::<Sphere>::empty());
                assert(spheres_prefix(orig, 1) =~= spheres_of(e0));
                assert(spheres_prefix(orig, 2) =~= spheres_of(e0) + spheres_of(e1));
                assert forall|sp: Sphere| #[trigger] (spheres_of(e0) + spheres_of(e1)).contains(sp)
                    <==> spheres_prefix(orig, orig.len() as int).contains(sp) by {
                }
                assert forall|sp: Sphere| #[trigger] (spheres_of(e1) + spheres_of(e0)).contains(sp)
                    <==> spheres_prefix(orig, orig.len() as int).contains(sp) by {
                    lemma_concat_contains(spheres_of(e0), spheres_of(e1), sp);
                    lemma_concat_contains(spheres_of(e1), spheres_of(e0), sp);
                }
            }
            let k0 = axis_key_exec(&e0, axis);
            let k1 = axis_key_exec(&e1, axis);
            if k0 < k1 {
                proof {
                    assert(0 <= axis < 3 && axis_key(e0, axis) <= axis_key(e1, axis));
                }
                (e0, e1)
            } else {
                proof {
                    assert(0 <= axis < 3 && axis_key(e1, axis) <= axis_key(e0, axis));
                }
                (e1, e0)
            }
        } else {
            let sorted = sort_by_axis(entities, axis);
            let ghost sorted_view = sorted@;
            let mut sorted = sorted;
            let mid = sorted.len() / 2;
            let right_half = sorted.split_off(mid);
            let left_half = sorted;
            proof {
                lemma_same_shapes_same_spheres(orig, sorted_view);
                assert(left_half@ =~= sorted_view.subrange(0, mid as int));
                assert(right_half@ =~= sorted_view.subrange(mid as int, sorted_view.len() as int));
                lemma_prefix_split(sorted_view, mid as int);
                assert(entries_ok(left_half@));
                assert(entries_ok(right_half@));
            }
            let ghost lh = left_half@;
            let ghost rh = right_half@;
            let ln = BvhNode::new(left_half);
            let rn = BvhNode::new(right_half);
            proof {
                lemma_prefix_split(sorted_view, mid as int);
                assert forall|sp: Sphere|
                    #[trigger] (spheres_of(Shape::Bvh(ln)) + spheres_of(Shape::Bvh(rn))).contains(sp)
                        <==> spheres_prefix(orig, orig.len() as int).contains(sp) by {
                    lemma_concat_contains(spheres_of(Shape::Bvh(ln)), spheres_of(Shape::Bvh(rn)), sp);
                    lemma_concat_contains(spheres_prefix(lh, lh.len() as int), spheres_prefix(rh, rh.len() as int), sp);
                    lemma_same_shapes_same_spheres(orig, sorted_view);
                }
            }
            (Shape::Bvh(ln), Shape::Bvh(rn))
        };
        let lb = match left.bounding_box() {
            Some(bb) => bb,
            None => unreached(),
        };
        let rb = match right.bounding_box() {
            Some(bb) => bb,
            None => unreached(),
        };
        proof {
            lemma_surrounding_box_contains(lb, rb);
            lemma_bbox_wf(left);
            lemma_bbox_wf(right);
        }
        let node = BvhNode {
            bounding_box: lb.surrounding_box(rb),
            left: Box::new(left),
            right: Box::new(right),
        };
        proof {
            assert(spheres_of(Shape::Bvh(node)) == spheres_of(left) + spheres_of(right));
        }
        node
    }
}

/// Membership in a concatenation is membership in one of the parts.
pub proof fn lemma_concat_contains(a: Seq<Sphere>, b: Seq<Sphere>, sp: Sphere)
    ensures
        (a + b).contains(sp) <==> a.contains(sp) || b.contains(sp),
{
    if (a + b).contains(sp) {
        let k = choose|k: int| 0 <= k < (a + b).len() && (a + b)[k] == sp;
        if k < a.len() {
            assert(a[k] == sp);
        } else {
            assert(b[k - a.len()] == sp);
        }
    }
    if a.contains(sp) {
        let k = choose|k: int| 0 <= k < a.len() && a[k] == sp;
        assert((a + b)[k] == sp);
    }
    if b.contains(sp) {
        let k = choose|k: int| 0 <= k < b.len() && b[k] == sp;
        assert((a + b)[a.len() + k] == sp);
    }
}

/// The spheres of a sequence split at `mid` are the spheres of the two
/// halves, in order.
pub proof fn lemma_prefix_split(ss: Seq<Shape>, mid: int)
    requires
        0 <= mid <= ss.len(),
    ensures
        spheres_prefix(ss, ss.len() as int) == spheres_prefix(ss.subrange(0, mid), mid)
            + spheres_prefix(ss.subrange(mid, ss.len() as int), ss.len() - mid),
{
    lemma_prefix_split_helper(ss, mid, ss.len() as int);
    lemma_prefix_subrange(ss, 0, mid);
}

/// For `mid <= n`, the prefix of length `n` splits at `mid`.
proof fn lemma_prefix_split_helper(ss: Seq<Shape>, mid: int, n: int)
    requires
        0 <= mid <= n <= ss.len(),
    ensures
        spheres_prefix(ss, n) == spheres_prefix(ss, mid)
            + spheres_prefix(ss.subrange(mid, ss.len() as int), n - mid),
    decreases n - mid,
{
    let tail = ss.subrange(mid, ss.len() as int);
    if n == mid {
        assert(spheres_prefix(tail, 0) =~= Seq::<Sphere>::empty());
        assert(spheres_prefix(ss, n) =~= spheres_prefix(ss, mid) + spheres_prefix(tail, 0));
    } else {
        lemma_prefix_split_helper(ss, mid, n - 1);
        assert(tail[n - 1 - mid] == ss[n - 1]);
        assert(spheres_prefix(ss, n) =~= spheres_prefix(ss, mid) + spheres_prefix(
            tail,
            n - mid,
        )) by {
            assert(spheres_prefix(ss, n) == spheres_prefix(ss, n - 1) + spheres_of(ss[n - 1]));
            assert(spheres_prefix(tail, n - mid) == spheres_prefix(tail, n - 1 - mid)
                + spheres_of(tail[n - 1 - mid]));
        }
    }
}

/// A prefix of a front subrange is the prefix itself.
proof fn lemma_prefix_subrange(ss: Seq<Shape>, a: int, b: int)
    requires
        0 <= a <= b <= ss.len(),
        a == 0,
    ensures
        spheres_prefix(ss.subrange(0, b), b) == spheres_prefix(ss, b),
    decreases b,
{
    if b > 0 {
        lemma_prefix_subrange_gen(ss, b, b);
    }
}

/// A prefix computed inside a front subrange equals the prefix of the
/// whole sequence.
proof fn lemma_prefix_subrange_gen(ss: Seq<Shape>, b: int, n: int)
    requires
        0 <= n <= b <= ss.len(),
    ensures
        spheres_prefix(ss.subrange(0, b), n) == spheres_prefix(ss, n),
    decreases n,
{
    if n > 0 {
        lemma_prefix_subrange_gen(ss, b, n - 1);
        assert(ss.subrange(0, b)[n - 1] == ss[n - 1]);
    }
}

} // verus!
