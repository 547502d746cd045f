use fastray::material::{Lambertian, Material};
use fastray::shape::{Aabb, BvhNode, Shape, ShapeList};
use fastray::sphere::Sphere;
use fastray::vec3::Vec3;
use fastray::ray::Ray;
use fastray::SCALE;

fn v(x: i64, y: i64, z: i64) -> Vec3 {
    Vec3 { x, y, z }
}

fn gray() -> Material {
    Material::Lambertian(Lambertian { albedo: v(SCALE / 2, SCALE / 2, SCALE / 2) })
}

fn sphere_at(center: Vec3, radius: i64) -> Sphere {
    Sphere { center, radius, material: gray() }
}

#[test]
fn surrounding_box_is_componentwise_min_max() {
    let a = Aabb { min: v(-SCALE, 0, -2 * SCALE), max: v(SCALE, SCALE, 0) };
    let b = Aabb { min: v(0, -SCALE, -SCALE), max: v(3 * SCALE, 0, SCALE) };
    let s = a.surrounding_box(b);
    assert_eq!(s.min, v(-SCALE, -SCALE, -2 * SCALE));
    assert_eq!(s.max, v(3 * SCALE, SCALE, SCALE));
    // contains both inputs
    assert!(s.min.x <= a.min.x && a.max.x <= s.max.x);
    assert!(s.min.y <= b.min.y && b.max.y <= s.max.y);
}

#[test]
fn surrounding_box_commutative_associative() {
    let a = Aabb { min: v(-SCALE, 0, 0), max: v(SCALE, SCALE, SCALE) };
    let b = Aabb { min: v(0, -SCALE, 0), max: v(2 * SCALE, 0, SCALE) };
    let c = Aabb { min: v(-3 * SCALE, 0, -SCALE), max: v(0, 4 * SCALE, 2 * SCALE) };
    assert_eq!(a.surrounding_box(b), b.surrounding_box(a));
    assert_eq!(
        a.surrounding_box(b).surrounding_box(c),
        a.surrounding_box(b.surrounding_box(c))
    );
}

#[test]
fn aabb_hit_through_and_miss() {
    let b = Aabb { min: v(-SCALE, -SCALE, -4 * SCALE), max: v(SCALE, SCALE, -2 * SCALE) };
    let through = Ray { origin: v(0, 0, 0), direction: v(0, 0, -SCALE) };
    assert!(b.hit(&through, 0, 100 * SCALE));
    let miss = Ray { origin: v(5 * SCALE, 0, 0), direction: v(0, 0, -SCALE) };
    assert!(!b.hit(&miss, 0, 100 * SCALE));
    // interval that ends before the box is reached
    assert!(!b.hit(&through, 0, SCALE));
}

#[test]
fn aabb_hit_zero_direction_axis() {
    let b = Aabb { min: v(-SCALE, -SCALE, -4 * SCALE), max: v(SCALE, SCALE, -2 * SCALE) };
    // x and y do not move and start inside the slab
    let inside = Ray { origin: v(0, 0, 0), direction: v(0, 0, -SCALE) };
    assert!(b.hit(&inside, 0, 100 * SCALE));
    // y does not move and starts outside the slab
    let outside = Ray { origin: v(0, 3 * SCALE, 0), direction: v(0, 0, -SCALE) };
    assert!(!b.hit(&outside, 0, 100 * SCALE));
}

#[test]
fn sphere_hit_selects_near_root() {
    // sphere two units away: roots at t = 2 and t = 4, both in range
    let s = sphere_at(v(0, 0, -3 * SCALE), SCALE);
    let r = Ray { origin: v(0, 0, 0), direction: v(0, 0, -SCALE) };
    let rec = s.hit(&r, 66, fastray::ray::T_MAX).expect("hit");
    assert_eq!(rec.t, 2 * SCALE);
    assert_eq!(rec.point, v(0, 0, -2 * SCALE));
    assert_eq!(rec.normal, v(0, 0, SCALE));
    assert!(rec.front_face);
    // the normal opposes the ray direction
    assert!(r.direction.z * rec.normal.z < 0);
}

#[test]
fn sphere_hit_far_root_from_inside() {
    let s = sphere_at(v(0, 0, -3 * SCALE), SCALE);
    let r = Ray { origin: v(0, 0, -3 * SCALE), direction: v(0, 0, -SCALE) };
    let rec = s.hit(&r, 66, fastray::ray::T_MAX).expect("hit");
    assert_eq!(rec.t, SCALE);
    assert!(!rec.front_face);
    assert_eq!(rec.normal, v(0, 0, SCALE));
}

#[test]
fn sphere_hit_miss_behind() {
    let s = sphere_at(v(0, 0, -3 * SCALE), SCALE);
    let r = Ray { origin: v(0, 0, 0), direction: v(0, 0, SCALE) };
    assert!(s.hit(&r, 66, fastray::ray::T_MAX).is_none());
}

#[test]
fn sphere_bounding_box_is_center_plus_minus_radius() {
    let s = sphere_at(v(SCALE, 2 * SCALE, -3 * SCALE), SCALE / 2);
    let b = s.bounding_box().expect("box");
    assert_eq!(b.min, v(SCALE / 2, 2 * SCALE - SCALE / 2, -3 * SCALE - SCALE / 2));
    assert_eq!(b.max, v(SCALE + SCALE / 2, 2 * SCALE + SCALE / 2, -3 * SCALE + SCALE / 2));
}

#[test]
fn list_returns_closest_of_colinear_spheres() {
    let near = sphere_at(v(0, 0, -3 * SCALE), SCALE);
    let far = sphere_at(v(0, 0, -6 * SCALE), SCALE);
    let r = Ray { origin: v(0, 0, 0), direction: v(0, 0, -SCALE) };
    for world in [
        Shape::List(ShapeList(vec![Shape::Sphere(near), Shape::Sphere(far)])),
        Shape::List(ShapeList(vec![Shape::Sphere(far), Shape::Sphere(near)])),
    ] {
        let rec = world.hit(&r, 66, fastray::ray::T_MAX).expect("hit");
        assert_eq!(rec.t, 2 * SCALE, "closest sphere wins regardless of order");
    }
}

#[test]
fn empty_list_never_hits() {
    let world = Shape::List(ShapeList(vec![]));
    let r = Ray { origin: v(0, 0, 0), direction: v(0, 0, -SCALE) };
    assert!(world.hit(&r, 66, fastray::ray::T_MAX).is_none());
    assert!(world.bounding_box().is_none());
}

#[test]
fn list_bounding_box_merges_entries() {
    let a = sphere_at(v(0, 0, 0), SCALE);
    let b = sphere_at(v(4 * SCALE, 0, 0), SCALE);
    let world = Shape::List(ShapeList(vec![Shape::Sphere(a), Shape::Sphere(b)]));
    let bb = world.bounding_box().expect("box");
    assert_eq!(bb.min, v(-SCALE, -SCALE, -SCALE));
    assert_eq!(bb.max, v(5 * SCALE, SCALE, SCALE));
}

#[test]
fn bvh_agrees_with_list_on_closest_hit() {
    let spheres = [
        sphere_at(v(0, 0, -3 * SCALE), SCALE),
        sphere_at(v(0, 0, -6 * SCALE), SCALE),
        sphere_at(v(3 * SCALE, 0, -4 * SCALE), SCALE),
        sphere_at(v(-3 * SCALE, SCALE, -5 * SCALE), SCALE),
        sphere_at(v(0, -4 * SCALE, -8 * SCALE), 2 * SCALE),
    ];
    let list = Shape::List(ShapeList(spheres.iter().map(|s| Shape::Sphere(*s)).collect()));
    let bvh = Shape::Bvh(BvhNode::new(spheres.iter().map(|s| Shape::Sphere(*s)).collect()));
    let rays = [
        Ray { origin: v(0, 0, 0), direction: v(0, 0, -SCALE) },
        Ray { origin: v(0, 0, 0), direction: v(SCALE / 2, 0, -SCALE) },
        Ray { origin: v(-3 * SCALE, SCALE, 0), direction: v(0, 0, -SCALE) },
        Ray { origin: v(0, 0, 0), direction: v(0, SCALE, 0) },
    ];
    for r in rays {
        let lt = list.hit(&r, 66, fastray::ray::T_MAX).map(|h| h.t);
        let bt = bvh.hit(&r, 66, fastray::ray::T_MAX).map(|h| h.t);
        assert_eq!(lt, bt, "bounding-volume traversal returns the closest hit");
    }
}

#[test]
fn bvh_single_and_pair_construction() {
    let one = BvhNode::new(vec![Shape::Sphere(sphere_at(v(0, 0, -3 * SCALE), SCALE))]);
    let r = Ray { origin: v(0, 0, 0), direction: v(0, 0, -SCALE) };
    let rec = Shape::Bvh(one).hit(&r, 66, fastray::ray::T_MAX).expect("hit");
    assert_eq!(rec.t, 2 * SCALE);

    let pair = BvhNode::new(vec![
        Shape::Sphere(sphere_at(v(0, 0, -3 * SCALE), SCALE)),
        Shape::Sphere(sphere_at(v(0, 0, -6 * SCALE), SCALE)),
    ]);
    let rec = Shape::Bvh(pair).hit(&r, 66, fastray::ray::T_MAX).expect("hit");
    assert_eq!(rec.t, 2 * SCALE);
}

#[test]
fn rand_range_respects_its_bounds() {
    // a one-value range pins the wrapper's answer exactly
    assert_eq!(fastray::rng::rand_range(5, 6), 5);
    for _ in 0..100 {
        let r = fastray::rng::rand_range(-3, 3);
        assert!((-3..3).contains(&r));
    }
}
