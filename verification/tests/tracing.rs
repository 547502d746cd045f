use fastray::camera::ThinLens;
use fastray::material::{reflect, reflectance, refract, Dielectric, Lambertian, Material, Metal};
use fastray::ray::Ray;
use fastray::render::{tone_map, trace, render_scanline, Rgb};
use fastray::shape::{HitRecord, Shape, ShapeList};
use fastray::sphere::Sphere;
use fastray::vec3::Vec3;
use fastray::SCALE;

fn v(x: i64, y: i64, z: i64) -> Vec3 {
    Vec3 { x, y, z }
}

fn front_hit(material: Material) -> (Ray, HitRecord) {
    let ray = Ray { origin: v(0, 0, 0), direction: v(0, 0, -SCALE) };
    let rec = HitRecord {
        t: 2 * SCALE,
        point: v(0, 0, -2 * SCALE),
        normal: v(0, 0, SCALE),
        front_face: true,
        material,
    };
    (ray, rec)
}

#[test]
fn lambertian_always_scatters_with_albedo() {
    let albedo = v(SCALE / 4, SCALE / 2, SCALE / 8);
    let m = Material::Lambertian(Lambertian { albedo });
    let (ray, rec) = front_hit(m);
    for _ in 0..50 {
        let (attenuation, scattered) = m.scatter(&ray, &rec).expect("always scatters");
        assert_eq!(attenuation, albedo);
        assert_eq!(scattered.origin, rec.point);
        for c in [attenuation.x, attenuation.y, attenuation.z] {
            assert!((0..=SCALE).contains(&c));
        }
    }
}

#[test]
fn metal_scatters_away_from_surface_or_absorbs() {
    let albedo = v(SCALE, SCALE / 2, SCALE / 2);
    let m = Material::Metal(Metal { albedo, fuzz: SCALE / 2 });
    let (ray, rec) = front_hit(m);
    for _ in 0..50 {
        if let Some((attenuation, scattered)) = m.scatter(&ray, &rec) {
            assert_eq!(attenuation, albedo);
            let d = scattered.direction.x as i128 * rec.normal.x as i128
                + scattered.direction.y as i128 * rec.normal.y as i128
                + scattered.direction.z as i128 * rec.normal.z as i128;
            assert!(d > 0, "scattered ray leaves the surface");
        }
    }
}

#[test]
fn perfect_mirror_reflects_exactly() {
    // head-on reflection flips the direction
    assert_eq!(reflect(v(0, 0, -SCALE), v(0, 0, SCALE)), v(0, 0, SCALE));
    // grazing axis combination
    assert_eq!(reflect(v(SCALE, 0, -SCALE), v(0, 0, SCALE)), v(SCALE, 0, SCALE));
}

#[test]
fn dielectric_attenuation_is_exactly_white() {
    let m = Material::Dielectric(Dielectric { refractive_index: 3 * SCALE / 2 });
    let (ray, rec) = front_hit(m);
    for _ in 0..50 {
        let (attenuation, scattered) = m.scatter(&ray, &rec).expect("never absorbs");
        assert_eq!(attenuation, v(SCALE, SCALE, SCALE));
        assert_eq!(scattered.origin, rec.point);
    }
}

#[test]
fn unit_ratio_refraction_preserves_direction() {
    // refraction with a ratio of one is a no-op, up to fixed-point rounding
    let head_on = refract(v(0, 0, -SCALE), v(0, 0, SCALE), SCALE);
    assert_eq!(head_on, v(0, 0, -SCALE));

    let slanted = Vec3 { x: 46341, y: 0, z: -46341 }; // ~unit, 45 degrees
    let r = refract(slanted, v(0, 0, SCALE), SCALE);
    assert!((r.x - slanted.x).abs() <= 655, "x within 1%: {}", r.x);
    assert!((r.y - slanted.y).abs() <= 655, "y within 1%: {}", r.y);
    assert!((r.z - slanted.z).abs() <= 655, "z within 1%: {}", r.z);
}

#[test]
fn schlick_reflectance_endpoints() {
    // normal incidence with matched media reflects nothing
    assert_eq!(reflectance(SCALE, SCALE), 0);
    // grazing incidence reflects everything
    assert_eq!(reflectance(0, SCALE), SCALE);
}

#[test]
fn sky_gradient_exact_values() {
    let world = Shape::List(ShapeList(vec![]));
    // straight ahead: halfway blend
    let ahead = Ray { origin: v(0, 0, 0), direction: v(0, 0, -SCALE) };
    assert_eq!(trace(&world, &ahead, 5), v(49152, 55706, 65536));
    // straight up: pure sky blue
    let up = Ray { origin: v(0, 0, 0), direction: v(0, SCALE, 0) };
    assert_eq!(trace(&world, &up, 5), v(32768, 45875, 65536));
}

#[test]
fn depth_zero_is_black_for_any_scene() {
    let ground = Sphere {
        center: v(0, -6586368, -SCALE), // (0, -100.5, -1)
        radius: 100 * SCALE,
        material: Material::Lambertian(Lambertian { albedo: v(SCALE / 2, SCALE / 2, SCALE / 2) }),
    };
    let small = Sphere {
        center: v(0, 0, -SCALE),
        radius: SCALE / 2,
        material: Material::Lambertian(Lambertian { albedo: v(SCALE / 2, SCALE / 4, SCALE / 4) }),
    };
    let world = Shape::List(ShapeList(vec![Shape::Sphere(ground), Shape::Sphere(small)]));
    let down_the_axis = Ray { origin: v(0, 0, 0), direction: v(0, 0, -SCALE) };
    assert_eq!(trace(&world, &down_the_axis, 0), v(0, 0, 0));
    let toward_ground = Ray { origin: v(0, 0, 0), direction: v(0, -SCALE, -SCALE) };
    assert_eq!(trace(&world, &toward_ground, 0), v(0, 0, 0));
}

#[test]
fn one_bounce_ground_is_bounded_by_albedo() {
    let ground = Sphere {
        center: v(0, -6586368, -SCALE),
        radius: 100 * SCALE,
        material: Material::Lambertian(Lambertian { albedo: v(SCALE / 2, SCALE / 2, SCALE / 2) }),
    };
    let world = Shape::List(ShapeList(vec![Shape::Sphere(ground)]));
    let toward_ground = Ray { origin: v(0, 0, 0), direction: v(0, -SCALE, -SCALE) };
    for _ in 0..20 {
        let c = trace(&world, &toward_ground, 8);
        for chan in [c.x, c.y, c.z] {
            assert!((0..=SCALE / 2).contains(&chan), "albedo bounds one bounce: {chan}");
        }
    }
}

#[test]
fn enclosing_mirror_traces_to_black() {
    // inside a perfect mirror sphere every path ends by exhaustion or
    // absorption, never by escaping to the sky
    let shell = Sphere {
        center: v(0, 0, 0),
        radius: 10 * SCALE,
        material: Material::Metal(Metal { albedo: v(SCALE, SCALE, SCALE), fuzz: 0 }),
    };
    let world = Shape::List(ShapeList(vec![Shape::Sphere(shell)]));
    for dir in [v(0, 0, -SCALE), v(SCALE, SCALE / 2, 0), v(-SCALE, SCALE, SCALE)] {
        let ray = Ray { origin: v(0, 0, 0), direction: dir };
        assert_eq!(trace(&world, &ray, 50), v(0, 0, 0));
    }
}

#[test]
fn tone_map_exact_values() {
    assert_eq!(tone_map(v(0, 0, 0)), Rgb { r: 0, g: 0, b: 0 });
    // one quarter intensity gamma-corrects to one half
    assert_eq!(tone_map(v(SCALE / 4, SCALE / 4, SCALE / 4)), Rgb { r: 128, g: 128, b: 128 });
    assert_eq!(tone_map(v(SCALE, SCALE, SCALE)), Rgb { r: 255, g: 255, b: 255 });
}

#[test]
fn pinhole_camera_is_deterministic() {
    let cam = ThinLens::new(
        v(0, 0, 0),
        v(0, 0, -SCALE),
        v(0, SCALE, 0),
        SCALE,     // 90 degree vertical field of view
        SCALE,     // square aspect
        0,         // pinhole
        SCALE,     // focus at unit distance
    )
    .expect("camera");
    assert_eq!(cam.lens_radius, 0);
    assert_eq!(cam.origin, v(0, 0, 0));
    let a = cam.get_ray(SCALE / 2, SCALE / 2);
    let b = cam.get_ray(SCALE / 2, SCALE / 2);
    assert_eq!(a, b, "no lens, no randomness");
    assert_eq!(a.origin, v(0, 0, 0));
    // the center ray of a symmetric viewport looks straight down -z
    assert_eq!(a.direction.z.signum(), -1);
    assert!(a.direction.x.abs() <= 2 && a.direction.y.abs() <= 2);
}

#[test]
fn camera_rejects_degenerate_axes() {
    // looking at itself
    assert!(ThinLens::new(v(0, 0, 0), v(0, 0, 0), v(0, SCALE, 0), SCALE, SCALE, 0, SCALE).is_none());
    // up vector parallel to the view direction
    assert!(
        ThinLens::new(v(0, 0, 0), v(0, 0, -SCALE), v(0, 0, SCALE), SCALE, SCALE, 0, SCALE)
            .is_none()
    );
}

#[test]
fn scanline_has_one_pixel_per_column() {
    let world = Shape::List(ShapeList(vec![]));
    let cam = ThinLens::new(v(0, 0, 0), v(0, 0, -SCALE), v(0, SCALE, 0), SCALE, SCALE, 0, SCALE)
        .expect("camera");
    let row = render_scanline(&world, &cam, 3, 8, 8, 2, 4);
    assert_eq!(row.len(), 8);
    // an empty scene shows only sky, which is never black
    for p in row {
        assert!(p.b > 0);
    }
}

#[test]
fn depth_zero_render_blacks_out_hit_pixels() {
    // ground sphere below a small sphere straight ahead, pinhole camera
    // looking down -z: with no path budget, every pixel whose ray hits
    // geometry is pure black, while sky pixels keep the gradient
    let ground = Sphere {
        center: v(0, -6586368, -SCALE),
        radius: 100 * SCALE,
        material: Material::Lambertian(Lambertian { albedo: v(SCALE / 2, SCALE / 2, SCALE / 2) }),
    };
    let small = Sphere {
        center: v(0, 0, -SCALE),
        radius: SCALE / 2,
        material: Material::Lambertian(Lambertian { albedo: v(SCALE / 2, SCALE / 4, SCALE / 4) }),
    };
    let world = Shape::List(ShapeList(vec![Shape::Sphere(ground), Shape::Sphere(small)]));
    let cam = ThinLens::new(v(0, 0, 0), v(0, 0, -SCALE), v(0, SCALE, 0), SCALE, SCALE, 0, SCALE)
        .expect("camera");
    // the middle scanline: its center pixel always strikes the small sphere
    let row = render_scanline(&world, &cam, 4, 9, 9, 4, 0);
    assert_eq!(row.len(), 9);
    assert_eq!(row[4], Rgb { r: 0, g: 0, b: 0 });
    // with a path budget, the top scanline's center looks well above both
    // spheres and shows the sky instead
    let top = render_scanline(&world, &cam, 8, 9, 9, 4, 3);
    assert!(top[4].b > 0);
}

#[test]
fn fuzzless_metal_is_a_deterministic_mirror() {
    // with no fuzz the scatter outcome depends on no random draw: a
    // head-on hit reflects exactly, every time
    let albedo = v(SCALE / 2, SCALE / 2, SCALE / 2);
    let m = Material::Metal(Metal { albedo, fuzz: 0 });
    let (ray, rec) = front_hit(m);
    for _ in 0..20 {
        let (attenuation, scattered) = m.scatter(&ray, &rec).expect("mirror scatters");
        assert_eq!(attenuation, albedo);
        assert_eq!(scattered.direction, v(0, 0, SCALE));
    }
}
