use raytracer::fixed::{FP_ONE, mul_fp, div_fp, isqrt};
use raytracer::vec3::Vec3;
use raytracer::ray::Ray;
use raytracer::material::{
    Lambertian, Metal, Dieletric, Material, Scatterable, reflect, rand_in_unit_sphere,
    reflectance,
};
use raytracer::shape::{Sphere, World, atan2_fp};
use raytracer::camera::Camera;
use raytracer::tracer::ray_color;
use raytracer::render::{write_color, render, render_row};
use raytracer::rng::rng_from_seed;

fn gray() -> Material {
    Material::Lambertian(Lambertian {
        albedo: Vec3 {
            x: 32768,
            y: 32768,
            z: 32768,
        },
    })
}

fn sphere_at_z(z: i64, radius: i64) -> Sphere {
    Sphere {
        center: Vec3 { x: 0, y: 0, z },
        radius,
        material: gray(),
    }
}

fn straight_down_z() -> Ray {
    Ray::new(Vec3 { x: 0, y: 0, z: 0 }, Vec3 { x: 0, y: 0, z: -65536 })
}

#[test]
fn fixed_point_products_and_roots() {
    assert_eq!(mul_fp(163840, 262144), 655360); // 2.5 * 4 == 10
    assert_eq!(mul_fp(-163840, 262144), -655360);
    assert_eq!(div_fp(-196608, 131072), -98304); // -3 / 2 == -1.5
    assert_eq!(isqrt(0), 0);
    assert_eq!(isqrt(65536 * 65536), 65536);
    assert_eq!(isqrt(10), 3);
}

#[test]
fn sphere_hit_point_lies_on_surface() {
    // Unit sphere two units down the -z axis; the ray hits at t = 1.
    let s = sphere_at_z(-131072, 65536);
    let ray = straight_down_z();
    let h = s.hit(&ray, 66, 1 << 30).expect("must hit");
    assert!(66 < h.t && h.t < (1 << 30));
    // |P - center| must be within a few representation steps of the radius.
    let dx = h.point.x - s.center.x;
    let dy = h.point.y - s.center.y;
    let dz = h.point.z - s.center.z;
    let d2 = (dx as i128) * (dx as i128) + (dy as i128) * (dy as i128)
        + (dz as i128) * (dz as i128);
    let r2 = (s.radius as i128) * (s.radius as i128);
    let tol: i128 = 64 * 65536;
    assert!(d2 >= r2 - tol && d2 <= r2 + tol);
}

#[test]
fn sphere_hit_normal_opposes_ray() {
    let s = sphere_at_z(-131072, 65536);
    let ray = straight_down_z();
    let h = s.hit(&ray, 66, 1 << 30).expect("must hit");
    // Unit length within tolerance.
    let n2 = (h.normal.x as i128) * (h.normal.x as i128)
        + (h.normal.y as i128) * (h.normal.y as i128)
        + (h.normal.z as i128) * (h.normal.z as i128);
    let one = (65536i128) * 65536;
    assert!(n2 >= one - 8 * 65536 && n2 <= one + 8 * 65536);
    // Must oppose the incoming direction.
    let d = (ray.direction.x as i128) * (h.normal.x as i128)
        + (ray.direction.y as i128) * (h.normal.y as i128)
        + (ray.direction.z as i128) * (h.normal.z as i128);
    assert!(d <= 0);
    assert!(h.front_face);
}

#[test]
fn nearest_hit_wins_with_overlapping_spheres() {
    let near = sphere_at_z(-131072, 65536); // hits at t = 1
    let far = sphere_at_z(-262144, 65536); // hits at t = 3
    let ray = straight_down_z();

    let mut w1 = World::new();
    w1.push(near);
    w1.push(far);
    let h1 = w1.hit(&ray, 66, 1 << 30).expect("must hit");

    let mut w2 = World::new();
    w2.push(far);
    w2.push(near);
    let h2 = w2.hit(&ray, 66, 1 << 30).expect("must hit");

    // Insertion order is irrelevant: the nearer intersection wins.
    assert_eq!(h1.t, h2.t);
    assert!(h1.t < 131072); // nearer than the far sphere's first root
    let alone = near.hit(&ray, 66, 1 << 30).expect("must hit");
    assert_eq!(h1.t, alone.t);
}

#[test]
fn world_empty_reports_no_hit() {
    let w = World::new();
    let ray = straight_down_z();
    assert!(w.hit(&ray, 66, 1 << 30).is_none());
}

#[test]
fn scatter_attenuation_is_albedo_for_every_material() {
    let ray = straight_down_z();
    let s = sphere_at_z(-131072, 65536);
    let h = s.hit(&ray, 66, 1 << 30).expect("must hit");
    let mut rng = rng_from_seed(7);
    for seed in 0..16u64 {
        let mut rng2 = rng_from_seed(seed);
        let lam = Material::Lambertian(Lambertian {
            albedo: Vec3 { x: 100, y: 200, z: 300 },
        });
        let (sc, att) = lam.scatter(&ray, &h, &mut rng2);
        assert_eq!((att.x, att.y, att.z), (100, 200, 300));
        assert_eq!((sc.origin.x, sc.origin.y, sc.origin.z), (h.point.x, h.point.y, h.point.z));

        let met = Material::Metal(Metal {
            albedo: Vec3 { x: 65536, y: 0, z: 65536 },
            fuzz: 32768,
        });
        let (_, att) = met.scatter(&ray, &h, &mut rng);
        assert_eq!((att.x, att.y, att.z), (65536, 0, 65536));

        let glass = Material::Dieletric(Dieletric {
            albedo: Vec3 { x: 65536, y: 65536, z: 65536 },
            index_of_refraction: 98304, // 1.5
        });
        let (_, att) = glass.scatter(&ray, &h, &mut rng);
        assert!(att.x >= 0 && att.x <= 65536);
        assert_eq!((att.x, att.y, att.z), (65536, 65536, 65536));
    }
}

#[test]
fn ray_color_depth_zero_is_black() {
    let mut w = World::new();
    w.push(sphere_at_z(-131072, 65536));
    let ray = straight_down_z();
    let mut rng = rng_from_seed(1);
    let c = ray_color(&ray, &w, 0, &mut rng);
    assert_eq!((c.x, c.y, c.z), (0, 0, 0));
}

#[test]
fn background_endpoints_are_exact() {
    let w = World::new();
    let mut rng = rng_from_seed(1);
    let up = Ray::new(Vec3 { x: 0, y: 0, z: 0 }, Vec3 { x: 0, y: 65536, z: 0 });
    let c = ray_color(&up, &w, 8, &mut rng);
    assert_eq!((c.x, c.y, c.z), (32768, 45875, 65536)); // the sky endpoint
    let down = Ray::new(Vec3 { x: 0, y: 0, z: 0 }, Vec3 { x: 0, y: -65536, z: 0 });
    let c = ray_color(&down, &w, 8, &mut rng);
    assert_eq!((c.x, c.y, c.z), (65536, 65536, 65536)); // the white endpoint
}

#[test]
fn reflect_twice_returns_original_direction() {
    let v = Vec3 { x: 12345, y: -23456, z: 7890 };
    let n = Vec3 { x: 0, y: 65536, z: 0 };
    let once = reflect(&v, &n);
    assert_eq!((once.x, once.y, once.z), (12345, 23456, 7890));
    let twice = reflect(&once, &n);
    assert_eq!((twice.x, twice.y, twice.z), (v.x, v.y, v.z));
}

#[test]
fn unit_sphere_samples_stay_inside() {
    let mut rng = rng_from_seed(99);
    for _ in 0..32 {
        let p = rand_in_unit_sphere(&mut rng);
        let n2 = (p.x as i128) * (p.x as i128) + (p.y as i128) * (p.y as i128)
            + (p.z as i128) * (p.z as i128);
        assert!(n2 <= 65536i128 * 65536);
    }
}

#[test]
fn camera_rejects_degenerate_basis() {
    let eye = Vec3 { x: 0, y: 0, z: 0 };
    let up = Vec3 { x: 0, y: 65536, z: 0 };
    assert!(Camera::new(eye, eye, up, 65536, 65536, 0, 65536).is_none());
    // Up parallel to the view axis: no horizontal basis exists.
    let target = Vec3 { x: 0, y: 131072, z: 0 };
    assert!(Camera::new(eye, target, up, 65536, 65536, 0, 65536).is_none());
}

#[test]
fn write_color_quantizes_gamma_exactly() {
    let sum = Vec3 { x: 65536, y: 16384, z: 0 };
    let (r, g, b) = write_color(&sum, 1);
    // sqrt(1) = 1 -> 255; sqrt(0.25) = 0.5 -> 127 (truncated); 0 -> 0.
    assert_eq!((r, g, b), (255, 127, 0));
}

#[test]
fn single_sphere_render_is_deterministic() {
    // One diffuse sphere of radius 0.5 centered at (0, 0, -1), camera at
    // the origin looking down -z with a 90 degree field of view.
    let mut w = World::new();
    w.push(Sphere {
        center: Vec3 { x: 0, y: 0, z: -65536 },
        radius: 32768,
        material: gray(),
    });
    let cam = Camera::new(
        Vec3 { x: 0, y: 0, z: 0 },
        Vec3 { x: 0, y: 0, z: -65536 },
        Vec3 { x: 0, y: 65536, z: 0 },
        65536, // tan(45 degrees): a 90 degree vertical field of view
        65536,
        0,
        65536,
    )
    .expect("camera must build");
    let img1 = render(&w, &cam, 8, 8, 2, 8, 42);
    let img2 = render(&w, &cam, 8, 8, 2, 8, 42);
    assert_eq!(img1.len(), 3 * 8 * 8);
    assert_eq!(img1, img2);
    let other = render(&w, &cam, 8, 8, 2, 8, 43);
    assert_eq!(other.len(), img1.len());
}

#[test]
fn render_row_emits_one_scanline() {
    let mut w = World::new();
    w.push(sphere_at_z(-131072, 65536));
    let cam = Camera::new(
        Vec3 { x: 0, y: 0, z: 0 },
        Vec3 { x: 0, y: 0, z: -65536 },
        Vec3 { x: 0, y: 65536, z: 0 },
        65536,
        65536,
        0,
        65536,
    )
    .expect("camera must build");
    let row = render_row(&w, &cam, 0, 5, 4, 1, 4, 7);
    assert_eq!(row.len(), 15);
}

#[test]
fn texture_coordinates_are_plumbed() {
    let s = sphere_at_z(-131072, 65536);
    let ray = straight_down_z();
    let h = s.hit(&ray, 66, 1 << 30).expect("must hit");
    assert_eq!(h.v, h.point.y / 2 + 32768);
    assert!(0 <= h.u && h.u <= 65536);
}

#[test]
fn arctangent_octants_hit_known_angles() {
    assert_eq!(atan2_fp(0, 65536), 0);
    assert_eq!(atan2_fp(65536, 0), 102944); // pi/2
    assert_eq!(atan2_fp(-65536, 0), -102944);
    assert_eq!(atan2_fp(65536, 65536), 51472); // pi/4
    assert_eq!(atan2_fp(0, -65536), 205887); // pi
}

#[test]
fn schlick_reflectance_at_normal_incidence() {
    // cos = 1, index 1.5: r0 = ((1 - 1.5) / (2.5))^2 = 0.04, and the
    // grazing term vanishes.
    assert_eq!(reflectance(65536, 98304), 2621);
    for cos in [0i64, 16384, 32768, 65536] {
        let r = reflectance(cos, 98304);
        assert!(0 <= r && r <= 65536);
    }
}

#[test]
fn sharp_metal_reflects_exactly() {
    // A fuzz-free mirror: the scattered direction is the exact
    // normalized reflection, independent of the random draw.
    let ray = straight_down_z();
    let s = sphere_at_z(-131072, 65536);
    let h = s.hit(&ray, 66, 1 << 30).expect("must hit");
    for seed in 0..8u64 {
        let mut rng = rng_from_seed(seed);
        let mirror = Material::Metal(Metal {
            albedo: Vec3 { x: 65536, y: 65536, z: 65536 },
            fuzz: 0,
        });
        let (sc, _) = mirror.scatter(&ray, &h, &mut rng);
        assert_eq!((sc.direction.x, sc.direction.y, sc.direction.z), (0, 0, 65536));
    }
}
