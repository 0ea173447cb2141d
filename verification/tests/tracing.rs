use ray_tracer::camera::Camera;
use ray_tracer::fixed::{fdiv, fsqrt, FX_ONE, FX_WORLD};
use ray_tracer::hittable::{HitRecord, HittableEnum, HittableList};
use ray_tracer::material::{Dielectric, Lambertian, Materials, Metal};
use ray_tracer::ray::Ray;
use ray_tracer::render::{channel_to_byte, ray_color, render_image, render_pixel, FX_T_EPS};
use ray_tracer::rng::Rng;
use ray_tracer::sphere::Sphere;
use ray_tracer::vec3::Vec3;

fn fx(x: f64) -> i128 {
    (x * FX_ONE as f64).round() as i128
}

fn to_f(v: i128) -> f64 {
    v as f64 / FX_ONE as f64
}

fn close(a: f64, b: f64, eps: f64) -> bool {
    (a - b).abs() <= eps
}

fn grey() -> Materials {
    Materials::Lambertian(Lambertian::new(Vec3::new(fx(0.5), fx(0.5), fx(0.5))))
}

#[test]
fn head_on_ray_hits_at_distance_minus_radius() {
    let s = Sphere::new(Vec3::new(0, 0, fx(-5.0)), fx(1.0), grey());
    let r = Ray::new(Vec3::new(0, 0, 0), Vec3::new(0, 0, -FX_ONE));
    let rec = s.hit(&r, FX_T_EPS, FX_WORLD).expect("head-on ray must hit");
    assert!(close(to_f(rec.t), 4.0, 1e-3), "t {}", to_f(rec.t));
    assert!(close(to_f(rec.normal.x()), 0.0, 1e-3));
    assert!(close(to_f(rec.normal.y()), 0.0, 1e-3));
    assert!(close(to_f(rec.normal.z()), 1.0, 1e-3));
    assert!(rec.front_face);
    assert!(rec.mat.is_some());
}

#[test]
fn offset_ray_misses_the_sphere() {
    let s = Sphere::new(Vec3::new(fx(3.0), 0, fx(-5.0)), fx(1.0), grey());
    // perpendicular offset 3 > radius 1
    let r = Ray::new(Vec3::new(0, 0, 0), Vec3::new(0, 0, -FX_ONE));
    assert!(s.hit(&r, FX_T_EPS, FX_WORLD).is_none());
}

#[test]
fn receding_ray_misses_the_sphere() {
    let s = Sphere::new(Vec3::new(0, 0, fx(-5.0)), fx(1.0), grey());
    let r = Ray::new(Vec3::new(0, 0, 0), Vec3::new(0, 0, FX_ONE));
    assert!(s.hit(&r, FX_T_EPS, FX_WORLD).is_none());
}

#[test]
fn hollow_sphere_flips_the_normal() {
    let s = Sphere::new(Vec3::new(0, 0, fx(-5.0)), fx(-1.0), grey());
    let r = Ray::new(Vec3::new(0, 0, 0), Vec3::new(0, 0, -FX_ONE));
    let rec = s.hit(&r, FX_T_EPS, FX_WORLD).expect("hollow shell still intersects");
    assert!(close(to_f(rec.t), 4.0, 1e-3));
    assert!(!rec.front_face);
    assert!(close(to_f(rec.normal.z()), 1.0, 1e-3));
}

#[test]
fn scene_returns_the_closest_hit() {
    let mut world = HittableList::new();
    let near_mat = Materials::Lambertian(Lambertian::new(Vec3::new(fx(0.9), 0, 0)));
    let far_mat = Materials::Lambertian(Lambertian::new(Vec3::new(0, fx(0.9), 0)));
    world.add_sphere(Sphere::new(Vec3::new(0, 0, fx(-10.0)), fx(1.0), far_mat));
    world.add_sphere(Sphere::new(Vec3::new(0, 0, fx(-5.0)), fx(1.0), near_mat));
    let r = Ray::new(Vec3::new(0, 0, 0), Vec3::new(0, 0, -FX_ONE));
    let rec = world.hit(&r, FX_T_EPS, FX_WORLD).expect("two spheres in front");
    assert!(close(to_f(rec.t), 4.0, 1e-3));
    match rec.mat.expect("material handle") {
        Materials::Lambertian(l) => assert_eq!(l.albedo, Vec3::new(fx(0.9), 0, 0)),
        _ => panic!("wrong material"),
    }
}

#[test]
fn empty_scene_never_hits() {
    let world = HittableList::new();
    let r = Ray::new(Vec3::new(0, 0, 0), Vec3::new(0, 0, -FX_ONE));
    assert!(world.hit(&r, FX_T_EPS, FX_WORLD).is_none());
}

#[test]
fn ray_color_with_no_depth_is_black() {
    let mut world = HittableList::new();
    world.add_sphere(Sphere::new(Vec3::new(0, 0, fx(-5.0)), fx(1.0), grey()));
    let mut rng = Rng::new(1);
    let r = Ray::new(Vec3::new(0, 0, 0), Vec3::new(0, 0, -FX_ONE));
    let c = ray_color(&r, &world, 0, &mut rng);
    assert_eq!(c, Vec3::new(0, 0, 0));
    assert_eq!(rng.state, 1);
}

#[test]
fn upward_ray_in_empty_scene_earns_the_sky_color() {
    let world = HittableList::new();
    let mut rng = Rng::new(1);
    let r = Ray::new(Vec3::new(0, 0, 0), Vec3::new(0, FX_ONE, 0));
    let c = ray_color(&r, &world, 8, &mut rng);
    // at unit_y = 1 the gradient is exactly (0.5, 0.7, 1.0)
    assert_eq!(c, Vec3::new(8388608, 11744051, FX_ONE));
    assert_eq!(rng.state, 1);
}

#[test]
fn downward_ray_in_empty_scene_is_white() {
    let world = HittableList::new();
    let mut rng = Rng::new(1);
    let r = Ray::new(Vec3::new(0, 0, 0), Vec3::new(0, -FX_ONE, 0));
    let c = ray_color(&r, &world, 8, &mut rng);
    // at unit_y = -1 the gradient is exactly white
    assert_eq!(c, Vec3::new(FX_ONE, FX_ONE, FX_ONE));
}

#[test]
fn lambertian_always_scatters_with_its_albedo() {
    let albedo = Vec3::new(fx(0.8), fx(0.6), fx(0.2));
    let lam = Lambertian::new(albedo);
    let rec = HitRecord {
        p: Vec3::new(0, 0, fx(-4.0)),
        normal: Vec3::new(0, 0, FX_ONE),
        mat: None,
        t: fx(4.0),
        front_face: true,
    };
    let r_in = Ray::new(Vec3::new(0, 0, 0), Vec3::new(0, 0, -FX_ONE));
    let mut rng = Rng::new(11);
    let mut replay = Rng::new(11);
    let sr = lam.scatter(&r_in, &rec, &mut rng).expect("diffuse always scatters");
    assert_eq!(sr.attenuation, albedo);
    assert_eq!(sr.scattered.origin, rec.p);
    let u = Vec3::random_unit_vector(&mut replay);
    let expected = rec.normal.plus(&u);
    let expected = if expected.near_zero() { rec.normal } else { expected };
    assert_eq!(sr.scattered.direction, expected);
    assert_eq!(rng.state, replay.state);
}

#[test]
fn polished_metal_mirrors_exactly() {
    let albedo = Vec3::new(fx(0.7), fx(0.6), fx(0.5));
    let met = Metal::new(albedo, 0);
    let rec = HitRecord {
        p: Vec3::new(0, 0, 0),
        normal: Vec3::new(0, FX_ONE, 0),
        mat: None,
        t: fx(1.0),
        front_face: true,
    };
    let r_in = Ray::new(Vec3::new(-FX_ONE, FX_ONE, 0), Vec3::new(FX_ONE, -FX_ONE, 0));
    let mut rng = Rng::new(3);
    let sr = met.scatter(&r_in, &rec, &mut rng).expect("upward reflection survives");
    assert_eq!(sr.attenuation, albedo);
    // unit of (1, -1, 0) reflected about +y mirrors the y component exactly
    let ud = r_in.direction.unit();
    assert_eq!(sr.scattered.direction, Vec3::new(ud.x(), -ud.y(), ud.z()));
}

#[test]
fn grazing_metal_ray_is_absorbed() {
    let met = Metal::new(Vec3::new(fx(0.7), fx(0.6), fx(0.5)), 0);
    let rec = HitRecord {
        p: Vec3::new(0, 0, 0),
        normal: Vec3::new(0, FX_ONE, 0),
        mat: None,
        t: fx(1.0),
        front_face: true,
    };
    // incoming parallel to the surface: the reflection stays in the plane
    let r_in = Ray::new(Vec3::new(-FX_ONE, 0, 0), Vec3::new(FX_ONE, 0, 0));
    let mut rng = Rng::new(3);
    assert!(met.scatter(&r_in, &rec, &mut rng).is_none());
}

#[test]
fn matched_dielectric_refracts_straight_through() {
    let die = Dielectric::new(FX_ONE);
    let rec = HitRecord {
        p: Vec3::new(0, 0, 0),
        normal: Vec3::new(0, FX_ONE, 0),
        mat: None,
        t: fx(1.0),
        front_face: true,
    };
    let r_in = Ray::new(Vec3::new(0, FX_ONE, 0), Vec3::new(0, -FX_ONE, 0));
    let mut rng = Rng::new(17);
    let sr = die.scatter(&r_in, &rec, &mut rng).expect("dielectric always scatters");
    assert_eq!(sr.attenuation, Vec3::new(FX_ONE, FX_ONE, FX_ONE));
    assert_eq!(sr.scattered.direction, Vec3::new(0, -FX_ONE, 0));
}

#[test]
fn glass_refracts_by_snell_when_entering() {
    let die = Dielectric::new(fx(1.5));
    let rec = HitRecord {
        p: Vec3::new(0, 0, 0),
        normal: Vec3::new(0, FX_ONE, 0),
        mat: None,
        t: fx(1.0),
        front_face: true,
    };
    let inv = 2.0f64.sqrt() / 2.0;
    let r_in = Ray::new(Vec3::new(0, FX_ONE, 0), Vec3::new(fx(inv), fx(-inv), 0));
    // seeds whose first draw exceeds the reflectance (about 0.05) refract
    let mut rng = Rng::new(1);
    let mut probe = Rng::new(1);
    let draw = probe.next_unit();
    assert!(to_f(draw) > 0.10);
    let sr = die.scatter(&r_in, &rec, &mut rng).expect("dielectric always scatters");
    let out = sr.scattered.direction;
    let sin_out = to_f(out.x()) / to_f(out.length());
    assert!(close(sin_out, inv / 1.5, 1e-3), "sin_out {sin_out}");
}

#[test]
fn render_pixel_with_no_depth_averages_black_samples() {
    // every sample of a zero-depth path is black, so any sample count
    // averages back to the single-sample result
    let world = HittableList::new();
    let cam = Camera::new(
        &Vec3::new(0, 0, 0),
        &Vec3::new(0, 0, -FX_ONE),
        &Vec3::new(0, FX_ONE, 0),
        fx(40.0),
        fx(1.5),
        0,
        fx(1.0),
    );
    let mut rng1 = Rng::new(2);
    let one = render_pixel(3, 2, 8, 6, &cam, &world, 0, 1, &mut rng1);
    let mut rng7 = Rng::new(2);
    let many = render_pixel(3, 2, 8, 6, &cam, &world, 0, 7, &mut rng7);
    assert_eq!(one, Vec3::new(0, 0, 0));
    assert_eq!(many, one);
}

#[test]
fn render_pixel_replays_its_sample_stream() {
    let mut world = HittableList::new();
    let albedo = Vec3::new(fx(0.5), fx(0.5), fx(0.5));
    world.add_sphere(Sphere::new(
        Vec3::new(0, 0, fx(-2.0)),
        fx(1.0),
        Materials::Lambertian(Lambertian::new(albedo)),
    ));
    let cam = Camera::new(
        &Vec3::new(0, 0, 0),
        &Vec3::new(0, 0, -FX_ONE),
        &Vec3::new(0, FX_ONE, 0),
        fx(40.0),
        fx(1.0),
        0,
        fx(1.0),
    );
    let seed = 12345;
    let mut rng = Rng::new(seed);
    let px = render_pixel(4, 4, 9, 9, &cam, &world, 2, 1, &mut rng);
    // replay the single sample by hand through the public pieces
    let mut replay = Rng::new(seed);
    let ur = replay.next_unit();
    let vr = replay.next_unit();
    let u = fdiv(4 * FX_ONE + ur, 8 * FX_ONE);
    let v = fdiv(4 * FX_ONE + vr, 8 * FX_ONE);
    let r = cam.get_ray(u, v, &mut replay);
    let col = ray_color(&r, &world, 2, &mut replay);
    let expected = Vec3::new(fsqrt(col.x()), fsqrt(col.y()), fsqrt(col.z()));
    assert_eq!(px, expected);
    assert_eq!(rng.state, replay.state);
}

#[test]
fn center_pixel_of_a_filling_lambertian_sphere_is_albedo_times_background() {
    // one diffuse sphere filling the frame: the camera ray hits it, the
    // scattered ray leaves the convex surface and earns the background, so
    // the sample colour is the albedo attenuating a background value
    let mut world = HittableList::new();
    let albedo = Vec3::new(fx(0.5), fx(0.5), fx(0.5));
    world.add_sphere(Sphere::new(
        Vec3::new(0, 0, fx(-2.0)),
        fx(1.0),
        Materials::Lambertian(Lambertian::new(albedo)),
    ));
    let cam = Camera::new(
        &Vec3::new(0, 0, 0),
        &Vec3::new(0, 0, -FX_ONE),
        &Vec3::new(0, FX_ONE, 0),
        fx(20.0),
        fx(1.0),
        0,
        fx(1.0),
    );
    let seed = 777;
    let mut replay = Rng::new(seed);
    let ur = replay.next_unit();
    let vr = replay.next_unit();
    let u = fdiv(4 * FX_ONE + ur, 8 * FX_ONE);
    let v = fdiv(4 * FX_ONE + vr, 8 * FX_ONE);
    let r = cam.get_ray(u, v, &mut replay);
    let mut scatter_rng = Rng::new(replay.state);
    let rec = world.hit(&r, FX_T_EPS, FX_WORLD).expect("the sphere fills the frame");
    let mat = rec.mat.expect("material handle");
    let sr = mat.scatter(&r, &rec, &mut scatter_rng).expect("diffuse always scatters");
    assert_eq!(sr.attenuation, albedo);
    // the scattered ray leaves the convex sphere: no second hit
    assert!(world.hit(&sr.scattered, FX_T_EPS, FX_WORLD).is_none());
    // the full estimate is the albedo times the background of the scatter
    let col = ray_color(&r, &world, 2, &mut replay);
    assert_eq!(replay.state, scatter_rng.state);
    let d = sr.scattered.direction;
    let uy = to_f(d.y()) / to_f(d.length());
    let t = 0.5 * (uy + 1.0);
    let bg = [(1.0 - t) + t * 0.5, (1.0 - t) + t * 0.7, 1.0];
    assert!(close(to_f(col.x()), 0.5 * bg[0], 1e-3));
    assert!(close(to_f(col.y()), 0.5 * bg[1], 1e-3));
    assert!(close(to_f(col.z()), 0.5 * bg[2], 1e-3));
}

#[test]
fn render_image_assembles_rows_from_the_top() {
    let world = HittableList::new();
    let cam = Camera::new(
        &Vec3::new(0, 0, 0),
        &Vec3::new(0, 0, -FX_ONE),
        &Vec3::new(0, FX_ONE, 0),
        fx(40.0),
        fx(1.0),
        0,
        fx(1.0),
    );
    let seed = 9;
    let mut rng = Rng::new(seed);
    let img = render_image(2, 2, &cam, &world, 3, 1, &mut rng);
    assert_eq!(img.len(), 4);
    // the first entry is pixel (0, h-1): the top-left corner
    let mut replay = Rng::new(seed);
    let first = render_pixel(0, 1, 2, 2, &cam, &world, 3, 1, &mut replay);
    assert_eq!(img[0], first);
    for p in img.iter() {
        assert!(0 <= p.x() && p.x() <= FX_ONE);
        assert!(0 <= p.y() && p.y() <= FX_ONE);
        assert!(0 <= p.z() && p.z() <= FX_ONE);
    }
}

#[test]
fn channels_scale_to_bytes_with_clamping() {
    assert_eq!(channel_to_byte(fx(1.0)), 255);
    assert_eq!(channel_to_byte(fx(2.0)), 255);
    assert_eq!(channel_to_byte(fx(0.5)), 128);
    assert_eq!(channel_to_byte(0), 0);
    assert_eq!(channel_to_byte(fx(-0.25)), 0);
}

#[test]
fn camera_rays_are_deterministic_per_seed() {
    let cam = Camera::new(
        &Vec3::new(fx(13.0), fx(2.0), fx(3.0)),
        &Vec3::new(0, 0, 0),
        &Vec3::new(0, FX_ONE, 0),
        fx(20.0),
        fx(1.5),
        fx(0.1),
        fx(10.0),
    );
    let mut a = Rng::new(31);
    let mut b = Rng::new(31);
    let ra = cam.get_ray(fx(0.25), fx(0.75), &mut a);
    let rb = cam.get_ray(fx(0.25), fx(0.75), &mut b);
    assert_eq!(ra, rb);
    assert_eq!(a.state, b.state);
}

#[test]
fn pinhole_camera_points_at_the_focus_plane() {
    // pinhole at the origin looking down -z: the ray for the image center
    // points straight at the target within tolerance
    let cam = Camera::new(
        &Vec3::new(0, 0, 0),
        &Vec3::new(0, 0, -FX_ONE),
        &Vec3::new(0, FX_ONE, 0),
        fx(90.0),
        fx(1.0),
        0,
        fx(1.0),
    );
    let mut rng = Rng::new(8);
    let r = cam.get_ray(fx(0.5), fx(0.5), &mut rng);
    assert_eq!(r.origin, Vec3::new(0, 0, 0));
    assert!(close(to_f(r.direction.x()), 0.0, 1e-2));
    assert!(close(to_f(r.direction.y()), 0.0, 1e-2));
    assert!(close(to_f(r.direction.z()), -1.0, 1e-2));
}

#[test]
fn scene_construction_accumulates_spheres() {
    let mut world = HittableList::new();
    assert_eq!(world.objects.len(), 0);
    world.add_sphere(Sphere::new(Vec3::new(0, 0, fx(-5.0)), fx(1.0), grey()));
    world.add_sphere(Sphere::new(Vec3::new(0, fx(2.0), fx(-5.0)), fx(1.0), grey()));
    assert_eq!(world.objects.len(), 2);
    match &world.objects[0] {
        HittableEnum::Sphere(s) => assert_eq!(s.radius, fx(1.0)),
    }
}

#[test]
fn estimates_stay_in_the_unit_cube() {
    let mut world = HittableList::new();
    world.add_sphere(Sphere::new(
        Vec3::new(0, fx(-1000.0), 0),
        fx(1000.0),
        Materials::Metal(Metal::new(Vec3::new(fx(0.9), fx(0.9), fx(0.9)), fx(0.3))),
    ));
    world.add_sphere(Sphere::new(
        Vec3::new(0, fx(1.0), 0),
        fx(1.0),
        Materials::Dielectric(Dielectric::new(fx(1.5))),
    ));
    let mut rng = Rng::new(100);
    for k in 0..20i128 {
        let r = Ray::new(
            Vec3::new(fx(-4.0), fx(2.0), fx(0.1)),
            Vec3::new(FX_ONE, -k * FX_ONE / 20, 0),
        );
        let c = ray_color(&r, &world, 6, &mut rng);
        assert!(0 <= c.x() && c.x() <= FX_ONE);
        assert!(0 <= c.y() && c.y() <= FX_ONE);
        assert!(0 <= c.z() && c.z() <= FX_ONE);
    }
}
