use ray_tracer::fixed::{fdiv, fmul, fsqrt, isqrt, FX_ONE};
use ray_tracer::rng::Rng;
use ray_tracer::trig::{cos_fx, sin_fx, tan_fx};
use ray_tracer::vec3::Vec3;

fn fx(x: f64) -> i128 {
    (x * FX_ONE as f64).round() as i128
}

fn to_f(v: i128) -> f64 {
    v as f64 / FX_ONE as f64
}

fn close(a: f64, b: f64, eps: f64) -> bool {
    (a - b).abs() <= eps
}

#[test]
fn fixed_point_products_and_quotients() {
    assert_eq!(fmul(fx(1.5), fx(2.0)), fx(3.0));
    assert_eq!(fmul(fx(-1.5), fx(2.0)), fx(-3.0));
    assert_eq!(fmul(0, fx(123.0)), 0);
    assert_eq!(fdiv(fx(3.0), fx(2.0)), fx(1.5));
    assert_eq!(fdiv(fx(-3.0), fx(2.0)), fx(-1.5));
    assert_eq!(fdiv(fx(1.0), fx(-2.0)), fx(-0.5));
}

#[test]
fn integer_square_roots() {
    assert_eq!(isqrt(0), 0);
    assert_eq!(isqrt(10), 3);
    assert_eq!(isqrt(16), 4);
    assert_eq!(fsqrt(fx(4.0)), fx(2.0));
    assert_eq!(fsqrt(fx(1.0)), fx(1.0));
    assert_eq!(fsqrt(0), 0);
    assert!(close(to_f(fsqrt(fx(2.0))), 2.0f64.sqrt(), 1e-6));
}

#[test]
fn unit_vector_has_length_one() {
    let v = Vec3::new(fx(3.0), fx(-4.0), fx(12.0));
    let u = v.unit();
    let len = to_f(u.length());
    assert!(close(len, 1.0, 1e-5), "length {len}");
    let w = Vec3::new(fx(0.001), fx(0.002), fx(-0.0005));
    let uw = w.unit();
    assert!(close(to_f(uw.length()), 1.0, 1e-3));
}

#[test]
fn dot_and_cross_products() {
    let a = Vec3::new(fx(1.0), fx(2.0), fx(3.0));
    let b = Vec3::new(fx(-4.0), fx(5.0), fx(0.5));
    assert!(close(to_f(Vec3::dot(&a, &b)), 1.0 * -4.0 + 2.0 * 5.0 + 3.0 * 0.5, 1e-5));
    let c = Vec3::cross(&a, &b);
    assert!(close(to_f(c.x()), 2.0 * 0.5 - 3.0 * 5.0, 1e-5));
    assert!(close(to_f(c.y()), 3.0 * -4.0 - 1.0 * 0.5, 1e-5));
    assert!(close(to_f(c.z()), 1.0 * 5.0 - 2.0 * -4.0, 1e-5));
}

#[test]
fn reflect_about_axis_normal_is_involutive() {
    let n = Vec3::new(0, FX_ONE, 0);
    let v = Vec3::new(fx(0.75), fx(-2.5), fx(1.25));
    let once = Vec3::reflect(&v, &n);
    assert_eq!(once, Vec3::new(fx(0.75), fx(2.5), fx(1.25)));
    let twice = Vec3::reflect(&once, &n);
    assert_eq!(twice, v);
}

#[test]
fn refract_matched_medium_at_normal_incidence_keeps_direction() {
    let n = Vec3::new(0, FX_ONE, 0);
    let uv = Vec3::new(0, -FX_ONE, 0);
    let out = Vec3::refract(&uv, &n, FX_ONE);
    assert_eq!(out, uv);
}

#[test]
fn refract_bends_toward_the_normal_when_entering() {
    // entering glass (ratio 1/1.5) at 45 degrees: the direction steepens
    let inv = 2.0f64.sqrt() / 2.0;
    let uv = Vec3::new(fx(inv), fx(-inv), 0);
    let n = Vec3::new(0, FX_ONE, 0);
    let out = Vec3::refract(&uv, &n, fx(1.0 / 1.5));
    // Snell: sin_out = sin_in / 1.5
    let sin_out = to_f(out.x()) / to_f(out.length());
    assert!(close(sin_out, inv / 1.5, 1e-3), "sin_out {sin_out}");
}

#[test]
fn near_zero_only_accepts_exact_zero() {
    assert!(Vec3::new(0, 0, 0).near_zero());
    assert!(!Vec3::new(1, 0, 0).near_zero());
    assert!(!Vec3::new(0, 0, -1).near_zero());
}

#[test]
fn seeded_source_replays_the_same_draws() {
    let mut a = Rng::new(42);
    let mut b = Rng::new(42);
    for _ in 0..16 {
        assert_eq!(a.next_u64(), b.next_u64());
    }
    let mut c = Rng::new(43);
    assert_ne!(a.next_u64(), c.next_u64());
}

#[test]
fn uniform_draws_stay_in_their_ranges() {
    let mut r = Rng::new(7);
    for _ in 0..100 {
        let u = r.next_unit();
        assert!(0 <= u && u < FX_ONE);
    }
    for _ in 0..100 {
        let v = r.next_range(fx(-1.0), fx(1.0));
        assert!(fx(-1.0) <= v && v < fx(1.0));
    }
}

#[test]
fn entropy_seeding_yields_a_working_source() {
    let mut r = Rng::from_entropy();
    let u = r.next_unit();
    assert!(0 <= u && u < FX_ONE);
}

#[test]
fn sampled_ball_and_disk_points_stay_inside() {
    let mut r = Rng::new(99);
    for _ in 0..50 {
        let p = Vec3::random_in_unit_sphere(&mut r);
        assert!(p.length_squared() < FX_ONE);
        let q = Vec3::random_in_unit_disk(&mut r);
        assert!(q.length_squared() < FX_ONE);
        assert_eq!(q.z(), 0);
        let u = Vec3::random_unit_vector(&mut r);
        assert!(close(to_f(u.length()), 1.0, 1e-3));
        let h = Vec3::random_in_hemisphere(&mut r, &Vec3::new(0, FX_ONE, 0));
        assert!(to_f(Vec3::dot(&h, &Vec3::new(0, FX_ONE, 0))) >= -1e-6);
    }
}

#[test]
fn random_vectors_follow_their_bounds() {
    let mut r = Rng::new(5);
    for _ in 0..50 {
        let v = Vec3::random(&mut r);
        assert!(0 <= v.x() && v.x() < FX_ONE);
        assert!(0 <= v.y() && v.y() < FX_ONE);
        assert!(0 <= v.z() && v.z() < FX_ONE);
        let w = Vec3::random_range(&mut r, fx(0.5), fx(1.0));
        assert!(fx(0.5) <= w.x() && w.x() < fx(1.0));
        assert!(fx(0.5) <= w.y() && w.y() < fx(1.0));
        assert!(fx(0.5) <= w.z() && w.z() < fx(1.0));
    }
}

#[test]
fn taylor_trigonometry_matches_the_reference() {
    for &x in &[0.0f64, 0.1, 0.25, 0.5, 0.75, 1.0] {
        assert!(close(to_f(sin_fx(fx(x))), x.sin(), 1e-5));
        assert!(close(to_f(cos_fx(fx(x))), x.cos(), 1e-5));
        assert!(close(to_f(tan_fx(fx(x))), x.tan(), 1e-4));
    }
}

#[test]
fn vector_arithmetic_is_componentwise() {
    let a = Vec3::new(fx(1.0), fx(2.0), fx(3.0));
    let b = Vec3::new(fx(0.5), fx(-1.0), fx(4.0));
    assert_eq!(a.plus(&b), Vec3::new(fx(1.5), fx(1.0), fx(7.0)));
    assert_eq!(a.minus(&b), Vec3::new(fx(0.5), fx(3.0), fx(-1.0)));
    assert_eq!(a.neg(), Vec3::new(fx(-1.0), fx(-2.0), fx(-3.0)));
    assert_eq!(a.scale(fx(2.0)), Vec3::new(fx(2.0), fx(4.0), fx(6.0)));
    assert_eq!(a.mul_v(&b), Vec3::new(fx(0.5), fx(-2.0), fx(12.0)));
    assert_eq!(a.div_s(fx(2.0)), Vec3::new(fx(0.5), fx(1.0), fx(1.5)));
    assert_eq!(Vec3::empty(), Vec3::new(0, 0, 0));
    assert_eq!(a.x(), fx(1.0));
    assert_eq!(a.y(), fx(2.0));
    assert_eq!(a.z(), fx(3.0));
    assert!(close(to_f(a.length_squared()), 14.0, 1e-5));
    assert!(close(to_f(a.length()), 14.0f64.sqrt(), 1e-5));
}
