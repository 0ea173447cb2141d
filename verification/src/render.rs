//! The light-transport estimator and the render driver: a recursive
//! estimator turns a camera ray into a colour, and the driver accumulates
//! jittered samples per pixel, averages, applies gamma correction and
//! assembles the image row-major from the top.

use vstd::prelude::*;
use crate::camera::{cam_wf, get_ray_s, CamV, Camera};
use crate::fixed::{
    fdiv, fdiv_s, fmul, fmul_s, fsqrt, fsqrt_s, lemma_fmul_one, lemma_fmul_unit_interval,
    lemma_tdiv_bound, sabs, tdiv, FX_ONE, FX_WORLD,
};
use crate::hittable::{HittableEnum, HittableList, list_hit_s, list_wf};
use crate::material::{color_wf, scatter_s};
use crate::ray::Ray;
use crate::rng::{next_state, unit_sample, Rng};
use crate::vec3::{add_v, bounded_v, hadamard_v, scale_v, unit_v, V3, Vec3};

verus! {

/// The lower bound of every scene query: a little above zero, so a scattered
/// ray does not re-hit its own surface through rounding (shadow acne).
pub const FX_T_EPS: i128 = 16777;

/// Top of the clamp applied when a channel is scaled to a byte.
pub const FX_CLAMP_TOP: i128 = 16760438;

/// The background gradient: white blended toward sky blue by the normalized
/// vertical component of the direction, the blend factor clamped into
/// `[0, 1]` (the fixed-point counterpart of directions so degenerate that
/// their normalization overshoots one).
pub open spec fn background_s(d: V3) -> V3 {
    let u = unit_v(d);
    let t0 = fmul_s(8388608, u.y + FX_ONE as int);
    let t = if t0 < 0 {
        0
    } else if t0 > FX_ONE as int {
        FX_ONE as int
    } else {
        t0
    };
    add_v(
        scale_v(FX_ONE as int - t, V3 { x: FX_ONE as int, y: FX_ONE as int, z: FX_ONE as int }),
        scale_v(t, V3 { x: 8388608, y: 11744051, z: FX_ONE as int }),
    )
}

/// The colour the estimator assigns to a ray, and the random state after:
/// black when the depth budget is exhausted; otherwise the closest hit's
/// material scatters and the result attenuates the recursive estimate, an
/// absorbed ray is black, and a ray that escapes the scene earns the
/// background gradient.
pub open spec fn ray_color_s(objs: Seq<HittableEnum>, o: V3, d: V3, depth: nat, s: u64) -> (
    V3,
    u64,
)
    decreases depth,
{
    if depth == 0 {
        (V3 { x: 0, y: 0, z: 0 }, s)
    } else {
        match list_hit_s(objs, 0, o, d, FX_T_EPS as int, FX_WORLD as int, None) {
            Some(hm) => {
                let sc = scatter_s(hm.1, d, hm.0, s);
                match sc.0 {
                    Some(ad) => {
                        let rc = ray_color_s(objs, hm.0.p, ad.1, (depth - 1) as nat, sc.1);
                        (hadamard_v(ad.0, rc.0), rc.1)
                    },
                    None => (V3 { x: 0, y: 0, z: 0 }, sc.1),
                }
            },
            None => (background_s(d), s),
        }
    }
}

/// An exhausted depth budget is black for every ray and every scene, and
/// consumes no randomness.
pub proof fn lemma_depth_exhausted_black(objs: Seq<HittableEnum>, o: V3, d: V3, s: u64)
    ensures
        ray_color_s(objs, o, d, 0, s) == ((V3 { x: 0, y: 0, z: 0 }, s)),
{
}

/// The background colour of a ray's direction.
fn background(r: &Ray) -> (c: Vec3)
    requires
        bounded_v(r.direction@, FX_WORLD as int),
    ensures
        c@ == background_s(r.direction@),
        color_wf(c@),
{
    let ud = r.direction.unit();
    let t0 = fmul(8388608, ud.y + FX_ONE);
    let t = if t0 < 0 {
        0
    } else if t0 > FX_ONE {
        FX_ONE
    } else {
        t0
    };
    proof {
        crate::fixed::lemma_fmul_bound(8388608, ud@.y + FX_ONE as int, 8388608,
            50331648int);
        lemma_fmul_one(FX_ONE as int - t as int);
        lemma_fmul_unit_interval(t as int, 8388608);
        lemma_fmul_unit_interval(t as int, 11744051);
        lemma_fmul_unit_interval(t as int, FX_ONE as int);
    }
    let white = Vec3::new(FX_ONE, FX_ONE, FX_ONE);
    let blue = Vec3::new(8388608, 11744051, FX_ONE);
    let a = white.scale(FX_ONE - t);
    let b = blue.scale(t);
    a.plus(&b)
}

/// The recursive light-transport estimator.  With no depth left it is black
/// regardless of the scene; a hit consults the material, attenuating the
/// recursive estimate or going black on absorption; a miss earns the
/// background gradient.
pub fn ray_color(r: &Ray, world: &HittableList, depth: u32, rng: &mut Rng) -> (c: Vec3)
    requires
        list_wf(world.objects@),
        bounded_v(r.origin@, FX_WORLD as int),
        bounded_v(r.direction@, FX_WORLD as int),
    ensures
        ({
            let rc = ray_color_s(
                world.objects@,
                r.origin@,
                r.direction@,
                depth as nat,
                old(rng).state,
            );
            c@ == rc.0 && final(rng).state == rc.1
        }),
        color_wf(c@),
    decreases depth,
{
    if depth == 0 {
        return Vec3::empty();
    }
    match world.hit(r, FX_T_EPS, FX_WORLD) {
        Some(rec) => {
            match rec.mat {
                Some(mat) => {
                    match mat.scatter(r, &rec, rng) {
                        Some(sr) => {
                            let rc = ray_color(&sr.scattered, world, depth - 1, rng);
                            proof {
                                lemma_fmul_unit_interval(sr.attenuation@.x, rc@.x);
                                lemma_fmul_unit_interval(sr.attenuation@.y, rc@.y);
                                lemma_fmul_unit_interval(sr.attenuation@.z, rc@.z);
                            }
                            sr.attenuation.mul_v(&rc)
                        },
                        None => Vec3::empty(),
                    }
                },
                None => {
                    proof {
                        assert(false);
                    }
                    Vec3::empty()
                },
            }
        },
        None => background(r),
    }
}

/// A scene with no objects assigns every ray (with depth left) the pure
/// background gradient, and consumes no randomness.
pub proof fn lemma_empty_scene_background(o: V3, d: V3, depth: nat, s: u64)
    requires
        depth >= 1,
    ensures
        ray_color_s(Seq::empty(), o, d, depth, s) == ((background_s(d), s)),
{
    assert(list_hit_s(Seq::empty(), 0, o, d, FX_T_EPS as int, FX_WORLD as int, None) is None);
}

/// Averaging undoes the accumulation of identical samples exactly: a sum of
/// `n` copies of a colour, divided by `n`, is that colour again.
pub proof fn lemma_average_of_equal_samples(c: V3, n: int)
    requires
        n >= 1,
    ensures
        tdiv(n * c.x, n) == c.x,
        tdiv(n * c.y, n) == c.y,
        tdiv(n * c.z, n) == c.z,
{
    lemma_identical_quotient(c.x, n);
    lemma_identical_quotient(c.y, n);
    lemma_identical_quotient(c.z, n);
}

/// A product divided by its own factor is the other factor.
proof fn lemma_identical_quotient(v: int, n: int)
    requires
        n >= 1,
    ensures
        tdiv(n * v, n) == v,
{
    if v >= 0 {
        assert(n * v >= 0 && sabs(n * v) == n * v && (n * v) / n == v) by (nonlinear_arith)
            requires
                n >= 1,
                v >= 0,
        ;
    } else {
        assert(n * v < 0 && sabs(n * v) == n * (-v) && (n * (-v)) / n == -v)
            by (nonlinear_arith)
            requires
                n >= 1,
                v < 0,
        ;
    }
}

/// A jittered normalized coordinate lies within `[0, 2]`.
proof fn lemma_pixel_coord(xi: int, n: int, j: int)
    requires
        0 <= xi < n,
        2 <= n,
        0 <= j < FX_ONE as int,
    ensures
        0 <= fdiv_s(xi * FX_ONE + j, (n - 1) * FX_ONE) <= 2 * FX_ONE as int,
{
    let s = FX_ONE as int;
    let num = xi * s + j;
    assert(0 <= num <= 2 * (n - 1) * s) by (nonlinear_arith)
        requires
            0 <= xi <= n - 1,
            1 <= n - 1,
            0 <= j < s,
            s == 16777216,
            num == xi * s + j,
    ;
    assert(sabs(num * s) <= 2 * (n - 1) * s * s) by (nonlinear_arith)
        requires
            0 <= num <= 2 * (n - 1) * s,
            s == 16777216,
            1 <= n - 1,
    ;
    lemma_tdiv_bound(num * s, (n - 1) * s, 2 * (n - 1) * s * s);
    assert((2 * (n - 1) * s * s) / sabs((n - 1) * s) == 2 * s) by (nonlinear_arith)
        requires
            1 <= n - 1,
            s == 16777216,
    ;
    assert(tdiv(num * s, (n - 1) * s) >= 0) by (nonlinear_arith)
        requires
            0 <= num,
            1 <= n - 1,
            s == 16777216,
    ;
}

/// The sum of `k` jittered samples of pixel `(x, y)` and the state after:
/// each sample jitters the pixel coordinates by a uniform draw, asks the
/// camera for the ray and the estimator for its colour.
#[verifier::opaque]
pub open spec fn sample_rays_s(
    x: nat,
    y: nat,
    w: nat,
    h: nat,
    cam: CamV,
    objs: Seq<HittableEnum>,
    depth: nat,
    k: nat,
    s: u64,
) -> (V3, u64)
    decreases k,
{
    if k == 0 {
        (V3 { x: 0, y: 0, z: 0 }, s)
    } else {
        let s1 = next_state(s);
        let s2 = next_state(s1);
        let u = fdiv_s(x * FX_ONE + unit_sample(s1), (w - 1) * FX_ONE);
        let v = fdiv_s(y * FX_ONE + unit_sample(s2), (h - 1) * FX_ONE);
        let g = get_ray_s(cam, u, v, s2);
        let rc = ray_color_s(objs, g.0, g.1, depth, g.2);
        let rest = sample_rays_s(x, y, w, h, cam, objs, depth, (k - 1) as nat, rc.1);
        (add_v(rc.0, rest.0), rest.1)
    }
}

/// One step of the sample accumulation.
proof fn lemma_sample_unfold(
    x: nat,
    y: nat,
    w: nat,
    h: nat,
    cam: CamV,
    objs: Seq<HittableEnum>,
    depth: nat,
    k: nat,
    s: u64,
)
    requires
        k >= 1,
    ensures
        sample_rays_s(x, y, w, h, cam, objs, depth, k, s) == ({
            let s1 = next_state(s);
            let s2 = next_state(s1);
            let u = fdiv_s(x * FX_ONE + unit_sample(s1), (w - 1) * FX_ONE);
            let v = fdiv_s(y * FX_ONE + unit_sample(s2), (h - 1) * FX_ONE);
            let g = get_ray_s(cam, u, v, s2);
            let rc = ray_color_s(objs, g.0, g.1, depth, g.2);
            let rest = sample_rays_s(x, y, w, h, cam, objs, depth, (k - 1) as nat, rc.1);
            (add_v(rc.0, rest.0), rest.1)
        }),
{
    reveal_with_fuel(sample_rays_s, 1);
}

/// The sample accumulation with no samples left.
proof fn lemma_sample_zero(
    x: nat,
    y: nat,
    w: nat,
    h: nat,
    cam: CamV,
    objs: Seq<HittableEnum>,
    depth: nat,
    s: u64,
)
    ensures
        sample_rays_s(x, y, w, h, cam, objs, depth, 0, s) == ((V3 { x: 0, y: 0, z: 0 }, s)),
{
    reveal_with_fuel(sample_rays_s, 1);
}

/// The colour of pixel `(x, y)`: the sample sum averaged by the sample count
/// and gamma-corrected by a square root per channel.
pub open spec fn render_pixel_s(
    x: nat,
    y: nat,
    w: nat,
    h: nat,
    cam: CamV,
    objs: Seq<HittableEnum>,
    depth: nat,
    spp: nat,
    s: u64,
) -> (V3, u64) {
    let sm = sample_rays_s(x, y, w, h, cam, objs, depth, spp, s);
    (
        V3 {
            x: fsqrt_s(tdiv(sm.0.x, spp as int)),
            y: fsqrt_s(tdiv(sm.0.y, spp as int)),
            z: fsqrt_s(tdiv(sm.0.z, spp as int)),
        },
        sm.1,
    )
}

/// Draws `samples_per_pixel` jittered camera rays through pixel `(x, y)`,
/// averages the estimates and applies gamma-2 correction; the pure,
/// deterministic-per-seed entry point of the driver.
pub fn render_pixel(
    x: u32,
    y: u32,
    image_width: u32,
    image_height: u32,
    cam: &Camera,
    world: &HittableList,
    max_depth: u32,
    samples_per_pixel: u32,
    rng: &mut Rng,
) -> (c: Vec3)
    requires
        x < image_width,
        y < image_height,
        2 <= image_width,
        2 <= image_height,
        1 <= samples_per_pixel,
        cam_wf(cam@),
        list_wf(world.objects@),
    ensures
        ({
            let rp = render_pixel_s(
                x as nat,
                y as nat,
                image_width as nat,
                image_height as nat,
                cam@,
                world.objects@,
                max_depth as nat,
                samples_per_pixel as nat,
                old(rng).state,
            );
            c@ == rp.0 && final(rng).state == rp.1
        }),
        color_wf(c@),
{
    let mut pixel_color = Vec3::empty();
    let mut i: u32 = 0;
    while i < samples_per_pixel
        invariant
            i <= samples_per_pixel,
            x < image_width,
            y < image_height,
            2 <= image_width,
            2 <= image_height,
            1 <= samples_per_pixel,
            cam_wf(cam@),
            list_wf(world.objects@),
            0 <= pixel_color@.x <= i * FX_ONE,
            0 <= pixel_color@.y <= i * FX_ONE,
            0 <= pixel_color@.z <= i * FX_ONE,
            ({
                let full = sample_rays_s(
                    x as nat,
                    y as nat,
                    image_width as nat,
                    image_height as nat,
                    cam@,
                    world.objects@,
                    max_depth as nat,
                    samples_per_pixel as nat,
                    old(rng).state,
                );
                let rest = sample_rays_s(
                    x as nat,
                    y as nat,
                    image_width as nat,
                    image_height as nat,
                    cam@,
                    world.objects@,
                    max_depth as nat,
                    (samples_per_pixel - i) as nat,
                    rng.state,
                );
                full.0 == add_v(pixel_color@, rest.0) && full.1 == rest.1
            }),
        decreases samples_per_pixel - i,
    {
        let ghost s_pre = rng.state;
        proof {
            lemma_sample_unfold(
                x as nat,
                y as nat,
                image_width as nat,
                image_height as nat,
                cam@,
                world.objects@,
                max_depth as nat,
                (samples_per_pixel - i) as nat,
                s_pre,
            );
        }
        let u_rng = rng.next_unit();
        let v_rng = rng.next_unit();
        proof {
            lemma_pixel_coord(x as int, image_width as int, u_rng as int);
            lemma_pixel_coord(y as int, image_height as int, v_rng as int);
        }
        let u = fdiv(
            (x as i128) * FX_ONE + u_rng,
            ((image_width - 1) as i128) * FX_ONE,
        );
        let v = fdiv(
            (y as i128) * FX_ONE + v_rng,
            ((image_height - 1) as i128) * FX_ONE,
        );
        let r = cam.get_ray(u, v, rng);
        let col = ray_color(&r, world, max_depth, rng);
        pixel_color = pixel_color.plus(&col);
        i = i + 1;
    }
    let spp = samples_per_pixel as i128;
    proof {
        lemma_sample_zero(
            x as nat,
            y as nat,
            image_width as nat,
            image_height as nat,
            cam@,
            world.objects@,
            max_depth as nat,
            rng.state,
        );
        lemma_tdiv_bound(pixel_color@.x, spp as int, samples_per_pixel as int * FX_ONE as int);
        lemma_tdiv_bound(pixel_color@.y, spp as int, samples_per_pixel as int * FX_ONE as int);
        lemma_tdiv_bound(pixel_color@.z, spp as int, samples_per_pixel as int * FX_ONE as int);
        assert(forall|c: int|
            0 <= c <= samples_per_pixel as int * FX_ONE as int ==> 0 <= #[trigger] tdiv(
                c,
                spp as int,
            ) <= FX_ONE as int) by {
            assert forall|c: int| 0 <= c <= samples_per_pixel as int * FX_ONE as int implies 0
                <= #[trigger] tdiv(c, spp as int) <= FX_ONE as int by {
                assert(0 <= c / (spp as int) <= FX_ONE as int && tdiv(c, spp as int) == c / (
                spp as int)) by (nonlinear_arith)
                    requires
                        0 <= c <= spp as int * FX_ONE as int,
                        1 <= spp as int,
                        tdiv(c, spp as int) == sabs(c) / sabs(spp as int),
                        sabs(c) == c,
                        sabs(spp as int) == spp as int,
                ;
            }
        }
    }
    let ax = crate::fixed::div_tz(pixel_color.x, spp);
    let ay = crate::fixed::div_tz(pixel_color.y, spp);
    let az = crate::fixed::div_tz(pixel_color.z, spp);
    let gx = fsqrt(ax);
    let gy = fsqrt(ay);
    let gz = fsqrt(az);
    proof {
        lemma_gamma_bound(gx as int, ax as int);
        lemma_gamma_bound(gy as int, ay as int);
        lemma_gamma_bound(gz as int, az as int);
    }
    Vec3::new(gx, gy, gz)
}

/// The square root of an averaged channel stays within one unit.
proof fn lemma_gamma_bound(g: int, a: int)
    requires
        0 <= g,
        g * g <= a * (FX_ONE as int),
        0 <= a <= FX_ONE as int,
    ensures
        g <= FX_ONE as int,
{
    assert(g <= 16777216) by (nonlinear_arith)
        requires
            0 <= g,
            g * g <= a * 16777216,
            0 <= a <= 16777216,
    ;
}

/// A channel scaled to a byte: clamped into `[0, 0.999]` and scaled by 256,
/// as the output stage of the driver writes it.
pub open spec fn byte_s(c: int) -> int {
    let cl = if c < 0 {
        0
    } else if c > FX_CLAMP_TOP as int {
        FX_CLAMP_TOP as int
    } else {
        c
    };
    tdiv(256 * cl, FX_ONE as int)
}

/// Scales a gamma-corrected channel to an 8-bit value.
pub fn channel_to_byte(c: i128) -> (b: u8)
    ensures
        b as int == byte_s(c as int),
        b <= 255,
{
    let cl = if c < 0 {
        0
    } else if c > FX_CLAMP_TOP {
        FX_CLAMP_TOP
    } else {
        c
    };
    let v = crate::fixed::div_tz(256 * cl, FX_ONE);
    proof {
        assert(tdiv(256 * (cl as int), FX_ONE as int) == (256 * (cl as int)) / (FX_ONE as int)
            && 0 <= (256 * (cl as int)) / (FX_ONE as int) <= 255) by (nonlinear_arith)
            requires
                0 <= cl as int <= 16760438,
                FX_ONE == 16777216,
                tdiv(256 * (cl as int), FX_ONE as int) == sabs(256 * (cl as int)) / sabs(
                    FX_ONE as int),
                sabs(256 * (cl as int)) == 256 * (cl as int),
                sabs(FX_ONE as int) == FX_ONE as int,
        ;
    }
    v as u8
}

/// The view of a sequence of vectors.
pub open spec fn views(s: Seq<Vec3>) -> Seq<V3> {
    s.map_values(|v: Vec3| v@)
}

/// The image from pixel index `k` on, row-major from the top of the image
/// (row 0 at the top; the geometric vertical coordinate grows upward, so row
/// `r` renders the pixel line `h - 1 - r`), and the state after.
#[verifier::opaque]
pub open spec fn image_rec(
    k: nat,
    w: nat,
    h: nat,
    cam: CamV,
    objs: Seq<HittableEnum>,
    depth: nat,
    spp: nat,
    s: u64,
) -> (Seq<V3>, u64)
    decreases w * h - k,
{
    if k >= w * h {
        (Seq::empty(), s)
    } else {
        let px = render_pixel_s(k % w, (h - 1 - k / w) as nat, w, h, cam, objs, depth, spp, s);
        let rest = image_rec(k + 1, w, h, cam, objs, depth, spp, px.1);
        (seq![px.0] + rest.0, rest.1)
    }
}

/// One step of the image recursion.
proof fn lemma_image_unfold(
    k: nat,
    w: nat,
    h: nat,
    cam: CamV,
    objs: Seq<HittableEnum>,
    depth: nat,
    spp: nat,
    s: u64,
)
    requires
        k < w * h,
    ensures
        image_rec(k, w, h, cam, objs, depth, spp, s) == ({
            let px = render_pixel_s(
                k % w,
                (h - 1 - k / w) as nat,
                w,
                h,
                cam,
                objs,
                depth,
                spp,
                s,
            );
            let rest = image_rec(k + 1, w, h, cam, objs, depth, spp, px.1);
            (seq![px.0] + rest.0, rest.1)
        }),
        k % w < w,
        k / w < h,
{
    reveal_with_fuel(image_rec, 1);
    assert(k % w < w && k / w < h) by (nonlinear_arith)
        requires
            0 <= k < w * h,
            w >= 1,
            h >= 1,
    ;
}

/// The image recursion past the last pixel.
proof fn lemma_image_done(
    k: nat,
    w: nat,
    h: nat,
    cam: CamV,
    objs: Seq<HittableEnum>,
    depth: nat,
    spp: nat,
    s: u64,
)
    requires
        k >= w * h,
    ensures
        image_rec(k, w, h, cam, objs, depth, spp, s) == ((Seq::<V3>::empty(), s)),
{
    reveal_with_fuel(image_rec, 1);
}

/// Renders the full image sequentially: one colour per pixel, row-major with
/// row 0 the top of the image (the driver performs the vertical axis flip).
pub fn render_image(
    image_width: u32,
    image_height: u32,
    cam: &Camera,
    world: &HittableList,
    max_depth: u32,
    samples_per_pixel: u32,
    rng: &mut Rng,
) -> (out: Vec<Vec3>)
    requires
        2 <= image_width,
        2 <= image_height,
        1 <= samples_per_pixel,
        cam_wf(cam@),
        list_wf(world.objects@),
    ensures
        out@.len() == image_width as int * image_height as int,
        ({
            let im = image_rec(
                0,
                image_width as nat,
                image_height as nat,
                cam@,
                world.objects@,
                max_depth as nat,
                samples_per_pixel as nat,
                old(rng).state,
            );
            views(out@) == im.0 && final(rng).state == im.1
        }),
{
    proof {
        assert(image_width as int * (image_height as int) < 18446744073709551616int)
            by (nonlinear_arith)
            requires
                (image_width as int) < 4294967296int,
                (image_height as int) < 4294967296int,
                0 <= image_width as int,
                0 <= image_height as int,
        ;
    }
    let total: u64 = (image_width as u64) * (image_height as u64);
    let mut out: Vec<Vec3> = Vec::new();
    let mut k: u64 = 0;
    proof {
        assert(views(Seq::<Vec3>::empty()) =~= Seq::<V3>::empty());
    }
    while k < total
        invariant
            total == image_width as int * image_height as int,
            2 <= image_width,
            2 <= image_height,
            1 <= samples_per_pixel,
            cam_wf(cam@),
            list_wf(world.objects@),
            k <= total,
            out@.len() == k,
            ({
                let full = image_rec(
                    0,
                    image_width as nat,
                    image_height as nat,
                    cam@,
                    world.objects@,
                    max_depth as nat,
                    samples_per_pixel as nat,
                    old(rng).state,
                );
                let rest = image_rec(
                    k as nat,
                    image_width as nat,
                    image_height as nat,
                    cam@,
                    world.objects@,
                    max_depth as nat,
                    samples_per_pixel as nat,
                    rng.state,
                );
                full.0 == views(out@) + rest.0 && full.1 == rest.1
            }),
        decreases total - k,
    {
        let ghost s_pre = rng.state;
        proof {
            lemma_image_unfold(
                k as nat,
                image_width as nat,
                image_height as nat,
                cam@,
                world.objects@,
                max_depth as nat,
                samples_per_pixel as nat,
                s_pre,
            );
        }
        let x = (k % (image_width as u64)) as u32;
        let y = image_height - 1 - (k / (image_width as u64)) as u32;
        proof {
            assert(x as nat == (k as nat) % (image_width as nat));
            assert(y as nat == ((image_height as nat) - 1 - (k as nat) / (
            image_width as nat)) as nat);
        }
        let ghost out_pre = out@;
        let px = render_pixel(
            x,
            y,
            image_width,
            image_height,
            cam,
            world,
            max_depth,
            samples_per_pixel,
            rng,
        );
        out.push(px);
        k = k + 1;
        proof {
            let rest_new = image_rec(
                k as nat,
                image_width as nat,
                image_height as nat,
                cam@,
                world.objects@,
                max_depth as nat,
                samples_per_pixel as nat,
                rng.state,
            );
            assert(views(out@) =~= views(out_pre) + seq![px@]);
            assert((views(out_pre) + seq![px@]) + rest_new.0 =~= views(out_pre) + (seq![px@]
                + rest_new.0));
        }
    }
    proof {
        lemma_image_done(
            k as nat,
            image_width as nat,
            image_height as nat,
            cam@,
            world.objects@,
            max_depth as nat,
            samples_per_pixel as nat,
            rng.state,
        );
        assert(views(out@) + Seq::<V3>::empty() =~= views(out@));
    }
    out
}

} // verus!
