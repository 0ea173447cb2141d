//! The perspective camera: an orthonormal-ish basis and viewport derived
//! once from look-from/look-at/up, field of view, aspect ratio, aperture and
//! focus distance; it maps normalized image-plane coordinates (and a lens
//! sample, for depth of field) to a world ray.

use vstd::prelude::*;
use crate::fixed::{
    fdiv_s, fmul, fmul_s, lemma_fmul_bound, sabs, tdiv, FX_ONE, FX_WORLD,
};
use crate::ray::Ray;
use crate::rng::Rng;
use crate::trig::tan_s;
use crate::vec3::{
    add_v, bounded_v, cross_v, div_v, riud_s, scale_v, sub_v, unit_v, V3, Vec3,
};

verus! {

/// Radians per degree.
pub const FX_RAD_PER_DEG: i128 = 292826;

/// The mathematical view of a camera.
pub ghost struct CamV {
    pub origin: V3,
    pub lower_left: V3,
    pub horizontal: V3,
    pub vertical: V3,
    pub u: V3,
    pub v: V3,
    pub w: V3,
    pub lens_radius: int,
}

/// A camera: derived basis, viewport vectors and lens radius, immutable once
/// built.
pub struct Camera {
    pub origin: Vec3,
    pub lower_left_corner: Vec3,
    pub horizontal: Vec3,
    pub vertical: Vec3,
    pub u: Vec3,
    pub v: Vec3,
    pub w: Vec3,
    pub lens_radius: i128,
}

impl View for Camera {
    type V = CamV;

    open spec fn view(&self) -> CamV {
        CamV {
            origin: self.origin@,
            lower_left: self.lower_left_corner@,
            horizontal: self.horizontal@,
            vertical: self.vertical@,
            u: self.u@,
            v: self.v@,
            w: self.w@,
            lens_radius: self.lens_radius as int,
        }
    }
}

/// The camera a construction yields: the viewport half-height is the tangent
/// of half the vertical field of view (clamped into `[0, 4]`, inert for any
/// field of view the construction admits), the basis comes from normalized
/// cross products, and the viewport vectors are scaled by the focus distance.
pub open spec fn cam_new_s(
    lookfrom: V3,
    lookat: V3,
    vup: V3,
    vfov: int,
    aspect_ratio: int,
    aperture: int,
    focus_dist: int,
) -> CamV {
    let theta = fmul_s(vfov, FX_RAD_PER_DEG as int);
    let half = tdiv(theta, 2);
    let h0 = tan_s(half);
    let h = if h0 < 0 {
        0
    } else if h0 > 4 * FX_ONE as int {
        4 * FX_ONE as int
    } else {
        h0
    };
    let viewport_height = 2 * h;
    let viewport_width = fmul_s(aspect_ratio, viewport_height);
    let w = unit_v(sub_v(lookfrom, lookat));
    let u = unit_v(cross_v(vup, w));
    let v = cross_v(w, u);
    let kh = fmul_s(focus_dist, viewport_width);
    let kv = fmul_s(focus_dist, viewport_height);
    let horizontal = scale_v(kh, u);
    let vertical = scale_v(kv, v);
    let lower_left = sub_v(
        sub_v(
            sub_v(lookfrom, div_v(horizontal, 2 * FX_ONE as int)),
            div_v(vertical, 2 * FX_ONE as int),
        ),
        scale_v(focus_dist, w),
    );
    CamV {
        origin: lookfrom,
        lower_left,
        horizontal,
        vertical,
        u,
        v,
        w,
        lens_radius: tdiv(aperture, 2),
    }
}

/// The bounds every constructed camera satisfies, generous enough for every
/// admitted parameter and tight enough to keep each generated ray within the
/// world bounds.
pub open spec fn cam_wf(c: CamV) -> bool {
    &&& bounded_v(c.origin, 68719476736int)
    &&& bounded_v(c.lower_left, 274877906944int)
    &&& bounded_v(c.horizontal, 137438953472int)
    &&& bounded_v(c.vertical, 137438953472int)
    &&& bounded_v(c.u, 134217728int)
    &&& bounded_v(c.v, 134217728int)
    &&& bounded_v(c.w, 134217728int)
    &&& 0 <= c.lens_radius <= 1073741824int
}

/// The ray a camera yields for image-plane coordinates `(s, t)` from random
/// state `st`: a disk sample scaled by the lens radius offsets the origin,
/// and the ray points at the focus-plane rectangle.
pub open spec fn get_ray_s(c: CamV, s: int, t: int, st: u64) -> (V3, V3, u64) {
    let draw = riud_s(st);
    let rd = scale_v(c.lens_radius, draw.0);
    let offset = add_v(scale_v(rd.x, c.u), scale_v(rd.y, c.v));
    let o = add_v(c.origin, offset);
    let d = sub_v(
        sub_v(
            add_v(add_v(c.lower_left, scale_v(s, c.horizontal)), scale_v(t, c.vertical)),
            c.origin,
        ),
        offset,
    );
    (o, d, draw.1)
}

impl Camera {
    /// Builds the camera from its seven parameters; the parameter ranges are
    /// the spans the fixed-point products keep within bounds (degenerate
    /// orientations, such as coincident look-from and look-at, normalize to
    /// a fallback axis rather than an undefined basis).
    #[verifier::rlimit(100)]
    pub fn new(
        lookfrom: &Vec3,
        lookat: &Vec3,
        vup: &Vec3,
        vfov: i128,
        aspect_ratio: i128,
        aperture: i128,
        focus_dist: i128,
    ) -> (c: Camera)
        requires
            bounded_v(lookfrom@, 68719476736int),
            bounded_v(lookat@, 68719476736int),
            bounded_v(vup@, 68719476736int),
            FX_ONE <= vfov <= 1845493760int,
            0 < aspect_ratio <= 67108864int,
            0 <= aperture <= 2147483648int,
            0 < focus_dist <= 2147483648int,
        ensures
            c@ == cam_new_s(
                lookfrom@,
                lookat@,
                vup@,
                vfov as int,
                aspect_ratio as int,
                aperture as int,
                focus_dist as int,
            ),
            cam_wf(c@),
    {
        proof {
            lemma_fmul_bound(vfov as int, FX_RAD_PER_DEG as int, 1845493760int, 292826int);
            assert((1845493760int * 292826int) / (FX_ONE as int) <= 32212255int
                && fmul_s(vfov as int, FX_RAD_PER_DEG as int) >= 0) by (nonlinear_arith)
                requires
                    FX_ONE == 16777216,
                    FX_RAD_PER_DEG == 292826,
                    16777216 <= vfov as int,
            ;
        }
        let theta = fmul(vfov, FX_RAD_PER_DEG);
        let half = crate::fixed::div_tz(theta, 2);
        proof {
            crate::fixed::lemma_tdiv_bound(theta as int, 2, 32212255int);
            assert(tdiv(theta as int, 2) >= 0 && tdiv(theta as int, 2) <= 16106128int)
                by (nonlinear_arith)
                requires
                    0 <= theta as int <= 32212255int,
                    tdiv(theta as int, 2) == (theta as int) / 2,
            ;
        }
        let h0 = crate::trig::tan_fx(half);
        let h = if h0 < 0 {
            0
        } else if h0 > 4 * FX_ONE {
            4 * FX_ONE
        } else {
            h0
        };
        let viewport_height = 2 * h;
        proof {
            lemma_fmul_bound(aspect_ratio as int, viewport_height as int, 67108864int,
                134217728int);
            assert((67108864int * 134217728int) / (FX_ONE as int) == 536870912int)
                by (nonlinear_arith)
                requires
                    FX_ONE == 16777216,
            ;
        }
        let viewport_width = fmul(aspect_ratio, viewport_height);
        let w = lookfrom.minus(lookat).unit();
        let cvw = Vec3::cross(vup, &w);
        proof {
            crate::fixed::lemma_fmul_bound(vup@.y, w@.z, 68719476736int, 33554432int);
            crate::fixed::lemma_fmul_bound(vup@.z, w@.y, 68719476736int, 33554432int);
            crate::fixed::lemma_fmul_bound(vup@.z, w@.x, 68719476736int, 33554432int);
            crate::fixed::lemma_fmul_bound(vup@.x, w@.z, 68719476736int, 33554432int);
            crate::fixed::lemma_fmul_bound(vup@.x, w@.y, 68719476736int, 33554432int);
            crate::fixed::lemma_fmul_bound(vup@.y, w@.x, 68719476736int, 33554432int);
            assert((68719476736int * 33554432int) / (FX_ONE as int) == 137438953472int)
                by (nonlinear_arith)
                requires
                    FX_ONE == 16777216,
            ;
        }
        let u = cvw.unit();
        let v = Vec3::cross(&w, &u);
        proof {
            let b = 33554432int;
            crate::fixed::lemma_fmul_bound(w@.y, u@.z, b, b);
            crate::fixed::lemma_fmul_bound(w@.z, u@.y, b, b);
            crate::fixed::lemma_fmul_bound(w@.z, u@.x, b, b);
            crate::fixed::lemma_fmul_bound(w@.x, u@.z, b, b);
            crate::fixed::lemma_fmul_bound(w@.x, u@.y, b, b);
            crate::fixed::lemma_fmul_bound(w@.y, u@.x, b, b);
            assert((33554432int * 33554432int) / (FX_ONE as int) == 67108864int)
                by (nonlinear_arith)
                requires
                    FX_ONE == 16777216,
            ;
            lemma_fmul_bound(focus_dist as int, viewport_width as int, 2147483648int,
                536870912int);
            lemma_fmul_bound(focus_dist as int, viewport_height as int, 2147483648int,
                134217728int);
            assert((2147483648int * 536870912int) / (FX_ONE as int) == 68719476736int
                && (2147483648int * 134217728int) / (FX_ONE as int) == 17179869184int)
                by (nonlinear_arith)
                requires
                    FX_ONE == 16777216,
            ;
        }
        let kh = fmul(focus_dist, viewport_width);
        let kv = fmul(focus_dist, viewport_height);
        let horizontal = u.scale(kh);
        let vertical = v.scale(kv);
        proof {
            lemma_fmul_bound(kh as int, u@.x, 68719476736int, 33554432int);
            lemma_fmul_bound(kh as int, u@.y, 68719476736int, 33554432int);
            lemma_fmul_bound(kh as int, u@.z, 68719476736int, 33554432int);
            lemma_fmul_bound(kv as int, v@.x, 17179869184int, 134217728int);
            lemma_fmul_bound(kv as int, v@.y, 17179869184int, 134217728int);
            lemma_fmul_bound(kv as int, v@.z, 17179869184int, 134217728int);
            lemma_fmul_bound(focus_dist as int, w@.x, 2147483648int, 33554432int);
            lemma_fmul_bound(focus_dist as int, w@.y, 2147483648int, 33554432int);
            lemma_fmul_bound(focus_dist as int, w@.z, 2147483648int, 33554432int);
            assert((68719476736int * 33554432int) / (FX_ONE as int) == 137438953472int
                && (17179869184int * 134217728int) / (FX_ONE as int) == 137438953472int
                && (2147483648int * 33554432int) / (FX_ONE as int) == 4294967296int)
                by (nonlinear_arith)
                requires
                    FX_ONE == 16777216,
            ;
        }
        let half_h = horizontal.div_s(2 * FX_ONE);
        let half_v = vertical.div_s(2 * FX_ONE);
        let fw = w.scale(focus_dist);
        let lower_left_corner = lookfrom.minus(&half_h).minus(&half_v).minus(&fw);
        proof {
            crate::fixed::lemma_tdiv_bound(horizontal@.x * (FX_ONE as int), 2 * FX_ONE as int,
                137438953472int * (FX_ONE as int));
            crate::fixed::lemma_tdiv_bound(horizontal@.y * (FX_ONE as int), 2 * FX_ONE as int,
                137438953472int * (FX_ONE as int));
            crate::fixed::lemma_tdiv_bound(horizontal@.z * (FX_ONE as int), 2 * FX_ONE as int,
                137438953472int * (FX_ONE as int));
            crate::fixed::lemma_tdiv_bound(vertical@.x * (FX_ONE as int), 2 * FX_ONE as int,
                137438953472int * (FX_ONE as int));
            crate::fixed::lemma_tdiv_bound(vertical@.y * (FX_ONE as int), 2 * FX_ONE as int,
                137438953472int * (FX_ONE as int));
            crate::fixed::lemma_tdiv_bound(vertical@.z * (FX_ONE as int), 2 * FX_ONE as int,
                137438953472int * (FX_ONE as int));
            assert(forall|c: int|
                sabs(c) <= 137438953472int ==> sabs(#[trigger] (c * (FX_ONE as int)))
                    <= 137438953472int * (FX_ONE as int)) by (nonlinear_arith)
                requires
                    FX_ONE == 16777216,
            ;
            assert((137438953472int * (FX_ONE as int)) / (2 * FX_ONE as int) == 68719476736int)
                by (nonlinear_arith)
                requires
                    FX_ONE == 16777216,
            ;
            crate::fixed::lemma_tdiv_bound(aperture as int, 2, 2147483648int);
            assert(tdiv(aperture as int, 2) >= 0 && tdiv(aperture as int, 2) <= 1073741824int)
                by (nonlinear_arith)
                requires
                    0 <= aperture as int <= 2147483648int,
                    tdiv(aperture as int, 2) == (aperture as int) / 2,
            ;
        }
        let lens_radius = crate::fixed::div_tz(aperture, 2);
        Camera {
            origin: *lookfrom,
            lower_left_corner,
            horizontal,
            vertical,
            u,
            v,
            w,
            lens_radius,
        }
    }

    /// The world ray for normalized image-plane coordinates `(s, t)`, with a
    /// lens sample drawn from the source for depth of field; with aperture
    /// zero the offset vanishes and the camera is a pinhole.
    #[verifier::rlimit(100)]
    pub fn get_ray(&self, s: i128, t: i128, rng: &mut Rng) -> (r: Ray)
        requires
            cam_wf(self@),
            0 <= s <= 2 * FX_ONE,
            0 <= t <= 2 * FX_ONE,
        ensures
            ({
                let g = get_ray_s(self@, s as int, t as int, old(rng).state);
                r.origin@ == g.0 && r.direction@ == g.1 && final(rng).state == g.2
            }),
            bounded_v(r.origin@, FX_WORLD as int),
            bounded_v(r.direction@, FX_WORLD as int),
    {
        let draw = Vec3::random_in_unit_disk(rng);
        let rd = draw.scale(self.lens_radius);
        proof {
            lemma_fmul_bound(self.lens_radius as int, draw@.x, 1073741824int, 16777216int);
            lemma_fmul_bound(self.lens_radius as int, draw@.y, 1073741824int, 16777216int);
            lemma_fmul_bound(self.lens_radius as int, draw@.z, 1073741824int, 16777216int);
            assert((1073741824int * 16777216int) / (FX_ONE as int) == 1073741824int)
                by (nonlinear_arith)
                requires
                    FX_ONE == 16777216,
            ;
        }
        let ou = self.u.scale(rd.x);
        let ov = self.v.scale(rd.y);
        proof {
            lemma_fmul_bound(rd@.x, self.u@.x, 1073741824int, 134217728int);
            lemma_fmul_bound(rd@.x, self.u@.y, 1073741824int, 134217728int);
            lemma_fmul_bound(rd@.x, self.u@.z, 1073741824int, 134217728int);
            lemma_fmul_bound(rd@.y, self.v@.x, 1073741824int, 134217728int);
            lemma_fmul_bound(rd@.y, self.v@.y, 1073741824int, 134217728int);
            lemma_fmul_bound(rd@.y, self.v@.z, 1073741824int, 134217728int);
            assert((1073741824int * 134217728int) / (FX_ONE as int) == 8589934592int)
                by (nonlinear_arith)
                requires
                    FX_ONE == 16777216,
            ;
        }
        let offset = ou.plus(&ov);
        let origin = self.origin.plus(&offset);
        let sh = self.horizontal.scale(s);
        let tv = self.vertical.scale(t);
        proof {
            lemma_fmul_bound(s as int, self.horizontal@.x, 33554432int, 137438953472int);
            lemma_fmul_bound(s as int, self.horizontal@.y, 33554432int, 137438953472int);
            lemma_fmul_bound(s as int, self.horizontal@.z, 33554432int, 137438953472int);
            lemma_fmul_bound(t as int, self.vertical@.x, 33554432int, 137438953472int);
            lemma_fmul_bound(t as int, self.vertical@.y, 33554432int, 137438953472int);
            lemma_fmul_bound(t as int, self.vertical@.z, 33554432int, 137438953472int);
            assert((33554432int * 137438953472int) / (FX_ONE as int) == 274877906944int)
                by (nonlinear_arith)
                requires
                    FX_ONE == 16777216,
            ;
        }
        let direction = self
            .lower_left_corner
            .plus(&sh)
            .plus(&tv)
            .minus(&self.origin)
            .minus(&offset);
        Ray::new(origin, direction)
    }
}

} // verus!
