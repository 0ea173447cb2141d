//! Material behaviours: a closed set of variants, each holding only the
//! parameters of its scattering law.  A scatter either produces an outgoing
//! ray with an attenuation colour or reports absorption.

use vstd::prelude::*;
use crate::fixed::{fdiv, fdiv_s, fmul, fmul_s, fsqrt, fsqrt_s, sabs, FX_ONE, FX_WORLD};
use crate::hittable::{HitRecord, HitS};
use crate::ray::Ray;
use crate::rng::{next_state, unit_sample, Rng};
use crate::fixed::tdiv;
use crate::vec3::{
    add_v, bounded_v, dot_v, hadamard_v, neg_v, refract_v, reflect_v, rius_s, scale_v, unit_v,
    V3, Vec3,
};

verus! {

/// A colour lies in the unit cube: each channel within `[0, 1]`.
pub open spec fn color_wf(c: V3) -> bool {
    0 <= c.x <= FX_ONE as int && 0 <= c.y <= FX_ONE as int && 0 <= c.z <= FX_ONE as int
}

/// A diffuse surface: scatters about the normal, attenuating by its albedo.
#[derive(Clone, Copy, Debug, PartialEq, Eq, Structural)]
pub struct Lambertian {
    pub albedo: Vec3,
}

/// A reflective surface: mirrors the incoming ray, blurred by `fuzz`.
#[derive(Clone, Copy, Debug, PartialEq, Eq, Structural)]
pub struct Metal {
    pub albedo: Vec3,
    pub fuzz: i128,
}

/// A transparent refractive surface with index of refraction `ir`.
#[derive(Clone, Copy, Debug, PartialEq, Eq, Structural)]
pub struct Dielectric {
    pub ir: i128,
}

/// The closed set of material behaviours.
#[derive(Clone, Copy, Debug, PartialEq, Eq, Structural)]
pub enum Materials {
    Lambertian(Lambertian),
    Metal(Metal),
    Dielectric(Dielectric),
}

/// The parameters of a material are in range: colours in the unit cube, the
/// fuzz within `[0, 1]`, and the refraction index within about a thousandth
/// and two thousand (the span the fixed-point decomposition keeps bounded).
pub open spec fn mat_wf(m: Materials) -> bool {
    match m {
        Materials::Lambertian(l) => color_wf(l.albedo@),
        Materials::Metal(mt) => color_wf(mt.albedo@) && 0 <= mt.fuzz <= FX_ONE as int,
        Materials::Dielectric(d) => 16777 <= d.ir <= 34359738368int,
    }
}

/// An attenuation colour together with the outgoing scattered ray.
pub struct ScatterRecord {
    pub attenuation: Vec3,
    pub scattered: Ray,
}

impl Lambertian {
    pub fn new(a: Vec3) -> (r: Lambertian)
        requires
            color_wf(a@),
        ensures
            r.albedo == a,
    {
        Lambertian { albedo: a }
    }
}

impl Metal {
    pub fn new(a: Vec3, f: i128) -> (r: Metal)
        requires
            color_wf(a@),
            0 <= f <= FX_ONE,
        ensures
            r.albedo == a,
            r.fuzz == f,
    {
        Metal { albedo: a, fuzz: f }
    }
}

/// The white attenuation of a dielectric: no absorption inside the medium.
pub open spec fn white_v() -> V3 {
    V3 { x: FX_ONE as int, y: FX_ONE as int, z: FX_ONE as int }
}

/// What a scatter answers, as a mathematical value: either absorption or an
/// attenuation colour with the outgoing direction, together with the state
/// of the random source afterwards.  The outgoing ray's origin is always the
/// hit point.
pub open spec fn lambertian_scatter_s(albedo: V3, rec: HitS, s: u64) -> (Option<(V3, V3)>, u64) {
    let draw = rius_s(s);
    let u = unit_v(draw.0);
    let d0 = add_v(rec.normal, u);
    let dir = if d0.x == 0 && d0.y == 0 && d0.z == 0 {
        rec.normal
    } else {
        d0
    };
    (Some((albedo, dir)), draw.1)
}

/// A metal scatter: the mirrored unit direction, blurred by a fuzz-scaled
/// ball point; absorbed when the blurred direction points into the surface.
pub open spec fn metal_scatter_s(albedo: V3, fuzz: int, r_d: V3, rec: HitS, s: u64) -> (
    Option<(V3, V3)>,
    u64,
) {
    let refl = reflect_v(unit_v(r_d), rec.normal);
    let draw = rius_s(s);
    let dir = add_v(refl, scale_v(fuzz, draw.0));
    if dot_v(dir, rec.normal) > 0 {
        (Some((albedo, dir)), draw.1)
    } else {
        (None, draw.1)
    }
}

/// The fifth power of a fixed-point number, each product rounded once.
pub open spec fn pow5_s(x: int) -> int {
    fmul_s(fmul_s(fmul_s(fmul_s(x, x), x), x), x)
}

/// Schlick's approximation of the Fresnel reflectance.
pub open spec fn reflectance_s(cosine: int, ref_idx: int) -> int {
    let q = fdiv_s(FX_ONE as int - ref_idx, FX_ONE as int + ref_idx);
    let r0 = fmul_s(q, q);
    r0 + fmul_s(FX_ONE as int - r0, pow5_s(FX_ONE as int - cosine))
}

/// A dielectric scatter: refract by Snell's law unless it is impossible
/// (total internal reflection) or a uniform draw falls below the Schlick
/// reflectance, in which case reflect; never absorbs.  The cosine is clamped
/// into `[-1, 1]` so its squared complement admits a square root.  The draw
/// is taken only when refraction is possible at all: a total internal
/// reflection consumes no randomness.
pub open spec fn dielectric_scatter_s(ir: int, r_d: V3, rec: HitS, s: u64) -> (
    Option<(V3, V3)>,
    u64,
) {
    let ratio = if rec.front_face {
        fdiv_s(FX_ONE as int, ir)
    } else {
        ir
    };
    let ud = unit_v(r_d);
    let dcos = dot_v(neg_v(ud), rec.normal);
    let cos = if dcos > FX_ONE as int {
        FX_ONE as int
    } else if dcos < -(FX_ONE as int) {
        -(FX_ONE as int)
    } else {
        dcos
    };
    let sin = fsqrt_s(FX_ONE as int - fmul_s(cos, cos));
    if fmul_s(ratio, sin) > FX_ONE as int {
        (Some((white_v(), reflect_v(ud, rec.normal))), s)
    } else {
        let s2 = next_state(s);
        if reflectance_s(cos, ratio) > unit_sample(s2) {
            (Some((white_v(), reflect_v(ud, rec.normal))), s2)
        } else {
            (Some((white_v(), refract_v(ud, rec.normal, ratio))), s2)
        }
    }
}

/// With a matched medium (a refraction index of one) the ratio is one on
/// both faces, total internal reflection is impossible (so the reflectance
/// draw is always taken), the scatter reflects only when the draw falls
/// under the grazing term `(1 - cos)^5` of the Schlick approximation, and at
/// normal incidence that term vanishes, so the scatter always refracts.
pub proof fn lemma_dielectric_matched_medium(r_d: V3, rec: HitS, s: u64)
    ensures
        ({
            let ud = unit_v(r_d);
            let dcos = dot_v(neg_v(ud), rec.normal);
            let cos = if dcos > FX_ONE as int {
                FX_ONE as int
            } else if dcos < -(FX_ONE as int) {
                -(FX_ONE as int)
            } else {
                dcos
            };
            let out = dielectric_scatter_s(FX_ONE as int, r_d, rec, s);
            &&& out.1 == next_state(s)
            &&& (pow5_s(FX_ONE as int - cos) <= unit_sample(next_state(s)) ==> out == ((
                Some((white_v(), refract_v(ud, rec.normal, FX_ONE as int))),
                next_state(s),
            )))
            &&& (dcos >= FX_ONE as int ==> out == ((
                Some((white_v(), refract_v(ud, rec.normal, FX_ONE as int))),
                next_state(s),
            )))
        }),
{
    let one = FX_ONE as int;
    let ud = unit_v(r_d);
    let dcos = dot_v(neg_v(ud), rec.normal);
    let cos = if dcos > one {
        one
    } else if dcos < -one {
        -one
    } else {
        dcos
    };
    assert(fdiv_s(one, one) == one) by {
        assert(sabs(one * one) / sabs(one) == one) by (nonlinear_arith)
            requires
                one == 16777216,
        ;
    }
    let cc = fmul_s(cos, cos);
    assert(0 <= cc <= one) by {
        assert(0 <= cos * cos <= one * one && sabs(cos * cos) == cos * cos)
            by (nonlinear_arith)
            requires
                -one <= cos <= one,
                one == 16777216,
        ;
        crate::fixed::lemma_tdiv_bound(cos * cos, one, one * one);
        assert(tdiv(cos * cos, one) >= 0) by (nonlinear_arith)
            requires
                0 <= cos * cos,
                one == 16777216,
                tdiv(cos * cos, one) == sabs(cos * cos) / sabs(one),
                sabs(cos * cos) == cos * cos,
                sabs(one) == one,
        ;
        assert((one * one) / one == one) by (nonlinear_arith)
            requires
                one == 16777216,
        ;
    }
    let sin = fsqrt_s(one - cc);
    crate::fixed::lemma_sqrt_floor_props((one - cc) * one);
    assert(0 <= (one - cc) * one <= one * one) by (nonlinear_arith)
        requires
            0 <= one - cc <= one,
            one == 16777216,
    ;
    assert(sin <= one) by (nonlinear_arith)
        requires
            0 <= sin,
            sin * sin <= (one - cc) * one,
            (one - cc) * one <= one * one,
            one == 16777216,
    ;
    crate::fixed::lemma_fmul_one(sin);
    assert(one * sin == sin * one) by (nonlinear_arith);
    assert(fmul_s(one, sin) == sin);
    assert(!(fmul_s(one, sin) > one));
    // the reflectance with ratio one: the constant term vanishes
    assert(fdiv_s(one - one, one + one) == 0) by {
        assert(sabs(0 * one) / sabs(one + one) == 0) by (nonlinear_arith)
            requires
                one == 16777216,
        ;
    }
    assert(fmul_s(0, 0) == 0) by {
        crate::fixed::lemma_fmul_one(0);
        assert(0 * 0 == 0 * one) by (nonlinear_arith);
    }
    let p5 = pow5_s(one - cos);
    crate::fixed::lemma_fmul_one(p5);
    assert((one - 0) * p5 == p5 * one) by (nonlinear_arith);
    assert(reflectance_s(cos, one) == p5);
    if dcos >= one {
        assert(cos == one);
        assert(fmul_s(0, 0) == 0);
        assert(pow5_s(0) == 0) by {
            crate::fixed::lemma_fmul_one(0);
            assert(0 * 0 == 0 * one && fmul_s(0, one) == 0) by (nonlinear_arith)
                requires
                    fmul_s(0, one) == 0,
            ;
        }
        assert(unit_sample(next_state(s)) >= 0) by {
            reveal(crate::rng::unit_sample);
            assert((next_state(s) as int) / 1099511627776int >= 0) by (nonlinear_arith)
                requires
                    next_state(s) as int >= 0,
            ;
        }
    } else {
        if pow5_s(one - cos) <= unit_sample(next_state(s)) {
            assert(!(reflectance_s(cos, one) > unit_sample(next_state(s))));
        }
    }
}

/// The scatter law of each material variant.
pub open spec fn scatter_s(m: Materials, r_d: V3, rec: HitS, s: u64) -> (Option<(V3, V3)>, u64) {
    match m {
        Materials::Lambertian(l) => lambertian_scatter_s(l.albedo@, rec, s),
        Materials::Metal(mt) => metal_scatter_s(mt.albedo@, mt.fuzz as int, r_d, rec, s),
        Materials::Dielectric(d) => dielectric_scatter_s(d.ir as int, r_d, rec, s),
    }
}

/// The executable answer agrees with the mathematical one: absorption for
/// absorption, and for a scatter the same attenuation, the hit point as the
/// origin, and the same outgoing direction.
pub open spec fn scatter_matches(res: Option<ScatterRecord>, out: Option<(V3, V3)>, p: V3) -> bool {
    match (res, out) {
        (Some(sr), Some(ad)) => sr.attenuation@ == ad.0 && sr.scattered.origin@ == p
            && sr.scattered.direction@ == ad.1,
        (None, None) => true,
        _ => false,
    }
}

/// A scattered direction stays inside the world bounds.
pub open spec fn scatter_bounded(out: Option<(V3, V3)>) -> bool {
    match out {
        Some(ad) => color_wf(ad.0) && bounded_v(ad.1, FX_WORLD as int),
        None => true,
    }
}

impl Dielectric {
    pub fn new(ir: i128) -> (r: Dielectric)
        requires
            16777 <= ir <= 34359738368int,
        ensures
            r.ir == ir,
    {
        Dielectric { ir }
    }

    /// Schlick's reflectance approximation.
    fn reflectance(&self, cosine: i128, ref_idx: i128) -> (r: i128)
        requires
            -FX_ONE <= cosine <= FX_ONE,
            0 <= ref_idx <= 34359738368int,
        ensures
            r == reflectance_s(cosine as int, ref_idx as int),
    {
        let q = fdiv(FX_ONE - ref_idx, FX_ONE + ref_idx);
        proof {
            crate::fixed::lemma_tdiv_bound(
                (FX_ONE as int - ref_idx as int) * (FX_ONE as int),
                FX_ONE as int + ref_idx as int,
                576460752303423488int,
            );
            assert(sabs((FX_ONE as int - ref_idx as int) * (FX_ONE as int))
                <= 576460752303423488int) by (nonlinear_arith)
                requires
                    0 <= ref_idx as int <= 34359738368int,
                    FX_ONE == 16777216,
            ;
            crate::fixed::lemma_fmul_bound(q as int, q as int, 576460752303423488int,
                576460752303423488int);
        }
        let r0 = fmul(q, q);
        proof {
            assert((576460752303423488int * 576460752303423488int) / (FX_ONE as int)
                == 19807040628566084398385987584int) by (nonlinear_arith)
                requires
                    FX_ONE == 16777216,
            ;
        }
        let x = FX_ONE - cosine;
        proof {
            crate::fixed::lemma_fmul_bound(x as int, x as int, 33554432int, 33554432int);
            assert((33554432int * 33554432int) / (FX_ONE as int) == 67108864int)
                by (nonlinear_arith)
                requires
                    FX_ONE == 16777216,
            ;
        }
        let x2 = fmul(x, x);
        proof {
            crate::fixed::lemma_fmul_bound(x2 as int, x as int, 67108864int, 33554432int);
            assert((67108864int * 33554432int) / (FX_ONE as int) == 134217728int)
                by (nonlinear_arith)
                requires
                    FX_ONE == 16777216,
            ;
        }
        let x3 = fmul(x2, x);
        proof {
            crate::fixed::lemma_fmul_bound(x3 as int, x as int, 134217728int, 33554432int);
            assert((134217728int * 33554432int) / (FX_ONE as int) == 268435456int)
                by (nonlinear_arith)
                requires
                    FX_ONE == 16777216,
            ;
        }
        let x4 = fmul(x3, x);
        proof {
            crate::fixed::lemma_fmul_bound(x4 as int, x as int, 268435456int, 33554432int);
            assert((268435456int * 33554432int) / (FX_ONE as int) == 536870912int)
                by (nonlinear_arith)
                requires
                    FX_ONE == 16777216,
            ;
        }
        let x5 = fmul(x4, x);
        proof {
            crate::fixed::lemma_fmul_bound(
                FX_ONE as int - r0 as int,
                x5 as int,
                19807040628566084398402764800int,
                536870912int,
            );
        }
        let tail = fmul(FX_ONE - r0, x5);
        r0 + tail
    }
}

impl Lambertian {
    /// Diffuse scatter: the normal plus a random unit direction, with the
    /// bare normal as fallback when the sum cancels to zero; always
    /// attenuates by the albedo.
    pub fn scatter(&self, _r_in: &Ray, rec: &HitRecord, rng: &mut Rng) -> (res: Option<
        ScatterRecord,
    >)
        requires
            color_wf(self.albedo@),
            crate::hittable::hit_bounds(crate::hittable::hr_view(*rec)),
        ensures
            scatter_matches(
                res,
                lambertian_scatter_s(
                    self.albedo@,
                    crate::hittable::hr_view(*rec),
                    old(rng).state,
                ).0,
                rec.p@,
            ),
            final(rng).state == lambertian_scatter_s(
                self.albedo@,
                crate::hittable::hr_view(*rec),
                old(rng).state,
            ).1,
            scatter_bounded(
                lambertian_scatter_s(
                    self.albedo@,
                    crate::hittable::hr_view(*rec),
                    old(rng).state,
                ).0,
            ),
    {
        let u = Vec3::random_unit_vector(rng);
        let mut scatter_direction = rec.normal.plus(&u);
        if scatter_direction.near_zero() {
            scatter_direction = rec.normal;
        }
        Some(
            ScatterRecord {
                attenuation: self.albedo,
                scattered: Ray::new(rec.p, scatter_direction),
            },
        )
    }
}

impl Metal {
    /// Reflective scatter: mirror the unit incoming direction about the
    /// normal, blur it by a fuzz-scaled ball point, and absorb the ray when
    /// the result points into the surface.
    pub fn scatter(&self, r_in: &Ray, rec: &HitRecord, rng: &mut Rng) -> (res: Option<
        ScatterRecord,
    >)
        requires
            color_wf(self.albedo@),
            0 <= self.fuzz <= FX_ONE,
            crate::hittable::hit_bounds(crate::hittable::hr_view(*rec)),
            bounded_v(r_in.direction@, crate::fixed::FX_WORLD as int),
        ensures
            scatter_matches(
                res,
                metal_scatter_s(
                    self.albedo@,
                    self.fuzz as int,
                    r_in.direction@,
                    crate::hittable::hr_view(*rec),
                    old(rng).state,
                ).0,
                rec.p@,
            ),
            final(rng).state == metal_scatter_s(
                self.albedo@,
                self.fuzz as int,
                r_in.direction@,
                crate::hittable::hr_view(*rec),
                old(rng).state,
            ).1,
            scatter_bounded(
                metal_scatter_s(
                    self.albedo@,
                    self.fuzz as int,
                    r_in.direction@,
                    crate::hittable::hr_view(*rec),
                    old(rng).state,
                ).0,
            ),
    {
        let ud = r_in.direction.unit();
        let reflected = Vec3::reflect(&ud, &rec.normal);
        proof {
            crate::vec3::lemma_dot_bound(ud@, rec.normal@, 33554432int, 33554432int);
            crate::fixed::lemma_fmul_bound(
                2 * crate::vec3::dot_v(ud@, rec.normal@),
                rec.normal@.x,
                402653184int,
                33554432int,
            );
            crate::fixed::lemma_fmul_bound(
                2 * crate::vec3::dot_v(ud@, rec.normal@),
                rec.normal@.y,
                402653184int,
                33554432int,
            );
            crate::fixed::lemma_fmul_bound(
                2 * crate::vec3::dot_v(ud@, rec.normal@),
                rec.normal@.z,
                402653184int,
                33554432int,
            );
            assert((3 * 33554432int * 33554432int) / (FX_ONE as int) == 201326592int
                && (402653184int * 33554432int) / (FX_ONE as int) == 805306368int)
                by (nonlinear_arith)
                requires
                    FX_ONE == 16777216,
            ;
        }
        let f = Vec3::random_in_unit_sphere(rng);
        let fv = f.scale(self.fuzz);
        proof {
            crate::fixed::lemma_fmul_bound(self.fuzz as int, f@.x, 16777216int, 16777216int);
            crate::fixed::lemma_fmul_bound(self.fuzz as int, f@.y, 16777216int, 16777216int);
            crate::fixed::lemma_fmul_bound(self.fuzz as int, f@.z, 16777216int, 16777216int);
        }
        let scattered_dir = reflected.plus(&fv);
        let scattered = Ray::new(rec.p, scattered_dir);
        let d = Vec3::dot(&scattered.direction, &rec.normal);
        if d > 0 {
            Some(ScatterRecord { attenuation: self.albedo, scattered })
        } else {
            None
        }
    }
}

impl Dielectric {
    /// Refractive scatter: always scatters with white attenuation; the
    /// direction refracts by Snell's law, or reflects on total internal
    /// reflection or a reflectance draw.
    pub fn scatter(&self, r_in: &Ray, rec: &HitRecord, rng: &mut Rng) -> (res: Option<
        ScatterRecord,
    >)
        requires
            16777 <= self.ir <= 34359738368int,
            crate::hittable::hit_bounds(crate::hittable::hr_view(*rec)),
            bounded_v(r_in.direction@, crate::fixed::FX_WORLD as int),
        ensures
            scatter_matches(
                res,
                dielectric_scatter_s(
                    self.ir as int,
                    r_in.direction@,
                    crate::hittable::hr_view(*rec),
                    old(rng).state,
                ).0,
                rec.p@,
            ),
            final(rng).state == dielectric_scatter_s(
                self.ir as int,
                r_in.direction@,
                crate::hittable::hr_view(*rec),
                old(rng).state,
            ).1,
            scatter_bounded(
                dielectric_scatter_s(
                    self.ir as int,
                    r_in.direction@,
                    crate::hittable::hr_view(*rec),
                    old(rng).state,
                ).0,
            ),
    {
        let refraction_ratio = if rec.front_face {
            fdiv(FX_ONE, self.ir)
        } else {
            self.ir
        };
        proof {
            crate::fixed::lemma_tdiv_bound(
                (FX_ONE as int) * (FX_ONE as int),
                self.ir as int,
                281474976710656int,
            );
            vstd::arithmetic::div_mod::lemma_div_is_ordered_by_denominator(
                281474976710656int,
                16777int,
                sabs(self.ir as int),
            );
            assert(281474976710656int / 16777int == 16777432002);
            assert(crate::fixed::tdiv((FX_ONE as int) * (FX_ONE as int), self.ir as int) >= 0);
        }
        let unit_direction = r_in.direction.unit();
        let mu = unit_direction.neg();
        let dcos = Vec3::dot(&mu, &rec.normal);
        let cos_theta = if dcos > FX_ONE {
            FX_ONE
        } else if dcos < -FX_ONE {
            -FX_ONE
        } else {
            dcos
        };
        proof {
            crate::fixed::lemma_fmul_bound(cos_theta as int, cos_theta as int, 16777216int,
                16777216int);
            assert((16777216int * 16777216int) / (FX_ONE as int) == 16777216int
                && crate::fixed::fmul_s(cos_theta as int, cos_theta as int) >= 0)
                by (nonlinear_arith)
                requires
                    FX_ONE == 16777216,
                    sabs(cos_theta as int) <= 16777216int,
            ;
        }
        let sin_sq = FX_ONE - fmul(cos_theta, cos_theta);
        let sin_theta = fsqrt(sin_sq);
        proof {
            assert(sin_theta as int <= 16777216int) by (nonlinear_arith)
                requires
                    0 <= sin_theta as int,
                    sin_theta as int * (sin_theta as int) <= (sin_sq as int) * 16777216int,
                    0 <= sin_sq as int <= 16777216int,
            ;
            crate::fixed::lemma_fmul_bound(
                refraction_ratio as int,
                sin_theta as int,
                34359738368int,
                16777216int,
            );
        }
        let cannot_refract = fmul(refraction_ratio, sin_theta) > FX_ONE;
        let direction = if cannot_refract {
            Vec3::reflect(&unit_direction, &rec.normal)
        } else {
            let draw = rng.next_unit();
            let refl = self.reflectance(cos_theta, refraction_ratio);
            if refl > draw {
                Vec3::reflect(&unit_direction, &rec.normal)
            } else {
                Vec3::refract(&unit_direction, &rec.normal, refraction_ratio)
            }
        };
        proof {
            crate::vec3::lemma_dot_bound(unit_direction@, rec.normal@, 33554432int, 33554432int);
            crate::fixed::lemma_fmul_bound(
                2 * crate::vec3::dot_v(unit_direction@, rec.normal@),
                rec.normal@.x,
                402653184int,
                33554432int,
            );
            crate::fixed::lemma_fmul_bound(
                2 * crate::vec3::dot_v(unit_direction@, rec.normal@),
                rec.normal@.y,
                402653184int,
                33554432int,
            );
            crate::fixed::lemma_fmul_bound(
                2 * crate::vec3::dot_v(unit_direction@, rec.normal@),
                rec.normal@.z,
                402653184int,
                33554432int,
            );
            assert((3 * 33554432int * 33554432int) / (FX_ONE as int) == 201326592int
                && (402653184int * 33554432int) / (FX_ONE as int) == 805306368int)
                by (nonlinear_arith)
                requires
                    FX_ONE == 16777216,
            ;
        }
        Some(
            ScatterRecord {
                attenuation: Vec3::new(FX_ONE, FX_ONE, FX_ONE),
                scattered: Ray::new(rec.p, direction),
            },
        )
    }
}

impl Materials {
    /// The scatter law of this material: the dispatch over the variants.
    pub fn scatter(&self, r_in: &Ray, rec: &HitRecord, rng: &mut Rng) -> (res: Option<
        ScatterRecord,
    >)
        requires
            mat_wf(*self),
            crate::hittable::hit_bounds(crate::hittable::hr_view(*rec)),
            bounded_v(r_in.direction@, crate::fixed::FX_WORLD as int),
        ensures
            scatter_matches(
                res,
                scatter_s(*self, r_in.direction@, crate::hittable::hr_view(*rec),
                    old(rng).state).0,
                rec.p@,
            ),
            final(rng).state == scatter_s(
                *self,
                r_in.direction@,
                crate::hittable::hr_view(*rec),
                old(rng).state,
            ).1,
            scatter_bounded(
                scatter_s(*self, r_in.direction@, crate::hittable::hr_view(*rec),
                    old(rng).state).0,
            ),
    {
        match self {
            Materials::Lambertian(l) => l.scatter(r_in, rec, rng),
            Materials::Metal(m) => m.scatter(r_in, rec, rng),
            Materials::Dielectric(d) => d.scatter(r_in, rec, rng),
        }
    }
}

} // verus!
