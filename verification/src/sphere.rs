//! The sphere primitive and its ray intersection, by the half-discriminant
//! form of the quadratic.

use vstd::prelude::*;
use crate::fixed::{
    fdiv, fdiv_s, fmul, fmul_s, fsqrt, fsqrt_s, sabs, tdiv, FX_ONE, FX_WORLD,
};
use crate::hittable::{hit_bounds, hr_view, HitRecord, HitS};
use crate::material::{mat_wf, Materials};
use crate::ray::{at_v, Ray};
use crate::vec3::{
    add_v, bounded_v, div_v, dot_v, ls_v, neg_v, scale_v, sub_v, V3, Vec3,
};

verus! {

/// A sphere: center, radius and material.  The radius may be negative, which
/// flips the outward normal inward (a hollow shell).
pub struct Sphere {
    pub center: Vec3,
    pub radius: i128,
    pub mat: Materials,
}

/// The sphere's parameters are in range: the center within the world box, the
/// radius nonzero and within the world range, the material's parameters valid.
pub open spec fn sphere_wf(s: Sphere) -> bool {
    bounded_v(s.center@, FX_WORLD as int) && s.radius != 0 && sabs(s.radius as int)
        <= FX_WORLD as int && mat_wf(s.mat)
}

/// The intersection the executable query computes, step for step: solve
/// `|o + t d - center|^2 = radius^2` by the half-discriminant form, prefer
/// the smaller root, accept a root only within `[tmin, tmax]`, and reject
/// outcomes whose point or normal falls outside the world bounds (the
/// fixed-point counterpart of non-finite values).  A direction
/// whose squared length rounds to zero cannot be intersected and misses.
pub open spec fn sphere_hit_s(center: V3, radius: int, o: V3, d: V3, tmin: int, tmax: int)
    -> Option<HitS> {
    let oc = sub_v(o, center);
    let a = ls_v(d);
    if a <= 0 {
        None
    } else {
        let half_b = dot_v(oc, d);
        let c = ls_v(oc) - fmul_s(radius, radius);
        let disc = fmul_s(half_b, half_b) - fmul_s(a, c);
        if disc < 0 {
            None
        } else {
            let sqrtd = fsqrt_s(disc);
            let root1 = fdiv_s(-half_b - sqrtd, a);
            let root = if root1 < tmin || tmax < root1 {
                fdiv_s(-half_b + sqrtd, a)
            } else {
                root1
            };
            if root < tmin || tmax < root {
                None
            } else {
                let p = at_v(o, d, root);
                let outward = div_v(sub_v(p, center), radius);
                if !(bounded_v(p, FX_WORLD as int) && bounded_v(outward, 2 * FX_ONE as int)) {
                    None
                } else {
                    let front = dot_v(d, outward) < 0;
                    Some(
                        HitS {
                            p,
                            normal: if front {
                                outward
                            } else {
                                neg_v(outward)
                            },
                            t: root,
                            front_face: front,
                        },
                    )
                }
            }
        }
    }
}

/// A ray that starts strictly outside a sphere and does not approach it
/// (the dot of the center offset with the direction is not negative) never
/// hits it over a positive interval: both quadratic roots fall at or below
/// zero.
pub proof fn lemma_receding_ray_misses(center: V3, radius: int, o: V3, d: V3, tmin: int,
    tmax: int)
    requires
        0 < tmin <= tmax,
        ls_v(sub_v(o, center)) - fmul_s(radius, radius) > 0,
        dot_v(sub_v(o, center), d) >= 0,
    ensures
        sphere_hit_s(center, radius, o, d, tmin, tmax) is None,
{
    let s = FX_ONE as int;
    let oc = sub_v(o, center);
    let a = ls_v(d);
    crate::vec3::lemma_ls_nonneg(d);
    if a > 0 {
        let half_b = dot_v(oc, d);
        let c = ls_v(oc) - fmul_s(radius, radius);
        let disc = fmul_s(half_b, half_b) - fmul_s(a, c);
        if disc >= 0 {
            let sqrtd = fsqrt_s(disc);
            crate::fixed::lemma_sqrt_floor_props(disc * s);
            assert(disc * s >= 0) by (nonlinear_arith)
                requires
                    disc >= 0,
                    s == 16777216,
            ;
            // the products under the discriminant keep their signs
            assert(fmul_s(a, c) >= 0) by {
                assert(a * c >= 0 && sabs(a * c) == a * c) by (nonlinear_arith)
                    requires
                        a > 0,
                        c > 0,
                ;
                assert(sabs(a * c) / sabs(s) >= 0) by (nonlinear_arith)
                    requires
                        sabs(a * c) >= 0,
                        s == 16777216,
                ;
            }
            // the rounded square root stays at or below the half-coefficient
            assert(fmul_s(half_b, half_b) * s <= half_b * half_b) by {
                assert(sabs(half_b * half_b) == half_b * half_b) by (nonlinear_arith);
                vstd::arithmetic::div_mod::lemma_fundamental_div_mod(half_b * half_b, s);
                vstd::arithmetic::div_mod::lemma_mod_bound(half_b * half_b, s);
                assert(((half_b * half_b) / s) * s <= half_b * half_b) by (nonlinear_arith)
                    requires
                        half_b * half_b == s * ((half_b * half_b) / s) + (half_b * half_b) % s,
                        0 <= (half_b * half_b) % s,
                ;
            }
            assert(disc * s <= half_b * half_b) by (nonlinear_arith)
                requires
                    disc == fmul_s(half_b, half_b) - fmul_s(a, c),
                    fmul_s(a, c) >= 0,
                    fmul_s(half_b, half_b) * s <= half_b * half_b,
                    s == 16777216,
            ;
            assert(sqrtd <= half_b) by (nonlinear_arith)
                requires
                    0 <= sqrtd,
                    0 <= half_b,
                    sqrtd * sqrtd <= disc * s,
                    disc * s <= half_b * half_b,
            ;
            // both roots lie at or below zero, hence under the interval
            assert(fdiv_s(-half_b - sqrtd, a) <= 0 && fdiv_s(-half_b + sqrtd, a) <= 0) by {
                assert(tdiv((-half_b - sqrtd) * s, a) <= 0 && tdiv((-half_b + sqrtd) * s, a)
                    <= 0) by (nonlinear_arith)
                    requires
                        -half_b - sqrtd <= 0,
                        -half_b + sqrtd <= 0,
                        a > 0,
                        s == 16777216,
                        tdiv((-half_b - sqrtd) * s, a) == (if ((-half_b - sqrtd) * s < 0)
                            <==> (a < 0) {
                            sabs((-half_b - sqrtd) * s) / sabs(a)
                        } else {
                            -(sabs((-half_b - sqrtd) * s) / sabs(a))
                        }),
                        tdiv((-half_b + sqrtd) * s, a) == (if ((-half_b + sqrtd) * s < 0)
                            <==> (a < 0) {
                            sabs((-half_b + sqrtd) * s) / sabs(a)
                        } else {
                            -(sabs((-half_b + sqrtd) * s) / sabs(a))
                        }),
                ;
            }
        }
    }
}

/// An accepted intersection parameter lies in the queried interval.
pub proof fn lemma_sphere_hit_range(center: V3, radius: int, o: V3, d: V3, tmin: int,
    tmax: int)
    ensures
        match sphere_hit_s(center, radius, o, d, tmin, tmax) {
            Some(h) => tmin <= h.t <= tmax,
            None => true,
        },
{
}

/// Shrinking the upper bound of the query interval keeps an intersection
/// exactly when its parameter still fits, and cannot conjure a new one: the
/// preferred smaller root never grows when the cap tightens.
pub proof fn lemma_sphere_hit_tighter(center: V3, radius: int, o: V3, d: V3, tmin: int,
    cap: int, tmax: int)
    requires
        tmin <= cap <= tmax,
    ensures
        match sphere_hit_s(center, radius, o, d, tmin, tmax) {
            Some(h) => sphere_hit_s(center, radius, o, d, tmin, cap) == (if h.t <= cap {
                Some(h)
            } else {
                None
            }),
            None => sphere_hit_s(center, radius, o, d, tmin, cap) is None,
        },
{
    let s = FX_ONE as int;
    let oc = sub_v(o, center);
    let a = ls_v(d);
    if a > 0 {
        let half_b = dot_v(oc, d);
        let c = ls_v(oc) - fmul_s(radius, radius);
        let disc = fmul_s(half_b, half_b) - fmul_s(a, c);
        if disc >= 0 {
            assert(disc * s >= 0) by (nonlinear_arith)
                requires
                    disc >= 0,
                    s == 16777216,
            ;
            crate::fixed::lemma_sqrt_floor_props(disc * s);
            let sqrtd = fsqrt_s(disc);
            assert(sqrtd >= 0);
            assert((-half_b - sqrtd) * s <= (-half_b + sqrtd) * s) by (nonlinear_arith)
                requires
                    sqrtd >= 0,
                    s == 16777216,
            ;
            crate::fixed::lemma_tdiv_mono((-half_b - sqrtd) * s, (-half_b + sqrtd) * s, a);
            assert(fdiv_s(-half_b - sqrtd, a) <= fdiv_s(-half_b + sqrtd, a));
        }
    }
}

impl Sphere {
    pub fn new(center: Vec3, radius: i128, m: Materials) -> (r: Sphere)
        requires
            bounded_v(center@, FX_WORLD as int),
            radius != 0,
            sabs(radius as int) <= FX_WORLD as int,
            mat_wf(m),
        ensures
            r.center == center,
            r.radius == radius,
            r.mat == m,
            sphere_wf(r),
    {
        Sphere { center, radius, mat: m }
    }

    /// The nearest intersection of the ray with this sphere within
    /// `[t_min, t_max]`, or nothing; exactly `sphere_hit_s`.
    pub fn hit(&self, r: &Ray, t_min: i128, t_max: i128) -> (res: Option<HitRecord>)
        requires
            sphere_wf(*self),
            bounded_v(r.origin@, FX_WORLD as int),
            bounded_v(r.direction@, FX_WORLD as int),
            0 <= t_min <= t_max <= FX_WORLD,
        ensures
            match res {
                Some(rec) => {
                    &&& sphere_hit_s(
                        self.center@,
                        self.radius as int,
                        r.origin@,
                        r.direction@,
                        t_min as int,
                        t_max as int,
                    ) == Some(hr_view(rec))
                    &&& rec.mat == Some(self.mat)
                    &&& hit_bounds(hr_view(rec))
                    &&& t_min <= rec.t <= t_max
                },
                None => sphere_hit_s(
                    self.center@,
                    self.radius as int,
                    r.origin@,
                    r.direction@,
                    t_min as int,
                    t_max as int,
                ) is None,
            },
    {
        let oc = r.origin.minus(&self.center);
        let a = r.direction.length_squared();
        if a <= 0 {
            return None;
        }
        proof {
            crate::vec3::lemma_ls_bound(oc@, 2199023255552int);
            crate::vec3::lemma_ls_bound(r.direction@, 1099511627776int);
            assert((3 * 1099511627776int * 1099511627776int) / (FX_ONE as int)
                <= 216172782113783808int) by (nonlinear_arith)
                requires
                    FX_ONE == 16777216,
            ;
            assert((3 * 2199023255552int * 2199023255552int) / (FX_ONE as int)
                <= 864691128455135232int) by (nonlinear_arith)
                requires
                    FX_ONE == 16777216,
            ;
        }
        let half_b = Vec3::dot(&oc, &r.direction);
        proof {
            crate::vec3::lemma_dot_bound(oc@, r.direction@, 2199023255552int, 1099511627776int);
            assert((3 * 2199023255552int * 1099511627776int) / (FX_ONE as int)
                <= 432345564227567616int) by (nonlinear_arith)
                requires
                    FX_ONE == 16777216,
            ;
            crate::fixed::lemma_fmul_bound(
                self.radius as int,
                self.radius as int,
                1099511627776int,
                1099511627776int,
            );
            assert((1099511627776int * 1099511627776int) / (FX_ONE as int)
                <= 72057594037927936int) by (nonlinear_arith)
                requires
                    FX_ONE == 16777216,
            ;
        }
        let rr = fmul(self.radius, self.radius);
        let c = oc.length_squared() - rr;
        proof {
            crate::fixed::lemma_fmul_bound(
                half_b as int,
                half_b as int,
                432345564227567616int,
                432345564227567616int,
            );
            crate::fixed::lemma_fmul_bound(
                a as int,
                c as int,
                216172782113783808int,
                936748722493063168int,
            );
            assert(432345564227567616int * 432345564227567616int
                < 85070591730234615865843651857942052864int
                && 216172782113783808int * 936748722493063168int
                < 85070591730234615865843651857942052864int
                && (432345564227567616int * 432345564227567616int) / (FX_ONE as int)
                + (216172782113783808int * 936748722493063168int) / (FX_ONE as int)
                < 1267650600228229401496703205376int) by (nonlinear_arith)
                requires
                    FX_ONE == 16777216,
            ;
        }
        let disc = fmul(half_b, half_b) - fmul(a, c);
        if disc < 0 {
            return None;
        }
        let sqrtd = fsqrt(disc);
        proof {
            assert(sqrtd as int * (sqrtd as int) <= disc as int * (FX_ONE as int)
                ==> sqrtd as int <= 4611686018427387904int) by (nonlinear_arith)
                requires
                    0 <= sqrtd as int,
                    0 <= (disc as int) < 1267650600228229401496703205376int,
                    FX_ONE == 16777216,
            ;
        }
        let mut root = fdiv(-half_b - sqrtd, a);
        if root < t_min || t_max < root {
            root = fdiv(-half_b + sqrtd, a);
            if root < t_min || t_max < root {
                return None;
            }
        }
        let p = r.at(root);
        proof {
            crate::fixed::lemma_fmul_bound(
                root as int,
                r.direction@.x,
                1099511627776int,
                1099511627776int,
            );
            crate::fixed::lemma_fmul_bound(
                root as int,
                r.direction@.y,
                1099511627776int,
                1099511627776int,
            );
            crate::fixed::lemma_fmul_bound(
                root as int,
                r.direction@.z,
                1099511627776int,
                1099511627776int,
            );
        }
        let pc = p.minus(&self.center);
        let outward = pc.div_s(self.radius);
        if !(p.within(FX_WORLD) && outward.within(2 * FX_ONE)) {
            return None;
        }
        let mut rec = HitRecord::empty();
        rec.t = root;
        rec.p = p;
        rec.set_face_normal(r, outward);
        rec.mat = Some(self.mat);
        Some(rec)
    }
}

} // verus!
