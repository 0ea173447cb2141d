//! Three-component fixed-point vectors, used interchangeably as points,
//! directions and colours.  Each executable operation's contract gives the
//! exact integer it returns, through spec functions over the mathematical
//! view `V3`.

use vstd::prelude::*;
use crate::fixed::{
    fdiv, fdiv_s, fmul, fmul_s, fsqrt, fsqrt_s, lemma_tdiv_bound, sabs, tdiv, FX_ONE,
};
use crate::rng::{next_state, next_state3, range_sample, Rng};

verus! {

/// The mathematical view of a vector: its components as unbounded integers.
pub ghost struct V3 {
    pub x: int,
    pub y: int,
    pub z: int,
}

/// A three-component fixed-point vector.
#[derive(Clone, Copy, Debug, PartialEq, Eq, Structural)]
pub struct Vec3 {
    pub x: i128,
    pub y: i128,
    pub z: i128,
}

impl View for Vec3 {
    type V = V3;

    open spec fn view(&self) -> V3 {
        V3 { x: self.x as int, y: self.y as int, z: self.z as int }
    }
}

/// Every component's magnitude is at most `b`.
pub open spec fn bounded_v(v: V3, b: int) -> bool {
    sabs(v.x) <= b && sabs(v.y) <= b && sabs(v.z) <= b
}

pub open spec fn add_v(a: V3, b: V3) -> V3 {
    V3 { x: a.x + b.x, y: a.y + b.y, z: a.z + b.z }
}

pub open spec fn sub_v(a: V3, b: V3) -> V3 {
    V3 { x: a.x - b.x, y: a.y - b.y, z: a.z - b.z }
}

pub open spec fn neg_v(a: V3) -> V3 {
    V3 { x: -a.x, y: -a.y, z: -a.z }
}

/// The scalar product of a fixed-point scalar and a vector.
pub open spec fn scale_v(s: int, a: V3) -> V3 {
    V3 { x: fmul_s(s, a.x), y: fmul_s(s, a.y), z: fmul_s(s, a.z) }
}

/// The componentwise (colour) product of two vectors.
pub open spec fn hadamard_v(a: V3, b: V3) -> V3 {
    V3 { x: fmul_s(a.x, b.x), y: fmul_s(a.y, b.y), z: fmul_s(a.z, b.z) }
}

/// The componentwise quotient of a vector by a fixed-point scalar.
pub open spec fn div_v(a: V3, s: int) -> V3
    recommends
        s != 0,
{
    V3 { x: fdiv_s(a.x, s), y: fdiv_s(a.y, s), z: fdiv_s(a.z, s) }
}

/// The fixed-point dot product, rounded once after the exact integer sum.
pub open spec fn dot_v(a: V3, b: V3) -> int {
    tdiv(a.x * b.x + a.y * b.y + a.z * b.z, FX_ONE as int)
}

/// The fixed-point squared length.
pub open spec fn ls_v(a: V3) -> int {
    dot_v(a, a)
}

pub open spec fn cross_v(a: V3, b: V3) -> V3 {
    V3 {
        x: fmul_s(a.y, b.z) - fmul_s(a.z, b.y),
        y: fmul_s(a.z, b.x) - fmul_s(a.x, b.z),
        z: fmul_s(a.x, b.y) - fmul_s(a.y, b.x),
    }
}

/// The unit vector along `a`; a vector whose squared length rounds to zero
/// (shorter than about `2^-12` of a unit) falls back to the `z` axis, the
/// fixed-point counterpart of an undefined zero normalization.
pub open spec fn unit_v(a: V3) -> V3 {
    if ls_v(a) <= 0 {
        V3 { x: 0, y: 0, z: FX_ONE as int }
    } else {
        div_v(a, fsqrt_s(ls_v(a)))
    }
}

/// The mirror direction of `v` about the normal `n`: `v - 2 (v . n) n`.
pub open spec fn reflect_v(v: V3, n: V3) -> V3 {
    sub_v(v, scale_v(2 * dot_v(v, n), n))
}

/// Snell refraction of the unit direction `uv` at a surface with normal `n`
/// and ratio of refraction indices `ratio`, by the perpendicular/parallel
/// decomposition.  The cosine is clamped at one from above, as the usual
/// formula demands, and at minus one from below, which keeps the
/// decomposition inside the world bounds for any admitted input.
pub open spec fn refract_v(uv: V3, n: V3, ratio: int) -> V3 {
    let d = dot_v(neg_v(uv), n);
    let cos = if d > FX_ONE as int {
        FX_ONE as int
    } else if d < -(FX_ONE as int) {
        -(FX_ONE as int)
    } else {
        d
    };
    let r_perp = scale_v(ratio, add_v(uv, scale_v(cos, n)));
    let r_par = scale_v(-fsqrt_s(sabs(FX_ONE as int - ls_v(r_perp))), n);
    add_v(r_perp, r_par)
}

/// The vector drawn from state `s`: three uniform components in `[min, max)`.
pub open spec fn random_range_v(s: u64, min: int, max: int) -> V3 {
    V3 {
        x: range_sample(s, min, max),
        y: range_sample(next_state(s), min, max),
        z: range_sample(next_state(next_state(s)), min, max),
    }
}

/// Rejection sampling of the unit ball from state `s` with `fuel` tries
/// left: draw a vector with components in `[-1, 1)`, keep it if its squared
/// length is below one, and fall back to the zero vector (which lies in the
/// ball) when the fuel runs out.
#[verifier::opaque]
pub open spec fn rius_rec(s: u64, fuel: nat) -> (V3, u64)
    decreases fuel,
{
    if fuel == 0 {
        (V3 { x: 0, y: 0, z: 0 }, s)
    } else {
        let p = random_range_v(s, -(FX_ONE as int), FX_ONE as int);
        let s3 = next_state3(s);
        if ls_v(p) >= FX_ONE as int {
            rius_rec(s3, (fuel - 1) as nat)
        } else {
            (p, s3)
        }
    }
}

/// The point of the unit ball drawn from state `s`, and the state after.
pub open spec fn rius_s(s: u64) -> (V3, u64) {
    rius_rec(s, 32)
}

/// Rejection sampling of the unit disk in the `z = 0` plane, as `rius_rec`.
#[verifier::opaque]
pub open spec fn riud_rec(s: u64, fuel: nat) -> (V3, u64)
    decreases fuel,
{
    if fuel == 0 {
        (V3 { x: 0, y: 0, z: 0 }, s)
    } else {
        let p = V3 {
            x: range_sample(s, -(FX_ONE as int), FX_ONE as int),
            y: range_sample(next_state(s), -(FX_ONE as int), FX_ONE as int),
            z: 0,
        };
        let s2 = next_state(next_state(s));
        if ls_v(p) >= FX_ONE as int {
            riud_rec(s2, (fuel - 1) as nat)
        } else {
            (p, s2)
        }
    }
}

/// The point of the unit disk drawn from state `s`, and the state after.
pub open spec fn riud_s(s: u64) -> (V3, u64) {
    riud_rec(s, 32)
}

/// The point of the unit ball drawn from state `s`, flipped into the
/// hemisphere around `n`.
pub open spec fn rih_s(s: u64, n: V3) -> V3 {
    let p = rius_s(s).0;
    if dot_v(p, n) > 0 {
        p
    } else {
        neg_v(p)
    }
}

/// One step of the ball rejection recursion.
proof fn lemma_rius_unfold(s: u64, fuel: nat)
    requires
        fuel >= 1,
    ensures
        rius_rec(s, fuel) == (if ls_v(random_range_v(s, -(FX_ONE as int), FX_ONE as int))
            >= FX_ONE as int {
            rius_rec(next_state3(s), (fuel - 1) as nat)
        } else {
            (random_range_v(s, -(FX_ONE as int), FX_ONE as int), next_state3(s))
        }),
{
    reveal_with_fuel(rius_rec, 1);
}

/// The ball rejection recursion out of fuel.
proof fn lemma_rius_empty(s: u64)
    ensures
        rius_rec(s, 0) == (V3 { x: 0, y: 0, z: 0 }, s),
{
    reveal_with_fuel(rius_rec, 1);
}

/// One step of the disk rejection recursion.
proof fn lemma_riud_unfold(s: u64, fuel: nat)
    requires
        fuel >= 1,
    ensures
        riud_rec(s, fuel) == ({
            let p = V3 {
                x: range_sample(s, -(FX_ONE as int), FX_ONE as int),
                y: range_sample(next_state(s), -(FX_ONE as int), FX_ONE as int),
                z: 0,
            };
            if ls_v(p) >= FX_ONE as int {
                riud_rec(next_state(next_state(s)), (fuel - 1) as nat)
            } else {
                (p, next_state(next_state(s)))
            }
        }),
{
    reveal_with_fuel(riud_rec, 1);
}

/// The disk rejection recursion out of fuel.
proof fn lemma_riud_empty(s: u64)
    ensures
        riud_rec(s, 0) == (V3 { x: 0, y: 0, z: 0 }, s),
{
    reveal_with_fuel(riud_rec, 1);
}

/// The exact (unscaled) integer dot product.
pub open spec fn dote(a: V3, b: V3) -> int {
    a.x * b.x + a.y * b.y + a.z * b.z
}

/// The exact mirror of `v` about `n`, carried in integers by scaling with
/// `n . n` instead of dividing: `(n . n) v - 2 (v . n) n`.  The executable
/// `reflect` computes its once-rounded fixed-point counterpart.
pub open spec fn reflect_exact(v: V3, n: V3) -> V3 {
    V3 {
        x: dote(n, n) * v.x - 2 * dote(v, n) * n.x,
        y: dote(n, n) * v.y - 2 * dote(v, n) * n.y,
        z: dote(n, n) * v.z - 2 * dote(v, n) * n.z,
    }
}

/// Mirroring about a normal is an involution: applied twice with the same
/// normal it returns the vector itself, up to the square of `n . n` that the
/// integer scaling carries — for an exactly unit normal, exactly itself.
pub proof fn lemma_reflect_involution(v: V3, n: V3)
    ensures
        reflect_exact(reflect_exact(v, n), n) == (V3 {
            x: dote(n, n) * dote(n, n) * v.x,
            y: dote(n, n) * dote(n, n) * v.y,
            z: dote(n, n) * dote(n, n) * v.z,
        }),
{
    let d = dote(n, n);
    let p = dote(v, n);
    let w = reflect_exact(v, n);
    lemma_mirror_component(d, p, v.x, n.x);
    lemma_mirror_component(d, p, v.y, n.y);
    lemma_mirror_component(d, p, v.z, n.z);
    assert(d * (v.x * n.x) + d * (v.y * n.y) + d * (v.z * n.z) == d * p) by (nonlinear_arith)
        requires
            p == v.x * n.x + v.y * n.y + v.z * n.z,
    ;
    assert(2 * p * (n.x * n.x) + 2 * p * (n.y * n.y) + 2 * p * (n.z * n.z) == 2 * p * d)
        by (nonlinear_arith)
        requires
            d == n.x * n.x + n.y * n.y + n.z * n.z,
    ;
    assert(2 * p * d == 2 * (d * p)) by (nonlinear_arith);
    assert(dote(w, n) == -(d * p));
    lemma_mirror_twice(d, p, v.x, n.x);
    lemma_mirror_twice(d, p, v.y, n.y);
    lemma_mirror_twice(d, p, v.z, n.z);
}

/// One component of the mirror, multiplied by the matching normal component.
proof fn lemma_mirror_component(d: int, p: int, vi: int, ni: int)
    ensures
        (d * vi - 2 * p * ni) * ni == d * (vi * ni) - 2 * p * (ni * ni),
{
    assert((d * vi - 2 * p * ni) * ni == d * (vi * ni) - 2 * p * (ni * ni))
        by (nonlinear_arith);
}

/// One component of the mirror of the mirror.
proof fn lemma_mirror_twice(d: int, p: int, vi: int, ni: int)
    ensures
        d * (d * vi - 2 * p * ni) - 2 * (-(d * p)) * ni == d * d * vi,
{
    assert(d * (d * vi - 2 * p * ni) - 2 * (-(d * p)) * ni == d * d * vi) by (nonlinear_arith);
}

/// Refraction with a matched medium (ratio one) at normal incidence leaves
/// the incident direction unchanged, exactly: every rounding in the
/// decomposition vanishes.
pub proof fn lemma_refract_matched_normal(uv: V3, n: V3)
    requires
        uv == neg_v(n),
        dot_v(n, n) >= FX_ONE as int,
    ensures
        refract_v(uv, n, FX_ONE as int) == uv,
{
    let s = FX_ONE as int;
    assert(dot_v(neg_v(uv), n) == dot_v(n, n));
    crate::fixed::lemma_fmul_one(n.x);
    crate::fixed::lemma_fmul_one(n.y);
    crate::fixed::lemma_fmul_one(n.z);
    assert(scale_v(s, n) == n);
    let inner = add_v(uv, scale_v(s, n));
    assert(inner == (V3 { x: 0, y: 0, z: 0 }));
    assert(fmul_s(s, 0) == 0) by {
        crate::fixed::lemma_fmul_one(0);
        assert(s * 0 == 0 * s) by (nonlinear_arith);
    }
    let r_perp = scale_v(s, inner);
    assert(r_perp == (V3 { x: 0, y: 0, z: 0 }));
    assert(ls_v(r_perp) == 0);
    assert(sabs(s - 0) == s);
    crate::fixed::lemma_sqrt_floor_unique(s * s, s);
    assert(fsqrt_s(s) == s);
    crate::fixed::lemma_fmul_neg_one(n.x);
    crate::fixed::lemma_fmul_neg_one(n.y);
    crate::fixed::lemma_fmul_neg_one(n.z);
    assert(scale_v(-s, n) == neg_v(n));
    assert(refract_v(uv, n, s) == add_v(r_perp, neg_v(n)));
    assert(add_v(V3 { x: 0, y: 0, z: 0 }, neg_v(n)) == neg_v(n));
}

/// The squared length is never negative.
pub proof fn lemma_ls_nonneg(a: V3)
    ensures
        ls_v(a) >= 0,
{
    assert(a.x * a.x + a.y * a.y + a.z * a.z >= 0) by (nonlinear_arith);
}

/// One component of a normalization: the rounded quotient times the divisor
/// brackets the scaled component, so their squares are close.
proof fn lemma_unit_sq_component(ai: int, l: int)
    requires
        l >= 1,
    ensures
        ({
            let s = FX_ONE as int;
            let m = tdiv(ai * s, l) * l;
            &&& m * m <= (ai * s) * (ai * s)
            &&& (ai * s) * (ai * s) < m * m + 2 * sabs(ai) * s * l + l * l
        }),
{
    let s = FX_ONE as int;
    crate::fixed::lemma_tdiv_mul_range(ai * s, l);
    let m = tdiv(ai * s, l) * l;
    assert(sabs(ai * s) == sabs(ai) * s) by (nonlinear_arith)
        requires
            s == 16777216,
    ;
    assert(m * m <= (ai * s) * (ai * s) && (ai * s) * (ai * s) < m * m + 2 * sabs(ai) * s * l
        + l * l) by (nonlinear_arith)
        requires
            sabs(m) <= sabs(ai * s),
            sabs(ai * s) < sabs(m) + l,
            sabs(ai * s) == sabs(ai) * s,
            l >= 1,
    ;
}

/// Normalization preserves length: for any vector of length at least one,
/// the fixed-point squared length of its unit vector is one within a
/// relative error below `2^-21`.
pub proof fn lemma_unit_length(a: V3)
    requires
        bounded_v(a, 2305843009213693952int),
        ls_v(a) >= FX_ONE as int,
    ensures
        FX_ONE as int - 8 <= ls_v(unit_v(a)) <= FX_ONE as int + 8,
{
    let s = FX_ONE as int;
    let vv = a.x * a.x + a.y * a.y + a.z * a.z;
    let ls = ls_v(a);
    assert(vv >= 0 && a.x * a.x <= vv && a.y * a.y <= vv && a.z * a.z <= vv)
        by (nonlinear_arith)
        requires
            vv == a.x * a.x + a.y * a.y + a.z * a.z,
    ;
    assert(ls == vv / s);
    vstd::arithmetic::div_mod::lemma_fundamental_div_mod(vv, s);
    vstd::arithmetic::div_mod::lemma_mod_bound(vv, s);
    assert(ls * s <= vv < ls * s + s);
    crate::fixed::lemma_sqrt_floor_props(ls * s);
    let l = crate::fixed::sqrt_floor(ls * s);
    assert(l * l <= ls * s < (l + 1) * (l + 1));
    assert(l >= s) by (nonlinear_arith)
        requires
            0 <= l,
            ls * s >= s * s,
            ls * s < (l + 1) * (l + 1),
            s == 16777216,
    ;
    assert(ls * s >= s * s) by (nonlinear_arith)
        requires
            ls >= s,
            s == 16777216,
    ;
    assert(unit_v(a) == div_v(a, l));
    let u = unit_v(a);
    let uu = u.x * u.x + u.y * u.y + u.z * u.z;
    lemma_unit_sq_component(a.x, l);
    lemma_unit_sq_component(a.y, l);
    lemma_unit_sq_component(a.z, l);
    let mx = u.x * l;
    let my = u.y * l;
    let mz = u.z * l;
    assert(mx == tdiv(a.x * s, l) * l && my == tdiv(a.y * s, l) * l && mz == tdiv(a.z * s, l)
        * l);
    let aa = sabs(a.x) + sabs(a.y) + sabs(a.z);
    // the componentwise magnitudes sum below twice the root plus four
    assert(aa * aa <= 3 * vv) by (nonlinear_arith)
        requires
            aa == sabs(a.x) + sabs(a.y) + sabs(a.z),
            vv == a.x * a.x + a.y * a.y + a.z * a.z,
    ;
    assert(vv < (l + 2) * (l + 2)) by (nonlinear_arith)
        requires
            vv < ls * s + s,
            ls * s < (l + 1) * (l + 1),
            l >= s,
            s == 16777216,
    ;
    assert(aa <= 2 * l + 4) by (nonlinear_arith)
        requires
            aa >= 0,
            aa * aa <= 3 * vv,
            vv < (l + 2) * (l + 2),
            l >= 1,
    ;
    // the sum of the squared bracketed components
    assert(uu * (l * l) == mx * mx + my * my + mz * mz) by (nonlinear_arith)
        requires
            uu == u.x * u.x + u.y * u.y + u.z * u.z,
            mx == u.x * l,
            my == u.y * l,
            mz == u.z * l,
    ;
    assert((a.x * s) * (a.x * s) == (s * s) * (a.x * a.x)) by (nonlinear_arith);
    assert((a.y * s) * (a.y * s) == (s * s) * (a.y * a.y)) by (nonlinear_arith);
    assert((a.z * s) * (a.z * s) == (s * s) * (a.z * a.z)) by (nonlinear_arith);
    assert((s * s) * (a.x * a.x) + (s * s) * (a.y * a.y) + (s * s) * (a.z * a.z) == (s * s)
        * vv) by (nonlinear_arith)
        requires
            vv == a.x * a.x + a.y * a.y + a.z * a.z,
    ;
    // upper bound
    assert(uu * (l * l) <= (s * s) * vv);
    assert((s * s) * vv <= (s * s) * (ls * s + s - 1)) by (nonlinear_arith)
        requires
            vv <= ls * s + s - 1,
            s == 16777216,
    ;
    assert((s * s) * (ls * s + s - 1) < (s * s) * ((l + 1) * (l + 1) + s)) by (nonlinear_arith)
        requires
            ls * s < (l + 1) * (l + 1),
            s == 16777216,
    ;
    assert(uu <= s * s + 4 * s) by (nonlinear_arith)
        requires
            uu * (l * l) < (s * s) * ((l + 1) * (l + 1) + s),
            l >= s,
            s == 16777216,
    ;
    // lower bound
    assert((s * s) * vv < uu * (l * l) + 2 * aa * s * l + 3 * (l * l)) by (nonlinear_arith)
        requires
            (a.x * s) * (a.x * s) < mx * mx + 2 * sabs(a.x) * s * l + l * l,
            (a.y * s) * (a.y * s) < my * my + 2 * sabs(a.y) * s * l + l * l,
            (a.z * s) * (a.z * s) < mz * mz + 2 * sabs(a.z) * s * l + l * l,
            uu * (l * l) == mx * mx + my * my + mz * mz,
            (a.x * s) * (a.x * s) + (a.y * s) * (a.y * s) + (a.z * s) * (a.z * s) == (s * s)
                * vv,
            aa == sabs(a.x) + sabs(a.y) + sabs(a.z),
    ;
    assert((s * s) * vv >= (s * s) * (l * l)) by (nonlinear_arith)
        requires
            vv >= ls * s,
            ls * s >= l * l,
            s == 16777216,
    ;
    assert(uu >= s * s - 4 * s - 11) by (nonlinear_arith)
        requires
            (s * s) * (l * l) < uu * (l * l) + 2 * aa * s * l + 3 * (l * l),
            aa <= 2 * l + 4,
            aa >= 0,
            l >= s,
            s == 16777216,
    ;
    // the rounded squared length of the unit vector
    assert(uu >= 0) by (nonlinear_arith)
        requires
            uu == u.x * u.x + u.y * u.y + u.z * u.z,
    ;
    assert(ls_v(u) == uu / s);
    assert(s - 8 <= uu / s <= s + 8) by (nonlinear_arith)
        requires
            0 <= uu,
            s * s - 4 * s - 11 <= uu <= s * s + 4 * s,
            s == 16777216,
    ;
}

/// The squared length of a vector bounded by `b` is at most `3 b^2 / FX_ONE`.
pub proof fn lemma_ls_bound(a: V3, b: int)
    requires
        bounded_v(a, b),
    ensures
        0 <= ls_v(a) <= (3 * b * b) / (FX_ONE as int),
        sabs(a.x * a.x + a.y * a.y + a.z * a.z) <= 3 * b * b,
{
    lemma_ls_nonneg(a);
    lemma_dot_bound(a, a, b, b);
}

/// The dot product of vectors bounded by `ba` and `bb` is at most
/// `3 ba bb / FX_ONE` in magnitude.
pub proof fn lemma_dot_bound(a: V3, b: V3, ba: int, bb: int)
    requires
        bounded_v(a, ba),
        bounded_v(b, bb),
    ensures
        sabs(a.x * b.x + a.y * b.y + a.z * b.z) <= 3 * ba * bb,
        sabs(dot_v(a, b)) <= (3 * ba * bb) / (FX_ONE as int),
        sabs(dot_v(a, b)) <= 3 * ba * bb,
{
    crate::fixed::lemma_fmul_bound(a.x, b.x, ba, bb);
    crate::fixed::lemma_fmul_bound(a.y, b.y, ba, bb);
    crate::fixed::lemma_fmul_bound(a.z, b.z, ba, bb);
    lemma_tdiv_bound(a.x * b.x + a.y * b.y + a.z * b.z, FX_ONE as int, 3 * (ba * bb));
    assert(3 * (ba * bb) == 3 * ba * bb && (3 * (ba * bb)) / (FX_ONE as int)
        == (3 * ba * bb) / (FX_ONE as int)) by (nonlinear_arith);
}

impl Vec3 {
    /// The zero vector, standing for the origin or for black.
    pub fn empty() -> (r: Vec3)
        ensures
            r@ == (V3 { x: 0, y: 0, z: 0 }),
    {
        Vec3 { x: 0, y: 0, z: 0 }
    }

    pub fn new(x: i128, y: i128, z: i128) -> (r: Vec3)
        ensures
            r@ == (V3 { x: x as int, y: y as int, z: z as int }),
    {
        Vec3 { x, y, z }
    }

    pub fn x(&self) -> (r: i128)
        ensures
            r == self@.x,
    {
        self.x
    }

    pub fn y(&self) -> (r: i128)
        ensures
            r == self@.y,
    {
        self.y
    }

    pub fn z(&self) -> (r: i128)
        ensures
            r == self@.z,
    {
        self.z
    }

    pub fn plus(&self, o: &Vec3) -> (r: Vec3)
        requires
            bounded_v(self@, 21267647932558653966460912964485513216int),
            bounded_v(o@, 21267647932558653966460912964485513216int),
        ensures
            r@ == add_v(self@, o@),
    {
        Vec3 { x: self.x + o.x, y: self.y + o.y, z: self.z + o.z }
    }

    pub fn minus(&self, o: &Vec3) -> (r: Vec3)
        requires
            bounded_v(self@, 21267647932558653966460912964485513216int),
            bounded_v(o@, 21267647932558653966460912964485513216int),
        ensures
            r@ == sub_v(self@, o@),
    {
        Vec3 { x: self.x - o.x, y: self.y - o.y, z: self.z - o.z }
    }

    pub fn neg(&self) -> (r: Vec3)
        requires
            bounded_v(self@, 85070591730234615865843651857942052863int),
        ensures
            r@ == neg_v(self@),
    {
        Vec3 { x: -self.x, y: -self.y, z: -self.z }
    }

    /// The scalar product `s * self`, each component rounded toward zero.
    pub fn scale(&self, s: i128) -> (r: Vec3)
        requires
            sabs(s as int) <= 4611686018427387904int,
            bounded_v(self@, 4611686018427387904int),
        ensures
            r@ == scale_v(s as int, self@),
    {
        proof {
            let b = 4611686018427387904int;
            crate::fixed::lemma_fmul_bound(s as int, self@.x, b, b);
            crate::fixed::lemma_fmul_bound(s as int, self@.y, b, b);
            crate::fixed::lemma_fmul_bound(s as int, self@.z, b, b);
            assert(b * b < 85070591730234615865843651857942052864int) by (nonlinear_arith)
                requires
                    b == 4611686018427387904int,
            ;
        }
        Vec3 { x: fmul(s, self.x), y: fmul(s, self.y), z: fmul(s, self.z) }
    }

    /// The componentwise product, used to attenuate one colour by another.
    pub fn mul_v(&self, o: &Vec3) -> (r: Vec3)
        requires
            bounded_v(self@, 4611686018427387904int),
            bounded_v(o@, 4611686018427387904int),
        ensures
            r@ == hadamard_v(self@, o@),
    {
        proof {
            let b = 4611686018427387904int;
            crate::fixed::lemma_fmul_bound(self@.x, o@.x, b, b);
            crate::fixed::lemma_fmul_bound(self@.y, o@.y, b, b);
            crate::fixed::lemma_fmul_bound(self@.z, o@.z, b, b);
            assert(b * b < 85070591730234615865843651857942052864int) by (nonlinear_arith)
                requires
                    b == 4611686018427387904int,
            ;
        }
        Vec3 { x: fmul(self.x, o.x), y: fmul(self.y, o.y), z: fmul(self.z, o.z) }
    }

    /// The componentwise quotient by a fixed-point scalar.
    pub fn div_s(&self, s: i128) -> (r: Vec3)
        requires
            s != 0,
            s > i128::MIN,
            bounded_v(self@, 5070602400912917605986812821503int),
        ensures
            r@ == div_v(self@, s as int),
    {
        Vec3 { x: fdiv(self.x, s), y: fdiv(self.y, s), z: fdiv(self.z, s) }
    }

    /// The fixed-point dot product: the exact integer sum of the component
    /// products, scaled down once.
    pub fn dot(u: &Vec3, v: &Vec3) -> (r: i128)
        requires
            bounded_v(u@, 2305843009213693952int),
            bounded_v(v@, 2305843009213693952int),
        ensures
            r == dot_v(u@, v@),
    {
        proof {
            let b = 2305843009213693952int;
            lemma_dot_bound(u@, v@, b, b);
            crate::fixed::lemma_fmul_bound(u@.x, v@.x, b, b);
            crate::fixed::lemma_fmul_bound(u@.y, v@.y, b, b);
            crate::fixed::lemma_fmul_bound(u@.z, v@.z, b, b);
            assert(b * b == 5316911983139663491615228241121378304int) by (nonlinear_arith)
                requires
                    b == 2305843009213693952int,
            ;
        }
        let p = u.x * v.x + u.y * v.y + u.z * v.z;
        crate::fixed::div_tz(p, FX_ONE)
    }

    pub fn cross(u: &Vec3, v: &Vec3) -> (r: Vec3)
        requires
            bounded_v(u@, 2305843009213693952int),
            bounded_v(v@, 2305843009213693952int),
        ensures
            r@ == cross_v(u@, v@),
    {
        proof {
            let b = 2305843009213693952int;
            crate::fixed::lemma_fmul_bound(u@.y, v@.z, b, b);
            crate::fixed::lemma_fmul_bound(u@.z, v@.y, b, b);
            crate::fixed::lemma_fmul_bound(u@.z, v@.x, b, b);
            crate::fixed::lemma_fmul_bound(u@.x, v@.z, b, b);
            crate::fixed::lemma_fmul_bound(u@.x, v@.y, b, b);
            crate::fixed::lemma_fmul_bound(u@.y, v@.x, b, b);
            assert(b * b < 85070591730234615865843651857942052864int) by (nonlinear_arith)
                requires
                    b == 2305843009213693952int,
            ;
        }
        Vec3 {
            x: fmul(u.y, v.z) - fmul(u.z, v.y),
            y: fmul(u.z, v.x) - fmul(u.x, v.z),
            z: fmul(u.x, v.y) - fmul(u.y, v.x),
        }
    }

    /// The fixed-point squared length.
    pub fn length_squared(&self) -> (r: i128)
        requires
            bounded_v(self@, 2305843009213693952int),
        ensures
            r == ls_v(self@),
            0 <= r <= 950737950171172051122527404032int,
    {
        proof {
            let b = 2305843009213693952int;
            lemma_ls_bound(self@, b);
            crate::fixed::lemma_fmul_bound(self@.x, self@.x, b, b);
            crate::fixed::lemma_fmul_bound(self@.y, self@.y, b, b);
            crate::fixed::lemma_fmul_bound(self@.z, self@.z, b, b);
            assert(b * b == 5316911983139663491615228241121378304int
                && (3 * b * b) / (FX_ONE as int) <= 950737950171172051122527404032int)
                by (nonlinear_arith)
                requires
                    b == 2305843009213693952int,
                    FX_ONE == 16777216,
            ;
        }
        let p = self.x * self.x + self.y * self.y + self.z * self.z;
        crate::fixed::div_tz(p, FX_ONE)
    }

    /// The fixed-point length: the rounded square root of the squared length.
    pub fn length(&self) -> (r: i128)
        requires
            bounded_v(self@, 2305843009213693952int),
        ensures
            r == fsqrt_s(ls_v(self@)),
            0 <= r,
    {
        let ls = self.length_squared();
        fsqrt(ls)
    }

    /// All components are below the degeneracy threshold in magnitude; at
    /// this scale the conventional `1e-8` threshold lies under one unit in
    /// the last place, so only exact zeroes pass.  The test reads every
    /// component's magnitude uniformly.
    /// Every component's magnitude is at most `b`.
    pub fn within(&self, b: i128) -> (r: bool)
        requires
            b >= 0,
        ensures
            r == bounded_v(self@, b as int),
    {
        -b <= self.x && self.x <= b && -b <= self.y && self.y <= b && -b <= self.z && self.z
            <= b
    }

    pub fn near_zero(&self) -> (r: bool)
        ensures
            r == (self@.x == 0 && self@.y == 0 && self@.z == 0),
    {
        self.x == 0 && self.y == 0 && self.z == 0
    }

    /// The unit vector along `self`, with the `z`-axis fallback of `unit_v`
    /// for vectors below the resolution of the squared length.
    pub fn unit(&self) -> (r: Vec3)
        requires
            bounded_v(self@, 2305843009213693952int),
        ensures
            r@ == unit_v(self@),
            bounded_v(r@, 2 * FX_ONE as int),
    {
        let ls = self.length_squared();
        if ls <= 0 {
            Vec3 { x: 0, y: 0, z: FX_ONE }
        } else {
            let l = fsqrt(ls);
            proof {
                lemma_unit_bound(self@, ls as int, l as int);
            }
            Vec3 { x: fdiv(self.x, l), y: fdiv(self.y, l), z: fdiv(self.z, l) }
        }
    }

    /// The mirror direction of `v` about the normal `n`.
    pub fn reflect(v: &Vec3, n: &Vec3) -> (r: Vec3)
        requires
            bounded_v(v@, 1073741824int),
            bounded_v(n@, 1073741824int),
        ensures
            r@ == reflect_v(v@, n@),
            bounded_v(r@, 70368744177664int),
    {
        let d = Vec3::dot(v, n);
        proof {
            lemma_dot_bound(v@, n@, 1073741824int, 1073741824int);
        }
        let k = 2 * d;
        let m = n.scale(k);
        proof {
            crate::fixed::lemma_fmul_bound(k as int, n@.x, 412316860416int, 1073741824int);
            crate::fixed::lemma_fmul_bound(k as int, n@.y, 412316860416int, 1073741824int);
            crate::fixed::lemma_fmul_bound(k as int, n@.z, 412316860416int, 1073741824int);
            assert((412316860416int * 1073741824int) / (FX_ONE as int) < 35184372088832int)
                by (nonlinear_arith)
                requires
                    FX_ONE == 16777216,
            ;
        }
        v.minus(&m)
    }

    /// Snell refraction of the unit direction `uv` about the normal `n` with
    /// the ratio of refraction indices `ratio`.
    pub fn refract(uv: &Vec3, n: &Vec3, etai_over_etat: i128) -> (r: Vec3)
        requires
            bounded_v(uv@, 33554432int),
            bounded_v(n@, 33554432int),
            0 <= etai_over_etat <= 34359738368int,
        ensures
            r@ == refract_v(uv@, n@, etai_over_etat as int),
            bounded_v(r@, crate::fixed::FX_WORLD as int),
    {
        let mu = uv.neg();
        let d = Vec3::dot(&mu, n);
        proof {
            lemma_dot_bound(mu@, n@, 33554432int, 33554432int);
        }
        let cos = if d > FX_ONE {
            FX_ONE
        } else if d < -FX_ONE {
            -FX_ONE
        } else {
            d
        };
        let scaled_n = n.scale(cos);
        proof {
            crate::fixed::lemma_fmul_bound(cos as int, n@.x, 16777216int, 33554432int);
            crate::fixed::lemma_fmul_bound(cos as int, n@.y, 16777216int, 33554432int);
            crate::fixed::lemma_fmul_bound(cos as int, n@.z, 16777216int, 33554432int);
            assert((16777216int * 33554432int) / (FX_ONE as int) == 33554432int)
                by (nonlinear_arith)
                requires
                    FX_ONE == 16777216,
            ;
        }
        let inner = uv.plus(&scaled_n);
        let r_perp = inner.scale(etai_over_etat);
        proof {
            crate::fixed::lemma_fmul_bound(
                etai_over_etat as int, inner@.x, 34359738368int, 67108864int);
            crate::fixed::lemma_fmul_bound(
                etai_over_etat as int, inner@.y, 34359738368int, 67108864int);
            crate::fixed::lemma_fmul_bound(
                etai_over_etat as int, inner@.z, 34359738368int, 67108864int);
            assert((34359738368int * 67108864int) / (FX_ONE as int) == 137438953472int)
                by (nonlinear_arith)
                requires
                    FX_ONE == 16777216,
            ;
            lemma_ls_bound(r_perp@, 137438953472int);
            assert((3 * 137438953472int * 137438953472int) / (FX_ONE as int)
                <= 3377699720527872int) by (nonlinear_arith)
                requires
                    FX_ONE == 16777216,
            ;
        }
        let lsq = r_perp.length_squared();
        let k = FX_ONE - lsq;
        let ka = if k < 0 {
            -k
        } else {
            k
        };
        let root = fsqrt(ka);
        proof {
            assert(root as int <= 274877906944int) by (nonlinear_arith)
                requires
                    0 <= root as int,
                    root as int * (root as int) <= ka as int * 16777216,
                    0 <= (ka as int) <= 3377699720527873int,
            ;
        }
        let r_par = n.scale(-root);
        proof {
            crate::fixed::lemma_fmul_bound(-root as int, n@.x, 274877906944int, 33554432int);
            crate::fixed::lemma_fmul_bound(-root as int, n@.y, 274877906944int, 33554432int);
            crate::fixed::lemma_fmul_bound(-root as int, n@.z, 274877906944int, 33554432int);
            assert((274877906944int * 33554432int) / (FX_ONE as int) == 549755813888int)
                by (nonlinear_arith)
                requires
                    FX_ONE == 16777216,
            ;
        }
        r_perp.plus(&r_par)
    }

    /// A vector whose components are uniform over the representable values
    /// of `[0, 1)`, drawn componentwise from the source.
    pub fn random(rng: &mut Rng) -> (r: Vec3)
        ensures
            r@.x == crate::rng::unit_sample(next_state(old(rng).state)),
            r@.y == crate::rng::unit_sample(next_state(next_state(old(rng).state))),
            r@.z == crate::rng::unit_sample(next_state3(old(rng).state)),
            final(rng).state == next_state3(old(rng).state),
            bounded_v(r@, FX_ONE as int),
    {
        let x = rng.next_unit();
        let y = rng.next_unit();
        let z = rng.next_unit();
        Vec3 { x, y, z }
    }

    /// A vector whose components are uniform over the representable values
    /// of `[min, max)`, drawn componentwise from the source.
    pub fn random_range(rng: &mut Rng, min: i128, max: i128) -> (r: Vec3)
        requires
            min <= max,
            sabs(min as int) <= 1099511627776int,
            sabs(max as int) <= 1099511627776int,
        ensures
            r@ == random_range_v(old(rng).state, min as int, max as int),
            final(rng).state == next_state3(old(rng).state),
            bounded_v(r@, if sabs(min as int) >= sabs(max as int) { sabs(min as int) } else { sabs(max as int) }),
    {
        let x = rng.next_range(min, max);
        let y = rng.next_range(min, max);
        let z = rng.next_range(min, max);
        Vec3 { x, y, z }
    }

    /// A point of the unit ball, by bounded rejection sampling; when every
    /// try is rejected the center is returned, which also lies in the ball.
    #[verifier::rlimit(60)]
    pub fn random_in_unit_sphere(rng: &mut Rng) -> (r: Vec3)
        ensures
            r@ == rius_s(old(rng).state).0,
            final(rng).state == rius_s(old(rng).state).1,
            bounded_v(r@, FX_ONE as int),
            0 <= ls_v(r@) < FX_ONE as int,
    {
        let mut i: u32 = 0;
        while i < 32
            invariant
                i <= 32,
                rius_rec(old(rng).state, 32) == rius_rec(rng.state, (32 - i) as nat),
            decreases 32 - i,
        {
            let ghost s_pre = rng.state;
            let p = Vec3::random_range(rng, -FX_ONE, FX_ONE);
            let lsq = p.length_squared();
            proof {
                lemma_ls_nonneg(p@);
                lemma_rius_unfold(s_pre, (32 - i) as nat);
            }
            if lsq < FX_ONE {
                return p;
            }
            i = i + 1;
        }
        proof {
            lemma_ls_nonneg(V3 { x: 0, y: 0, z: 0 });
            lemma_rius_empty(rng.state);
            assert(ls_v(V3 { x: 0, y: 0, z: 0 }) == 0);
        }
        Vec3 { x: 0, y: 0, z: 0 }
    }

    /// A unit direction drawn uniformly-in-angle: a unit ball point, normalized.
    pub fn random_unit_vector(rng: &mut Rng) -> (r: Vec3)
        ensures
            r@ == unit_v(rius_s(old(rng).state).0),
            final(rng).state == rius_s(old(rng).state).1,
            bounded_v(r@, 2 * FX_ONE as int),
    {
        let p = Vec3::random_in_unit_sphere(rng);
        p.unit()
    }

    /// A unit ball point flipped into the hemisphere around `normal`.
    pub fn random_in_hemisphere(rng: &mut Rng, normal: &Vec3) -> (r: Vec3)
        requires
            bounded_v(normal@, 2305843009213693952int),
        ensures
            r@ == rih_s(old(rng).state, normal@),
            final(rng).state == rius_s(old(rng).state).1,
            bounded_v(r@, FX_ONE as int),
    {
        let in_unit_sphere = Vec3::random_in_unit_sphere(rng);
        let d = Vec3::dot(&in_unit_sphere, normal);
        if d > 0 {
            in_unit_sphere
        } else {
            in_unit_sphere.neg()
        }
    }

    /// A point of the unit disk in the `z = 0` plane, by bounded rejection
    /// sampling with the same fallback as the ball.
    #[verifier::rlimit(60)]
    pub fn random_in_unit_disk(rng: &mut Rng) -> (r: Vec3)
        ensures
            r@ == riud_s(old(rng).state).0,
            final(rng).state == riud_s(old(rng).state).1,
            bounded_v(r@, FX_ONE as int),
            0 <= ls_v(r@) < FX_ONE as int,
            r@.z == 0,
    {
        let mut i: u32 = 0;
        while i < 32
            invariant
                i <= 32,
                riud_rec(old(rng).state, 32) == riud_rec(rng.state, (32 - i) as nat),
            decreases 32 - i,
        {
            let ghost s_pre = rng.state;
            let x = rng.next_range(-FX_ONE, FX_ONE);
            let y = rng.next_range(-FX_ONE, FX_ONE);
            let p = Vec3 { x, y, z: 0 };
            let lsq = p.length_squared();
            proof {
                lemma_ls_nonneg(p@);
                lemma_riud_unfold(s_pre, (32 - i) as nat);
            }
            if lsq < FX_ONE {
                return p;
            }
            i = i + 1;
        }
        proof {
            lemma_ls_nonneg(V3 { x: 0, y: 0, z: 0 });
            lemma_riud_empty(rng.state);
            assert(ls_v(V3 { x: 0, y: 0, z: 0 }) == 0);
        }
        Vec3 { x: 0, y: 0, z: 0 }
    }
}

/// A positive squared length forces a positive rounded square root, and the
/// components of the normalized vector are bounded by two units.
proof fn lemma_unit_bound(a: V3, ls: int, l: int)
    requires
        bounded_v(a, 2305843009213693952int),
        ls == ls_v(a),
        ls >= 1,
        0 <= l,
        l * l <= ls * FX_ONE,
        ls * FX_ONE < (l + 1) * (l + 1),
    ensures
        l >= 4096,
        l == fsqrt_s(ls),
        bounded_v(div_v(a, l), 2 * FX_ONE as int),
{
    let s = FX_ONE as int;
    let vv = a.x * a.x + a.y * a.y + a.z * a.z;
    assert(vv >= 0 && a.x * a.x <= vv && a.y * a.y <= vv && a.z * a.z <= vv)
        by (nonlinear_arith)
        requires
            vv == a.x * a.x + a.y * a.y + a.z * a.z,
    ;
    assert(ls == vv / s);
    vstd::arithmetic::div_mod::lemma_fundamental_div_mod(vv, s);
    assert(vv < ls * s + s);
    assert(l >= 4096) by (nonlinear_arith)
        requires
            0 <= l,
            ls * s >= s,
            ls * s < (l + 1) * (l + 1),
            s == 16777216,
    ;
    crate::fixed::lemma_sqrt_floor_unique(ls * s, l);
    lemma_unit_component(a.x, vv, l, s);
    lemma_unit_component(a.y, vv, l, s);
    lemma_unit_component(a.z, vv, l, s);
}

/// One component of the normalized vector is bounded by two units.
proof fn lemma_unit_component(c: int, vv: int, l: int, s: int)
    requires
        s == FX_ONE as int,
        c * c <= vv,
        vv < (l + 1) * (l + 1) + s,
        l >= 4096,
    ensures
        sabs(fdiv_s(c, l)) <= 2 * s,
{
    assert(sabs(c) <= 2 * l) by (nonlinear_arith)
        requires
            c * c <= vv,
            vv < (l + 1) * (l + 1) + s,
            l >= 4096,
            s == 16777216,
    ;
    assert(sabs(c * s) <= 2 * l * s) by (nonlinear_arith)
        requires
            sabs(c) <= 2 * l,
            s == 16777216,
    ;
    crate::fixed::lemma_tdiv_bound(c * s, l, 2 * l * s);
    assert((2 * l * s) / l == 2 * s) by (nonlinear_arith)
        requires
            l >= 1,
            s == 16777216,
    ;
}

} // verus!
