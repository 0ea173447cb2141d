//! Fixed-point trigonometry for the camera: sine, cosine and tangent on
//! `[0, 1]` radians by truncated Taylor series, each term rounded once.

use vstd::prelude::*;
use crate::fixed::{fdiv, fdiv_s, fmul, fmul_s, lemma_fmul_unit_interval, tdiv, FX_ONE};

verus! {

/// The Taylor sine to the ninth power: `x - x^3/6 + x^5/120 - x^7/5040 + x^9/362880`.
pub open spec fn sin_s(x: int) -> int {
    let x2 = fmul_s(x, x);
    let x3 = fmul_s(x2, x);
    let x5 = fmul_s(fmul_s(x3, x), x);
    let x7 = fmul_s(fmul_s(x5, x), x);
    let x9 = fmul_s(fmul_s(x7, x), x);
    x - tdiv(x3, 6) + tdiv(x5, 120) - tdiv(x7, 5040) + tdiv(x9, 362880)
}

/// The Taylor cosine to the eighth power: `1 - x^2/2 + x^4/24 - x^6/720 + x^8/40320`.
pub open spec fn cos_s(x: int) -> int {
    let x2 = fmul_s(x, x);
    let x4 = fmul_s(fmul_s(x2, x), x);
    let x6 = fmul_s(fmul_s(x4, x), x);
    let x8 = fmul_s(fmul_s(x6, x), x);
    FX_ONE as int - tdiv(x2, 2) + tdiv(x4, 24) - tdiv(x6, 720) + tdiv(x8, 40320)
}

/// The tangent as the quotient of the series.
pub open spec fn tan_s(x: int) -> int {
    fdiv_s(sin_s(x), cos_s(x))
}

/// Every power of an `[0, 1]` argument stays in `[0, 1]`.
proof fn lemma_powers(x: int)
    requires
        0 <= x <= FX_ONE as int,
    ensures
        0 <= fmul_s(x, x) <= FX_ONE as int,
        0 <= fmul_s(fmul_s(x, x), x) <= FX_ONE as int,
        0 <= fmul_s(fmul_s(fmul_s(x, x), x), x) <= FX_ONE as int,
        0 <= fmul_s(fmul_s(fmul_s(fmul_s(x, x), x), x), x) <= FX_ONE as int,
        0 <= fmul_s(fmul_s(fmul_s(fmul_s(fmul_s(x, x), x), x), x), x) <= FX_ONE as int,
        0 <= fmul_s(fmul_s(fmul_s(fmul_s(fmul_s(fmul_s(x, x), x), x), x), x), x)
            <= FX_ONE as int,
        0 <= fmul_s(fmul_s(fmul_s(fmul_s(fmul_s(fmul_s(fmul_s(x, x), x), x), x), x), x), x)
            <= FX_ONE as int,
        0 <= fmul_s(
            fmul_s(fmul_s(fmul_s(fmul_s(fmul_s(fmul_s(fmul_s(x, x), x), x), x), x), x), x),
            x,
        ) <= FX_ONE as int,
{
    lemma_fmul_unit_interval(x, x);
    lemma_fmul_unit_interval(fmul_s(x, x), x);
    lemma_fmul_unit_interval(fmul_s(fmul_s(x, x), x), x);
    lemma_fmul_unit_interval(fmul_s(fmul_s(fmul_s(x, x), x), x), x);
    lemma_fmul_unit_interval(fmul_s(fmul_s(fmul_s(fmul_s(x, x), x), x), x), x);
    lemma_fmul_unit_interval(fmul_s(fmul_s(fmul_s(fmul_s(fmul_s(x, x), x), x), x), x), x);
    lemma_fmul_unit_interval(
        fmul_s(fmul_s(fmul_s(fmul_s(fmul_s(fmul_s(x, x), x), x), x), x), x),
        x,
    );
    lemma_fmul_unit_interval(
        fmul_s(fmul_s(fmul_s(fmul_s(fmul_s(fmul_s(fmul_s(x, x), x), x), x), x), x), x),
        x,
    );
}

/// The sine of `x` radians, for `x` within `[0, 1]`.
pub fn sin_fx(x: i128) -> (r: i128)
    requires
        0 <= x <= FX_ONE,
    ensures
        r == sin_s(x as int),
        crate::fixed::sabs(r as int) <= 5 * FX_ONE as int,
{
    proof {
        lemma_powers(x as int);
        let xi = x as int;
        crate::fixed::lemma_small_product(xi, xi);
        crate::fixed::lemma_small_product(fmul_s(xi, xi), xi);
        crate::fixed::lemma_small_product(fmul_s(fmul_s(xi, xi), xi), xi);
        crate::fixed::lemma_small_product(fmul_s(fmul_s(fmul_s(xi, xi), xi), xi), xi);
        crate::fixed::lemma_small_product(
            fmul_s(fmul_s(fmul_s(fmul_s(xi, xi), xi), xi), xi), xi);
        crate::fixed::lemma_small_product(
            fmul_s(fmul_s(fmul_s(fmul_s(fmul_s(xi, xi), xi), xi), xi), xi), xi);
        crate::fixed::lemma_small_product(
            fmul_s(fmul_s(fmul_s(fmul_s(fmul_s(fmul_s(xi, xi), xi), xi), xi), xi), xi), xi);
        crate::fixed::lemma_small_product(
            fmul_s(fmul_s(fmul_s(fmul_s(fmul_s(fmul_s(fmul_s(xi, xi), xi), xi), xi), xi), xi),
                xi), xi);
    }
    let x2 = fmul(x, x);
    let x3 = fmul(x2, x);
    let x5 = fmul(fmul(x3, x), x);
    let x7 = fmul(fmul(x5, x), x);
    let x9 = fmul(fmul(x7, x), x);
    let t3 = crate::fixed::div_tz(x3, 6);
    let t5 = crate::fixed::div_tz(x5, 120);
    let t7 = crate::fixed::div_tz(x7, 5040);
    let t9 = crate::fixed::div_tz(x9, 362880);
    proof {
        crate::fixed::lemma_tdiv_bound(x3 as int, 6, FX_ONE as int);
        crate::fixed::lemma_tdiv_bound(x5 as int, 120, FX_ONE as int);
        crate::fixed::lemma_tdiv_bound(x7 as int, 5040, FX_ONE as int);
        crate::fixed::lemma_tdiv_bound(x9 as int, 362880, FX_ONE as int);
    }
    x - t3 + t5 - t7 + t9
}

/// The cosine of `x` radians, for `x` within `[0, 1]`; it stays near or above
/// one half, so it serves as a divisor.
pub fn cos_fx(x: i128) -> (r: i128)
    requires
        0 <= x <= FX_ONE,
    ensures
        r == cos_s(x as int),
        8365306 <= r <= 2 * FX_ONE,
{
    proof {
        lemma_powers(x as int);
        let xi = x as int;
        crate::fixed::lemma_small_product(xi, xi);
        crate::fixed::lemma_small_product(fmul_s(xi, xi), xi);
        crate::fixed::lemma_small_product(fmul_s(fmul_s(xi, xi), xi), xi);
        crate::fixed::lemma_small_product(fmul_s(fmul_s(fmul_s(xi, xi), xi), xi), xi);
        crate::fixed::lemma_small_product(
            fmul_s(fmul_s(fmul_s(fmul_s(xi, xi), xi), xi), xi), xi);
        crate::fixed::lemma_small_product(
            fmul_s(fmul_s(fmul_s(fmul_s(fmul_s(xi, xi), xi), xi), xi), xi), xi);
        crate::fixed::lemma_small_product(
            fmul_s(fmul_s(fmul_s(fmul_s(fmul_s(fmul_s(xi, xi), xi), xi), xi), xi), xi), xi);
    }
    let x2 = fmul(x, x);
    let x4 = fmul(fmul(x2, x), x);
    let x6 = fmul(fmul(x4, x), x);
    let x8 = fmul(fmul(x6, x), x);
    let t2 = crate::fixed::div_tz(x2, 2);
    let t4 = crate::fixed::div_tz(x4, 24);
    let t6 = crate::fixed::div_tz(x6, 720);
    let t8 = crate::fixed::div_tz(x8, 40320);
    proof {
        crate::fixed::lemma_tdiv_bound(x2 as int, 2, FX_ONE as int);
        crate::fixed::lemma_tdiv_bound(x4 as int, 24, FX_ONE as int);
        crate::fixed::lemma_tdiv_bound(x6 as int, 720, FX_ONE as int);
        crate::fixed::lemma_tdiv_bound(x8 as int, 40320, FX_ONE as int);
        assert(tdiv(x2 as int, 2) <= 8388608 && tdiv(x6 as int, 720) <= 23303
            && tdiv(x4 as int, 24) >= 0 && tdiv(x8 as int, 40320) >= 0
            && tdiv(x4 as int, 24) <= 699051 && tdiv(x8 as int, 40320) <= 417)
            by (nonlinear_arith)
            requires
                0 <= x2 as int <= 16777216,
                0 <= x4 as int <= 16777216,
                0 <= x6 as int <= 16777216,
                0 <= x8 as int <= 16777216,
                tdiv(x2 as int, 2) == (x2 as int) / 2,
                tdiv(x4 as int, 24) == (x4 as int) / 24,
                tdiv(x6 as int, 720) == (x6 as int) / 720,
                tdiv(x8 as int, 40320) == (x8 as int) / 40320,
        ;
    }
    FX_ONE - t2 + t4 - t6 + t8
}

/// The tangent of `x` radians, for `x` within `[0, 1]`: the quotient of the
/// truncated series.
pub fn tan_fx(x: i128) -> (r: i128)
    requires
        0 <= x <= FX_ONE,
    ensures
        r == tan_s(x as int),
{
    let s = sin_fx(x);
    let c = cos_fx(x);
    fdiv(s, c)
}

} // verus!
