//! Fixed-point scalars: every real quantity of the tracer is an `i128`
//! holding the real value times `FX_ONE`, and every arithmetic operation
//! rounds toward zero.  The spec functions here say exactly what each
//! executable operation returns.

use vstd::prelude::*;

verus! {

/// The scale of the representation: the integer standing for the real one.
pub const FX_ONE: i128 = 16777216;

/// Largest magnitude accepted for a world coordinate, a ray parameter or a
/// radius; keeps every intermediate product of the tracer inside `i128`.
pub const FX_WORLD: i128 = 1099511627776;

/// The magnitude of an integer.
pub open spec fn sabs(n: int) -> int {
    if n < 0 {
        -n
    } else {
        n
    }
}

/// Division rounding toward zero, the rounding of all executable divisions here.
pub open spec fn tdiv(n: int, d: int) -> int
    recommends
        d != 0,
{
    let q = sabs(n) / sabs(d);
    if (n < 0) <==> (d < 0) {
        q
    } else {
        -q
    }
}

/// The fixed-point number standing for the real product of two fixed-point numbers.
pub open spec fn fmul_s(a: int, b: int) -> int {
    tdiv(a * b, FX_ONE as int)
}

/// The fixed-point number standing for the real quotient of two fixed-point numbers.
pub open spec fn fdiv_s(a: int, b: int) -> int
    recommends
        b != 0,
{
    tdiv(a * FX_ONE, b)
}

/// The greatest integer whose square is at most `n`.
pub open spec fn sqrt_floor(n: int) -> int
    recommends
        n >= 0,
{
    choose|r: int| 0 <= r && #[trigger] (r * r) <= n && n < (r + 1) * (r + 1)
}

/// The fixed-point number standing for the real square root of a fixed-point number.
pub open spec fn fsqrt_s(a: int) -> int
    recommends
        a >= 0,
{
    sqrt_floor(a * FX_ONE)
}

/// The magnitude of a value, as an unsigned machine integer.
fn abs_u(n: i128) -> (r: u128)
    requires
        n > i128::MIN,
    ensures
        r == sabs(n as int),
{
    if n >= 0 {
        n as u128
    } else {
        (-n) as u128
    }
}

/// Division of `i128` values rounding toward zero.
pub(crate) fn div_tz(n: i128, d: i128) -> (r: i128)
    requires
        d != 0,
        n > i128::MIN,
        d > i128::MIN,
    ensures
        r == tdiv(n as int, d as int),
{
    let nn = abs_u(n);
    let dd = abs_u(d);
    let q = nn / dd;
    proof {
        assert(q <= nn) by (nonlinear_arith)
            requires
                dd >= 1,
                q == nn / dd,
        ;
    }
    if (n < 0) == (d < 0) {
        q as i128
    } else {
        -(q as i128)
    }
}

/// Fixed-point product: `a * b / FX_ONE`, rounded toward zero.
pub fn fmul(a: i128, b: i128) -> (r: i128)
    requires
        sabs(a as int * b as int) < 85070591730234615865843651857942052864int,
    ensures
        r == fmul_s(a as int, b as int),
{
    let p = a * b;
    div_tz(p, FX_ONE)
}

/// Fixed-point quotient: `a * FX_ONE / b`, rounded toward zero.
pub fn fdiv(a: i128, b: i128) -> (r: i128)
    requires
        b != 0,
        b > i128::MIN,
        sabs(a as int) < 5070602400912917605986812821504int,
    ensures
        r == fdiv_s(a as int, b as int),
{
    proof {
        assert(sabs(a as int * FX_ONE as int) < 85070591730234615865843651857942052864int)
            by (nonlinear_arith)
            requires
                sabs(a as int) < 5070602400912917605986812821504int,
                FX_ONE == 16777216,
        ;
    }
    let p = a * FX_ONE;
    div_tz(p, b)
}

/// A square root is determined by its defining bracket.
pub proof fn lemma_sqrt_floor_unique(n: int, r: int)
    requires
        0 <= r,
        r * r <= n,
        n < (r + 1) * (r + 1),
    ensures
        sqrt_floor(n) == r,
{
    assert(exists|s: int| 0 <= s && #[trigger] (s * s) <= n && n < (s + 1) * (s + 1)) by {
        assert(0 <= r && r * r <= n && n < (r + 1) * (r + 1));
    }
    let s = sqrt_floor(n);
    assert(0 <= s && s * s <= n && n < (s + 1) * (s + 1));
    assert(s == r) by (nonlinear_arith)
        requires
            0 <= r,
            0 <= s,
            r * r <= n,
            n < (r + 1) * (r + 1),
            s * s <= n,
            n < (s + 1) * (s + 1),
    ;
}

/// Integer square root by bisection.
pub fn isqrt(n: u128) -> (r: u128)
    requires
        (n as int) < 85070591730234615865843651857942052864int,
    ensures
        r * r <= n < (r + 1) * (r + 1),
        r == sqrt_floor(n as int),
{
    let mut lo: u128 = 0;
    let mut hi: u128 = 9223372036854775808u128;
    proof {
        assert((9223372036854775808int) * (9223372036854775808int)
            == 85070591730234615865843651857942052864int) by (nonlinear_arith);
    }
    while hi - lo > 1
        invariant
            lo < hi <= 9223372036854775808u128,
            lo * lo <= n,
            (n as int) < hi * hi,
        decreases hi - lo,
    {
        let mid = lo + (hi - lo) / 2;
        assert(lo < mid < hi);
        proof {
            assert(mid as int * (mid as int) < 85070591730234615865843651857942052864int)
                by (nonlinear_arith)
                requires
                    0 <= (mid as int) < 9223372036854775808int,
            ;
        }
        if mid * mid <= n {
            lo = mid;
        } else {
            hi = mid;
        }
    }
    proof {
        assert(hi == lo + 1);
        lemma_sqrt_floor_unique(n as int, lo as int);
    }
    lo
}

/// Fixed-point square root: the floor of the square root of `a * FX_ONE`.
pub fn fsqrt(a: i128) -> (r: i128)
    requires
        0 <= a,
        (a as int) < 1267650600228229401496703205376int,
    ensures
        r == fsqrt_s(a as int),
        0 <= r,
        r * r <= a * FX_ONE < (r + 1) * (r + 1),
{
    let p = (a as u128) * (FX_ONE as u128);
    proof {
        assert((a as int) * (FX_ONE as int) < 85070591730234615865843651857942052864int) by (nonlinear_arith)
            requires
                0 <= (a as int) < 1267650600228229401496703205376int,
                FX_ONE == 16777216,
        ;
    }
    let r = isqrt(p);
    proof {
        assert(r as int * (r as int) <= p);
        assert((r as int) < 9223372036854775808int) by (nonlinear_arith)
            requires
                r as int * (r as int) <= p as int,
                (p as int) < 85070591730234615865843651857942052864int,
        ;
    }
    r as i128
}

/// Scaling by minus one unit negates exactly.
pub proof fn lemma_fmul_neg_one(a: int)
    ensures
        fmul_s(-(FX_ONE as int), a) == -a,
        fmul_s(a, -(FX_ONE as int)) == -a,
{
    lemma_fmul_one(-a);
    assert((-(FX_ONE as int)) * a == (-a) * (FX_ONE as int) && a * (-(FX_ONE as int)) == (-a)
        * (FX_ONE as int)) by (nonlinear_arith);
}

/// Every nonnegative integer has a rounded square root, and `sqrt_floor`
/// denotes it.
pub proof fn lemma_sqrt_floor_props(n: int)
    requires
        n >= 0,
    ensures
        0 <= sqrt_floor(n),
        sqrt_floor(n) * sqrt_floor(n) <= n,
        n < (sqrt_floor(n) + 1) * (sqrt_floor(n) + 1),
    decreases n,
{
    if n == 0 {
        lemma_sqrt_floor_unique(0, 0);
    } else {
        lemma_sqrt_floor_props(n - 1);
        let r = sqrt_floor(n - 1);
        if n < (r + 1) * (r + 1) {
            lemma_sqrt_floor_unique(n, r);
        } else {
            assert((r + 1) * (r + 1) <= n && n < (r + 2) * (r + 2)) by (nonlinear_arith)
                requires
                    n - 1 < (r + 1) * (r + 1) <= n,
                    0 <= r,
            ;
            lemma_sqrt_floor_unique(n, r + 1);
        }
    }
}

/// The truncating quotient times the divisor undershoots the numerator by
/// less than the divisor.
pub proof fn lemma_tdiv_mul_range(n: int, d: int)
    requires
        d >= 1,
    ensures
        sabs(tdiv(n, d) * d) <= sabs(n),
        sabs(n) < sabs(tdiv(n, d) * d) + d,
{
    let q = sabs(n) / d;
    vstd::arithmetic::div_mod::lemma_fundamental_div_mod(sabs(n), d);
    assert(0 <= sabs(n) % d < d) by {
        vstd::arithmetic::div_mod::lemma_mod_bound(sabs(n), d);
    }
    assert(sabs(tdiv(n, d) * d) == q * d && 0 <= q * d) by (nonlinear_arith)
        requires
            d >= 1,
            0 <= sabs(n),
            q == sabs(n) / d,
            0 <= sabs(n) % d,
            sabs(n) == d * q + sabs(n) % d,
            tdiv(n, d) == if n < 0 {
                -q
            } else {
                q
            },
    ;
}

/// Truncating division is monotone in the numerator for a positive divisor.
pub proof fn lemma_tdiv_mono(n1: int, n2: int, d: int)
    requires
        n1 <= n2,
        d >= 1,
    ensures
        tdiv(n1, d) <= tdiv(n2, d),
{
    if n1 >= 0 {
        vstd::arithmetic::div_mod::lemma_div_is_ordered(n1, n2, d);
    } else if n2 < 0 {
        vstd::arithmetic::div_mod::lemma_div_is_ordered(-n2, -n1, d);
    } else {
        vstd::arithmetic::div_mod::lemma_div_is_ordered(0, -n1, d);
        vstd::arithmetic::div_mod::lemma_div_is_ordered(0, n2, d);
        assert(0int / d == 0) by (nonlinear_arith)
            requires
                d >= 1,
        ;
    }
}

/// The product of two values within one unit in magnitude fits comfortably.
pub proof fn lemma_small_product(a: int, b: int)
    requires
        sabs(a) <= 16777216,
        sabs(b) <= 16777216,
    ensures
        sabs(a * b) <= 281474976710656int,
{
    assert(sabs(a * b) <= 281474976710656int) by (nonlinear_arith)
        requires
            sabs(a) <= 16777216,
            sabs(b) <= 16777216,
    ;
}

/// Bounds transfer through the truncating division: the quotient's magnitude
/// is at most the bound on the numerator divided by the divisor's magnitude.
pub proof fn lemma_tdiv_bound(n: int, d: int, bn: int)
    requires
        d != 0,
        sabs(n) <= bn,
    ensures
        sabs(tdiv(n, d)) <= bn / sabs(d),
        sabs(tdiv(n, d)) <= bn,
{
    let q = sabs(n) / sabs(d);
    assert(q <= bn / sabs(d) && q <= sabs(n) && bn / sabs(d) <= bn) by (nonlinear_arith)
        requires
            sabs(d) >= 1,
            0 <= sabs(n) <= bn,
            q == sabs(n) / sabs(d),
    ;
}

/// Bounds transfer through the fixed-point product.
pub proof fn lemma_fmul_bound(a: int, b: int, ba: int, bb: int)
    requires
        sabs(a) <= ba,
        sabs(b) <= bb,
    ensures
        sabs(a * b) <= ba * bb,
        sabs(fmul_s(a, b)) <= (ba * bb) / (FX_ONE as int),
        sabs(fmul_s(a, b)) <= ba * bb,
{
    assert(sabs(a * b) <= ba * bb) by (nonlinear_arith)
        requires
            sabs(a) <= ba,
            sabs(b) <= bb,
    ;
    lemma_tdiv_bound(a * b, FX_ONE as int, ba * bb);
}

/// Dividing a scaled value by the scale gives the value back exactly.
pub proof fn lemma_fmul_one(a: int)
    ensures
        fmul_s(a, FX_ONE as int) == a,
        fmul_s(FX_ONE as int, a) == a,
{
    let s = FX_ONE as int;
    assert(sabs(a * s) / s == sabs(a) && sabs(s * a) / s == sabs(a)) by (nonlinear_arith)
        requires
            s == FX_ONE as int,
    ;
}

/// The fixed-point product of nonnegative factors below one stays below one.
pub proof fn lemma_fmul_unit_interval(a: int, b: int)
    requires
        0 <= a <= FX_ONE as int,
        0 <= b <= FX_ONE as int,
    ensures
        0 <= fmul_s(a, b) <= FX_ONE as int,
        fmul_s(a, b) <= a,
        fmul_s(a, b) <= b,
        0 <= a * b <= 281474976710656int,
        sabs(a * b) <= 281474976710656int,
{
    let s = FX_ONE as int;
    assert(0 <= (a * b) / s && (a * b) / s <= a && (a * b) / s <= b) by (nonlinear_arith)
        requires
            0 <= a <= s,
            0 <= b <= s,
            s == FX_ONE as int,
    ;
    assert(sabs(a * b) == a * b && a * b <= 281474976710656int) by (nonlinear_arith)
        requires
            0 <= a <= 16777216,
            0 <= b <= 16777216,
    ;
}

} // verus!
