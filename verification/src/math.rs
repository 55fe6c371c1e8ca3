//! Fixed-point scalar arithmetic: magnitudes, truncating division, integer
//! square roots, and the bound lemmas the force computation relies on.

use vstd::prelude::*;
use vstd::arithmetic::div_mod::*;

verus! {

/// Fixed-point units per whole unit: positions, velocities, accelerations,
/// softening lengths and time steps are all stored as multiples of 1/SCALE.
pub const SCALE: u128 = 1_000_000;

/// Divisor of a half-step velocity kick: `2 * SCALE`.
pub const KICK_DIV: u128 = 2_000_000;

/// Largest product of two fixed-point operands the engine accepts; chosen so
/// that every intermediate fits comfortably in 128 bits.
pub const PROD_CAP: u128 = 100_000_000_000_000_000_000_000_000_000_000_000_000;

/// Largest magnitude a stored coordinate of velocity or position may reach
/// for an update of it to stay exact.
pub const STATE_CAP: i128 = 100_000_000_000_000_000_000_000_000_000_000_000_000;

/// Magnitude of the integer part of x.
pub open spec fn absi(x: int) -> int {
    if x < 0 {
        -x
    } else {
        x
    }
}

/// Signed division that truncates toward zero (unsigned hardware division
/// applied to the magnitude, with the sign restored afterwards).
pub open spec fn sdiv(x: int, d: int) -> int {
    if x >= 0 {
        x / d
    } else {
        -((-x) / d)
    }
}

/// A product scaled down by a positive divisor, truncating toward zero.
pub open spec fn smul_div(a: int, b: int, d: int) -> int {
    sdiv(a * b, d)
}

/// r is the integer square root of n rounded down.
pub open spec fn is_sqrt(r: int, n: int) -> bool {
    0 <= r && r * r <= n && n < (r + 1) * (r + 1)
}

/// The integer square root of n, rounded down.
pub open spec fn sqrt_floor(n: int) -> int {
    choose|r: int| is_sqrt(r, n)
}

/// Every nonnegative integer has an integer square root.
pub proof fn lemma_sqrt_exists(n: int)
    requires
        n >= 0,
    ensures
        is_sqrt(sqrt_floor(n), n),
    decreases n,
{
    if n == 0 {
        assert(is_sqrt(0, 0));
    } else {
        lemma_sqrt_exists(n - 1);
        let r = sqrt_floor(n - 1);
        if (r + 1) * (r + 1) <= n {
            assert((n - 1) < (r + 1) * (r + 1));
            assert(n == (r + 1) * (r + 1));
            assert((r + 2) * (r + 2) > n) by (nonlinear_arith)
                requires
                    r >= 0 && n == (r + 1) * (r + 1),
            ;
            assert(is_sqrt(r + 1, n));
        } else {
            assert(is_sqrt(r, n));
        }
    }
    assert(exists|r: int| is_sqrt(r, n));
}

/// The integer square root is unique.
pub proof fn lemma_sqrt_unique(r: int, n: int)
    requires
        is_sqrt(r, n),
    ensures
        r == sqrt_floor(n),
{
    lemma_sqrt_exists(n);
    let s = sqrt_floor(n);
    assert(r == s) by (nonlinear_arith)
        requires
            0 <= r && r * r <= n && n < (r + 1) * (r + 1) && 0 <= s && s * s <= n && n < (s + 1)
                * (s + 1),
    ;
}

/// The integer square root of n, by binary search.
pub fn isqrt(n: u128) -> (r: u128)
    ensures
        r as int == sqrt_floor(n as int),
        is_sqrt(r as int, n as int),
{
    if n == 0 {
        proof {
            lemma_sqrt_unique(0, 0);
        }
        return 0;
    }
    let mut lo: u128 = 0;
    let mut hi: u128 = 18_446_744_073_709_551_616;
    proof {
        assert((n as int) < hi * hi) by (nonlinear_arith)
            requires
                hi == 18_446_744_073_709_551_616 && n <= u128::MAX,
        ;
    }
    while lo + 1 < hi
        invariant
            0 <= lo < hi <= 18_446_744_073_709_551_616,
            lo * lo <= n as int,
            (n as int) < hi * hi,
        decreases hi - lo,
    {
        let mid: u128 = lo + (hi - lo) / 2;
        proof {
            assert(lo < mid < hi);
            assert(mid * mid <= u128::MAX) by (nonlinear_arith)
                requires
                    0 <= mid < 18_446_744_073_709_551_616,
            ;
        }
        if mid * mid <= n {
            lo = mid;
        } else {
            hi = mid;
        }
    }
    proof {
        lemma_sqrt_unique(lo as int, n as int);
    }
    lo
}

/// Magnitude of a signed 128-bit value, total even at the extreme point.
pub fn iabs(x: i128) -> (r: u128)
    ensures
        r as int == absi(x as int),
{
    if x >= 0 {
        x as u128
    } else {
        ((-(x + 1)) as u128) + 1
    }
}

/// `a * b / d` with truncation toward zero, exact whenever the magnitude of
/// the product stays under `PROD_CAP`.
pub fn muldiv(a: i128, b: i128, d: u128) -> (r: i128)
    requires
        d >= 1,
        absi((a as int) * (b as int)) <= PROD_CAP as int,
    ensures
        r as int == smul_div(a as int, b as int, d as int),
        absi(r as int) == absi((a as int) * (b as int)) / (d as int),
{
    let ua = iabs(a);
    let ub = iabs(b);
    proof {
        assert(absi((a as int) * (b as int)) == (ua as int) * (ub as int)) by (nonlinear_arith)
            requires
                ua as int == absi(a as int) && ub as int == absi(b as int),
        ;
    }
    let q = (ua * ub) / d;
    proof {
        let p = (a as int) * (b as int);
        lemma_div_nonincreasing(absi(p), d as int);
        lemma_div_pos_is_pos(absi(p), d as int);
        if (a < 0) != (b < 0) {
            assert(p <= 0) by (nonlinear_arith)
                requires
                    p == (a as int) * (b as int) && (((a as int) < 0) != ((b as int) < 0)),
            ;
            if p == 0 {
                lemma_div_of0(d as int);
            } else {
                assert(sdiv(p, d as int) == -(absi(p) / (d as int)));
            }
        } else {
            assert(p >= 0) by (nonlinear_arith)
                requires
                    p == (a as int) * (b as int) && !(((a as int) < 0) != ((b as int) < 0)),
            ;
            assert(sdiv(p, d as int) == absi(p) / (d as int));
        }
    }
    if (a < 0) != (b < 0) {
        -(q as i128)
    } else {
        q as i128
    }
}

/// The magnitude of a truncating division never exceeds that of the dividend
/// divided by the divisor, and division by a bigger positive divisor never
/// grows a nonnegative quotient.
pub proof fn lemma_div_bounds(x: int, d: int, e: int)
    requires
        x >= 0,
        1 <= d <= e,
    ensures
        x / e <= x / d <= x,
        x / d >= 0,
{
    lemma_div_is_ordered_by_denominator(x, d, e);
    lemma_div_nonincreasing(x, d);
    lemma_div_pos_is_pos(x, d);
}

/// If a multiple of d stays below a, the factor stays below a / d.
pub proof fn lemma_mul_le_implies_div_bound(x: int, d: int, a: int)
    requires
        d >= 1,
        x >= 0,
        a >= 0,
        x * d <= a,
    ensures
        x <= a / d,
{
    lemma_div_by_multiple(x, d);
    lemma_div_is_ordered(x * d, a, d);
}

/// The bounds that make one softened pairwise term fit in 128 bits: with
/// `len` the integer square root of the squared distance, `den` at least
/// that squared distance and `mag = a / den`, both the scaled numerator
/// `ud * mag` and the final axis term stay under `a`.
pub proof fn lemma_axis_fit(ud: int, dsq: int, len: int, den: int, a: int)
    requires
        0 <= ud,
        ud * ud <= dsq,
        1 <= dsq,
        is_sqrt(len, dsq),
        dsq <= den,
        0 <= a,
    ensures
        1 <= len,
        ud <= len,
        ud * (a / den) <= a,
        (ud * (a / den)) / len <= a / den,
        a / den <= a,
{
    let mag = a / den;
    assert(1 <= len) by (nonlinear_arith)
        requires
            0 <= len && 1 <= dsq && dsq < (len + 1) * (len + 1),
    ;
    assert(ud <= len) by (nonlinear_arith)
        requires
            0 <= ud && 0 <= len && ud * ud <= dsq && dsq < (len + 1) * (len + 1),
    ;
    assert(len * len <= dsq) by (nonlinear_arith)
        requires
            is_sqrt(len, dsq),
    ;
    lemma_div_bounds(a, dsq, den);
    assert(1 <= len * len) by (nonlinear_arith)
        requires
            1 <= len,
    ;
    lemma_div_bounds(a, len * len, dsq);
    assert(mag <= a / (len * len));
    lemma_fundamental_div_mod(a, len * len);
    lemma_mod_division_less_than_divisor(a, len * len);
    assert((a / (len * len)) * (len * len) <= a) by (nonlinear_arith)
        requires
            a == (len * len) * (a / (len * len)) + a % (len * len) && a % (len * len) >= 0,
    ;
    assert((mag * len) * len <= a) by (nonlinear_arith)
        requires
            0 <= mag && mag <= a / (len * len) && 0 <= len && (a / (len * len)) * (len * len)
                <= a,
    ;
    lemma_mul_le_implies_div_bound(mag * len, len, a);
    assert(mag * len <= a / len);
    lemma_div_bounds(a, 1, len);
    assert(a / len <= a);
    assert(ud * mag <= len * mag) by (nonlinear_arith)
        requires
            0 <= ud <= len && 0 <= mag,
    ;
    assert(len * mag == mag * len) by (nonlinear_arith);
    assert(ud * mag <= a);
    lemma_div_is_ordered(ud * mag, len * mag, len);
    lemma_div_by_multiple(mag, len);
    assert((mag * len) / len == mag);
    assert(len * mag == mag * len) by (nonlinear_arith);
    assert((ud * mag) / len <= mag);
}

/// Truncating division commutes with negation of the dividend.
pub proof fn lemma_sdiv_neg(x: int, d: int)
    requires
        d >= 1,
    ensures
        sdiv(-x, d) == -sdiv(x, d),
{
    if x == 0 {
        lemma_div_of0(d);
    }
}

/// Truncating division keeps the sign of the dividend.
pub proof fn lemma_sdiv_sign(x: int, d: int)
    requires
        d >= 1,
    ensures
        x >= 0 ==> sdiv(x, d) >= 0,
        x <= 0 ==> sdiv(x, d) <= 0,
{
    if x >= 0 {
        lemma_div_pos_is_pos(x, d);
    } else {
        lemma_div_pos_is_pos(-x, d);
    }
}

/// Negating one factor negates a truncating scaled product exactly; this is
/// what makes a leapfrog step reversible by a step of the opposite sign.
pub proof fn lemma_smul_div_neg(a: int, b: int, d: int)
    requires
        d >= 1,
    ensures
        smul_div(a, -b, d) == -smul_div(a, b, d),
{
    assert(a * (-b) == -(a * b)) by (nonlinear_arith);
    lemma_sdiv_neg(a * b, d);
}

} // verus!
