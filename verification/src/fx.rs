//! Fixed-point arithmetic: the numeric ground the whole library stands on.
//!
//! Every physical quantity (positions, angles, throttles, network weights,
//! scores) is an `i64` carrying 20 fractional bits, so `SCALE` represents
//! the real number 1.0.  All operations round toward zero, and each
//! executable operation is pinned exactly to a spec-level definition, which
//! keeps the whole simulation a deterministic function of its inputs.

use vstd::prelude::*;

verus! {

/// Fixed-point unit: the representation of 1.0 (20 fractional bits).
pub const SCALE: i64 = 1048576;

/// The representation of 0.5.
pub const HALF_FX: i64 = 524288;

/// Largest magnitude admitted into the fixed-point multiplier and divider;
/// products of two admitted operands stay well inside `i64`.
pub const FX_BOUND: i64 = 1073741824;

/// Magnitude of an integer.
pub open spec fn abs_i(a: int) -> int {
    if a >= 0 {
        a
    } else {
        -a
    }
}

/// Truncating (round-toward-zero) division, the behaviour of machine
/// integer division, expressed through Euclidean division of magnitudes.
pub open spec fn tdiv(a: int, b: int) -> int
    recommends
        b > 0,
{
    if a >= 0 {
        a / b
    } else {
        -((-a) / b)
    }
}

/// Fixed-point product: `(a * b) / SCALE`, rounded toward zero.
pub open spec fn fxmul_spec(a: int, b: int) -> int {
    tdiv(a * b, SCALE as int)
}

/// Fixed-point quotient: `(a * SCALE) / b`, rounded toward zero.
pub open spec fn fxdiv_spec(a: int, b: int) -> int
    recommends
        b > 0,
{
    tdiv(a * SCALE, b)
}

/// Clamp `a` into `[lo, hi]`.
pub open spec fn clamp_spec(a: int, lo: int, hi: int) -> int
    recommends
        lo <= hi,
{
    if a < lo {
        lo
    } else if a > hi {
        hi
    } else {
        a
    }
}

proof fn lemma_mul_sign_and_mag(a: int, b: int)
    by (nonlinear_arith)
    ensures
        abs_i(a * b) == abs_i(a) * abs_i(b),
        (a >= 0 && b >= 0) ==> a * b == abs_i(a) * abs_i(b),
        (a < 0 && b < 0) ==> a * b == abs_i(a) * abs_i(b),
        (a >= 0 && b < 0) ==> a * b == -(abs_i(a) * abs_i(b)),
        (a < 0 && b >= 0) ==> a * b == -(abs_i(a) * abs_i(b)),
{
}

/// Division shrinks magnitudes: the key fact bounding every rounded result.
pub proof fn lemma_tdiv_mag(a: int, b: int)
    by (nonlinear_arith)
    requires
        b > 0,
    ensures
        abs_i(tdiv(a, b)) == abs_i(a) / b,
        abs_i(tdiv(a, b)) <= abs_i(a),
        abs_i(a) < b ==> tdiv(a, b) == 0,
{
}

/// Truncating division brackets the exact quotient within one divisor.
pub proof fn lemma_tdiv_range(a: int, b: int)
    by (nonlinear_arith)
    requires
        b > 0,
    ensures
        a - b < b * tdiv(a, b),
        b * tdiv(a, b) < a + b,
{
}

/// Monotone magnitude bound for the fixed-point product.
pub proof fn lemma_fxmul_bound(a: int, b: int, ca: int, cb: int)
    by (nonlinear_arith)
    requires
        abs_i(a) <= ca,
        abs_i(b) <= cb,
    ensures
        abs_i(fxmul_spec(a, b)) <= ca * cb / (SCALE as int),
        abs_i(fxmul_spec(a, b)) * (SCALE as int) <= ca * cb,
{
}

/// Fixed-point multiplication, exactly `fxmul_spec`.
pub fn fxmul(a: i64, b: i64) -> (r: i64)
    requires
        abs_i(a as int) <= FX_BOUND,
        abs_i(b as int) <= FX_BOUND,
    ensures
        r as int == fxmul_spec(a as int, b as int),
        abs_i(r as int) == abs_i(a as int) * abs_i(b as int) / (SCALE as int),
        (a >= 0 && b >= 0) ==> r >= 0,
{
    let neg: bool = (a < 0) != (b < 0);
    let ua: u64 = if a < 0 {
        (-a) as u64
    } else {
        a as u64
    };
    let ub: u64 = if b < 0 {
        (-b) as u64
    } else {
        b as u64
    };
    proof {
        lemma_mul_sign_and_mag(a as int, b as int);
        assert(ua as int * ub as int <= FX_BOUND * FX_BOUND) by (nonlinear_arith)
            requires
                0 <= ua as int <= FX_BOUND,
                0 <= ub as int <= FX_BOUND,
        ;
    }
    let p: u64 = ua * ub;
    let q: u64 = p / (SCALE as u64);
    let r: i64 = if neg {
        -(q as i64)
    } else {
        q as i64
    };
    proof {
        lemma_tdiv_mag(a as int * b as int, SCALE as int);
    }
    r
}

/// Fixed-point division, exactly `fxdiv_spec`.
pub fn fxdiv(a: i64, b: i64) -> (r: i64)
    requires
        abs_i(a as int) <= FX_BOUND,
        0 < b,
    ensures
        r as int == fxdiv_spec(a as int, b as int),
        abs_i(r as int) == abs_i(a as int) * (SCALE as int) / (b as int),
        a >= 0 ==> r >= 0,
{
    let ua: u64 = if a < 0 {
        (-a) as u64
    } else {
        a as u64
    };
    proof {
        lemma_mul_sign_and_mag(a as int, SCALE as int);
        assert(ua as int * SCALE as int <= FX_BOUND * FX_BOUND) by (nonlinear_arith)
            requires
                0 <= ua as int <= FX_BOUND,
                0 < (SCALE as int) <= FX_BOUND,
        ;
    }
    let p: u64 = ua * (SCALE as u64);
    let q: u64 = p / (b as u64);
    proof {
        assert(q as int <= p as int) by (nonlinear_arith)
            requires
                q as int == p as int / (b as int),
                p as int >= 0,
                b as int >= 1,
        ;
        lemma_tdiv_mag(a as int * SCALE as int, b as int);
    }
    let r: i64 = if a < 0 {
        -(q as i64)
    } else {
        q as i64
    };
    r
}

/// Clamp into `[lo, hi]`, exactly `clamp_spec`.
pub fn clamp(a: i64, lo: i64, hi: i64) -> (r: i64)
    requires
        lo <= hi,
    ensures
        r as int == clamp_spec(a as int, lo as int, hi as int),
        lo <= r <= hi,
{
    if a < lo {
        lo
    } else if a > hi {
        hi
    } else {
        a
    }
}

/// Whether `r` is the integer square root of `n`.
pub open spec fn is_isqrt(n: int, r: int) -> bool {
    0 <= r && r * r <= n && n < (r + 1) * (r + 1)
}

/// The integer square root is unique, so `is_isqrt` pins a single value.
pub proof fn lemma_isqrt_unique(n: int, r1: int, r2: int)
    by (nonlinear_arith)
    requires
        is_isqrt(n, r1),
        is_isqrt(n, r2),
    ensures
        r1 == r2,
{
}

/// Every nonnegative integer has an integer square root.
pub proof fn lemma_isqrt_exists(n: int)
    requires
        n >= 0,
    ensures
        exists|r: int| #[trigger] is_isqrt(n, r),
    decreases n,
{
    if n == 0 {
        assert(is_isqrt(0, 0));
    } else {
        lemma_isqrt_exists(n - 1);
        let r = choose|r: int| #[trigger] is_isqrt(n - 1, r);
        if n < (r + 1) * (r + 1) {
            assert(is_isqrt(n, r));
        } else {
            assert(n == (r + 1) * (r + 1));
            assert((r + 1) * (r + 1) < (r + 2) * (r + 2)) by (nonlinear_arith)
                requires
                    r >= 0,
            ;
            assert(is_isqrt(n, r + 1));
        }
    }
}

/// The integer square root, by bisection.
pub fn isqrt64(n: u64) -> (r: u64)
    ensures
        is_isqrt(n as int, r as int),
        r < 4294967296,
{
    let mut lo: u64 = 0;
    let mut hi: u64 = 4294967296;
    proof {
        assert((n as int) < (hi as int) * (hi as int)) by (nonlinear_arith)
            requires
                n as int <= 0xffff_ffff_ffff_ffff,
                hi as int == 4294967296,
        ;
    }
    while lo + 1 < hi
        invariant
            lo < hi <= 4294967296,
            lo as int * lo as int <= n as int,
            (n as int) < (hi as int) * (hi as int),
        decreases hi - lo,
    {
        let mid: u64 = lo + (hi - lo) / 2;
        proof {
            assert(mid as int * mid as int <= 4294967295int * 4294967295int) by (nonlinear_arith)
                requires
                    mid as int <= 4294967295,
                    mid as int >= 0,
            ;
        }
        if mid * mid <= n {
            lo = mid;
        } else {
            hi = mid;
        }
    }
    lo
}

/// Square root of a sum of two squares of bounded coordinates; this is the
/// length of a fixed-point vector, in the same fixed-point units.
pub fn hypot_fx(x: i64, y: i64) -> (r: i64)
    requires
        abs_i(x as int) <= FX_BOUND,
        abs_i(y as int) <= FX_BOUND,
    ensures
        is_isqrt(x as int * x as int + y as int * y as int, r as int),
        0 <= r < 4294967296,
        abs_i(x as int) <= r,
        abs_i(y as int) <= r,
{
    proof {
        assert(x as int * x as int <= FX_BOUND * FX_BOUND && x as int * x as int >= 0)
            by (nonlinear_arith)
            requires
                abs_i(x as int) <= FX_BOUND,
        ;
        assert(y as int * y as int <= FX_BOUND * FX_BOUND && y as int * y as int >= 0)
            by (nonlinear_arith)
            requires
                abs_i(y as int) <= FX_BOUND,
        ;
    }
    let xx: u64 = ((x as i128 * x as i128) as i64 as u64);
    let yy: u64 = ((y as i128 * y as i128) as i64 as u64);
    let s: u64 = xx + yy;
    let r: u64 = isqrt64(s);
    proof {
        let xi = x as int;
        let yi = y as int;
        let ri = r as int;
        assert(abs_i(xi) <= ri && abs_i(yi) <= ri) by (nonlinear_arith)
            requires
                is_isqrt(xi * xi + yi * yi, ri),
        ;
    }
    r as i64
}


/// A product scaled down by a divisor at least as large as the first
/// factor, exactly `tdiv(a * b, d)`; the result is no larger than `b`.
pub fn mul_div(a: i64, b: i64, d: i64) -> (r: i64)
    requires
        0 < d,
        abs_i(a as int) <= d,
        abs_i(a as int) <= FX_BOUND,
        abs_i(b as int) <= FX_BOUND,
        d <= FX_BOUND * 2,
    ensures
        r as int == tdiv(a as int * b as int, d as int),
        abs_i(r as int) <= abs_i(b as int),
{
    let neg: bool = (a < 0) != (b < 0);
    let ua: u64 = if a < 0 {
        (-a) as u64
    } else {
        a as u64
    };
    let ub: u64 = if b < 0 {
        (-b) as u64
    } else {
        b as u64
    };
    proof {
        lemma_mul_sign_and_mag(a as int, b as int);
        assert(ua as int * ub as int <= (2 * FX_BOUND) * FX_BOUND) by (nonlinear_arith)
            requires
                0 <= ua as int <= 2 * FX_BOUND,
                0 <= ub as int <= FX_BOUND,
        ;
    }
    let p: u64 = ua * ub;
    let q: u64 = p / (d as u64);
    proof {
        lemma_tdiv_mag(a as int * b as int, d as int);
        assert(ua as int * ub as int / (d as int) <= ub as int) by (nonlinear_arith)
            requires
                0 < d as int,
                0 <= ua as int <= d as int,
                0 <= ub as int,
        ;
    }
    let r: i64 = if neg {
        -(q as i64)
    } else {
        q as i64
    };
    r
}

} // verus!
