//! Fixed-point circle functions: sine and cosine through a rational
//! approximation on a wrapped angle, and a two-argument arctangent.
//!
//! The craft's orientation is an angle, thrust directions are sines and
//! cosines of angles, and the scripted target path walks a circle, so these
//! three functions carry all of the library's trigonometry.  Each one is
//! pinned exactly to its spec-level definition; the definitions are the
//! approximations themselves, so every caller is a deterministic function
//! of its fixed-point inputs.

use vstd::prelude::*;
use crate::fx::{abs_i, fxdiv, fxdiv_spec, fxmul, fxmul_spec, FX_BOUND, SCALE};

verus! {

/// Half a turn, in fixed-point radians.
pub const PI_FX: i64 = 3294199;

/// A full turn, in fixed-point radians.
pub const TWO_PI_FX: i64 = 6588398;

/// A quarter turn, in fixed-point radians.
pub const HALF_PI_FX: i64 = 1647099;

/// An eighth of a turn, in fixed-point radians.
pub const QUARTER_PI_FX: i64 = 823550;

/// The linear coefficient of the arctangent correction term.
pub const ATAN_K: i64 = 286261;

/// Largest angle magnitude the circle functions accept; wide enough for
/// every angle the simulation forms, including the scripted target path's
/// multiple turns.
pub const ANGLE_LIMIT: i64 = 0x4_0000_0000_0000;

/// The representative of `a` in `(-pi, pi]`, by Euclidean remainder.
pub open spec fn wrap_spec(a: int) -> int {
    let m = a % (TWO_PI_FX as int);
    if m > PI_FX {
        m - TWO_PI_FX
    } else {
        m
    }
}

/// The sine of `x` for `x` in `[0, pi]`: a rational approximation whose
/// value stays within `[0, 1]`.
pub open spec fn sin_half_spec(x: int) -> int {
    let t = x * (PI_FX - x);
    let den = 5 * (PI_FX as int) * (PI_FX as int) - 4 * t;
    let dens = den / (SCALE as int);
    let r = 16 * t / dens;
    if r > SCALE {
        SCALE as int
    } else {
        r
    }
}

/// The sine of any angle: wrap into `(-pi, pi]`, then use the half-circle
/// approximation oddly extended.
pub open spec fn sin_spec(a: int) -> int {
    let w = wrap_spec(a);
    if w >= 0 {
        sin_half_spec(w)
    } else {
        -sin_half_spec(-w)
    }
}

/// The cosine, as the sine a quarter turn ahead.
pub open spec fn cos_spec(a: int) -> int {
    sin_spec(a + HALF_PI_FX)
}

/// The arctangent of `z` for `z` in `[0, 1]`: the quarter-turn chord with
/// a quadratic correction, staying within `[0, pi/2]`.
pub open spec fn atan_unit_spec(z: int) -> int {
    fxmul_spec(z, QUARTER_PI_FX as int) + fxmul_spec(
        fxmul_spec(z, SCALE as int - z),
        ATAN_K as int,
    )
}

/// The angle of the vector `(x, y)`, in `(-pi, pi]`; the zero vector is
/// assigned angle zero.
pub open spec fn atan2_spec(y: int, x: int) -> int {
    let ax = abs_i(x);
    let ay = abs_i(y);
    if ax == 0 && ay == 0 {
        0
    } else {
        let base = if ay <= ax {
            atan_unit_spec(fxdiv_spec(ay, ax))
        } else {
            HALF_PI_FX - atan_unit_spec(fxdiv_spec(ax, ay))
        };
        if x >= 0 {
            if y >= 0 {
                base
            } else {
                -base
            }
        } else {
            if y >= 0 {
                PI_FX - base
            } else {
                -(PI_FX - base)
            }
        }
    }
}

/// Wrap an angle into `(-pi, pi]`, exactly `wrap_spec`.
pub fn wrap_to_pi(a: i64) -> (r: i64)
    requires
        abs_i(a as int) <= ANGLE_LIMIT,
    ensures
        r as int == wrap_spec(a as int),
        -PI_FX < r <= PI_FX,
{
    let ua: u64 = if a < 0 {
        (-a) as u64
    } else {
        a as u64
    };
    let tp: u64 = TWO_PI_FX as u64;
    let r0: u64 = ua % tp;
    let m: i64 = if a >= 0 {
        r0 as i64
    } else if r0 == 0 {
        0
    } else {
        TWO_PI_FX - r0 as i64
    };
    proof {
        let ai = a as int;
        let tpi = TWO_PI_FX as int;
        let q = (ua as int) / tpi;
        let rr = (ua as int) % tpi;
        vstd::arithmetic::div_mod::lemma_fundamental_div_mod(ua as int, tpi);
        if ai >= 0 {
            assert(m as int == ai % tpi);
        } else if rr == 0 {
            vstd::arithmetic::div_mod::lemma_fundamental_div_mod_converse_mod(
                ai,
                tpi,
                -q,
                0,
            );
        } else {
            assert(ai == (-q - 1) * tpi + (tpi - rr)) by (nonlinear_arith)
                requires
                    ai == -(ua as int),
                    ua as int == tpi * q + rr,
            ;
            vstd::arithmetic::div_mod::lemma_fundamental_div_mod_converse_mod(
                ai,
                tpi,
                -q - 1,
                tpi - rr,
            );
        }
    }
    if m > PI_FX {
        m - TWO_PI_FX
    } else {
        m
    }
}

/// The half-circle sine, exactly `sin_half_spec`.
fn sin_half(x: i64) -> (r: i64)
    requires
        0 <= x <= PI_FX,
    ensures
        r as int == sin_half_spec(x as int),
        0 <= r <= SCALE,
{
    proof {
        let xi = x as int;
        let pi = PI_FX as int;
        assert(0 <= xi * (pi - xi) && 4 * (xi * (pi - xi)) <= pi * pi) by (nonlinear_arith)
            requires
                0 <= xi <= pi,
        ;
    }
    let t: i64 = x * (PI_FX - x);
    let den: i64 = 5 * PI_FX * PI_FX - 4 * t;
    let dens: i64 = ((den as u64) / (SCALE as u64)) as i64;
    proof {
        assert((den as int) / (SCALE as int) >= 1) by (nonlinear_arith)
            requires
                den as int >= SCALE as int,
                SCALE as int > 0,
        ;
    }
    let r: i64 = ((16 * t) as u64 / (dens as u64)) as i64;
    if r > SCALE {
        SCALE
    } else {
        r
    }
}

/// The sine, exactly `sin_spec`; the result stays within one unit.
pub fn sin_fx(a: i64) -> (r: i64)
    requires
        abs_i(a as int) <= ANGLE_LIMIT,
    ensures
        r as int == sin_spec(a as int),
        -SCALE <= r <= SCALE,
{
    let w = wrap_to_pi(a);
    if w >= 0 {
        sin_half(w)
    } else {
        -sin_half(-w)
    }
}

/// The cosine, exactly `cos_spec`; the result stays within one unit.
pub fn cos_fx(a: i64) -> (r: i64)
    requires
        abs_i(a as int) + HALF_PI_FX <= ANGLE_LIMIT,
    ensures
        r as int == cos_spec(a as int),
        -SCALE <= r <= SCALE,
{
    sin_fx(a + HALF_PI_FX)
}

/// The unit-interval arctangent, exactly `atan_unit_spec`.
fn atan_unit(z: i64) -> (r: i64)
    requires
        0 <= z <= SCALE,
    ensures
        r as int == atan_unit_spec(z as int),
        0 <= r < HALF_PI_FX,
{
    let a = fxmul(z, QUARTER_PI_FX);
    proof {
        let zi = z as int;
        let si = SCALE as int;
        assert(zi * (QUARTER_PI_FX as int) / si <= QUARTER_PI_FX as int) by (nonlinear_arith)
            requires
                0 <= zi <= si,
                0 < si,
        ;
    }
    let b = fxmul(z, SCALE - z);
    proof {
        let zi = z as int;
        let si = SCALE as int;
        assert(zi * (si - zi) / si <= si) by (nonlinear_arith)
            requires
                0 <= zi <= si,
                0 < si,
        ;
    }
    let c = fxmul(b, ATAN_K);
    proof {
        let si = SCALE as int;
        assert(abs_i(b as int) * (ATAN_K as int) / si <= ATAN_K as int) by (nonlinear_arith)
            requires
                0 <= abs_i(b as int) <= si,
                0 < si,
        ;
    }
    a + c
}

/// The vector angle, exactly `atan2_spec`; the result stays in `(-pi, pi]`.
pub fn atan2_fx(y: i64, x: i64) -> (r: i64)
    requires
        abs_i(x as int) <= FX_BOUND,
        abs_i(y as int) <= FX_BOUND,
    ensures
        r as int == atan2_spec(y as int, x as int),
        -PI_FX <= r <= PI_FX,
{
    let ax: i64 = if x < 0 {
        -x
    } else {
        x
    };
    let ay: i64 = if y < 0 {
        -y
    } else {
        y
    };
    if ax == 0 && ay == 0 {
        return 0;
    }
    let base: i64 = if ay <= ax {
        proof {
            assert(abs_i(ay as int) * (SCALE as int) / (ax as int) <= SCALE as int)
                by (nonlinear_arith)
                requires
                    0 <= (ay as int) <= (ax as int),
                    0 < (ax as int),
                    0 < (SCALE as int),
            ;
        }
        atan_unit(fxdiv(ay, ax))
    } else {
        proof {
            assert(abs_i(ax as int) * (SCALE as int) / (ay as int) <= SCALE as int)
                by (nonlinear_arith)
                requires
                    0 <= (ax as int) < (ay as int),
                    0 < (ay as int),
                    0 < (SCALE as int),
            ;
        }
        HALF_PI_FX - atan_unit(fxdiv(ax, ay))
    };
    if x >= 0 {
        if y >= 0 {
            base
        } else {
            -base
        }
    } else {
        if y >= 0 {
            PI_FX - base
        } else {
            -(PI_FX - base)
        }
    }
}

} // verus!
