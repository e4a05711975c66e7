//! Two-dimensional fixed-point vectors: the positions, velocities and
//! accelerations of the craft's two endpoints.

use vstd::prelude::*;
use crate::fx::{
    abs_i, fxdiv, fxdiv_spec, hypot_fx, is_isqrt, FX_BOUND, SCALE,
};

verus! {

/// A point or direction in the plane, both coordinates in fixed-point units.
#[derive(Clone, Copy, Debug, PartialEq, Eq, Structural)]
pub struct V2 {
    pub x: i64,
    pub y: i64,
}

/// The mathematical value of a vector: unbounded integer coordinates.
pub ghost struct V2V {
    pub x: int,
    pub y: int,
}

impl View for V2 {
    type V = V2V;

    open spec fn view(&self) -> V2V {
        V2V { x: self.x as int, y: self.y as int }
    }
}

/// Coordinates no larger than `c` in magnitude.
pub open spec fn v2_within(v: V2V, c: int) -> bool {
    abs_i(v.x) <= c && abs_i(v.y) <= c
}

pub open spec fn v2_add(a: V2V, b: V2V) -> V2V {
    V2V { x: a.x + b.x, y: a.y + b.y }
}

pub open spec fn v2_sub(a: V2V, b: V2V) -> V2V {
    V2V { x: a.x - b.x, y: a.y - b.y }
}

pub open spec fn v2_neg(a: V2V) -> V2V {
    V2V { x: -a.x, y: -a.y }
}

/// Both coordinates scaled by the fixed-point factor `s`.
pub open spec fn v2_scale(a: V2V, s: int) -> V2V {
    V2V { x: crate::fx::fxmul_spec(a.x, s), y: crate::fx::fxmul_spec(a.y, s) }
}

/// The length of `v` in fixed-point units: the integer square root of the
/// sum of squared coordinates.
pub open spec fn v2_len(v: V2V) -> int {
    choose|r: int| #[trigger] is_isqrt(v.x * v.x + v.y * v.y, r)
}

/// The unit vector along `v` (the zero vector is left in place), obtained
/// by dividing each coordinate by the length.
pub open spec fn v2_norm(v: V2V) -> V2V {
    let l = v2_len(v);
    if l == 0 {
        V2V { x: 0, y: 0 }
    } else {
        V2V { x: fxdiv_spec(v.x, l), y: fxdiv_spec(v.y, l) }
    }
}

impl V2 {
    /// Build a vector from its coordinates.
    pub fn new(x: i64, y: i64) -> (r: V2)
        ensures
            r@ == (V2V { x: x as int, y: y as int }),
    {
        V2 { x, y }
    }

    /// Componentwise sum.
    pub fn added(&self, o: &V2) -> (r: V2)
        requires
            abs_i(self@.x) + abs_i(o@.x) <= i64::MAX,
            abs_i(self@.y) + abs_i(o@.y) <= i64::MAX,
        ensures
            r@ == v2_add(self@, o@),
    {
        V2 { x: self.x + o.x, y: self.y + o.y }
    }

    /// Componentwise difference.
    pub fn subtracted(&self, o: &V2) -> (r: V2)
        requires
            abs_i(self@.x) + abs_i(o@.x) <= i64::MAX,
            abs_i(self@.y) + abs_i(o@.y) <= i64::MAX,
        ensures
            r@ == v2_sub(self@, o@),
    {
        V2 { x: self.x - o.x, y: self.y - o.y }
    }

    /// Componentwise negation.
    pub fn negated(&self) -> (r: V2)
        requires
            abs_i(self@.x) <= i64::MAX,
            abs_i(self@.y) <= i64::MAX,
        ensures
            r@ == v2_neg(self@),
    {
        V2 { x: -self.x, y: -self.y }
    }

    /// Both coordinates scaled by the fixed-point factor `s`.
    pub fn multiplied(&self, s: i64) -> (r: V2)
        requires
            v2_within(self@, FX_BOUND as int),
            abs_i(s as int) <= FX_BOUND,
        ensures
            r@ == v2_scale(self@, s as int),
            abs_i(r@.x) == abs_i(self@.x) * abs_i(s as int) / (SCALE as int),
            abs_i(r@.y) == abs_i(self@.y) * abs_i(s as int) / (SCALE as int),
    {
        let rx = crate::fx::fxmul(self.x, s);
        let ry = crate::fx::fxmul(self.y, s);
        V2 { x: rx, y: ry }
    }

    /// Length in fixed-point units.
    pub fn length(&self) -> (r: i64)
        requires
            v2_within(self@, FX_BOUND as int),
        ensures
            r as int == v2_len(self@),
            is_isqrt(self@.x * self@.x + self@.y * self@.y, r as int),
            0 <= r < 4294967296,
            abs_i(self@.x) <= r,
            abs_i(self@.y) <= r,
    {
        let r = hypot_fx(self.x, self.y);
        proof {
            crate::fx::lemma_isqrt_unique(
                self@.x * self@.x + self@.y * self@.y,
                r as int,
                v2_len(self@),
            );
        }
        r
    }

    /// The unit vector along `self`; the zero vector stays zero.  The
    /// resulting coordinates are at most one fixed-point unit in magnitude.
    pub fn normalized(&self) -> (r: V2)
        requires
            v2_within(self@, FX_BOUND as int),
        ensures
            r@ == v2_norm(self@),
            v2_within(r@, SCALE as int),
    {
        let l = self.length();
        if l == 0 {
            V2 { x: 0, y: 0 }
        } else {
            let nx = fxdiv(self.x, l);
            let ny = fxdiv(self.y, l);
            proof {
                let xi = self@.x;
                let yi = self@.y;
                let li = l as int;
                assert(abs_i(xi) * (SCALE as int) / li <= SCALE as int) by (nonlinear_arith)
                    requires
                        0 < li,
                        abs_i(xi) <= li,
                ;
                assert(abs_i(yi) * (SCALE as int) / li <= SCALE as int) by (nonlinear_arith)
                    requires
                        0 < li,
                        abs_i(yi) <= li,
                ;
            }
            V2 { x: nx, y: ny }
        }
    }
}

} // verus!
