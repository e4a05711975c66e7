//! The library's global laws, each proved once and for all: the network
//! shape invariant, the exactness of the rod projection's midpoint, the
//! closed form of the regret score, the freeze of a dead craft, and
//! reproducibility from equal seeds.

use vstd::prelude::*;
use crate::fx::{abs_i, clamp_spec};
use crate::net::{gen_mat, gen_row, new_spec};
use crate::rng::seeded;
use crate::ship::{
    constrain_spec, score_step, ship_new_spec, ShipV, BEST_LIMIT, SCORE_LIMIT,
};
use crate::evaluate::{iterate_spec, step_ship_spec};
use crate::vec2::V2V;

verus! {

proof fn lemma_gen_row_len(count: nat, s0: u64)
    ensures
        gen_row(count, s0).0.len() == count,
    decreases count,
{
    if count > 0 {
        lemma_gen_row_len((count - 1) as nat, s0);
    }
}

proof fn lemma_gen_mat_shape(sizes: Seq<int>, k: nat, s0: u64)
    requires
        forall|i: int| 0 <= i < sizes.len() ==> #[trigger] sizes[i] >= 0,
        k < sizes.len(),
    ensures
        gen_mat(sizes, k, s0).0.len() == k,
        forall|i: int|
            0 <= i < k ==> (#[trigger] gen_mat(sizes, k, s0).0[i]).len() == (sizes[i] + 1)
                * sizes[i + 1],
    decreases k,
{
    if k > 0 {
        lemma_gen_mat_shape(sizes, (k - 1) as nat, s0);
        lemma_gen_row_len(
            (((sizes[k - 1] + 1) * sizes[k as int])) as nat,
            gen_mat(sizes, (k - 1) as nat, s0).1,
        );
    }
}

/// Network shape invariant: however the random draws fall, a freshly
/// constructed network holds one weight matrix per adjacent layer pair,
/// and the matrix between layers `i` and `i + 1` holds exactly
/// `(sizes[i] + 1) * sizes[i + 1]` weights.
pub proof fn lemma_network_shape(sizes: Seq<int>, s0: u64)
    requires
        sizes.len() >= 2,
        forall|i: int| 0 <= i < sizes.len() ==> #[trigger] sizes[i] >= 0,
    ensures
        new_spec(sizes, s0).0.weights.len() == sizes.len() - 1,
        forall|i: int|
            0 <= i < sizes.len() - 1 ==> (#[trigger] new_spec(sizes, s0).0.weights[i]).len() == (
            sizes[i] + 1) * sizes[i + 1],
{
    lemma_gen_mat_shape(sizes, (sizes.len() - 1) as nat, s0);
}

/// Constraint exactness, the conserved half: the rod projection moves
/// both endpoints by the same correction in opposite directions, so the
/// body's midpoint is untouched, whatever the pre-step separation.
pub proof fn lemma_constraint_midpoint(p1: V2V, p2: V2V)
    ensures
        constrain_spec(p1, p2).0.x + constrain_spec(p1, p2).1.x == p1.x + p2.x,
        constrain_spec(p1, p2).0.y + constrain_spec(p1, p2).1.y == p1.y + p2.y,
{
}

proof fn lemma_diff_sq(a: int, b: int)
    by (nonlinear_arith)
    ensures
        (a - b) * (a + b) == a * a - b * b,
{
}

proof fn lemma_sq_mul(a: int, b: int)
    by (nonlinear_arith)
    ensures
        (a * b) * (a * b) == (a * a) * (b * b),
{
}

/// Constraint exactness, the metric half: one projection pass brings the
/// endpoint separation within 16 fixed-point units (about 0.0000153) of
/// the rest length, for any pre-step separation of at least half a unit.
/// (Below half a unit the integer square root's relative rounding grows
/// without bound, so the projection can land farther off; the original
/// degenerate case, zero separation, skips the projection entirely.)
pub proof fn lemma_constraint_distance(p1: V2V, p2: V2V)
    requires
        crate::vec2::v2_within(crate::vec2::v2_sub(p2, p1), crate::fx::FX_BOUND as int),
        crate::fx::HALF_FX <= crate::vec2::v2_len(crate::vec2::v2_sub(p2, p1)),
    ensures
        crate::ship::REST_FX - 16 <= crate::vec2::v2_len(
            crate::vec2::v2_sub(constrain_spec(p1, p2).1, constrain_spec(p1, p2).0),
        ),
        crate::vec2::v2_len(
            crate::vec2::v2_sub(constrain_spec(p1, p2).1, constrain_spec(p1, p2).0),
        ) <= crate::ship::REST_FX + 16,
{
    let rest = crate::ship::REST_FX as int;
    let fxb = crate::fx::FX_BOUND as int;
    let d = crate::vec2::v2_sub(p2, p1);
    let dx = d.x;
    let dy = d.y;
    let n = dx * dx + dy * dy;
    assert(n >= 0 && n <= 2 * fxb * fxb) by (nonlinear_arith)
        requires
            n == dx * dx + dy * dy,
            abs_i(dx) <= fxb,
            abs_i(dy) <= fxb,
            fxb == 1073741824,
    ;
    crate::fx::lemma_isqrt_exists(n);
    let dd = crate::vec2::v2_len(d);
    assert(crate::fx::is_isqrt(n, dd));
    assert(1 <= dd) by {
        assert(crate::fx::HALF_FX as int <= dd);
    }
    let cx = crate::fx::tdiv(dx * (dd - rest), 2 * dd);
    let cy = crate::fx::tdiv(dy * (dd - rest), 2 * dd);
    let q = constrain_spec(p1, p2);
    let nd = crate::vec2::v2_sub(q.1, q.0);
    assert(nd.x == dx - 2 * cx && nd.y == dy - 2 * cy);
    let nx = nd.x;
    let ny = nd.y;
    crate::fx::lemma_tdiv_range(dx * (dd - rest), 2 * dd);
    crate::fx::lemma_tdiv_range(dy * (dd - rest), 2 * dd);
    assert(abs_i(dx) <= dd && abs_i(dy) <= dd) by (nonlinear_arith)
        requires
            crate::fx::is_isqrt(dx * dx + dy * dy, dd),
            dd >= 0,
    ;
    assert(abs_i(dd * nx - rest * dx) < 2 * dd && abs_i(dd * ny - rest * dy) < 2 * dd)
        by (nonlinear_arith)
        requires
            dx * (dd - rest) - 2 * dd < (2 * dd) * cx,
            (2 * dd) * cx < dx * (dd - rest) + 2 * dd,
            dy * (dd - rest) - 2 * dd < (2 * dd) * cy,
            (2 * dd) * cy < dy * (dd - rest) + 2 * dd,
            nx == dx - 2 * cx,
            ny == dy - 2 * cy,
            dd >= 1,
    ;
    assert(abs_i(nx) <= rest + 2 && abs_i(ny) <= rest + 2) by (nonlinear_arith)
        requires
            abs_i(dd * nx - rest * dx) < 2 * dd,
            abs_i(dd * ny - rest * dy) < 2 * dd,
            abs_i(dx) <= dd,
            abs_i(dy) <= dd,
            dd >= 1,
            rest >= 1,
    ;
    assert(abs_i(dd * nx + rest * dx) <= dd * (2 * rest + 2) && abs_i(dd * ny + rest * dy) <= dd
        * (2 * rest + 2)) by (nonlinear_arith)
        requires
            abs_i(nx) <= rest + 2,
            abs_i(ny) <= rest + 2,
            abs_i(dx) <= dd,
            abs_i(dy) <= dd,
            dd >= 1,
            rest >= 1,
    ;
    lemma_diff_sq(dd * nx, rest * dx);
    lemma_diff_sq(dd * ny, rest * dy);
    lemma_sq_mul(dd, nx);
    lemma_sq_mul(dd, ny);
    lemma_sq_mul(rest, dx);
    lemma_sq_mul(rest, dy);
    assert((dd * nx - rest * dx) * (dd * nx + rest * dx) == dd * dd * (nx * nx) - rest * rest * (
    dx * dx)) by (nonlinear_arith)
        requires
            (dd * nx - rest * dx) * (dd * nx + rest * dx) == (dd * nx) * (dd * nx) - (rest * dx) * (
            rest * dx),
            (dd * nx) * (dd * nx) == (dd * dd) * (nx * nx),
            (rest * dx) * (rest * dx) == (rest * rest) * (dx * dx),
    ;
    assert((dd * ny - rest * dy) * (dd * ny + rest * dy) == dd * dd * (ny * ny) - rest * rest * (
    dy * dy)) by (nonlinear_arith)
        requires
            (dd * ny - rest * dy) * (dd * ny + rest * dy) == (dd * ny) * (dd * ny) - (rest * dy) * (
            rest * dy),
            (dd * ny) * (dd * ny) == (dd * dd) * (ny * ny),
            (rest * dy) * (rest * dy) == (rest * rest) * (dy * dy),
    ;
    assert(abs_i((dd * nx - rest * dx) * (dd * nx + rest * dx)) <= (2 * dd) * (dd * (2 * rest
        + 2))) by (nonlinear_arith)
        requires
            abs_i(dd * nx - rest * dx) < 2 * dd,
            abs_i(dd * nx + rest * dx) <= dd * (2 * rest + 2),
            dd >= 1,
            rest >= 1,
    ;
    assert(abs_i((dd * ny - rest * dy) * (dd * ny + rest * dy)) <= (2 * dd) * (dd * (2 * rest
        + 2))) by (nonlinear_arith)
        requires
            abs_i(dd * ny - rest * dy) < 2 * dd,
            abs_i(dd * ny + rest * dy) <= dd * (2 * rest + 2),
            dd >= 1,
            rest >= 1,
    ;
    assert((2 * dd) * (dd * (2 * rest + 2)) == dd * dd * (4 * rest + 4)) by (nonlinear_arith);
    let m = nx * nx + ny * ny;
    assert(dd * dd <= n && n < (dd + 1) * (dd + 1));
    assert(dd * dd * m <= rest * rest * n + dd * dd * (8 * rest + 8) && dd * dd * m >= rest * rest
        * n - dd * dd * (8 * rest + 8)) by (nonlinear_arith)
        requires
            m == nx * nx + ny * ny,
            n == dx * dx + dy * dy,
            abs_i(dd * dd * (nx * nx) - rest * rest * (dx * dx)) <= dd * dd * (4 * rest + 4),
            abs_i(dd * dd * (ny * ny) - rest * rest * (dy * dy)) <= dd * dd * (4 * rest + 4),
    ;
    assert(rest * rest * n < rest * rest * ((dd + 1) * (dd + 1)) && rest * rest * n >= rest * rest
        * (dd * dd)) by (nonlinear_arith)
        requires
            dd * dd <= n,
            n < (dd + 1) * (dd + 1),
            rest == 1048576,
    ;
    assert(rest * rest * ((dd + 1) * (dd + 1)) + dd * dd * (8 * rest + 8) < dd * dd * ((rest + 16)
        * (rest + 16))) by (nonlinear_arith)
        requires
            2 * dd >= rest,
            rest == 1048576,
            dd >= 1,
    ;
    assert(rest * rest * (dd * dd) - dd * dd * (8 * rest + 8) >= dd * dd * ((rest - 16) * (rest
        - 16))) by (nonlinear_arith)
        requires
            rest == 1048576,
            dd >= 1,
    ;
    assert((rest - 16) * (rest - 16) <= m && m < (rest + 16) * (rest + 16)) by (nonlinear_arith)
        requires
            dd * dd * m < dd * dd * ((rest + 16) * (rest + 16)),
            dd * dd * m >= dd * dd * ((rest - 16) * (rest - 16)),
            dd >= 1,
    ;
    assert(m >= 0) by (nonlinear_arith)
        requires
            m == nx * nx + ny * ny,
    ;
    crate::fx::lemma_isqrt_exists(m);
    let r2 = crate::vec2::v2_len(nd);
    assert(crate::fx::is_isqrt(m, r2));
    assert(rest - 16 <= r2 && r2 <= rest + 16) by (nonlinear_arith)
        requires
            crate::fx::is_isqrt(m, r2),
            (rest - 16) * (rest - 16) <= m,
            m < (rest + 16) * (rest + 16),
            rest == 1048576,
    ;
}

/// The score and best distance reached after the first `k` observations
/// of a scripted distance sequence.
pub open spec fn run_scores(ds: Seq<int>, k: nat) -> (int, Option<int>)
    decreases k,
{
    if k == 0 {
        (0, Option::<int>::None)
    } else {
        let pre = run_scores(ds, (k - 1) as nat);
        score_step(pre.0, pre.1, ds[k - 1])
    }
}

/// The least of the first `k` observed distances.
pub open spec fn min_pref(ds: Seq<int>, k: nat) -> int
    recommends
        1 <= k <= ds.len(),
    decreases k,
{
    if k <= 1 {
        ds[0]
    } else {
        let m = min_pref(ds, (k - 1) as nat);
        if ds[k - 1] < m {
            ds[k - 1]
        } else {
            m
        }
    }
}

/// The regret total: every observation after the first moves the sum by
/// its distance relative to the least distance seen before it.
pub open spec fn regret_total(ds: Seq<int>, k: nat) -> int
    decreases k,
{
    if k <= 1 {
        0
    } else {
        regret_total(ds, (k - 1) as nat) + (ds[k - 1] - min_pref(ds, (k - 1) as nat))
    }
}

/// Score monotonic regret: for any scripted sequence of in-range
/// midpoint distances, the score after `k` observations is exactly the
/// regret total, and the recorded best is exactly the least distance
/// seen.  The first observation only records a best and leaves the score
/// at zero.
pub proof fn lemma_score_regret(ds: Seq<int>, k: nat)
    requires
        forall|i: int| 0 <= i < ds.len() ==> 0 <= #[trigger] ds[i] <= BEST_LIMIT,
        k <= ds.len(),
        ds.len() <= 0x10_0000,
    ensures
        k >= 1 ==> run_scores(ds, k) == (
            regret_total(ds, k),
            Option::<int>::Some(min_pref(ds, k)),
        ),
        k >= 1 ==> 0 <= min_pref(ds, k) <= BEST_LIMIT,
        abs_i(run_scores(ds, k).0) <= k * (BEST_LIMIT as int),
    decreases k,
{
    if k == 0 {
    } else if k == 1 {
        assert(run_scores(ds, 0) == (0int, Option::<int>::None));
        assert(run_scores(ds, 1) == score_step(0, Option::<int>::None, ds[0]));
    } else {
        lemma_score_regret(ds, (k - 1) as nat);
        let pre = run_scores(ds, (k - 1) as nat);
        let m = min_pref(ds, (k - 1) as nat);
        let d = ds[k - 1];
        assert(abs_i(pre.0 + (d - m)) <= k * (BEST_LIMIT as int));
        assert(k * (BEST_LIMIT as int) < SCORE_LIMIT as int);
        assert(clamp_spec(pre.0 + (d - m), -SCORE_LIMIT as int, SCORE_LIMIT as int) == pre.0 + (d
            - m));
    }
}

/// Death freeze: once a craft is dead, a full step (inference, physics,
/// scoring) leaves every observable field exactly as it was.
pub proof fn lemma_death_freeze(s: ShipV, goal: V2V)
    requires
        s.dead,
    ensures
        step_ship_spec(s, goal) == s,
{
}

/// Determinism given fixed randomness: every operation of the library is
/// pinned by its contract to a spec-level function of its inputs and the
/// explicit random state alone, so two runs that construct a craft and
/// evolve a population from equal seeds agree bit for bit.
pub proof fn lemma_reproducibility(
    seed1: u64,
    seed2: u64,
    pop1: Seq<ShipV>,
    pop2: Seq<ShipV>,
    steps: nat,
    spread: int,
    lr: int,
    even: bool,
    w: int,
)
    requires
        seed1 == seed2,
        pop1 == pop2,
    ensures
        ship_new_spec(seeded(seed1)) == ship_new_spec(seeded(seed2)),
        iterate_spec(pop1, steps, spread, lr, even, w, seeded(seed1)) == iterate_spec(
            pop2,
            steps,
            spread,
            lr,
            even,
            w,
            seeded(seed2),
        ),
{
}

} // verus!
