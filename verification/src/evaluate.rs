//! The parallel batch evaluator: shuffle the population, partition it
//! into shards by index, run every shard's full multi-step rollout
//! against the scripted target path, merge the shards back, and hand the
//! scored population to the evolution engine.
//!
//! A shard rollout is a deterministic function of its crafts, so shards
//! can run on worker threads without any shared mutable state; the one
//! trusted item here hands the verified rollout to rayon's parallel map.

use rayon::iter::{IntoParallelIterator, ParallelIterator};
use vstd::prelude::*;
use crate::fx::{tdiv, SCALE};
use crate::rng::{below_of, xs_step, Entropy};
use crate::ship::{
    do_brain_spec, ship_wf, simulate_spec, update_score_spec, Ship, ShipV, SPREAD_LIMIT,
};
use crate::evolve::{do_ship_mutation, mutation_spec, pop_view, pop_wf};
use crate::trig::{cos_spec, sin_spec, TWO_PI_FX};
use crate::vec2::{V2, V2V};

verus! {

/// Largest admitted rollout length.
pub const STEPS_LIMIT: usize = 1048576;

/// The scripted target for one step: a point on a circle of radius
/// `spread`, swept ten times around over the rollout, clockwise on even
/// generations and counterclockwise on odd ones.
pub open spec fn goal_spec(step: int, steps: int, spread: int, even: bool) -> V2V
    recommends
        steps >= 1,
{
    let a = step * TWO_PI_FX * 10 / steps;
    let sa = if even {
        a
    } else {
        -a
    };
    V2V {
        x: crate::fx::fxmul_spec(sin_spec(sa), spread),
        y: crate::fx::fxmul_spec(cos_spec(sa), spread),
    }
}

/// One full craft step: inference, physics, scoring.
pub open spec fn step_ship_spec(s: ShipV, goal: V2V) -> ShipV {
    update_score_spec(simulate_spec(do_brain_spec(s, goal)))
}

/// The first `k` crafts of a shard advanced by one step toward `goal`.
pub open spec fn shard_step_spec(p: Seq<ShipV>, goal: V2V, k: nat) -> Seq<ShipV>
    decreases k,
{
    if k == 0 {
        p
    } else {
        shard_step_spec(p, goal, (k - 1) as nat).update(
            k - 1,
            step_ship_spec(p[k - 1], goal),
        )
    }
}

/// A shard after the first `t` steps of its rollout.
pub open spec fn rollout_pref(p: Seq<ShipV>, t: nat, steps: int, spread: int, even: bool) -> Seq<
    ShipV,
>
    decreases t,
{
    if t == 0 {
        p
    } else {
        let prev = rollout_pref(p, (t - 1) as nat, steps, spread, even);
        shard_step_spec(prev, goal_spec(t - 1, steps, spread, even), prev.len())
    }
}

/// A shard after its full rollout.
pub open spec fn rollout_spec(p: Seq<ShipV>, steps: nat, spread: int, even: bool) -> Seq<ShipV> {
    rollout_pref(p, steps, steps as int, spread, even)
}

/// Stepping a shard keeps its length.
proof fn lemma_shard_step_len(p: Seq<ShipV>, goal: V2V, k: nat)
    requires
        k <= p.len(),
    ensures
        shard_step_spec(p, goal, k).len() == p.len(),
    decreases k,
{
    if k > 0 {
        lemma_shard_step_len(p, goal, (k - 1) as nat);
    }
}

/// A rollout keeps the shard's length.
pub proof fn lemma_rollout_len(p: Seq<ShipV>, t: nat, steps: int, spread: int, even: bool)
    ensures
        rollout_pref(p, t, steps, spread, even).len() == p.len(),
    decreases t,
{
    if t > 0 {
        lemma_rollout_len(p, (t - 1) as nat, steps, spread, even);
        let prev = rollout_pref(p, (t - 1) as nat, steps, spread, even);
        lemma_shard_step_len(prev, goal_spec(t - 1, steps, spread, even), prev.len());
    }
}

/// Stepping a shard keeps its length and every craft's well-formedness.
proof fn lemma_shard_step_props(p: Seq<ShipV>, goal: V2V, k: nat)
    requires
        k <= p.len(),
        pop_wf(p),
    ensures
        shard_step_spec(p, goal, k).len() == p.len(),
        forall|i: int|
            k <= i < p.len() ==> #[trigger] shard_step_spec(p, goal, k)[i] == p[i],
    decreases k,
{
    if k > 0 {
        lemma_shard_step_props(p, goal, (k - 1) as nat);
    }
}

/// The scripted target for one step, exactly `goal_spec`; it stays
/// within `spread` of the origin.
pub fn goal_for_step(step: usize, steps: usize, spread: i64, even: bool) -> (r: V2)
    requires
        1 <= steps <= STEPS_LIMIT,
        step <= steps,
        0 <= spread <= SPREAD_LIMIT,
    ensures
        r@ == goal_spec(step as int, steps as int, spread as int, even),
        crate::vec2::v2_within(r@, spread as int),
{
    proof {
        assert((step as int) * (TWO_PI_FX as int) * 10 <= 0x1_0000_0000_0000) by (nonlinear_arith)
            requires
                0 <= (step as int) <= 0x10_0000,
                TWO_PI_FX == 6588398,
        ;
    }
    let a: i64 = (((step as u64) * (TWO_PI_FX as u64) * 10) / (steps as u64)) as i64;
    proof {
        crate::fx::lemma_tdiv_mag((step as int) * (TWO_PI_FX as int) * 10, steps as int);
        assert(a <= 0x1_0000_0000_0000);
    }
    let sa: i64 = if even {
        a
    } else {
        -a
    };
    let sv = crate::trig::sin_fx(sa);
    let cv = crate::trig::cos_fx(sa);
    let gx = crate::fx::fxmul(sv, spread);
    let gy = crate::fx::fxmul(cv, spread);
    proof {
        assert(crate::fx::abs_i(gx as int) <= spread as int && crate::fx::abs_i(gy as int)
            <= spread as int) by (nonlinear_arith)
            requires
                crate::fx::abs_i(gx as int) == crate::fx::abs_i(sv as int) * crate::fx::abs_i(
                spread as int) / (SCALE as int),
                crate::fx::abs_i(gy as int) == crate::fx::abs_i(cv as int) * crate::fx::abs_i(
                spread as int) / (SCALE as int),
                crate::fx::abs_i(sv as int) <= SCALE as int,
                crate::fx::abs_i(cv as int) <= SCALE as int,
                0 <= spread as int,
                SCALE == 1048576,
        ;
    }
    V2 { x: gx, y: gy }
}

/// One shard's full rollout, exactly `rollout_spec`: for each step, the
/// scripted target is computed and every craft in the shard is advanced
/// by inference, physics, and scoring.  No randomness is consumed: the
/// rollout is a deterministic function of the shard.
pub fn rollout_shard(shard: Vec<Ship>, steps: usize, spread: i64, even: bool) -> (r: Vec<Ship>)
    requires
        pop_wf(pop_view(shard@)),
        steps <= STEPS_LIMIT,
        0 <= spread <= SPREAD_LIMIT,
    ensures
        pop_view(r@) == rollout_spec(pop_view(shard@), steps as nat, spread as int, even),
        pop_wf(pop_view(r@)),
        r@.len() == shard@.len(),
{
    let ghost p0 = pop_view(shard@);
    let mut cur = shard;
    let mut t: usize = 0;
    while t < steps
        invariant
            t <= steps,
            1 <= steps <= STEPS_LIMIT || t == 0,
            steps <= STEPS_LIMIT,
            0 <= spread <= SPREAD_LIMIT,
            pop_view(cur@) == rollout_pref(p0, t as nat, steps as int, spread as int, even),
            pop_wf(pop_view(cur@)),
            cur@.len() == p0.len(),
        decreases steps - t,
    {
        let goal = goal_for_step(t, steps, spread, even);
        let ghost stepv = pop_view(cur@);
        let mut i: usize = 0;
        while i < cur.len()
            invariant
                i <= cur@.len(),
                cur@.len() == stepv.len(),
                pop_wf(stepv),
                crate::vec2::v2_within(goal@, crate::ship::POS_LIMIT as int),
                pop_view(cur@) == shard_step_spec(stepv, goal@, i as nat),
                pop_wf(pop_view(cur@)),
            decreases cur@.len() - i,
        {
            proof {
                lemma_shard_step_props(stepv, goal@, i as nat);
                assert(pop_view(cur@)[i as int] == stepv[i as int]);
            }
            let mut sh = cur[i].duplicate();
            sh.do_brain(&goal);
            sh.simulate();
            sh.update_score();
            let ghost prev = pop_view(cur@);
            cur.set(i, sh);
            proof {
                assert(pop_view(cur@) =~= prev.update(i as int, sh@));
                assert(pop_view(cur@) =~= shard_step_spec(stepv, goal@, (i + 1) as nat));
                assert forall|k: int| 0 <= k < pop_view(cur@).len() implies ship_wf(
                    #[trigger] pop_view(cur@)[k],
                ) && pop_view(cur@)[k].net.sizes == crate::ship::ship_topology() by {
                    if k != i {
                        assert(pop_view(cur@)[k] == prev[k]);
                    } else {
                        assert(pop_view(cur@)[k] == sh@);
                    }
                }
            }
            i = i + 1;
        }
        proof {
            lemma_shard_step_props(stepv, goal@, stepv.len());
        }
        t = t + 1;
    }
    cur
}


/// Two positions exchanged.
pub open spec fn swap_at(p: Seq<ShipV>, i: int, j: int) -> Seq<ShipV> {
    p.update(i, p[j]).update(j, p[i])
}

/// The population after the first `k` exchanges of the shuffle: position
/// `k - 1` is swapped with a freshly drawn index.
pub open spec fn shuffle_pref(p: Seq<ShipV>, k: nat, s0: u64) -> (Seq<ShipV>, u64)
    decreases k,
{
    if k == 0 {
        (p, s0)
    } else {
        let pre = shuffle_pref(p, (k - 1) as nat, s0);
        let s2 = xs_step(pre.1);
        let j = below_of(s2, p.len() as int);
        (swap_at(pre.0, k - 1, j), s2)
    }
}

/// Shuffle the population in place, exactly `shuffle_pref` over its full
/// length: each position in turn is exchanged with a uniformly drawn one.
pub fn shuffle(ships: &mut Vec<Ship>, e: &mut Entropy)
    requires
        pop_wf(pop_view(old(ships)@)),
        1 <= old(ships)@.len() <= 0x10_0000,
    ensures
        pop_view(final(ships)@) == shuffle_pref(
            pop_view(old(ships)@),
            old(ships)@.len() as nat,
            old(e)@,
        ).0,
        final(e)@ == shuffle_pref(pop_view(old(ships)@), old(ships)@.len() as nat, old(e)@).1,
        final(ships)@.len() == old(ships)@.len(),
        pop_wf(pop_view(final(ships)@)),
{
    let ghost pop0 = pop_view(old(ships)@);
    let ghost s0 = old(e)@;
    let n = ships.len();
    let mut i: usize = 0;
    while i < n
        invariant
            i <= n,
            n == ships@.len(),
            1 <= n <= 0x10_0000,
            pop0.len() == n,
            pop_view(ships@) == shuffle_pref(pop0, i as nat, s0).0,
            e@ == shuffle_pref(pop0, i as nat, s0).1,
            pop_wf(pop_view(ships@)),
        decreases n - i,
    {
        let j = e.next_below(n);
        let a = ships[i].duplicate();
        let b = ships[j].duplicate();
        let ghost prev = pop_view(ships@);
        ships.set(i, b);
        ships.set(j, a);
        proof {
            assert(pop_view(ships@) =~= swap_at(prev, i as int, j as int));
            assert forall|k: int| 0 <= k < pop_view(ships@).len() implies ship_wf(
                #[trigger] pop_view(ships@)[k],
            ) && pop_view(ships@)[k].net.sizes == crate::ship::ship_topology() by {
                assert(pop_view(ships@)[k] == prev[k] || pop_view(ships@)[k] == prev[i as int]
                    || pop_view(ships@)[k] == prev[j as int]);
            }
        }
        i = i + 1;
    }
}

/// How many indices below `n` land in shard `k` of `w`.
pub open spec fn shard_len(n: int, w: int, k: int) -> int {
    if k >= n {
        0
    } else {
        (n - k - 1) / w + 1
    }
}

/// Shard `k` of `w`: the crafts at indices congruent to `k` modulo `w`,
/// in order.
pub open spec fn shard_of(p: Seq<ShipV>, w: int, k: int) -> Seq<ShipV>
    recommends
        w >= 1,
        0 <= k,
{
    Seq::new(shard_len(p.len() as int, w, k) as nat, |t: int| p[k + t * w])
}

/// The concatenation of the first `k` shards, each fully rolled out.
pub open spec fn shards_rolled(
    p: Seq<ShipV>,
    w: int,
    steps: nat,
    spread: int,
    even: bool,
    k: int,
) -> Seq<ShipV>
    decreases k,
{
    if k <= 0 {
        Seq::<ShipV>::empty()
    } else {
        shards_rolled(p, w, steps, spread, even, k - 1) + rollout_spec(
            shard_of(p, w, k - 1),
            steps,
            spread,
            even,
        )
    }
}

/// Relies on rayon's `into_par_iter`, `map` and `collect` over a vector:
/// an indexed parallel map yields its results in the input's order, and
/// each worker runs only the verified shard rollout, which is a
/// deterministic function of its shard.
#[verifier::external_body]
fn rollout_shards_parallel(shards: Vec<Vec<Ship>>, steps: usize, spread: i64, even: bool) -> (r:
    Vec<Vec<Ship>>)
    requires
        forall|k: int| 0 <= k < shards@.len() ==> pop_wf(pop_view((#[trigger] shards@[k])@)),
        steps <= STEPS_LIMIT,
        0 <= spread <= SPREAD_LIMIT,
    ensures
        r@.len() == shards@.len(),
        forall|k: int|
            0 <= k < r@.len() ==> pop_view((#[trigger] r@[k])@) == rollout_spec(
                pop_view(shards@[k]@),
                steps as nat,
                spread as int,
                even,
            ) && pop_wf(pop_view(r@[k]@)),
{
    shards.into_par_iter().map(|s| rollout_shard(s, steps, spread, even)).collect()
}

/// The total score of the first `k` crafts.
pub open spec fn sum_scores(p: Seq<ShipV>, k: nat) -> int
    decreases k,
{
    if k == 0 {
        0
    } else {
        sum_scores(p, (k - 1) as nat) + p[k - 1].score
    }
}

/// One training generation, composed: shuffle, partition into `w` shards,
/// roll every shard out for `steps` steps against the scripted target,
/// merge, and run the evolution pass with no reset jitter.
pub open spec fn iterate_spec(
    pop: Seq<ShipV>,
    steps: nat,
    spread: int,
    lr: int,
    even: bool,
    w: int,
    s0: u64,
) -> (Seq<ShipV>, u64) {
    let sh = shuffle_pref(pop, pop.len(), s0);
    let merged = shards_rolled(sh.0, w, steps, spread, even, w);
    mutation_spec(merged, 0, lr, sh.1)
}

/// One training generation, exactly `iterate_spec`: the scored, merged
/// population is handed to the evolution engine, and the average score
/// over the merged population (the generation's quality signal) is
/// returned.
#[verifier::rlimit(60)]
pub fn iterate_raw(
    ships: &mut Vec<Ship>,
    steps: usize,
    spread: i64,
    lr: i64,
    iteration_n: u64,
    worker_count: usize,
    e: &mut Entropy,
) -> (avg: i64)
    requires
        pop_wf(pop_view(old(ships)@)),
        1 <= old(ships)@.len(),
        old(ships)@.len() + worker_count <= 0x10_0000,
        1 <= worker_count,
        1 <= steps <= STEPS_LIMIT,
        0 <= spread <= SPREAD_LIMIT,
        0 <= lr <= SCALE,
    ensures
        pop_view(final(ships)@) == iterate_spec(
            pop_view(old(ships)@),
            steps as nat,
            spread as int,
            lr as int,
            iteration_n % 2 == 0,
            worker_count as int,
            old(e)@,
        ).0,
        final(e)@ == iterate_spec(
            pop_view(old(ships)@),
            steps as nat,
            spread as int,
            lr as int,
            iteration_n % 2 == 0,
            worker_count as int,
            old(e)@,
        ).1,
        pop_wf(pop_view(final(ships)@)),
        avg as int == tdiv(
            sum_scores(
                shards_rolled(
                    shuffle_pref(pop_view(old(ships)@), old(ships)@.len() as nat, old(e)@).0,
                    worker_count as int,
                    steps as nat,
                    spread as int,
                    iteration_n % 2 == 0,
                    worker_count as int,
                ),
                shards_rolled(
                    shuffle_pref(pop_view(old(ships)@), old(ships)@.len() as nat, old(e)@).0,
                    worker_count as int,
                    steps as nat,
                    spread as int,
                    iteration_n % 2 == 0,
                    worker_count as int,
                ).len(),
            ),
            shards_rolled(
                shuffle_pref(pop_view(old(ships)@), old(ships)@.len() as nat, old(e)@).0,
                worker_count as int,
                steps as nat,
                spread as int,
                iteration_n % 2 == 0,
                worker_count as int,
            ).len() as int,
        ),
{
    let even: bool = iteration_n % 2 == 0;
    let n = ships.len();
    let w = worker_count;
    shuffle(ships, e);
    let ghost shv = pop_view(ships@);
    let mut shards: Vec<Vec<Ship>> = Vec::new();
    let mut k: usize = 0;
    while k < w
        invariant
            k <= w,
            1 <= w,
            n == ships@.len(),
            shv == pop_view(ships@),
            pop_wf(shv),
            1 <= n,
            n + w <= 0x10_0000,
            shards@.len() == k,
            forall|t: int|
                0 <= t < k ==> pop_view((#[trigger] shards@[t])@) == shard_of(shv, w as int, t),
            forall|t: int| 0 <= t < k ==> pop_wf(pop_view((#[trigger] shards@[t])@)),
        decreases w - k,
    {
        let mut shard: Vec<Ship> = Vec::new();
        let mut j: usize = k;
        while j < n
            invariant
                1 <= w,
                k < w,
                n == ships@.len(),
                shv == pop_view(ships@),
                pop_wf(shv),
                n + w <= 0x10_0000,
                shard@.len() * w + k == j,
                j <= n + w,
                forall|u: int|
                    0 <= u < shard@.len() ==> (#[trigger] shard@[u])@ == shv[k + u * (w as int)],
                shard@.len() >= 1 ==> (shard@.len() - 1) * (w as int) + k < n,
                pop_wf(pop_view(shard@)),
            decreases n + w - j,
        {
            let ghost prevs = pop_view(shard@);
            shard.push(ships[j].duplicate());
            proof {
                assert(pop_view(shard@) =~= prevs.push(shv[j as int]));
                assert(shard@.len() * (w as int) == (shard@.len() - 1) * (w as int) + (
                w as int)) by (nonlinear_arith);
            }
            j = j + w;
        }
        proof {
            let t = shard@.len() as int;
            let ni = n as int;
            let wi = w as int;
            let ki = k as int;
            if ki >= ni {
                assert(t == 0);
                assert(shard_len(ni, wi, ki) == 0);
            } else {
                assert(t >= 1);
                assert((ni - ki - 1) / wi == t - 1) by (nonlinear_arith)
                    requires
                        t * wi + ki >= ni,
                        (t - 1) * wi + ki < ni,
                        1 <= wi,
                        0 <= ki < ni,
                        1 <= t,
                ;
            }
            assert(pop_view(shard@) =~= shard_of(shv, wi, ki));
        }
        shards.push(shard);
        k = k + 1;
    }
    let rolled = rollout_shards_parallel(shards, steps, spread, even);
    let mut merged: Vec<Ship> = Vec::new();
    let mut k2: usize = 0;
    while k2 < w
        invariant
            k2 <= w,
            1 <= w,
            1 <= n,
            n + w <= 0x10_0000,
            rolled@.len() == w,
            shv.len() == n,
            pop_wf(shv),
            forall|t: int|
                0 <= t < w ==> pop_view((#[trigger] rolled@[t])@) == rollout_spec(
                    shard_of(shv, w as int, t),
                    steps as nat,
                    spread as int,
                    even,
                ),
            forall|t: int| 0 <= t < w ==> pop_wf(pop_view((#[trigger] rolled@[t])@)),
            pop_view(merged@) == shards_rolled(
                shv,
                w as int,
                steps as nat,
                spread as int,
                even,
                k2 as int,
            ),
            pop_wf(pop_view(merged@)),
            k2 >= 1 ==> merged@.len() >= 1,
            merged@.len() <= k2 * ((n - 1) / (w as int) + 1),
        decreases w - k2,
    {
        let src = &rolled[k2];
        let mut j: usize = 0;
        let ghost basev = pop_view(merged@);
        let ghost srcv = pop_view(src@);
        while j < src.len()
            invariant
                j <= src@.len(),
                src == &rolled[k2 as int],
                k2 < rolled@.len(),
                srcv == pop_view(src@),
                pop_wf(srcv),
                pop_wf(basev),
                pop_view(merged@) == basev + srcv.take(j as int),
                pop_wf(pop_view(merged@)),
                merged@.len() == basev.len() + j,
            decreases src@.len() - j,
        {
            let ghost prevm = pop_view(merged@);
            merged.push(src[j].duplicate());
            proof {
                assert(pop_view(merged@) =~= prevm.push(srcv[j as int]));
                assert(pop_view(merged@) =~= basev + srcv.take(j as int + 1));
                assert forall|u: int| 0 <= u < pop_view(merged@).len() implies ship_wf(
                    #[trigger] pop_view(merged@)[u],
                ) && pop_view(merged@)[u].net.sizes == crate::ship::ship_topology() by {
                    if u < prevm.len() {
                        assert(pop_view(merged@)[u] == prevm[u]);
                    } else {
                        assert(pop_view(merged@)[u] == srcv[j as int]);
                    }
                }
            }
            j = j + 1;
        }
        proof {
            assert(srcv.take(srcv.len() as int) =~= srcv);
            assert(pop_view(merged@) == shards_rolled(
                shv,
                w as int,
                steps as nat,
                spread as int,
                even,
                k2 as int + 1,
            ));
            let ni = n as int;
            let wi = w as int;
            lemma_rollout_len(
                shard_of(shv, wi, k2 as int),
                steps as nat,
                steps as int,
                spread as int,
                even,
            );
            assert(srcv.len() == shard_len(ni, wi, k2 as int));
            if k2 as int == 0 {
                assert(shard_len(ni, wi, 0) >= 1);
            }
            assert(shard_len(ni, wi, k2 as int) <= (ni - 1) / wi + 1) by (nonlinear_arith)
                requires
                    1 <= wi,
                    1 <= ni,
                    0 <= k2 as int,
            ;
            assert((k2 as int + 1) * ((ni - 1) / wi + 1) == k2 as int * ((ni - 1) / wi + 1) + ((ni
                - 1) / wi + 1)) by (nonlinear_arith);
        }
        k2 = k2 + 1;
    }
    proof {
        let ni = n as int;
        let wi = w as int;
        assert(wi * ((ni - 1) / wi) <= ni - 1) by (nonlinear_arith)
            requires
                1 <= wi,
                1 <= ni,
        ;
        assert(wi * ((ni - 1) / wi + 1) == wi * ((ni - 1) / wi) + wi) by (nonlinear_arith);
        assert(merged@.len() <= ni - 1 + wi);
    }
    let m = merged.len();
    let ghost mergedv = pop_view(merged@);
    let mut sum: i128 = 0;
    let mut si: usize = 0;
    while si < m
        invariant
            si <= m,
            m == merged@.len(),
            mergedv == pop_view(merged@),
            pop_wf(mergedv),
            m <= 0x10_0000,
            sum as int == sum_scores(mergedv, si as nat),
            crate::fx::abs_i(sum as int) <= (si as int) * (crate::ship::SCORE_LIMIT as int),
        decreases m - si,
    {
        proof {
            assert(crate::fx::abs_i(mergedv[si as int].score) <= crate::ship::SCORE_LIMIT as int);
        }
        sum = sum + merged[si].score as i128;
        si = si + 1;
    }
    let avg: i64 = if m == 0 {
        0
    } else if sum >= 0 {
        ((sum as u128) / (m as u128)) as i64
    } else {
        proof {
            crate::fx::lemma_tdiv_mag(sum as int, m as int);
            assert((crate::fx::abs_i(sum as int)) / (m as int) <= crate::ship::SCORE_LIMIT as int)
                by (nonlinear_arith)
                requires
                    crate::fx::abs_i(sum as int) <= (m as int) * (crate::ship::SCORE_LIMIT as int),
                    1 <= m as int,
            ;
        }
        -((((-sum) as u128) / (m as u128)) as i64)
    };
    proof {
        if m != 0 && sum >= 0 {
            crate::fx::lemma_tdiv_mag(sum as int, m as int);
            assert((sum as int) / (m as int) <= crate::ship::SCORE_LIMIT as int)
                by (nonlinear_arith)
                requires
                    sum as int <= (m as int) * (crate::ship::SCORE_LIMIT as int),
                    0 <= sum as int,
                    1 <= m as int,
            ;
        }
    }
    *ships = merged;
    do_ship_mutation(ships, 0, lr, e);
    avg
}

} // verus!
